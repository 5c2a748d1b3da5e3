//! Texts tell addresses apart: two socket addresses that are written alike
//! are the same, but for the flow label of an IPv6 address, which is not
//! written.

use vstd::prelude::*;
use crate::address::{
    groups_text, ipv4_text, ipv6_text, is_ipv4_mapped, longest_zero_run_start, mapped_octets,
    lemma_longest_zero_run, scope_text, zero_run_len, SocketAddress,
};
use crate::digits::{
    decimal_text, hex_text, is_decimal_digit, is_hex_digit, lemma_decimal_text_injective,
    lemma_decimal_text_is_digits, lemma_digits_nonempty, lemma_hex_text_injective,
    lemma_hex_text_is_digits,
};

verus! {

/// Whether `c` occurs nowhere in `text`.
pub open spec fn free_of(text: Seq<char>, c: char) -> bool {
    forall|i: int| 0 <= i < text.len() ==> text[i] != c
}

/// Whether `text` is made of hexadecimal digits and colons.
pub open spec fn hex_or_colon(text: Seq<char>) -> bool {
    forall|i: int| 0 <= i < text.len() ==> is_hex_digit(#[trigger] text[i]) || text[i] == ':'
}

/// Whether two colons stand side by side somewhere in `text`.
pub open spec fn has_double_colon(text: Seq<char>) -> bool {
    exists|i: int| 0 <= i && i + 1 < text.len() && #[trigger] text[i] == ':' && text[i + 1] == ':'
}

/// Whether two addresses agree in all that their text shows.
pub open spec fn same_endpoint(first: SocketAddress, second: SocketAddress) -> bool {
    match (first, second) {
        (SocketAddress::V4 { .. }, SocketAddress::V4 { .. }) => first == second,
        (
            SocketAddress::V6 { segments, port, scope_id, .. },
            SocketAddress::V6 { segments: segments2, port: port2, scope_id: scope_id2, .. },
        ) => segments == segments2 && port == port2 && scope_id == scope_id2,
        _ => false,
    }
}

/// A text is cut in one way only at the first occurrence of a separator:
/// where two heads without the separator, each followed by it and by a rest,
/// make the same text, the heads are the same and so are the rests.
pub proof fn lemma_split_at_first(
    head: Seq<char>,
    rest: Seq<char>,
    other_head: Seq<char>,
    other_rest: Seq<char>,
    separator: char,
)
    requires
        free_of(head, separator),
        free_of(other_head, separator),
        head.push(separator) + rest == other_head.push(separator) + other_rest,
    ensures
        head == other_head,
        rest == other_rest,
{
    let text = head.push(separator) + rest;
    let other_text = other_head.push(separator) + other_rest;
    let n = head.len() as int;
    let m = other_head.len() as int;
    assert(text[n] == separator);
    assert(other_text[m] == separator);
    if n < m {
        assert(other_text[n] == other_head[n]);
    }
    if m < n {
        assert(text[m] == head[m]);
    }
    assert(n == m);
    assert(text.len() == other_text.len());
    assert forall|i: int| 0 <= i < n implies head[i] == other_head[i] by {
        assert(text[i] == head[i]);
        assert(other_text[i] == other_head[i]);
    }
    assert(head =~= other_head);
    assert forall|j: int| 0 <= j < rest.len() implies rest[j] == other_rest[j] by {
        assert(text[n + 1 + j] == rest[j]);
        assert(other_text[n + 1 + j] == other_rest[j]);
    }
    assert(rest =~= other_rest);
}

/// A text is cut in one way only at the last occurrence of a separator.
pub proof fn lemma_split_at_last(
    head: Seq<char>,
    tail: Seq<char>,
    other_head: Seq<char>,
    other_tail: Seq<char>,
    separator: char,
)
    requires
        free_of(tail, separator),
        free_of(other_tail, separator),
        head.push(separator) + tail == other_head.push(separator) + other_tail,
    ensures
        head == other_head,
        tail == other_tail,
{
    let text = head.push(separator) + tail;
    let other_text = other_head.push(separator) + other_tail;
    let n = head.len() as int;
    let m = other_head.len() as int;
    assert(text.len() == other_text.len());
    assert(text[n] == separator);
    assert(other_text[m] == separator);
    if n < m {
        assert(text[m] == tail[m - n - 1]);
    }
    if m < n {
        assert(other_text[n] == other_tail[n - m - 1]);
    }
    assert(n == m);
    assert forall|i: int| 0 <= i < n implies head[i] == other_head[i] by {
        assert(text[i] == head[i]);
        assert(other_text[i] == other_head[i]);
    }
    assert(head =~= other_head);
    assert forall|j: int| 0 <= j < tail.len() implies tail[j] == other_tail[j] by {
        assert(text[n + 1 + j] == tail[j]);
        assert(other_text[n + 1 + j] == other_tail[j]);
    }
    assert(tail =~= other_tail);
}

/// An IPv4 address in text holds decimal digits and dots, and starts with a
/// digit.
pub proof fn lemma_ipv4_text_chars(octets: Seq<u8>)
    requires
        octets.len() == 4,
    ensures
        forall|i: int|
            0 <= i < ipv4_text(octets).len() ==> is_decimal_digit(#[trigger] ipv4_text(octets)[i])
                || ipv4_text(octets)[i] == '.',
        ipv4_text(octets).len() > 0,
        is_decimal_digit(ipv4_text(octets)[0]),
        !free_of(ipv4_text(octets), '.'),
{
    let a = decimal_text(octets[0] as nat);
    let b = decimal_text(octets[1] as nat);
    let c = decimal_text(octets[2] as nat);
    let d = decimal_text(octets[3] as nat);
    lemma_decimal_text_is_digits(octets[0] as nat);
    lemma_decimal_text_is_digits(octets[1] as nat);
    lemma_decimal_text_is_digits(octets[2] as nat);
    lemma_decimal_text_is_digits(octets[3] as nat);
    lemma_digits_nonempty(octets[0] as nat);
    let text = ipv4_text(octets);
    assert(text =~= a.push('.') + b.push('.') + c.push('.') + d);
    assert forall|i: int| 0 <= i < text.len() implies is_decimal_digit(#[trigger] text[i])
        || text[i] == '.' by {
        let la = a.len() as int;
        let lb = b.len() as int;
        let lc = c.len() as int;
        if i < la {
            assert(text[i] == a[i]);
        } else if i == la {
        } else if i < la + 1 + lb {
            assert(text[i] == b[i - la - 1]);
        } else if i == la + 1 + lb {
        } else if i < la + 1 + lb + 1 + lc {
            assert(text[i] == c[i - la - lb - 2]);
        } else if i == la + 1 + lb + 1 + lc {
        } else {
            assert(text[i] == d[i - la - lb - lc - 3]);
        }
    }
    assert(text[0] == a[0]);
    assert(text[a.len() as int] == '.');
}

/// Two IPv4 addresses that are written alike are the same.
pub proof fn lemma_ipv4_text_injective(octets: Seq<u8>, other: Seq<u8>)
    requires
        octets.len() == 4,
        other.len() == 4,
        ipv4_text(octets) == ipv4_text(other),
    ensures
        octets == other,
{
    let a = decimal_text(octets[0] as nat);
    let b = decimal_text(octets[1] as nat);
    let c = decimal_text(octets[2] as nat);
    let d = decimal_text(octets[3] as nat);
    let a2 = decimal_text(other[0] as nat);
    let b2 = decimal_text(other[1] as nat);
    let c2 = decimal_text(other[2] as nat);
    let d2 = decimal_text(other[3] as nat);
    lemma_decimal_text_is_digits(octets[0] as nat);
    lemma_decimal_text_is_digits(octets[1] as nat);
    lemma_decimal_text_is_digits(octets[2] as nat);
    lemma_decimal_text_is_digits(other[0] as nat);
    lemma_decimal_text_is_digits(other[1] as nat);
    lemma_decimal_text_is_digits(other[2] as nat);
    let r2 = c.push('.') + d;
    let r1 = b.push('.') + r2;
    let s2 = c2.push('.') + d2;
    let s1 = b2.push('.') + s2;
    assert(ipv4_text(octets) =~= a.push('.') + r1);
    assert(ipv4_text(other) =~= a2.push('.') + s1);
    lemma_split_at_first(a, r1, a2, s1, '.');
    lemma_split_at_first(b, r2, b2, s2, '.');
    lemma_split_at_first(c, d, c2, d2, '.');
    lemma_decimal_text_injective(octets[0] as nat, other[0] as nat);
    lemma_decimal_text_injective(octets[1] as nat, other[1] as nat);
    lemma_decimal_text_injective(octets[2] as nat, other[2] as nat);
    lemma_decimal_text_injective(octets[3] as nat, other[3] as nat);
    assert(octets =~= other);
}

/// Groups in text hold hexadecimal digits and colons, no two colons side by
/// side and none at either end; there is a colon where there are two groups
/// or more, and only there.
pub proof fn lemma_groups_text_shape(groups: Seq<u16>)
    ensures
        hex_or_colon(groups_text(groups)),
        !has_double_colon(groups_text(groups)),
        groups.len() == 0 ==> groups_text(groups).len() == 0,
        groups.len() > 0 ==> groups_text(groups).len() > 0 && groups_text(groups)[0] != ':'
            && groups_text(groups).last() != ':',
        groups.len() == 1 ==> free_of(groups_text(groups), ':'),
        groups.len() >= 2 ==> !free_of(groups_text(groups), ':'),
    decreases groups.len(),
{
    let text = groups_text(groups);
    if groups.len() == 1 {
        lemma_hex_text_is_digits(groups[0] as nat);
        lemma_digits_nonempty(groups[0] as nat);
        assert(is_hex_digit(text[0]));
        assert(is_hex_digit(text[text.len() - 1]));
    } else if groups.len() >= 2 {
        let head = groups_text(groups.drop_last());
        let tail = hex_text(groups.last() as nat);
        lemma_groups_text_shape(groups.drop_last());
        lemma_hex_text_is_digits(groups.last() as nat);
        lemma_digits_nonempty(groups.last() as nat);
        let n = head.len() as int;
        assert(text =~= head.push(':') + tail);
        assert forall|i: int| 0 <= i < text.len() implies is_hex_digit(#[trigger] text[i])
            || text[i] == ':' by {
            if i < n {
                assert(text[i] == head[i]);
            } else if i > n {
                assert(text[i] == tail[i - n - 1]);
            }
        }
        assert forall|i: int| 0 <= i && i + 1 < text.len() implies !(#[trigger] text[i] == ':'
            && text[i + 1] == ':') by {
            if i + 1 < n {
                assert(text[i] == head[i]);
                assert(text[i + 1] == head[i + 1]);
                if head[i] == ':' && head[i + 1] == ':' {
                    assert(has_double_colon(head));
                }
            } else if i + 1 == n {
                assert(text[i] == head[n - 1]);
            } else {
                assert(text[i + 1] == tail[i - n]);
                assert(is_hex_digit(tail[i - n]));
            }
        }
        assert(text[0] == head[0]);
        assert(text[text.len() - 1] == tail[tail.len() - 1]);
        assert(is_hex_digit(tail[tail.len() - 1]));
        assert(text[n] == ':');
    }
}

/// Two runs of groups that are written alike are the same.
pub proof fn lemma_groups_text_injective(groups: Seq<u16>, other: Seq<u16>)
    requires
        groups_text(groups) == groups_text(other),
    ensures
        groups == other,
    decreases groups.len(),
{
    lemma_groups_text_shape(groups);
    lemma_groups_text_shape(other);
    if groups.len() == 0 {
        assert(other.len() == 0);
        assert(groups =~= other);
    } else if groups.len() == 1 {
        assert(other.len() == 1);
        lemma_hex_text_injective(groups[0] as nat, other[0] as nat);
        assert(groups =~= other);
    } else {
        assert(other.len() >= 2);
        let tail = hex_text(groups.last() as nat);
        let tail2 = hex_text(other.last() as nat);
        lemma_hex_text_is_digits(groups.last() as nat);
        lemma_hex_text_is_digits(other.last() as nat);
        assert(free_of(tail, ':')) by {
            assert forall|i: int| 0 <= i < tail.len() implies tail[i] != ':' by {
                assert(is_hex_digit(tail[i]));
            }
        }
        assert(free_of(tail2, ':')) by {
            assert forall|i: int| 0 <= i < tail2.len() implies tail2[i] != ':' by {
                assert(is_hex_digit(tail2[i]));
            }
        }
        lemma_split_at_last(
            groups_text(groups.drop_last()),
            tail,
            groups_text(other.drop_last()),
            tail2,
            ':',
        );
        lemma_groups_text_injective(groups.drop_last(), other.drop_last());
        lemma_hex_text_injective(groups.last() as nat, other.last() as nat);
        assert(groups =~= groups.drop_last().push(groups.last()));
        assert(other =~= other.drop_last().push(other.last()));
    }
}

/// A run of zero groups ends within the groups, and holds zeros only.
pub proof fn lemma_zero_run_holds_zeros(segments: Seq<u16>, from: int)
    requires
        0 <= from <= segments.len(),
    ensures
        from + zero_run_len(segments, from) <= segments.len(),
        forall|j: int|
            from <= j < from + zero_run_len(segments, from) ==> #[trigger] segments[j] == 0,
    decreases segments.len() - from,
{
    if from < segments.len() && segments[from] == 0 {
        lemma_zero_run_holds_zeros(segments, from + 1);
    }
}

/// A text is cut in one way only at the first two colons side by side.
pub proof fn lemma_split_at_double_colon(
    head: Seq<char>,
    rest: Seq<char>,
    other_head: Seq<char>,
    other_rest: Seq<char>,
)
    requires
        !has_double_colon(head),
        !has_double_colon(other_head),
        head.len() > 0 ==> head.last() != ':',
        other_head.len() > 0 ==> other_head.last() != ':',
        head.push(':').push(':') + rest == other_head.push(':').push(':') + other_rest,
    ensures
        head == other_head,
        rest == other_rest,
{
    let text = head.push(':').push(':') + rest;
    let other_text = other_head.push(':').push(':') + other_rest;
    let n = head.len() as int;
    let m = other_head.len() as int;
    assert(text.len() == other_text.len());
    assert(text[n] == ':' && text[n + 1] == ':');
    assert(other_text[m] == ':' && other_text[m + 1] == ':');
    if n < m {
        assert(other_text[n] == other_head[n]);
        if n + 1 < m {
            assert(other_text[n + 1] == other_head[n + 1]);
            assert(has_double_colon(other_head));
        }
    }
    if m < n {
        assert(text[m] == head[m]);
        if m + 1 < n {
            assert(text[m + 1] == head[m + 1]);
            assert(has_double_colon(head));
        }
    }
    assert(n == m);
    assert forall|i: int| 0 <= i < n implies head[i] == other_head[i] by {
        assert(text[i] == head[i]);
        assert(other_text[i] == other_head[i]);
    }
    assert(head =~= other_head);
    assert forall|j: int| 0 <= j < rest.len() implies rest[j] == other_rest[j] by {
        assert(text[n + 2 + j] == rest[j]);
        assert(other_text[n + 2 + j] == other_rest[j]);
    }
    assert(rest =~= other_rest);
}

/// The groups before and after the run that an IPv6 address in text leaves
/// out, with `::` between them.
pub open spec fn shortened_text(before: Seq<u16>, after: Seq<u16>) -> Seq<char> {
    groups_text(before).push(':').push(':') + groups_text(after)
}

/// A shortened address holds hexadecimal digits and colons, two of them side
/// by side.
pub proof fn lemma_shortened_text_shape(before: Seq<u16>, after: Seq<u16>)
    ensures
        hex_or_colon(shortened_text(before, after)),
        has_double_colon(shortened_text(before, after)),
{
    let head = groups_text(before);
    let rest = groups_text(after);
    let text = shortened_text(before, after);
    let n = head.len() as int;
    lemma_groups_text_shape(before);
    lemma_groups_text_shape(after);
    assert forall|i: int| 0 <= i < text.len() implies is_hex_digit(#[trigger] text[i])
        || text[i] == ':' by {
        if i < n {
            assert(text[i] == head[i]);
        } else if i > n + 1 {
            assert(text[i] == rest[i - n - 2]);
        }
    }
    assert(text[n] == ':' && text[n + 1] == ':');
}

/// An IPv6 address in text holds neither `%` nor `]`; it holds a dot where
/// it is a mapped IPv4 address, and only there.
pub proof fn lemma_ipv6_text_chars(segments: Seq<u16>)
    requires
        segments.len() == 8,
    ensures
        free_of(ipv6_text(segments), '%'),
        free_of(ipv6_text(segments), ']'),
        is_ipv4_mapped(segments) <==> !free_of(ipv6_text(segments), '.'),
        !is_ipv4_mapped(segments) ==> hex_or_colon(ipv6_text(segments)),
{
    let text = ipv6_text(segments);
    if is_ipv4_mapped(segments) {
        let prefix = seq![':', ':', 'f', 'f', 'f', 'f', ':'];
        let dotted = ipv4_text(mapped_octets(segments));
        lemma_ipv4_text_chars(mapped_octets(segments));
        assert forall|i: int| 0 <= i < text.len() implies text[i] != '%' && text[i] != ']' by {
            if i >= 7 {
                assert(text[i] == dotted[i - 7]);
                assert(is_decimal_digit(dotted[i - 7]) || dotted[i - 7] == '.');
            }
        }
        let k = choose|k: int| 0 <= k < dotted.len() && dotted[k] == '.';
        assert(text[k + 7] == dotted[k]);
    } else {
        let start = longest_zero_run_start(segments, 8);
        let len = zero_run_len(segments, start);
        if len > 1 {
            lemma_shortened_text_shape(
                segments.subrange(0, start),
                segments.subrange(start + len, 8),
            );
        } else {
            lemma_groups_text_shape(segments);
        }
        assert forall|i: int| 0 <= i < text.len() implies text[i] != '%' && text[i] != ']'
            && text[i] != '.' by {
            assert(is_hex_digit(text[i]) || text[i] == ':');
        }
    }
}

/// Two IPv6 addresses that are written alike are the same.
pub proof fn lemma_ipv6_text_injective(segments: Seq<u16>, other: Seq<u16>)
    requires
        segments.len() == 8,
        other.len() == 8,
        ipv6_text(segments) == ipv6_text(other),
    ensures
        segments == other,
{
    lemma_ipv6_text_chars(segments);
    lemma_ipv6_text_chars(other);
    let text = ipv6_text(segments);
    if is_ipv4_mapped(segments) {
        assert(is_ipv4_mapped(other));
        let prefix = seq![':', ':', 'f', 'f', 'f', 'f', ':'];
        let dotted = ipv4_text(mapped_octets(segments));
        let dotted2 = ipv4_text(mapped_octets(other));
        assert(dotted =~= (prefix + dotted).subrange(7, 7 + dotted.len() as int));
        assert(dotted2 =~= (prefix + dotted2).subrange(7, 7 + dotted2.len() as int));
        lemma_ipv4_text_injective(mapped_octets(segments), mapped_octets(other));
        assert(mapped_octets(segments)[0] == mapped_octets(other)[0]);
        assert(mapped_octets(segments)[1] == mapped_octets(other)[1]);
        assert(mapped_octets(segments)[2] == mapped_octets(other)[2]);
        assert(mapped_octets(segments)[3] == mapped_octets(other)[3]);
        assert(segments[6] == other[6]);
        assert(segments[7] == other[7]);
        assert(segments =~= other);
    } else {
        assert(!is_ipv4_mapped(other));
        let start = longest_zero_run_start(segments, 8);
        let len = zero_run_len(segments, start) as int;
        let start2 = longest_zero_run_start(other, 8);
        let len2 = zero_run_len(other, start2) as int;
        lemma_longest_zero_run(segments, 8, 0);
        lemma_longest_zero_run(other, 8, 0);
        lemma_zero_run_holds_zeros(segments, start);
        lemma_zero_run_holds_zeros(other, start2);
        let before = segments.subrange(0, start);
        let after = segments.subrange(start + len, 8);
        let before2 = other.subrange(0, start2);
        let after2 = other.subrange(start2 + len2, 8);
        if len > 1 && len2 > 1 {
            lemma_groups_text_shape(before);
            lemma_groups_text_shape(before2);
            lemma_split_at_double_colon(
                groups_text(before),
                groups_text(after),
                groups_text(before2),
                groups_text(after2),
            );
            lemma_groups_text_injective(before, before2);
            lemma_groups_text_injective(after, after2);
            assert(start == start2);
            assert(len == len2);
            assert forall|i: int| 0 <= i < 8 implies segments[i] == other[i] by {
                if i < start {
                    assert(segments[i] == before[i]);
                    assert(other[i] == before2[i]);
                } else if i >= start + len {
                    assert(segments[i] == after[i - start - len]);
                    assert(other[i] == after2[i - start - len]);
                }
            }
            assert(segments =~= other);
        } else if len > 1 {
            lemma_shortened_text_shape(before, after);
            lemma_groups_text_shape(other);
        } else if len2 > 1 {
            lemma_shortened_text_shape(before2, after2);
            lemma_groups_text_shape(segments);
        } else {
            lemma_groups_text_injective(segments, other);
        }
    }
}

/// Two socket addresses that are written alike agree in all that is
/// written: they are of one family, with the same IP address and port, and
/// the same zone where they are IPv6 addresses.
pub proof fn lemma_text_injective(first: SocketAddress, second: SocketAddress)
    requires
        first.text() == second.text(),
    ensures
        same_endpoint(first, second),
{
    match (first, second) {
        (
            SocketAddress::V4 { octets, port },
            SocketAddress::V4 { octets: octets2, port: port2 },
        ) => {
            let dotted = ipv4_text(octets@);
            let dotted2 = ipv4_text(octets2@);
            lemma_ipv4_text_chars(octets@);
            lemma_ipv4_text_chars(octets2@);
            assert(free_of(dotted, ':')) by {
                assert forall|i: int| 0 <= i < dotted.len() implies dotted[i] != ':' by {
                    assert(is_decimal_digit(dotted[i]) || dotted[i] == '.');
                }
            }
            assert(free_of(dotted2, ':')) by {
                assert forall|i: int| 0 <= i < dotted2.len() implies dotted2[i] != ':' by {
                    assert(is_decimal_digit(dotted2[i]) || dotted2[i] == '.');
                }
            }
            lemma_split_at_first(
                dotted,
                decimal_text(port as nat),
                dotted2,
                decimal_text(port2 as nat),
                ':',
            );
            lemma_ipv4_text_injective(octets@, octets2@);
            lemma_decimal_text_injective(port as nat, port2 as nat);
            assert(octets =~= octets2);
        },
        (
            SocketAddress::V6 { segments, port, scope_id, .. },
            SocketAddress::V6 { segments: segments2, port: port2, scope_id: scope_id2, .. },
        ) => {
            let inner = ipv6_text(segments@) + scope_text(scope_id);
            let inner2 = ipv6_text(segments2@) + scope_text(scope_id2);
            let rest = seq![':'] + decimal_text(port as nat);
            let rest2 = seq![':'] + decimal_text(port2 as nat);
            lemma_inner_text(segments@, scope_id);
            lemma_inner_text(segments2@, scope_id2);
            let text = first.text();
            let text2 = second.text();
            assert(text =~= seq!['['] + (inner.push(']') + rest));
            assert(text2 =~= seq!['['] + (inner2.push(']') + rest2));
            assert(inner.push(']') + rest =~= text.subrange(1, text.len() as int));
            assert(inner2.push(']') + rest2 =~= text2.subrange(1, text2.len() as int));
            lemma_split_at_first(inner, rest, inner2, rest2, ']');
            assert(decimal_text(port as nat) =~= rest.subrange(1, rest.len() as int));
            assert(decimal_text(port2 as nat) =~= rest2.subrange(1, rest2.len() as int));
            lemma_decimal_text_injective(port as nat, port2 as nat);
            lemma_inner_text_injective(segments@, scope_id, segments2@, scope_id2);
            assert(segments =~= segments2);
        },
        (SocketAddress::V4 { octets, .. }, SocketAddress::V6 { .. }) => {
            lemma_ipv4_text_chars(octets@);
            assert(first.text()[0] == ipv4_text(octets@)[0]);
            assert(second.text()[0] == '[');
        },
        (SocketAddress::V6 { .. }, SocketAddress::V4 { octets, .. }) => {
            lemma_ipv4_text_chars(octets@);
            assert(second.text()[0] == ipv4_text(octets@)[0]);
            assert(first.text()[0] == '[');
        },
    }
}

/// An IPv6 address with its zone holds no `]`.
pub proof fn lemma_inner_text(segments: Seq<u16>, scope_id: u32)
    requires
        segments.len() == 8,
    ensures
        free_of(ipv6_text(segments) + scope_text(scope_id), ']'),
{
    let address = ipv6_text(segments);
    let zone = scope_text(scope_id);
    let inner = address + zone;
    lemma_ipv6_text_chars(segments);
    lemma_decimal_text_is_digits(scope_id as nat);
    assert forall|i: int| 0 <= i < inner.len() implies inner[i] != ']' by {
        if i < address.len() {
            assert(inner[i] == address[i]);
        } else {
            assert(inner[i] == zone[i - address.len()]);
            if i > address.len() {
                assert(zone[i - address.len()] == decimal_text(scope_id as nat)[i - address.len()
                    - 1]);
                assert(is_decimal_digit(decimal_text(scope_id as nat)[i - address.len() - 1]));
            }
        }
    }
}

/// Two IPv6 addresses that are written alike with their zones are the same
/// address in the same zone.
pub proof fn lemma_inner_text_injective(
    segments: Seq<u16>,
    scope_id: u32,
    other: Seq<u16>,
    other_scope_id: u32,
)
    requires
        segments.len() == 8,
        other.len() == 8,
        ipv6_text(segments) + scope_text(scope_id) == ipv6_text(other) + scope_text(
            other_scope_id,
        ),
    ensures
        segments == other,
        scope_id == other_scope_id,
{
    let address = ipv6_text(segments);
    let address2 = ipv6_text(other);
    let number = decimal_text(scope_id as nat);
    let number2 = decimal_text(other_scope_id as nat);
    lemma_ipv6_text_chars(segments);
    lemma_ipv6_text_chars(other);
    if scope_id == 0 && other_scope_id == 0 {
        assert(address =~= address + scope_text(scope_id));
        assert(address2 =~= address2 + scope_text(other_scope_id));
    } else if scope_id != 0 && other_scope_id != 0 {
        assert(address + scope_text(scope_id) =~= address.push('%') + number);
        assert(address2 + scope_text(other_scope_id) =~= address2.push('%') + number2);
        lemma_split_at_first(address, number, address2, number2, '%');
        lemma_decimal_text_injective(scope_id as nat, other_scope_id as nat);
    } else if scope_id != 0 {
        assert(address2 =~= address2 + scope_text(other_scope_id));
        assert((address + scope_text(scope_id))[address.len() as int] == '%');
    } else {
        assert(address =~= address + scope_text(scope_id));
        assert((address2 + scope_text(other_scope_id))[address2.len() as int] == '%');
    }
    lemma_ipv6_text_injective(segments, other);
}

} // verus!
