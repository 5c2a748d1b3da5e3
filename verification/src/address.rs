//! Transport addresses and their textual form.
//!
//! An IPv4 address is written as four decimal numbers with dots, an IPv6
//! address as groups of hexadecimal digits with colons, its first longest
//! run of two or more zero groups shortened to `::`. A socket address adds
//! the port after a colon, with the IPv6 address in square brackets.

use vstd::prelude::*;
use crate::digits::{decimal_text, hex_text, push_decimal, push_hex};

verus! {

/// An IP address with a port: what a server binds and a client connects to.
#[derive(Clone, Copy, Debug, PartialEq, Eq)]
pub enum SocketAddress {
    V4 { octets: [u8; 4], port: u16 },
    V6 { segments: [u16; 8], port: u16, flowinfo: u32, scope_id: u32 },
}

/// Four octets in dotted decimal.
pub open spec fn ipv4_text(octets: Seq<u8>) -> Seq<char>
    recommends
        octets.len() == 4,
{
    decimal_text(octets[0] as nat).push('.') + decimal_text(octets[1] as nat).push('.')
        + decimal_text(octets[2] as nat).push('.') + decimal_text(octets[3] as nat)
}

/// How many groups from `from` on are zero without a break.
pub open spec fn zero_run_len(segments: Seq<u16>, from: int) -> nat
    decreases segments.len() - from,
{
    if 0 <= from < segments.len() && segments[from] == 0 {
        1 + zero_run_len(segments, from + 1)
    } else {
        0
    }
}

/// Among the first `n` groups, the first at which the longest run of zero
/// groups starts.
pub open spec fn longest_zero_run_start(segments: Seq<u16>, n: int) -> int
    decreases n,
{
    if n <= 1 {
        0
    } else {
        let earlier = longest_zero_run_start(segments, n - 1);
        if zero_run_len(segments, n - 1) > zero_run_len(segments, earlier) {
            n - 1
        } else {
            earlier
        }
    }
}

/// Groups in hexadecimal with a colon between neighbours.
pub open spec fn groups_text(groups: Seq<u16>) -> Seq<char>
    decreases groups.len(),
{
    if groups.len() == 0 {
        Seq::empty()
    } else if groups.len() == 1 {
        hex_text(groups[0] as nat)
    } else {
        groups_text(groups.drop_last()).push(':') + hex_text(groups.last() as nat)
    }
}

/// Whether the eight groups hold an IPv4 address mapped into IPv6.
pub open spec fn is_ipv4_mapped(segments: Seq<u16>) -> bool {
    segments[0] == 0 && segments[1] == 0 && segments[2] == 0 && segments[3] == 0 && segments[4]
        == 0 && segments[5] == 0xffff
}

/// The four octets that the last two groups hold.
pub open spec fn mapped_octets(segments: Seq<u16>) -> Seq<u8> {
    seq![
        (segments[6] / 256) as u8,
        (segments[6] % 256) as u8,
        (segments[7] / 256) as u8,
        (segments[7] % 256) as u8,
    ]
}

/// Eight groups as an IPv6 address.
pub open spec fn ipv6_text(segments: Seq<u16>) -> Seq<char>
    recommends
        segments.len() == 8,
{
    if is_ipv4_mapped(segments) {
        seq![':', ':', 'f', 'f', 'f', 'f', ':'] + ipv4_text(mapped_octets(segments))
    } else {
        let start = longest_zero_run_start(segments, 8);
        let len = zero_run_len(segments, start);
        if len > 1 {
            groups_text(segments.subrange(0, start)).push(':').push(':') + groups_text(
                segments.subrange(start + len, 8),
            )
        } else {
            groups_text(segments)
        }
    }
}

/// The zone of an IPv6 address: nothing for zone 0, else `%` and the number.
pub open spec fn scope_text(scope_id: u32) -> Seq<char> {
    if scope_id == 0 {
        Seq::empty()
    } else {
        seq!['%'] + decimal_text(scope_id as nat)
    }
}

impl SocketAddress {
    /// The port.
    pub open spec fn spec_port(&self) -> u16 {
        match *self {
            SocketAddress::V4 { port, .. } => port,
            SocketAddress::V6 { port, .. } => port,
        }
    }

    /// The address as text: the authority under which it is reached.
    pub open spec fn text(self) -> Seq<char> {
        match self {
            SocketAddress::V4 { octets, port } => ipv4_text(octets@).push(':') + decimal_text(
                port as nat,
            ),
            SocketAddress::V6 { segments, port, scope_id, .. } => seq!['['] + ipv6_text(
                segments@,
            ) + scope_text(scope_id) + seq![']', ':'] + decimal_text(port as nat),
        }
    }

    /// An IPv4 socket address.
    pub fn v4(octets: [u8; 4], port: u16) -> (address: SocketAddress)
        ensures
            address == (SocketAddress::V4 { octets, port }),
    {
        SocketAddress::V4 { octets, port }
    }

    /// An IPv6 socket address, in zone 0 and with no flow label.
    pub fn v6(segments: [u16; 8], port: u16) -> (address: SocketAddress)
        ensures
            address == (SocketAddress::V6 { segments, port, flowinfo: 0, scope_id: 0 }),
    {
        SocketAddress::V6 { segments, port, flowinfo: 0, scope_id: 0 }
    }

    #[verifier::when_used_as_spec(spec_port)]
    pub fn port(&self) -> (port: u16)
        ensures
            port == self.spec_port(),
    {
        match self {
            SocketAddress::V4 { port, .. } => *port,
            SocketAddress::V6 { port, .. } => *port,
        }
    }

    /// Writes the address out.
    pub fn to_text(&self) -> (text: String)
        ensures
            text@ == self.text(),
    {
        let mut out = String::new();
        match self {
            SocketAddress::V4 { octets, port } => {
                push_ipv4(&mut out, octets);
                out.push(':');
                push_decimal(&mut out, *port as u32);
            },
            SocketAddress::V6 { segments, port, scope_id, .. } => {
                out.push('[');
                push_ipv6(&mut out, segments);
                if *scope_id != 0 {
                    out.push('%');
                    push_decimal(&mut out, *scope_id);
                }
                out.push(']');
                out.push(':');
                push_decimal(&mut out, *port as u32);
            },
        }
        out
    }
}

/// Appends four octets in dotted decimal.
pub fn push_ipv4(out: &mut String, octets: &[u8; 4])
    ensures
        final(out)@ == old(out)@ + ipv4_text(octets@),
{
    push_decimal(out, octets[0] as u32);
    out.push('.');
    push_decimal(out, octets[1] as u32);
    out.push('.');
    push_decimal(out, octets[2] as u32);
    out.push('.');
    push_decimal(out, octets[3] as u32);
}

/// Counts the zero groups from `from` on, up to the first that is not zero.
pub fn zero_run(segments: &[u16; 8], from: usize) -> (len: usize)
    requires
        from <= 8,
    ensures
        len == zero_run_len(segments@, from as int),
        from + len <= 8,
    decreases 8 - from,
{
    if from < 8 && segments[from] == 0 {
        1 + zero_run(segments, from + 1)
    } else {
        0
    }
}

/// Finds where the first longest run of zero groups starts, and its length.
pub fn longest_zero_run(segments: &[u16; 8]) -> (run: (usize, usize))
    ensures
        run.0 == longest_zero_run_start(segments@, 8),
        run.1 == zero_run_len(segments@, run.0 as int),
        run.0 + run.1 <= 8,
        run.0 < 8,
{
    let mut best: usize = 0;
    let mut best_len: usize = zero_run(segments, 0);
    let mut k: usize = 1;
    while k < 8
        invariant
            1 <= k <= 8,
            best < k,
            best == longest_zero_run_start(segments@, k as int),
            best_len == zero_run_len(segments@, best as int),
            best + best_len <= 8,
        decreases 8 - k,
    {
        let len = zero_run(segments, k);
        if len > best_len {
            best = k;
            best_len = len;
        }
        k += 1;
    }
    (best, best_len)
}

/// Appends the groups from `lo` up to `hi`, colons between them.
pub fn push_groups(out: &mut String, segments: &[u16; 8], lo: usize, hi: usize)
    requires
        lo <= hi <= 8,
    ensures
        final(out)@ == old(out)@ + groups_text(segments@.subrange(lo as int, hi as int)),
{
    let mut i: usize = lo;
    while i < hi
        invariant
            lo <= i <= hi <= 8,
            out@ == old(out)@ + groups_text(segments@.subrange(lo as int, i as int)),
        decreases hi - i,
    {
        if i > lo {
            out.push(':');
        }
        push_hex(out, segments[i]);
        proof {
            let next = segments@.subrange(lo as int, i + 1);
            assert(next.drop_last() =~= segments@.subrange(lo as int, i as int));
            assert(next.last() == segments@[i as int]);
            if i > lo {
                assert(out@ =~= old(out)@ + groups_text(next));
            } else {
                assert(groups_text(segments@.subrange(lo as int, i as int)) =~= Seq::empty());
                assert(out@ =~= old(out)@ + groups_text(next));
            }
        }
        i += 1;
    }
}

/// Appends eight groups as an IPv6 address.
pub fn push_ipv6(out: &mut String, segments: &[u16; 8])
    ensures
        final(out)@ == old(out)@ + ipv6_text(segments@),
{
    if segments[0] == 0 && segments[1] == 0 && segments[2] == 0 && segments[3] == 0 && segments[4]
        == 0 && segments[5] == 0xffff {
        let octets: [u8; 4] = [
            (segments[6] / 256) as u8,
            (segments[6] % 256) as u8,
            (segments[7] / 256) as u8,
            (segments[7] % 256) as u8,
        ];
        out.push(':');
        out.push(':');
        out.push('f');
        out.push('f');
        out.push('f');
        out.push('f');
        out.push(':');
        push_ipv4(out, &octets);
        proof {
            assert(octets@ =~= mapped_octets(segments@));
            assert(out@ =~= old(out)@ + ipv6_text(segments@));
        }
    } else {
        let (start, len) = longest_zero_run(segments);
        if len > 1 {
            push_groups(out, segments, 0, start);
            out.push(':');
            out.push(':');
            push_groups(out, segments, start + len, 8);
            proof {
                assert(out@ =~= old(out)@ + ipv6_text(segments@));
            }
        } else {
            push_groups(out, segments, 0, 8);
            proof {
                assert(segments@.subrange(0, 8) =~= segments@);
            }
        }
    }
}

/// The run that `longest_zero_run_start` picks is as long as any other, and
/// longer than every run that starts before it.
pub proof fn lemma_longest_zero_run(segments: Seq<u16>, n: int, j: int)
    requires
        0 <= j < n,
    ensures
        0 <= longest_zero_run_start(segments, n) < n,
        zero_run_len(segments, j) <= zero_run_len(segments, longest_zero_run_start(segments, n)),
        j < longest_zero_run_start(segments, n) ==> zero_run_len(segments, j) < zero_run_len(
            segments,
            longest_zero_run_start(segments, n),
        ),
    decreases n,
{
    if n > 1 {
        if j < n - 1 {
            lemma_longest_zero_run(segments, n - 1, j);
        } else {
            lemma_longest_zero_run(segments, n - 1, 0);
        }
    }
}

} // verus!
