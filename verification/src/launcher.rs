//! Launching the endpoint: what to bind, the URI to hand out, and the line
//! to report when the server stops on an error.

use vstd::prelude::*;
use vstd::string::StringExecFns;
use crate::address::SocketAddress;
use crate::distinct::{lemma_text_injective, same_endpoint};
use crate::uri::{http_accepts_uri, http_scheme, root_path, Uri, UriView};

verus! {

/// A launch that was decided: the address to bind and serve in the
/// background, and the URI that the caller gets at once.
#[derive(Clone, Debug, PartialEq, Eq)]
pub struct Launch {
    pub uri: Uri,
    pub bind: SocketAddress,
}

/// The URI of an endpoint bound to `address`: scheme `http`, the address's
/// text as the authority, path `/`.
pub open spec fn blackhole_uri(address: SocketAddress) -> UriView {
    UriView { scheme: http_scheme(), authority: address.text(), path: root_path() }
}

/// What is written before the error's description.
pub open spec fn report_prefix() -> Seq<char> {
    "blackhole HTTP server error: "@
}

/// Decides the launch of an endpoint on `address`. The URI has the scheme
/// `http`, the address's text as its authority and the path `/`; the address
/// to bind is the one given. There is no launch only where `http` does not
/// take the address's text as an authority.
pub fn spawn_blackhole_http_server(address: SocketAddress) -> (launch: Option<Launch>)
    ensures
        launch.is_some() == http_accepts_uri(http_scheme(), address.text(), root_path()),
        launch matches Some(l) ==> l.bind == address && l.uri@ == blackhole_uri(address),
{
    let authority = address.to_text();
    match Uri::http(authority.as_str()) {
        Some(uri) => Some(Launch { uri, bind: address }),
        None => None,
    }
}

/// The line for the diagnostic stream when the server's loop has ended:
/// none where it ended in order, else the fixed prefix and the error's
/// description.
pub fn termination_report(outcome: Result<(), String>) -> (line: Option<String>)
    ensures
        match outcome {
            Ok(_) => line.is_none(),
            Err(description) => line matches Some(text) && text@ == report_prefix()
                + description@,
        },
{
    match outcome {
        Ok(_) => None,
        Err(description) => {
            let mut text = String::from_str("blackhole HTTP server error: ");
            text.append(description.as_str());
            Some(text)
        },
    }
}

/// The URI of an endpoint, written out, is `http://`, the address's text and
/// `/`.
pub proof fn lemma_blackhole_uri_text(address: SocketAddress)
    ensures
        blackhole_uri(address).text() == seq!['h', 't', 't', 'p', ':', '/', '/'] + address.text()
            + seq!['/'],
{
    assert(blackhole_uri(address).text() =~= seq!['h', 't', 't', 'p', ':', '/', '/']
        + address.text() + seq!['/']);
}

/// Endpoints have the same URI exactly where their addresses agree in all
/// that is written of them: two addresses that differ in more than the flow
/// label give two URIs, as values and written out.
pub proof fn lemma_endpoints_have_their_own_uri(first: SocketAddress, second: SocketAddress)
    ensures
        same_endpoint(first, second) <==> blackhole_uri(first) == blackhole_uri(second),
        same_endpoint(first, second) <==> blackhole_uri(first).text() == blackhole_uri(
            second,
        ).text(),
{
    if first.text() == second.text() {
        lemma_text_injective(first, second);
    }
    lemma_blackhole_uri_text(first);
    lemma_blackhole_uri_text(second);
    let prefix = seq!['h', 't', 't', 'p', ':', '/', '/'];
    let a = prefix + first.text() + seq!['/'];
    let b = prefix + second.text() + seq!['/'];
    if a == b {
        assert(a.len() == b.len());
        assert(first.text() =~= a.subrange(7, a.len() - 1));
        assert(second.text() =~= b.subrange(7, b.len() - 1));
    }
}

} // verus!
