//! The URI under which an endpoint is reached: a scheme, an authority and a
//! path, put together and checked by the `http` crate.

use vstd::prelude::*;
use vstd::string::StringExecFns;

verus! {

/// What a URI holds, as text.
pub struct UriView {
    pub scheme: Seq<char>,
    pub authority: Seq<char>,
    pub path: Seq<char>,
}

impl UriView {
    /// The URI written out: the scheme, `://`, the authority, the path.
    pub open spec fn text(self) -> Seq<char> {
        self.scheme + seq![':', '/', '/'] + self.authority + self.path
    }
}

/// An absolute URI without a query.
#[derive(Clone, Debug, PartialEq, Eq)]
pub struct Uri {
    scheme: String,
    authority: String,
    path: String,
}

impl View for Uri {
    type V = UriView;

    closed spec fn view(&self) -> UriView {
        UriView { scheme: self.scheme@, authority: self.authority@, path: self.path@ }
    }
}

/// The scheme `http`.
pub open spec fn http_scheme() -> Seq<char> {
    seq!['h', 't', 't', 'p']
}

/// The path `/`.
pub open spec fn root_path() -> Seq<char> {
    seq!['/']
}

/// A path that is not empty and holds neither a query nor a fragment.
pub open spec fn plain_path(path: Seq<char>) -> bool {
    path.len() > 0 && forall|i: int| 0 <= i < path.len() ==> path[i] != '?' && path[i] != '#'
}

/// Whether the `http` crate builds a URI from the three parts: its own
/// grammar of schemes, authorities and paths decides.
pub uninterp spec fn http_accepts_uri(
    scheme: Seq<char>,
    authority: Seq<char>,
    path: Seq<char>,
) -> bool;

/// Builds a URI with `http::Uri::builder`, handing it the scheme, the
/// authority and the path, and reads the three parts back from the result.
/// Believed of `http`: whether it builds one depends on the three texts
/// alone, and where it does, the URI has a scheme and an authority, and each
/// part reads as it was given. The path is one without `?` and `#`, for which
/// `http` keeps all of it as the path.
#[verifier::external_body]
fn build_with_http(scheme: &str, authority: &str, path: &str) -> (built: Option<
    (Option<String>, Option<String>, String),
>)
    requires
        plain_path(path@),
    ensures
        built.is_some() == http_accepts_uri(scheme@, authority@, path@),
        built matches Some(parts) ==> parts.0 matches Some(s) && s@ == scheme@,
        built matches Some(parts) ==> parts.1 matches Some(a) && a@ == authority@,
        built matches Some(parts) ==> parts.2@ == path@,
{
    let builder = http::Uri::builder().scheme(scheme).authority(authority).path_and_query(path);
    match builder.build() {
        Ok(uri) => Some(
            (
                uri.scheme_str().map(String::from),
                uri.authority().map(ToString::to_string),
                String::from(uri.path()),
            ),
        ),
        Err(_) => None,
    }
}

impl Uri {
    /// The URI of the parts that a builder handed back: one with a scheme and
    /// an authority, or none.
    pub fn from_built(built: Option<(Option<String>, Option<String>, String)>) -> (uri: Option<Uri>)
        ensures
            uri.is_some() == (built matches Some(parts) && parts.0.is_some() && parts.1.is_some()),
            uri matches Some(u) ==> built matches Some(parts) && u@ == (UriView {
                scheme: parts.0.unwrap()@,
                authority: parts.1.unwrap()@,
                path: parts.2@,
            }),
    {
        match built {
            Some((Some(scheme), Some(authority), path)) => Some(Uri { scheme, authority, path }),
            _ => None,
        }
    }

    /// The URI `http://` + `authority` + `/`, where `http` takes the
    /// authority.
    pub fn http(authority: &str) -> (uri: Option<Uri>)
        ensures
            uri.is_some() == http_accepts_uri(http_scheme(), authority@, root_path()),
            uri matches Some(u) ==> u@ == (UriView {
                scheme: http_scheme(),
                authority: authority@,
                path: root_path(),
            }),
    {
        proof {
            reveal_strlit("http");
            reveal_strlit("/");
            assert("http"@ =~= http_scheme());
            assert("/"@ =~= root_path());
        }
        Uri::from_built(build_with_http("http", authority, "/"))
    }

    pub fn scheme(&self) -> (scheme: &str)
        ensures
            scheme@ == self@.scheme,
    {
        self.scheme.as_str()
    }

    pub fn authority(&self) -> (authority: &str)
        ensures
            authority@ == self@.authority,
    {
        self.authority.as_str()
    }

    pub fn path(&self) -> (path: &str)
        ensures
            path@ == self@.path,
    {
        self.path.as_str()
    }

    /// Writes the URI out.
    pub fn to_text(&self) -> (text: String)
        ensures
            text@ == self@.text(),
    {
        let mut out = String::new();
        out.append(self.scheme.as_str());
        out.push(':');
        out.push('/');
        out.push('/');
        out.append(self.authority.as_str());
        out.append(self.path.as_str());
        proof {
            assert(out@ =~= self@.text());
        }
        out
    }
}

} // verus!
