//! Which external links the application opens.
use vstd::prelude::*;
use vstd::string::StringExecFns;
use url::Url;
use crate::text::str_eq;

verus! {

/// The scheme of the absolute URL that `value` spells, as `Url::parse`
/// reads it and `Url::scheme` gives it (lower-cased, without the `:`), or
/// `None` where `Url::parse` refuses `value`.
pub uninterp spec fn url_scheme(value: Seq<char>) -> Option<Seq<char>>;

/// `Url::parse`, and the parsed URL's `scheme`: named [`url_scheme`].
#[verifier::external_body]
fn parsed_scheme(value: &str) -> (r: Option<String>)
    ensures
        match r {
            Some(s) => url_scheme(value@) == Some(s@),
            None => url_scheme(value@) is None,
        },
{
    Url::parse(value).ok().map(|url| url.scheme().to_string())
}

/// A scheme whose links the application opens.
pub open spec fn allowed_scheme(scheme: Seq<char>) -> bool {
    scheme == "http"@ || scheme == "https"@
}

/// Whether links of `scheme` are opened: only HTTP and HTTPS ones.
pub fn is_allowed_scheme(scheme: &str) -> (r: bool)
    ensures
        r == allowed_scheme(scheme@),
{
    str_eq(scheme, "http") || str_eq(scheme, "https")
}

/// Whether `value` is an absolute URL whose scheme is HTTP or HTTPS.
pub fn is_allowed_external_url(value: &str) -> (r: bool)
    ensures
        r == (url_scheme(value@) matches Some(s) && allowed_scheme(s)),
{
    match parsed_scheme(value) {
        Some(scheme) => is_allowed_scheme(scheme.as_str()),
        None => false,
    }
}

/// Refuses a link that is not an HTTP or HTTPS URL, as opening one does.
pub fn check_external_url(value: &str) -> (r: Result<(), String>)
    ensures
        r is Ok <==> (url_scheme(value@) matches Some(s) && allowed_scheme(s)),
        r matches Err(e) ==> e@ == "Only HTTP and HTTPS links can be opened"@,
{
    if is_allowed_external_url(value) {
        Ok(())
    } else {
        Err(String::from_str("Only HTTP and HTTPS links can be opened"))
    }
}

} // verus!
