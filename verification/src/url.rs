//! Destination URLs.
//!
//! A destination is an absolute URL, validated by rocket's URI parser and
//! stored in its canonical textual form. `abs_url_of` names the outcome of
//! that parse: `None` when the text is not an absolute URL, and otherwise the
//! canonical text the parsed value prints as.

use vstd::prelude::*;

verus! {

/// What rocket's absolute-URI parse returns for a given text: `None` when the
/// text does not parse, otherwise the canonical text of the parsed value.
pub uninterp spec fn abs_url_of(s: Seq<char>) -> Option<Seq<char>>;

/// A canonical URL text: parsing it yields a value that prints as the very
/// same text.
pub open spec fn is_canon_url(s: Seq<char>) -> bool {
    abs_url_of(s) == Some(s)
}

/// Relies on `rocket::http::uri::Absolute::parse_owned` and the `Display`
/// impl of `Absolute`: the result is the canonical text of the parsed URI,
/// or the parse error's message. `Display` reassembles the parsed components
/// verbatim (only the port is re-printed, in canonical decimal), so the
/// canonical text parses again to a value that prints as itself; and rocket's
/// URI grammar admits printable ASCII only, so the canonical text holds no
/// NUL and no newline.
#[verifier::external_body]
fn parse_absolute(raw: String) -> (r: Result<String, String>)
    ensures
        r is Ok <==> abs_url_of(raw@) is Some,
        r matches Ok(u) ==> abs_url_of(raw@) == Some(u@),
        r matches Ok(u) ==> is_canon_url(u@),
        r matches Ok(u) ==> !u@.contains('\0') && !u@.contains('\n'),
{
    match rocket::http::uri::Absolute::parse_owned(raw) {
        Ok(parsed) => Ok(parsed.to_string()),
        Err(err) => Err(err.to_string()),
    }
}

/// An absolute destination URL in canonical textual form.
#[derive(Debug)]
pub struct Url {
    text: String,
}

impl View for Url {
    type V = Seq<char>;

    closed spec fn view(&self) -> Seq<char> {
        self.text@
    }
}

impl Clone for Url {
    fn clone(&self) -> (r: Self)
        ensures
            r@ == self@,
    {
        Url { text: self.text.clone() }
    }
}

impl Url {
    /// Validate a candidate URL text. Succeeds exactly when the text is an
    /// absolute URL, and then holds its canonical form; fails with the
    /// parser's reason otherwise.
    pub fn parse(raw: String) -> (r: Result<Url, String>)
        ensures
            r is Ok <==> abs_url_of(raw@) is Some,
            r matches Ok(u) ==> abs_url_of(raw@) == Some(u@),
            r matches Ok(u) ==> is_canon_url(u@),
            r matches Ok(u) ==> !u@.contains('\0') && !u@.contains('\n'),
    {
        match parse_absolute(raw) {
            Ok(text) => Ok(Url { text }),
            Err(reason) => Err(reason),
        }
    }

    /// The canonical text.
    pub fn as_str(&self) -> (r: &str)
        ensures
            r@ == self@,
    {
        self.text.as_str()
    }
}

} // verus!
