//! Pretty-printing of JSON text.

use vstd::prelude::*;

verus! {

/// What a text looks like once it is parsed as JSON and written out again
/// with indentation: `None` where the text is no JSON document, `Some(None)`
/// where the document cannot be written out.
pub uninterp spec fn json_pretty(text: Seq<char>) -> Option<Option<Seq<char>>>;

/// Parses a JSON text and writes it out again with indentation.
///
/// Trusted: wraps `serde_json::from_str` into a `serde_json::Value` and
/// `serde_json::to_string_pretty` on that value.  The outer `None` stands for
/// an error of the first, the inner `None` for an error of the second; both
/// depend on the text alone.
#[verifier::external_body]
pub(crate) fn pretty_json(text: &str) -> (pretty: Option<Option<String>>)
    ensures
        match pretty {
            Some(Some(p)) => json_pretty(text@) == Some(Some(p@)),
            Some(None) => json_pretty(text@) == Some(None::<Seq<char>>),
            None => json_pretty(text@).is_none(),
        },
{
    let value: serde_json::Value = serde_json::from_str(text).ok()?;
    Some(serde_json::to_string_pretty(&value).ok())
}

} // verus!
