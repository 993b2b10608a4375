//! Parsing WebIDL definitions.

use vstd::prelude::*;
use weedle::Parse;

verus! {

/// What the WebIDL parser makes of a source text: the debug rendering of the
/// definitions at its start, and the text after them; `None` when it fails.
pub uninterp spec fn webidl_parse(source: Seq<char>) -> Option<(Seq<char>, Seq<char>)>;

/// `weedle::Definitions::parse` on `source`, rendered with `{:#?}`, together
/// with the text that follows the definitions.
///
/// The result is what the parser gives for `source`, and nothing else is
/// claimed of it.
#[verifier::external_body]
fn parse_definitions(source: &str) -> (parsed: Option<(String, String)>)
    ensures
        match parsed {
            Some((definitions, remaining)) => webidl_parse(source@) == Some((definitions@, remaining@)),
            None => webidl_parse(source@) is None,
        },
{
    match weedle::Definitions::parse(source) {
        Ok((remaining, definitions)) => Some((format!("{definitions:#?}"), remaining.to_string())),
        Err(_) => None,
    }
}

/// Parse the WebIDL definitions at the start of `source`, returning their
/// debug rendering and the text that follows them, or `None` when the parser
/// fails.
pub fn parse_webidl(source: &str) -> (parsed: Option<(String, String)>)
    ensures
        match parsed {
            Some((definitions, remaining)) => webidl_parse(source@) == Some((definitions@, remaining@)),
            None => webidl_parse(source@) is None,
        },
{
    parse_definitions(source)
}

} // verus!
