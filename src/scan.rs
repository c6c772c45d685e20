use vstd::prelude::*;
use crate::resolver::views;

verus! {

/// Whether the pattern engine accepts `pattern`.
pub uninterp spec fn pattern_compiles(pattern: Seq<char>) -> bool;

/// The successive non-overlapping matches of `pattern` in `text`, leftmost first.
pub uninterp spec fn pattern_matches(pattern: Seq<char>, text: Seq<char>) -> Seq<Seq<char>>;

/// An include directive: `#include <name.h>` or `#include "name.h"`, where the
/// name is a bare word (no directory).
pub const INCLUDE_PATTERN: &'static str = "#include (<\\w+\\.h>|\"\\w+\\.h\")";

/// Relies on regex::Regex::new: whether a pattern compiles depends on the
/// pattern alone.
#[verifier::external_body]
fn pattern_is_valid(pattern: &str) -> (r: bool)
    ensures
        r == pattern_compiles(pattern@),
{
    regex::Regex::new(pattern).is_ok()
}

/// Relies on regex::Regex::new and regex::Regex::find_iter: the text of each
/// successive non-overlapping match, in order.
#[verifier::external_body]
fn find_matches(pattern: &str, text: &str) -> (r: Vec<String>)
    requires
        pattern_compiles(pattern@),
    ensures
        views(r@) == pattern_matches(pattern@, text@),
{
    regex::Regex::new(pattern).unwrap().find_iter(text).map(|m| m.as_str().to_string()).collect()
}

/// The header name inside a matched directive: what lies between the
/// opening `<` or `"` (after `#include `) and the closing delimiter.
pub open spec fn directive_name(m: Seq<char>) -> Seq<char> {
    if m.len() >= 11 {
        m.subrange(10, m.len() - 1)
    } else {
        Seq::empty()
    }
}

/// The header names that the include directives of `text` name, in order.
pub open spec fn include_names(text: Seq<char>) -> Seq<Seq<char>> {
    pattern_matches(INCLUDE_PATTERN@, text).map_values(|m: Seq<char>| directive_name(m))
}

/// Whether include directives can be recognised at all.
pub fn include_pattern_ok() -> (r: bool)
    ensures
        r == pattern_compiles(INCLUDE_PATTERN@),
{
    pattern_is_valid(INCLUDE_PATTERN)
}

/// The header names inside matched include directives.
pub fn directive_names(matches: &Vec<String>) -> (r: Vec<String>)
    ensures
        views(r@) == views(matches@).map_values(|m: Seq<char>| directive_name(m)),
{
    let mut r: Vec<String> = Vec::new();
    let mut i: usize = 0;
    while i < matches.len()
        invariant
            i <= matches@.len(),
            views(r@) == views(matches@).subrange(0, i as int).map_values(
                |m: Seq<char>| directive_name(m),
            ),
        decreases matches@.len() - i,
    {
        let m = matches[i].as_str();
        let len = m.unicode_len();
        let name = if len >= 11 {
            String::from_str(m.substring_char(10, len - 1))
        } else {
            String::new()
        };
        let ghost before = views(r@);
        r.push(name);
        proof {
            assert(views(r@) =~= before.push(name@));
            assert(views(matches@).subrange(0, i + 1) =~= views(matches@).subrange(0, i as int).push(
                matches@[i as int]@,
            ));
            assert(views(r@) =~= views(matches@).subrange(0, i + 1).map_values(
                |m: Seq<char>| directive_name(m),
            ));
        }
        i = i + 1;
    }
    proof {
        assert(views(matches@).subrange(0, matches@.len() as int) =~= views(matches@));
    }
    r
}

/// The header names that the include directives of `text` name, in order.
pub fn scan_includes(text: &str) -> (r: Vec<String>)
    requires
        pattern_compiles(INCLUDE_PATTERN@),
    ensures
        views(r@) == include_names(text@),
{
    let matches = find_matches(INCLUDE_PATTERN, text);
    directive_names(&matches)
}

} // verus!
