//! Classification of a commit message's first line by its leading category
//! marker.

use vstd::prelude::*;

verus! {

use vstd::string::StrSliceExecFns;
use crate::strutil::{starts_with, str_starts_with};

/// Changelog category of a commit message.
#[derive(Clone, Copy, PartialEq, Eq, Structural, Debug)]
pub enum Category {
    Feature,
    Bug,
    Chore,
    Other,
}

/// Category of a first line: fixed literal prefixes, checked in a fixed
/// precedence order. A line shorter than every marker matches none of them
/// and falls through to `Other`.
pub open spec fn spec_category(line: Seq<char>) -> Category {
    if starts_with(line, "[feature]"@) {
        Category::Feature
    } else if starts_with(line, "[bug]"@) || starts_with(line, "[fix]"@) {
        Category::Bug
    } else if starts_with(line, "[chore]"@) {
        Category::Chore
    } else {
        Category::Other
    }
}

/// Residual text: what immediately follows the matched marker, verbatim
/// (leading punctuation and spaces included); the whole line when no marker
/// matches.
pub open spec fn spec_residual(line: Seq<char>) -> Seq<char> {
    if starts_with(line, "[feature]"@) {
        line.skip(9)
    } else if starts_with(line, "[bug]"@) || starts_with(line, "[fix]"@) {
        line.skip(5)
    } else if starts_with(line, "[chore]"@) {
        line.skip(7)
    } else {
        line
    }
}

/// Classifies a message's first line into its category and residual text.
pub fn classify_line(line: &str) -> (r: (Category, String))
    ensures
        r.0 == spec_category(line@),
        r.1@ == spec_residual(line@),
{
    let len = line.unicode_len();
    if str_starts_with(line, "[feature]") {
        proof {
            reveal_strlit("[feature]");
        }
        let rest = line.substring_char(9, len).to_owned();
        proof {
            assert(line@.subrange(9, len as int) =~= line@.skip(9));
        }
        (Category::Feature, rest)
    } else if str_starts_with(line, "[bug]") || str_starts_with(line, "[fix]") {
        proof {
            reveal_strlit("[bug]");
            reveal_strlit("[fix]");
        }
        let rest = line.substring_char(5, len).to_owned();
        proof {
            assert(line@.subrange(5, len as int) =~= line@.skip(5));
        }
        (Category::Bug, rest)
    } else if str_starts_with(line, "[chore]") {
        proof {
            reveal_strlit("[chore]");
        }
        let rest = line.substring_char(7, len).to_owned();
        proof {
            assert(line@.subrange(7, len as int) =~= line@.skip(7));
        }
        (Category::Chore, rest)
    } else {
        (Category::Other, line.to_owned())
    }
}

} // verus!
