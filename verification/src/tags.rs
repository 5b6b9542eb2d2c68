//! Resolution of an app's previously released version from the repository's
//! tag set.

use vstd::prelude::*;

verus! {

use vstd::string::StrSliceExecFns;
use crate::strutil::str_eq;
use crate::version::{
    Version,
    VersionModel,
    parse_version,
    spec_parse,
    ver_lt,
    lemma_ver_lt_trans,
    lemma_ver_lt_irrefl,
    wf_model,
    zero_model,
    zero_version,
};

/// Index of the last slash in `s`, if any.
pub open spec fn last_slash(s: Seq<char>) -> Option<int>
    decreases s.len(),
{
    if s.len() == 0 {
        None
    } else if s.last() == '/' {
        Some(s.len() - 1)
    } else {
        last_slash(s.drop_last())
    }
}

proof fn lemma_last_slash_bound(s: Seq<char>)
    ensures
        last_slash(s) matches Some(i) ==> 0 <= i < s.len(),
    decreases s.len(),
{
    if s.len() > 0 && s.last() != '/' {
        lemma_last_slash_bound(s.drop_last());
    }
}

/// The version a tag contributes for `app`: `None` when the tag has no slash
/// or its namespace (everything before the last slash) is not `app`; a
/// namespaced tag whose version text does not parse contributes `0.0.0`.
pub open spec fn tag_candidate(t: Seq<char>, app: Seq<char>) -> Option<VersionModel> {
    match last_slash(t) {
        None => None,
        Some(i) => if t.take(i) == app {
            Some(
                match spec_parse(t.skip(i + 1)) {
                    Some(v) => v,
                    None => zero_model(),
                },
            )
        } else {
            None
        },
    }
}

/// `r` is the maximum candidate: it is a candidate (or the `0.0.0` starting
/// accumulator) and no candidate outranks it.
pub open spec fn is_max_candidate(r: VersionModel, tags: Seq<Seq<char>>, app: Seq<char>) -> bool {
    &&& (r == zero_model() || exists|i: int|
        0 <= i < tags.len() && tag_candidate(#[trigger] tags[i], app) == Some(r))
    &&& forall|i: int|
        0 <= i < tags.len() ==> (match #[trigger] tag_candidate(tags[i], app) {
            Some(c) => !ver_lt(r, c),
            None => true,
        })
}

fn find_last_slash(t: &str) -> (r: Option<usize>)
    ensures
        match r {
            Some(i) => last_slash(t@) == Some(i as int),
            None => last_slash(t@) is None,
        },
{
    let len = t.unicode_len();
    proof {
        assert(t@.take(len as int) =~= t@);
    }
    let mut i = len;
    while i > 0
        invariant
            i <= len,
            len == t@.len(),
            last_slash(t@) == last_slash(t@.take(i as int)),
        decreases i,
    {
        proof {
            assert(t@.take(i as int).last() == t@[i as int - 1]);
            assert(t@.take(i as int).drop_last() =~= t@.take(i as int - 1));
        }
        if t.get_char(i - 1) == '/' {
            return Some(i - 1);
        }
        i -= 1;
    }
    proof {
        assert(t@.take(0).len() == 0);
    }
    None
}

/// Resolves the highest previously released version for `app` among the
/// repository's tags.
///
/// Tags outside the `<app>/...` namespace never affect the result; a
/// namespaced tag whose version text does not parse degrades silently to
/// `0.0.0`. When no tag contributes, the result is `0.0.0`.
pub fn resolve_previous_version(tags: &Vec<String>, app: &str) -> (r: Version)
    ensures
        wf_model(r@),
        is_max_candidate(r@, tags@.map_values(|t: String| t@), app@),
{
    let ghost tv = tags@.map_values(|t: String| t@);
    let mut best = zero_version();
    let mut i: usize = 0;
    while i < tags.len()
        invariant
            i <= tags.len(),
            tv == tags@.map_values(|t: String| t@),
            wf_model(best@),
            best@ == zero_model() || exists|k: int|
                0 <= k < i && tag_candidate(#[trigger] tv[k], app@) == Some(best@),
            forall|k: int|
                0 <= k < i ==> (match #[trigger] tag_candidate(tv[k], app@) {
                    Some(c) => !ver_lt(best@, c),
                    None => true,
                }),
        decreases tags.len() - i,
    {
        let t = &tags[i];
        proof {
            assert(tv[i as int] == tags@[i as int]@);
            lemma_last_slash_bound(t@);
        }
        match find_last_slash(t.as_str()) {
            None => {},
            Some(sl) => {
                let tlen = t.as_str().unicode_len();
                let ns = t.as_str().substring_char(0, sl);
                proof {
                    assert(ns@ =~= t@.take(sl as int));
                }
                if str_eq(ns, app) {
                    let vtext = t.as_str().substring_char(sl + 1, tlen);
                    proof {
                        assert(vtext@ =~= t@.skip(sl as int + 1));
                    }
                    let cand = match parse_version(vtext) {
                        Some(v) => v,
                        None => zero_version(),
                    };
                    proof {
                        assert(tag_candidate(tv[i as int], app@) == Some(cand@));
                    }
                    if crate::version::version_lt(&best, &cand) {
                        proof {
                            let old_best = best@;
                            assert forall|k: int| 0 <= k < i + 1 implies (match #[trigger]
                            tag_candidate(tv[k], app@) {
                                Some(c) => !ver_lt(cand@, c),
                                None => true,
                            }) by {
                                if k < i {
                                    match tag_candidate(tv[k], app@) {
                                        Some(c) => {
                                            if ver_lt(cand@, c) {
                                                lemma_ver_lt_trans(old_best, cand@, c);
                                            }
                                        },
                                        None => {},
                                    }
                                } else {
                                    lemma_ver_lt_irrefl(cand@);
                                }
                            }
                        }
                        best = cand;
                    } else {
                        proof {
                            assert(!ver_lt(best@, cand@));
                        }
                    }
                }
            },
        }
        i += 1;
    }
    proof {
        assert(tv.len() == tags@.len());
    }
    best
}

} // verus!
