//! The registry of path prefixes relevant to each app's releases, and the
//! relevance tests that restrict a commit's diff to those prefixes.

use vstd::prelude::*;

verus! {

use crate::strutil::{starts_with, str_eq, str_starts_with};

/// Path prefixes relevant to `app`: a fixed table. Unknown apps have none,
/// so no path ever matches for them.
pub open spec fn spec_pathspecs(app: Seq<char>) -> Seq<Seq<char>> {
    if app == "admin"@ {
        seq!["admin/"@]
    } else if app == "api"@ {
        seq!["server/"@]
    } else if app == "ios"@ {
        seq!["client/ios"@, "client/app"@]
    } else if app == "android"@ {
        seq!["client/android"@, "client/app"@]
    } else if app == "www"@ {
        seq!["www/"@]
    } else {
        Seq::empty()
    }
}

/// Looks up the path prefixes relevant to `app`.
pub fn get_pathspecs(app: &str) -> (r: Vec<&'static str>)
    ensures
        r@.map_values(|p: &str| p@) == spec_pathspecs(app@),
{
    let mut r: Vec<&'static str> = Vec::new();
    if str_eq(app, "admin") {
        r.push("admin/");
    } else if str_eq(app, "api") {
        r.push("server/");
    } else if str_eq(app, "ios") {
        r.push("client/ios");
        r.push("client/app");
    } else if str_eq(app, "android") {
        r.push("client/android");
        r.push("client/app");
    } else if str_eq(app, "www") {
        r.push("www/");
    }
    proof {
        assert(r@.map_values(|p: &str| p@) =~= spec_pathspecs(app@));
    }
    r
}

/// A path is relevant when it starts with one of the prefixes.
pub open spec fn path_relevant(specs: Seq<Seq<char>>, path: Seq<char>) -> bool {
    exists|i: int| 0 <= i < specs.len() && starts_with(path, #[trigger] specs[i])
}

/// A diff is relevant when any of its changed paths is.
pub open spec fn any_path_relevant(specs: Seq<Seq<char>>, paths: Seq<Seq<char>>) -> bool {
    exists|j: int| 0 <= j < paths.len() && path_relevant(specs, #[trigger] paths[j])
}

/// Tests whether `path` starts with one of the prefixes.
pub fn path_relevant_exec(specs: &Vec<&str>, path: &str) -> (r: bool)
    ensures
        r == path_relevant(specs@.map_values(|p: &str| p@), path@),
{
    let ghost sv = specs@.map_values(|p: &str| p@);
    let mut i: usize = 0;
    while i < specs.len()
        invariant
            i <= specs.len(),
            sv == specs@.map_values(|p: &str| p@),
            forall|k: int| 0 <= k < i ==> !starts_with(path@, #[trigger] sv[k]),
        decreases specs.len() - i,
    {
        if str_starts_with(path, specs[i]) {
            proof {
                assert(starts_with(path@, sv[i as int]));
            }
            return true;
        }
        i += 1;
    }
    false
}

/// Tests whether any of the changed paths is relevant.
pub fn any_path_relevant_exec(specs: &Vec<&str>, paths: &Vec<String>) -> (r: bool)
    ensures
        r == any_path_relevant(
            specs@.map_values(|p: &str| p@),
            paths@.map_values(|t: String| t@),
        ),
{
    let ghost pv = paths@.map_values(|t: String| t@);
    let mut j: usize = 0;
    while j < paths.len()
        invariant
            j <= paths.len(),
            pv == paths@.map_values(|t: String| t@),
            forall|k: int|
                0 <= k < j ==> !path_relevant(specs@.map_values(|p: &str| p@), #[trigger] pv[k]),
        decreases paths.len() - j,
    {
        if path_relevant_exec(specs, paths[j].as_str()) {
            proof {
                assert(path_relevant(specs@.map_values(|p: &str| p@), pv[j as int]));
            }
            return true;
        }
        j += 1;
    }
    false
}

/// An app not present in the registry has no path prefixes, so no path and
/// no diff is ever relevant for it.
pub proof fn lemma_unknown_app_irrelevant(app: Seq<char>, paths: Seq<Seq<char>>)
    requires
        app != "admin"@,
        app != "api"@,
        app != "ios"@,
        app != "android"@,
        app != "www"@,
    ensures
        spec_pathspecs(app) == Seq::<Seq<char>>::empty(),
        !any_path_relevant(spec_pathspecs(app), paths),
{
}

} // verus!
