//! Changelog assembly: classified entries for the relevant commits in walk
//! order, grouped by category, and the rendered markdown report.

use vstd::prelude::*;

verus! {

use vstd::string::StringExecFns;
use crate::classify::{Category, classify_line, spec_category, spec_residual};
use crate::pathspec::{any_path_relevant, any_path_relevant_exec, spec_pathspecs};
use crate::strutil::{first_line, spec_first_line};
use crate::version::{Version, VersionModel, render};
use crate::walker::{as_int_opt, emit_seq, graph_wf, walk, CommitGraph, CommitInfo};

/// A classified changelog entry: the category and the residual text.
pub struct Entry {
    pub category: Category,
    pub text: String,
}

/// The model of a list of entries.
pub open spec fn entry_views(es: Seq<Entry>) -> Seq<(Category, Seq<char>)> {
    es.map_values(|e: Entry| (e.category, e.text@))
}

/// The entry a relevant commit message produces.
pub open spec fn classified(msg: Seq<char>) -> (Category, Seq<char>) {
    (spec_category(spec_first_line(msg)), spec_residual(spec_first_line(msg)))
}

/// Paths of commit `c`'s diff against its parent `k`.
pub open spec fn paths_of(c: CommitInfo, k: int) -> Seq<Seq<char>> {
    c.parent_changed_paths@[k]@.map_values(|t: String| t@)
}

/// Entries a single commit contributes, from parent `k` on: one entry per
/// parent whose restricted diff is non-empty, in parent order.
pub open spec fn parent_entries(c: CommitInfo, specs: Seq<Seq<char>>, k: int) -> Seq<
    (Category, Seq<char>),
>
    decreases c.parent_changed_paths@.len() - k,
{
    if k < 0 || k >= c.parent_changed_paths@.len() {
        Seq::empty()
    } else {
        (if any_path_relevant(specs, paths_of(c, k)) {
            seq![classified(c.message@)]
        } else {
            Seq::empty()
        }) + parent_entries(c, specs, k + 1)
    }
}

/// All entries for the commits of `order`, in order.
pub open spec fn entries_of(
    cs: Seq<CommitInfo>,
    order: Seq<usize>,
    specs: Seq<Seq<char>>,
) -> Seq<(Category, Seq<char>)>
    decreases order.len(),
{
    if order.len() == 0 {
        Seq::empty()
    } else {
        parent_entries(cs[order[0] as int], specs, 0) + entries_of(cs, order.skip(1), specs)
    }
}

/// Collects the classified entries for the walked commits, one per relevant
/// parent diff.
pub fn collect_entries(g: &CommitGraph, order: &Vec<usize>, specs: &Vec<&str>) -> (es: Vec<Entry>)
    requires
        graph_wf(g.commits@),
        forall|a: int| 0 <= a < order@.len() ==> (#[trigger] order@[a]) < g.commits@.len(),
    ensures
        entry_views(es@) == entries_of(g.commits@, order@, specs@.map_values(|p: &str| p@)),
{
    let ghost cs = g.commits@;
    let ghost sv = specs@.map_values(|p: &str| p@);
    let mut es: Vec<Entry> = Vec::new();
    let mut a: usize = 0;
    proof {
        assert(order@.skip(0) =~= order@);
        assert(entry_views(es@) =~= Seq::<(Category, Seq<char>)>::empty());
        assert(Seq::<(Category, Seq<char>)>::empty() + entries_of(cs, order@, sv) =~= entries_of(
            cs,
            order@,
            sv,
        ));
    }
    while a < order.len()
        invariant
            cs == g.commits@,
            sv == specs@.map_values(|p: &str| p@),
            graph_wf(cs),
            forall|x: int| 0 <= x < order@.len() ==> (#[trigger] order@[x]) < cs.len(),
            a <= order@.len(),
            entries_of(cs, order@, sv) == entry_views(es@) + entries_of(
                cs,
                order@.skip(a as int),
                sv,
            ),
        decreases order@.len() - a,
    {
        let ci = order[a];
        proof {
            assert(order@.skip(a as int)[0] == order@[a as int]);
            assert(order@.skip(a as int).skip(1) =~= order@.skip(a as int + 1));
        }
        let npar = g.commits[ci].parent_changed_paths.len();
        let mut k: usize = 0;
        while k < npar
            invariant
                cs == g.commits@,
                sv == specs@.map_values(|p: &str| p@),
                a < order@.len(),
                ci == order@[a as int],
                (ci as int) < cs.len(),
                npar == cs[ci as int].parent_changed_paths@.len(),
                k <= npar,
                entries_of(cs, order@, sv) == entry_views(es@) + parent_entries(
                    cs[ci as int],
                    sv,
                    k as int,
                ) + entries_of(cs, order@.skip(a as int + 1), sv),
            decreases npar - k,
        {
            let relevant = any_path_relevant_exec(specs, &g.commits[ci].parent_changed_paths[k]);
            let ghost pre_map = entry_views(es@);
            if relevant {
                let line = first_line(g.commits[ci].message.as_str());
                let (cat, text) = classify_line(line.as_str());
                es.push(Entry { category: cat, text });
                proof {
                    assert(entry_views(es@) =~= pre_map.push(classified(cs[ci as int].message@)));
                    assert(pre_map + (seq![classified(cs[ci as int].message@)] + parent_entries(
                        cs[ci as int],
                        sv,
                        k as int + 1,
                    )) =~= pre_map.push(classified(cs[ci as int].message@)) + parent_entries(
                        cs[ci as int],
                        sv,
                        k as int + 1,
                    ));
                }
            } else {
                proof {
                    assert(Seq::<(Category, Seq<char>)>::empty() + parent_entries(
                        cs[ci as int],
                        sv,
                        k as int + 1,
                    ) =~= parent_entries(cs[ci as int], sv, k as int + 1));
                }
            }
            k += 1;
        }
        proof {
            assert(parent_entries(cs[ci as int], sv, npar as int) =~= Seq::<
                (Category, Seq<char>),
            >::empty());
            assert(entry_views(es@) + Seq::<(Category, Seq<char>)>::empty() =~= entry_views(es@));
        }
        a += 1;
    }
    proof {
        assert(order@.skip(order@.len() as int).len() == 0);
        assert(entry_views(es@) + Seq::<(Category, Seq<char>)>::empty() =~= entry_views(es@));
    }
    es
}

/// The texts of the entries with category `cat`, in order.
pub open spec fn texts_with(es: Seq<(Category, Seq<char>)>, cat: Category) -> Seq<Seq<char>>
    decreases es.len(),
{
    if es.len() == 0 {
        Seq::empty()
    } else {
        (if es[0].0 == cat {
            seq![es[0].1]
        } else {
            Seq::empty()
        }) + texts_with(es.skip(1), cat)
    }
}

/// The changelog: one ordered group of residual texts per category.
pub struct Changelog {
    pub features: Vec<String>,
    pub bugs: Vec<String>,
    pub chores: Vec<String>,
    pub others: Vec<String>,
}

/// The model of a group.
pub open spec fn group_view(g: Seq<String>) -> Seq<Seq<char>> {
    g.map_values(|t: String| t@)
}

/// Groups classified entries into the four categories, preserving traversal
/// order within each group.
pub fn assemble(entries: &Vec<Entry>) -> (log: Changelog)
    ensures
        group_view(log.features@) == texts_with(entry_views(entries@), Category::Feature),
        group_view(log.bugs@) == texts_with(entry_views(entries@), Category::Bug),
        group_view(log.chores@) == texts_with(entry_views(entries@), Category::Chore),
        group_view(log.others@) == texts_with(entry_views(entries@), Category::Other),
{
    let ghost ev = entry_views(entries@);
    let mut features: Vec<String> = Vec::new();
    let mut bugs: Vec<String> = Vec::new();
    let mut chores: Vec<String> = Vec::new();
    let mut others: Vec<String> = Vec::new();
    let mut i: usize = 0;
    proof {
        assert(ev.skip(0) =~= ev);
        assert(group_view(features@) =~= Seq::<Seq<char>>::empty());
        assert(Seq::<Seq<char>>::empty() + texts_with(ev, Category::Feature) =~= texts_with(
            ev,
            Category::Feature,
        ));
        assert(Seq::<Seq<char>>::empty() + texts_with(ev, Category::Bug) =~= texts_with(
            ev,
            Category::Bug,
        ));
        assert(Seq::<Seq<char>>::empty() + texts_with(ev, Category::Chore) =~= texts_with(
            ev,
            Category::Chore,
        ));
        assert(Seq::<Seq<char>>::empty() + texts_with(ev, Category::Other) =~= texts_with(
            ev,
            Category::Other,
        ));
    }
    while i < entries.len()
        invariant
            ev == entry_views(entries@),
            i <= entries@.len(),
            texts_with(ev, Category::Feature) == group_view(features@) + texts_with(
                ev.skip(i as int),
                Category::Feature,
            ),
            texts_with(ev, Category::Bug) == group_view(bugs@) + texts_with(
                ev.skip(i as int),
                Category::Bug,
            ),
            texts_with(ev, Category::Chore) == group_view(chores@) + texts_with(
                ev.skip(i as int),
                Category::Chore,
            ),
            texts_with(ev, Category::Other) == group_view(others@) + texts_with(
                ev.skip(i as int),
                Category::Other,
            ),
        decreases entries@.len() - i,
    {
        proof {
            assert(ev.skip(i as int)[0] == ev[i as int]);
            assert(ev.skip(i as int).skip(1) =~= ev.skip(i as int + 1));
            assert(ev[i as int] == (entries@[i as int].category, entries@[i as int].text@));
        }
        let e = &entries[i];
        let ghost fm = group_view(features@);
        let ghost bm = group_view(bugs@);
        let ghost cm = group_view(chores@);
        let ghost om = group_view(others@);
        match e.category {
            Category::Feature => features.push(e.text.clone()),
            Category::Bug => bugs.push(e.text.clone()),
            Category::Chore => chores.push(e.text.clone()),
            Category::Other => others.push(e.text.clone()),
        }
        proof {
            let t = entries@[i as int].text@;
            assert(fm + (seq![t] + texts_with(ev.skip(i as int + 1), Category::Feature)) =~= fm.push(
                t,
            ) + texts_with(ev.skip(i as int + 1), Category::Feature));
            assert(bm + (seq![t] + texts_with(ev.skip(i as int + 1), Category::Bug)) =~= bm.push(t)
                + texts_with(ev.skip(i as int + 1), Category::Bug));
            assert(cm + (seq![t] + texts_with(ev.skip(i as int + 1), Category::Chore)) =~= cm.push(
                t,
            ) + texts_with(ev.skip(i as int + 1), Category::Chore));
            assert(om + (seq![t] + texts_with(ev.skip(i as int + 1), Category::Other)) =~= om.push(
                t,
            ) + texts_with(ev.skip(i as int + 1), Category::Other));
            if entries@[i as int].category == Category::Feature {
                assert(group_view(features@) =~= fm.push(t));
            } else {
                assert(group_view(features@) == fm);
            }
            if entries@[i as int].category == Category::Bug {
                assert(group_view(bugs@) =~= bm.push(t));
            } else {
                assert(group_view(bugs@) == bm);
            }
            if entries@[i as int].category == Category::Chore {
                assert(group_view(chores@) =~= cm.push(t));
            } else {
                assert(group_view(chores@) == cm);
            }
            if entries@[i as int].category == Category::Other {
                assert(group_view(others@) =~= om.push(t));
            } else {
                assert(group_view(others@) == om);
            }
        }
        i += 1;
    }
    proof {
        assert(ev.skip(ev.len() as int).len() == 0);
        assert(group_view(features@) + Seq::<Seq<char>>::empty() =~= group_view(features@));
        assert(group_view(bugs@) + Seq::<Seq<char>>::empty() =~= group_view(bugs@));
        assert(group_view(chores@) + Seq::<Seq<char>>::empty() =~= group_view(chores@));
        assert(group_view(others@) + Seq::<Seq<char>>::empty() =~= group_view(others@));
    }
    Changelog { features, bugs, chores, others }
}

/// Bullet lines: `* ` before each text, a newline after each.
pub open spec fn bullets(items: Seq<Seq<char>>) -> Seq<char>
    decreases items.len(),
{
    if items.len() == 0 {
        Seq::empty()
    } else {
        "* "@ + items[0] + "\n"@ + bullets(items.skip(1))
    }
}

/// A group's rendering: its header line then its bullets; empty groups are
/// omitted entirely.
pub open spec fn render_group(header: Seq<char>, items: Seq<Seq<char>>) -> Seq<char> {
    if items.len() == 0 {
        Seq::empty()
    } else {
        header + "\n"@ + bullets(items)
    }
}

/// The whole report: the non-empty groups in fixed category order, then the
/// next-version line.
pub open spec fn spec_output(
    f: Seq<Seq<char>>,
    b: Seq<Seq<char>>,
    c: Seq<Seq<char>>,
    o: Seq<Seq<char>>,
    next: VersionModel,
) -> Seq<char> {
    render_group("### 🚀 Features"@, f) + render_group("### 🐛 Fixes"@, b) + render_group(
        "### 📝 Chores"@,
        c,
    ) + render_group("### Everything else"@, o) + "next version should be: "@ + render(next)
        + "\n"@
}

fn push_bullets(s: &mut String, items: &Vec<String>, from: usize)
    requires
        from <= items.len(),
    ensures
        final(s)@ == old(s)@ + bullets(group_view(items@).skip(from as int)),
    decreases items.len() - from,
{
    let ghost m = group_view(items@);
    if from < items.len() {
        s.append("* ");
        s.append(items[from].as_str());
        s.append("\n");
        push_bullets(s, items, from + 1);
        proof {
            assert(m.skip(from as int)[0] == m[from as int]);
            assert(m.skip(from as int).skip(1) =~= m.skip(from as int + 1));
            assert(old(s)@ + "* "@ + m[from as int] + "\n"@ + bullets(m.skip(from as int + 1))
                =~= old(s)@ + bullets(m.skip(from as int)));
        }
    } else {
        proof {
            assert(m.skip(from as int).len() == 0);
            assert(old(s)@ + bullets(m.skip(from as int)) =~= old(s)@);
        }
    }
}

fn push_group(s: &mut String, header: &str, items: &Vec<String>)
    ensures
        final(s)@ == old(s)@ + render_group(header@, group_view(items@)),
{
    if items.len() > 0 {
        s.append(header);
        s.append("\n");
        push_bullets(s, items, 0);
        proof {
            assert(group_view(items@).skip(0) =~= group_view(items@));
            assert(old(s)@ + header@ + "\n"@ + bullets(group_view(items@)) =~= old(s)@
                + render_group(header@, group_view(items@)));
        }
    } else {
        proof {
            assert(old(s)@ + render_group(header@, group_view(items@)) =~= old(s)@);
        }
    }
}

/// Renders the changelog groups and the next-version line as the report
/// text.
pub fn render_output(log: &Changelog, next: &Version) -> (out: String)
    ensures
        out@ == spec_output(
            group_view(log.features@),
            group_view(log.bugs@),
            group_view(log.chores@),
            group_view(log.others@),
            next@,
        ),
{
    let mut s = String::new();
    push_group(&mut s, "### 🚀 Features", &log.features);
    push_group(&mut s, "### 🐛 Fixes", &log.bugs);
    push_group(&mut s, "### 📝 Chores", &log.chores);
    push_group(&mut s, "### Everything else", &log.others);
    s.append("next version should be: ");
    let vs = next.to_string();
    s.append(vs.as_str());
    s.append("\n");
    proof {
        assert(s@ =~= spec_output(
            group_view(log.features@),
            group_view(log.bugs@),
            group_view(log.chores@),
            group_view(log.others@),
            next@,
        ));
    }
    s
}

/// The report for one run, as a value: what `generate_changelog` returns.
pub open spec fn spec_changelog_output(
    cs: Seq<CommitInfo>,
    head: int,
    excl: Option<int>,
    specs: Seq<Seq<char>>,
    next: VersionModel,
) -> Seq<char> {
    let es = entries_of(cs, emit_seq(cs, head, excl, cs.len() as int), specs);
    spec_output(
        texts_with(es, Category::Feature),
        texts_with(es, Category::Bug),
        texts_with(es, Category::Chore),
        texts_with(es, Category::Other),
        next,
    )
}

/// Walks, classifies, groups and renders in one step.
///
/// The output is pinned to a function of the loaded repository state alone,
/// so repeated invocation against an unchanged repository produces
/// byte-identical output.
pub fn generate_changelog(
    g: &CommitGraph,
    head: usize,
    excl: Option<usize>,
    specs: &Vec<&str>,
    next: &Version,
) -> (out: String)
    requires
        graph_wf(g.commits@),
        head < g.commits.len(),
        excl matches Some(e) ==> e < g.commits.len(),
    ensures
        out@ == spec_changelog_output(
            g.commits@,
            head as int,
            as_int_opt(excl),
            specs@.map_values(|p: &str| p@),
            next@,
        ),
{
    let order = walk(g, head, excl);
    let entries = collect_entries(g, &order, specs);
    let log = assemble(&entries);
    render_output(&log, next)
}

proof fn lemma_parent_entries_no_specs(c: CommitInfo, k: int)
    ensures
        parent_entries(c, Seq::empty(), k) == Seq::<(Category, Seq<char>)>::empty(),
    decreases c.parent_changed_paths@.len() - k,
{
    if 0 <= k < c.parent_changed_paths@.len() {
        lemma_parent_entries_no_specs(c, k + 1);
        assert(!any_path_relevant(Seq::empty(), paths_of(c, k)));
        assert(Seq::<(Category, Seq<char>)>::empty() + Seq::<(Category, Seq<char>)>::empty()
            =~= Seq::<(Category, Seq<char>)>::empty());
    }
}

/// For an app not present in the path registry, every restricted diff is
/// empty, no commit is ever relevant, and the walk yields no changelog
/// entries at all, however non-trivial the history.
pub proof fn lemma_unknown_app_no_entries(cs: Seq<CommitInfo>, order: Seq<usize>, app: Seq<char>)
    requires
        app != "admin"@,
        app != "api"@,
        app != "ios"@,
        app != "android"@,
        app != "www"@,
    ensures
        entries_of(cs, order, spec_pathspecs(app)) == Seq::<(Category, Seq<char>)>::empty(),
    decreases order.len(),
{
    assert(spec_pathspecs(app) == Seq::<Seq<char>>::empty());
    if order.len() > 0 {
        lemma_parent_entries_no_specs(cs[order[0] as int], 0);
        lemma_unknown_app_no_entries(cs, order.skip(1), app);
        assert(Seq::<(Category, Seq<char>)>::empty() + Seq::<(Category, Seq<char>)>::empty()
            =~= Seq::<(Category, Seq<char>)>::empty());
    }
}

} // verus!
