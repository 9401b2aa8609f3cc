use vstd::prelude::*;
use crate::exclusion::{is_strictly_under, under_any};
use crate::listing::{names_of, Listing};
use crate::node::{count_among, count_in, well_formed, Tree};
use crate::order::sorted_order;
use crate::pattern::matches_any;
use crate::printer::{Rules, build, output, scan};
use crate::render::{
    children_lines, connector, continuation, entry_lines, lemma_children_line_count, tree_lines,
};

verus! {

/// No pattern is found in the name of `t` nor in a name below it.
pub open spec fn passes(t: Tree, patterns: Seq<Seq<char>>) -> bool
    decreases t,
{
    &&& !matches_any(patterns, t.name)
    &&& forall|i: int| 0 <= i < t.children.len() ==> passes(#[trigger] t.children[i], patterns)
}

/// `t` and all that lies below it are directories.
pub open spec fn all_directories(t: Tree) -> bool
    decreases t,
{
    &&& t.is_dir
    &&& forall|i: int| 0 <= i < t.children.len() ==> all_directories(#[trigger] t.children[i])
}

/// Below `t`, directories lie at most `levels` levels down, and files only
/// directly in `t` or in one of those directories.
pub open spec fn within(t: Tree, levels: int) -> bool
    decreases t,
{
    forall|i: int|
        0 <= i < t.children.len() ==> if (#[trigger] t.children[i]).is_dir {
            levels >= 1 && within(t.children[i], levels - 1)
        } else {
            t.children[i].children.len() == 0
        }
}

/// Exclusion reaches everything below an excluded entry: in a built tree no
/// entry below the root has a name that a pattern is found in, and so none
/// lies below an entry with such a name.
pub proof fn law_exclusion_propagates(
    rules: Rules,
    excluded: Seq<Seq<Seq<char>>>,
    dir: Listing,
    path: Seq<Seq<char>>,
)
    ensures
        build(rules, excluded, dir, path).tree matches Some(t) ==> {
            &&& t.is_dir
            &&& t.name == (if path.len() == 0 {
                rules.start_path
            } else {
                dir.name
            })
            &&& forall|i: int|
                0 <= i < t.children.len() ==> passes(#[trigger] t.children[i], rules.patterns)
        },
    decreases dir, 0nat,
{
    if build(rules, excluded, dir, path).tree is Some {
        match dir.entries {
            Some(entries) => {
                let order = sorted_order(names_of(entries), entries.len());
                lemma_scan_passes(rules, excluded, entries, order, order.len(), path);
                let found = scan(rules, excluded, entries, order, order.len(), path);
                let t = build(rules, excluded, dir, path).tree->0;
                assert(build(rules, excluded, dir, path).tree is Some);
                assert(t.children == found.children);
                assert(forall|i: int|
                    0 <= i < found.children.len() ==> passes(
                        #[trigger] found.children[i],
                        rules.patterns,
                    ));
            },
            None => {},
        }
    }
}

/// The children that a scan gives, and all below them, have names that no
/// pattern is found in.
pub proof fn lemma_scan_passes(
    rules: Rules,
    excluded: Seq<Seq<Seq<char>>>,
    entries: Seq<Listing>,
    order: Seq<usize>,
    n: nat,
    path: Seq<Seq<char>>,
)
    ensures
        forall|i: int|
            0 <= i < scan(rules, excluded, entries, order, n, path).children.len() ==> passes(
                #[trigger] scan(rules, excluded, entries, order, n, path).children[i],
                rules.patterns,
            ),
    decreases entries, n,
{
    if n == 0 || n > order.len() {
    } else {
        lemma_scan_passes(rules, excluded, entries, order, (n - 1) as nat, path);
        let prev = scan(rules, excluded, entries, order, (n - 1) as nat, path);
        let at = order[n - 1] as int;
        if 0 <= at < entries.len() {
            let entry = entries[at];
            if !matches_any(rules.patterns, entry.name) && entry.is_dir {
                law_exclusion_propagates(rules, prev.excluded, entry, path.push(entry.name));
            }
        }
    }
}

/// Whether the tree `t` shows an entry at `route`: the names, level by
/// level below `t`, that lead to it.
pub open spec fn shows(t: Tree, route: Seq<Seq<char>>) -> bool
    decreases route.len(),
{
    route.len() == 0 || exists|i: int|
        0 <= i < t.children.len() && (#[trigger] t.children[i]).name == route[0] && shows(
            t.children[i],
            route.subrange(1, route.len() as int),
        )
}

/// Where no name below `t` matches a pattern, no name on a route that `t`
/// shows does.
pub proof fn lemma_shown_routes_pass(
    t: Tree,
    patterns: Seq<Seq<char>>,
    route: Seq<Seq<char>>,
    k: int,
)
    requires
        forall|i: int| 0 <= i < t.children.len() ==> passes(#[trigger] t.children[i], patterns),
        shows(t, route),
        0 <= k < route.len(),
    ensures
        !matches_any(patterns, route[k]),
    decreases route.len(),
{
    let rest = route.subrange(1, route.len() as int);
    let i = choose|i: int|
        0 <= i < t.children.len() && (#[trigger] t.children[i]).name == route[0] && shows(
            t.children[i],
            rest,
        );
    let child = t.children[i];
    assert(passes(child, patterns));
    if k > 0 {
        lemma_shown_routes_pass(child, patterns, rest, k - 1);
        assert(rest[k - 1] == route[k]);
    }
}

/// Nothing is shown at or below an excluded entry: where the output of a
/// run shows an entry, no pattern is found in its name nor in the name of
/// any entry that lies between it and the root, however deep it lies.
pub proof fn law_nothing_shown_below_excluded(
    rules: Rules,
    excluded: Seq<Seq<Seq<char>>>,
    root: Listing,
    route: Seq<Seq<char>>,
    k: int,
)
    requires
        build(rules, excluded, root, Seq::empty()).tree is Some,
        shows(build(rules, excluded, root, Seq::empty()).tree->0, route),
        0 <= k < route.len(),
    ensures
        !matches_any(rules.patterns, route[k]),
{
    law_exclusion_propagates(rules, excluded, root, Seq::empty());
    lemma_shown_routes_pass(
        build(rules, excluded, root, Seq::empty()).tree->0,
        rules.patterns,
        route,
        k,
    );
}

/// The depth limit holds: with a limit of `k` levels, a directory that has a
/// node lies at most `k` levels below the root, and below it directories
/// are shown down to level `k` and files only directly in such a directory
/// or in the root.
pub proof fn law_depth_bound(
    rules: Rules,
    excluded: Seq<Seq<Seq<char>>>,
    dir: Listing,
    path: Seq<Seq<char>>,
)
    requires
        rules.max_depth is Some,
    ensures
        build(rules, excluded, dir, path).tree matches Some(t) ==> {
            &&& path.len() <= rules.max_depth->0
            &&& within(t, rules.max_depth->0 - path.len())
        },
    decreases dir, 0nat,
{
    if build(rules, excluded, dir, path).tree is Some {
        match dir.entries {
            Some(entries) => {
                let order = sorted_order(names_of(entries), entries.len());
                lemma_scan_within(rules, excluded, entries, order, order.len(), path);
                let found = scan(rules, excluded, entries, order, order.len(), path);
                let t = build(rules, excluded, dir, path).tree->0;
                assert(t.children == found.children);
                assert(forall|i: int|
                    0 <= i < found.children.len() ==> if (#[trigger] found.children[i]).is_dir {
                        &&& path.len() + 1 <= rules.max_depth->0
                        &&& within(found.children[i], rules.max_depth->0 - path.len() - 1)
                    } else {
                        found.children[i].children.len() == 0
                    });
            },
            None => {},
        }
    }
}

/// The children that a scan gives keep the depth limit.
pub proof fn lemma_scan_within(
    rules: Rules,
    excluded: Seq<Seq<Seq<char>>>,
    entries: Seq<Listing>,
    order: Seq<usize>,
    n: nat,
    path: Seq<Seq<char>>,
)
    requires
        rules.max_depth is Some,
    ensures
        forall|i: int|
            0 <= i < scan(rules, excluded, entries, order, n, path).children.len() ==> if (
            #[trigger] scan(rules, excluded, entries, order, n, path).children[i]).is_dir {
                &&& path.len() + 1 <= rules.max_depth->0
                &&& within(
                    scan(rules, excluded, entries, order, n, path).children[i],
                    rules.max_depth->0 - path.len() - 1,
                )
            } else {
                scan(rules, excluded, entries, order, n, path).children[i].children.len() == 0
            },
    decreases entries, n,
{
    if n == 0 || n > order.len() {
    } else {
        lemma_scan_within(rules, excluded, entries, order, (n - 1) as nat, path);
        let prev = scan(rules, excluded, entries, order, (n - 1) as nat, path);
        let at = order[n - 1] as int;
        if 0 <= at < entries.len() {
            let entry = entries[at];
            if !matches_any(rules.patterns, entry.name) && entry.is_dir {
                law_depth_bound(rules, prev.excluded, entry, path.push(entry.name));
                law_exclusion_propagates(rules, prev.excluded, entry, path.push(entry.name));
            }
        }
    }
}

/// In directories-only mode a built tree holds directories alone.
pub proof fn law_directories_only(
    rules: Rules,
    excluded: Seq<Seq<Seq<char>>>,
    dir: Listing,
    path: Seq<Seq<char>>,
)
    requires
        rules.directories_only,
    ensures
        build(rules, excluded, dir, path).tree matches Some(t) ==> all_directories(t),
    decreases dir, 0nat,
{
    if build(rules, excluded, dir, path).tree is Some {
        match dir.entries {
            Some(entries) => {
                let order = sorted_order(names_of(entries), entries.len());
                lemma_scan_directories(rules, excluded, entries, order, order.len(), path);
                let found = scan(rules, excluded, entries, order, order.len(), path);
                let t = build(rules, excluded, dir, path).tree->0;
                assert(t.children == found.children);
                assert(forall|i: int|
                    0 <= i < found.children.len() ==> all_directories(
                        #[trigger] found.children[i],
                    ));
            },
            None => {},
        }
    }
}

/// In directories-only mode a scan gives directories alone.
pub proof fn lemma_scan_directories(
    rules: Rules,
    excluded: Seq<Seq<Seq<char>>>,
    entries: Seq<Listing>,
    order: Seq<usize>,
    n: nat,
    path: Seq<Seq<char>>,
)
    requires
        rules.directories_only,
    ensures
        forall|i: int|
            0 <= i < scan(rules, excluded, entries, order, n, path).children.len()
                ==> all_directories(
                #[trigger] scan(rules, excluded, entries, order, n, path).children[i],
            ),
    decreases entries, n,
{
    if n == 0 || n > order.len() {
    } else {
        lemma_scan_directories(rules, excluded, entries, order, (n - 1) as nat, path);
        let prev = scan(rules, excluded, entries, order, (n - 1) as nat, path);
        let at = order[n - 1] as int;
        if 0 <= at < entries.len() {
            let entry = entries[at];
            if !matches_any(rules.patterns, entry.name) && entry.is_dir {
                law_directories_only(rules, prev.excluded, entry, path.push(entry.name));
            }
        }
    }
}

/// In a built tree a file has no children.
pub proof fn law_files_are_leaves(
    rules: Rules,
    excluded: Seq<Seq<Seq<char>>>,
    dir: Listing,
    path: Seq<Seq<char>>,
)
    ensures
        build(rules, excluded, dir, path).tree matches Some(t) ==> well_formed(t),
    decreases dir, 0nat,
{
    if build(rules, excluded, dir, path).tree is Some {
        match dir.entries {
            Some(entries) => {
                let order = sorted_order(names_of(entries), entries.len());
                lemma_scan_files_are_leaves(rules, excluded, entries, order, order.len(), path);
                let found = scan(rules, excluded, entries, order, order.len(), path);
                let t = build(rules, excluded, dir, path).tree->0;
                assert(t.children == found.children);
                assert(forall|i: int|
                    0 <= i < found.children.len() ==> well_formed(#[trigger] found.children[i]));
            },
            None => {},
        }
    }
}

/// Among the children that a scan gives a file has no children.
pub proof fn lemma_scan_files_are_leaves(
    rules: Rules,
    excluded: Seq<Seq<Seq<char>>>,
    entries: Seq<Listing>,
    order: Seq<usize>,
    n: nat,
    path: Seq<Seq<char>>,
)
    ensures
        forall|i: int|
            0 <= i < scan(rules, excluded, entries, order, n, path).children.len() ==> well_formed(
                #[trigger] scan(rules, excluded, entries, order, n, path).children[i],
            ),
    decreases entries, n,
{
    if n == 0 || n > order.len() {
    } else {
        lemma_scan_files_are_leaves(rules, excluded, entries, order, (n - 1) as nat, path);
        let prev = scan(rules, excluded, entries, order, (n - 1) as nat, path);
        let at = order[n - 1] as int;
        if 0 <= at < entries.len() {
            let entry = entries[at];
            if !matches_any(rules.patterns, entry.name) && entry.is_dir {
                law_files_are_leaves(rules, prev.excluded, entry, path.push(entry.name));
            }
        }
    }
}

/// Among directories alone there is no file to count.
pub proof fn lemma_no_files_among(ts: Seq<Tree>, n: nat)
    requires
        forall|i: int| 0 <= i < ts.len() ==> all_directories(#[trigger] ts[i]),
    ensures
        count_among(ts, n, false) == 0,
    decreases ts, n,
{
    if n == 0 || n > ts.len() {
    } else {
        lemma_no_files_among(ts, (n - 1) as nat);
        let t = ts[n - 1];
        assert(all_directories(t));
        lemma_no_files_among(t.children, t.children.len());
        assert(count_in(t, false) == count_among(t.children, t.children.len(), false));
    }
}

/// A route that a tree within `levels` levels shows is at most one name
/// longer than `levels`; among directories alone it is no longer than
/// `levels`.
pub proof fn lemma_shown_routes_are_short(t: Tree, levels: int, route: Seq<Seq<char>>)
    requires
        levels >= 0,
        within(t, levels),
        shows(t, route),
    ensures
        route.len() <= levels + 1,
        (forall|i: int| 0 <= i < t.children.len() ==> all_directories(#[trigger] t.children[i]))
            ==> route.len() <= levels,
    decreases route.len(),
{
    if route.len() > 0 {
        let rest = route.subrange(1, route.len() as int);
        let i = choose|i: int|
            0 <= i < t.children.len() && (#[trigger] t.children[i]).name == route[0] && shows(
                t.children[i],
                rest,
            );
        let child = t.children[i];
        if child.is_dir {
            lemma_shown_routes_are_short(child, levels - 1, rest);
        }
    }
}

/// No entry is shown beyond the depth limit: with a limit of `k` levels,
/// the route to an entry that the output shows has at most `k + 1` names
/// (the last of them a file in a directory of level `k`, as `within` says);
/// in directories-only mode it has at most `k`.
pub proof fn law_nothing_shown_beyond_limit(
    rules: Rules,
    excluded: Seq<Seq<Seq<char>>>,
    root: Listing,
    route: Seq<Seq<char>>,
)
    requires
        rules.max_depth is Some,
        build(rules, excluded, root, Seq::empty()).tree is Some,
        shows(build(rules, excluded, root, Seq::empty()).tree->0, route),
    ensures
        route.len() <= rules.max_depth->0 + 1,
        rules.directories_only ==> route.len() <= rules.max_depth->0,
{
    let t = build(rules, excluded, root, Seq::empty()).tree->0;
    law_depth_bound(rules, excluded, root, Seq::empty());
    if rules.directories_only {
        law_directories_only(rules, excluded, root, Seq::empty());
    }
    lemma_shown_routes_are_short(t, rules.max_depth->0 as int, route);
}

/// With a depth limit of zero in directories-only mode the root has no
/// entries.
pub proof fn law_depth_zero(rules: Rules, excluded: Seq<Seq<Seq<char>>>, root: Listing)
    requires
        rules.max_depth == Some(0nat),
        rules.directories_only,
    ensures
        build(rules, excluded, root, Seq::empty()).tree matches Some(t) ==> t.children.len() == 0,
{
    law_depth_bound(rules, excluded, root, Seq::empty());
    law_directories_only(rules, excluded, root, Seq::empty());
    if let Some(t) = build(rules, excluded, root, Seq::empty()).tree {
        if t.children.len() > 0 {
            assert(all_directories(t.children[0]));
            assert(within(t, 0));
        }
    }
}

/// The root always has a node, and the output has one line for the root,
/// one for each directory of the built tree, one for each file unless the
/// mode is directories-only (the tree then holds none), and the two lines
/// of the totals.
pub proof fn law_one_line_per_entry(rules: Rules, excluded: Seq<Seq<Seq<char>>>, root: Listing)
    ensures
        build(rules, excluded, root, Seq::empty()).tree is Some,
        ({
            let t = build(rules, excluded, root, Seq::empty()).tree->0;
            let dirs = count_among(t.children, t.children.len(), true);
            let files = count_among(t.children, t.children.len(), false);
            &&& tree_lines(t).len() == 1 + dirs + files
            &&& rules.directories_only ==> files == 0
            &&& output(rules, excluded, root).len() == 1 + dirs + files + 2
        }),
{
    let path = Seq::<Seq<char>>::empty();
    assert(!under_any(excluded, path));
    let t = build(rules, excluded, root, path).tree->0;
    lemma_children_line_count(t.children, t.children.len(), Seq::empty());
    if rules.directories_only {
        law_directories_only(rules, excluded, root, path);
        lemma_no_files_among(t.children, t.children.len());
    }
}

/// The lines of the first siblings stay when more siblings are rendered.
pub proof fn lemma_children_lines_grow(ts: Seq<Tree>, n: nat, m: nat, prefix: Seq<char>)
    requires
        n <= m <= ts.len(),
    ensures
        children_lines(ts, n, prefix).is_prefix_of(children_lines(ts, m, prefix)),
    decreases m,
{
    if n < m {
        lemma_children_lines_grow(ts, n, (m - 1) as nat, prefix);
        let a = children_lines(ts, n, prefix);
        let b = children_lines(ts, (m - 1) as nat, prefix);
        let c = children_lines(ts, m, prefix);
        assert(b.is_prefix_of(c)) by {
            assert(c.subrange(0, b.len() as int) =~= b);
        }
        assert(c.subrange(0, a.len() as int) =~= b.subrange(0, a.len() as int));
    } else {
        let a = children_lines(ts, n, prefix);
        assert(a.subrange(0, a.len() as int) =~= a);
    }
}

/// Every line of an entry and of what lies below it begins with the prefix
/// that the entry was given.
pub proof fn lemma_entry_lines_begin(t: Tree, prefix: Seq<char>, is_last: bool)
    ensures
        forall|j: int|
            0 <= j < entry_lines(t, prefix, is_last).len() ==> prefix.is_prefix_of(
                #[trigger] entry_lines(t, prefix, is_last)[j],
            ),
    decreases t, 0nat,
{
    let below = prefix + continuation(is_last);
    lemma_children_lines_begin(t.children, t.children.len(), below);
    let first = prefix + connector(is_last) + t.name;
    assert(first.subrange(0, prefix.len() as int) =~= prefix);
    let rest = children_lines(t.children, t.children.len(), below);
    assert forall|j: int| 0 <= j < rest.len() implies prefix.is_prefix_of(#[trigger] rest[j]) by {
        assert(below.is_prefix_of(rest[j]));
        assert(rest[j].subrange(0, prefix.len() as int) =~= below.subrange(
            0,
            prefix.len() as int,
        ));
        assert(below.subrange(0, prefix.len() as int) =~= prefix);
    }
}

/// The same for the first `n` of a list of siblings.
pub proof fn lemma_children_lines_begin(ts: Seq<Tree>, n: nat, prefix: Seq<char>)
    ensures
        forall|j: int|
            0 <= j < children_lines(ts, n, prefix).len() ==> prefix.is_prefix_of(
                #[trigger] children_lines(ts, n, prefix)[j],
            ),
    decreases ts, n,
{
    if n == 0 || n > ts.len() {
    } else {
        lemma_children_lines_begin(ts, (n - 1) as nat, prefix);
        lemma_entry_lines_begin(ts[n - 1], prefix, n == ts.len());
        let first = children_lines(ts, (n - 1) as nat, prefix);
        let more = entry_lines(ts[n - 1], prefix, n == ts.len());
        assert forall|j: int| 0 <= j < (first + more).len() implies prefix.is_prefix_of(
            #[trigger] (first + more)[j],
        ) by {
            if j < first.len() {
                assert((first + more)[j] == first[j]);
            } else {
                assert((first + more)[j] == more[j - first.len()]);
            }
        }
    }
}

/// Connectors follow the place among the siblings: among the lines of the
/// siblings `ts`, the line of the sibling at place `i` comes behind the
/// lines of those before it and is the prefix, the connector and its name,
/// with the closing connector for the last sibling alone; the lines of what
/// lies below it follow, and each begins with the prefix and, for the last
/// sibling, four blanks, for the others a vertical bar and three blanks.
pub proof fn law_connectors(ts: Seq<Tree>, prefix: Seq<char>, i: int)
    requires
        0 <= i < ts.len(),
    ensures
        ({
            let all = children_lines(ts, ts.len(), prefix);
            let before = children_lines(ts, i as nat, prefix);
            let last = i == ts.len() - 1;
            let below = children_lines(
                ts[i].children,
                ts[i].children.len(),
                prefix + continuation(last),
            );
            &&& before.len() + 1 + below.len() <= all.len()
            &&& all[before.len() as int] == prefix + connector(last) + ts[i].name
            &&& forall|j: int|
                0 <= j < below.len() ==> {
                    &&& all[before.len() + 1 + j] == #[trigger] below[j]
                    &&& (prefix + continuation(last)).is_prefix_of(below[j])
                }
        }),
{
    let last = i == ts.len() - 1;
    let all = children_lines(ts, ts.len(), prefix);
    let before = children_lines(ts, i as nat, prefix);
    let upto = children_lines(ts, (i + 1) as nat, prefix);
    let below = children_lines(ts[i].children, ts[i].children.len(), prefix + continuation(last));
    lemma_children_lines_grow(ts, (i + 1) as nat, ts.len(), prefix);
    lemma_children_lines_begin(ts[i].children, ts[i].children.len(), prefix + continuation(last));
    assert(upto == before + entry_lines(ts[i], prefix, last));
    assert(upto.len() == before.len() + 1 + below.len());
    assert(upto[before.len() as int] == prefix + connector(last) + ts[i].name);
    assert forall|j: int| 0 <= j < below.len() implies all[before.len() + 1 + j]
        == #[trigger] below[j] by {
        assert(upto[before.len() + 1 + j] == below[j]);
        assert(all.subrange(0, upto.len() as int)[before.len() + 1 + j] == all[before.len() + 1
            + j]);
    }
    assert(all.subrange(0, upto.len() as int)[before.len() as int] == all[before.len() as int]);
}

/// Whether a pattern is found in one of the names of `path`.
pub open spec fn marked(path: Seq<Seq<char>>, patterns: Seq<Seq<char>>) -> bool {
    exists|k: int| 0 <= k < path.len() && matches_any(patterns, #[trigger] path[k])
}

/// Whether every recorded path holds a name that a pattern is found in.
pub open spec fn all_marked(excluded: Seq<Seq<Seq<char>>>, patterns: Seq<Seq<char>>) -> bool {
    forall|i: int| 0 <= i < excluded.len() ==> marked(#[trigger] excluded[i], patterns)
}

/// A path without such a name lies below no recorded path, where each of
/// those holds one.
pub proof fn lemma_unmarked_is_not_under(
    excluded: Seq<Seq<Seq<char>>>,
    patterns: Seq<Seq<char>>,
    path: Seq<Seq<char>>,
)
    requires
        all_marked(excluded, patterns),
        !marked(path, patterns),
    ensures
        !under_any(excluded, path),
{
    if under_any(excluded, path) {
        let i = choose|i: int|
            0 <= i < excluded.len() && is_strictly_under(path, #[trigger] excluded[i]);
        assert(marked(excluded[i], patterns));
        let k = choose|k: int|
            0 <= k < excluded[i].len() && matches_any(patterns, #[trigger] excluded[i][k]);
        assert(path.subrange(0, excluded[i].len() as int)[k] == path[k]);
        assert(matches_any(patterns, path[k]));
    }
}

/// The record of excluded paths is a safety net: on the walk of a run, which
/// starts with nothing recorded and enters no directory with a matching
/// name, no directory is refused for lying below a recorded path. A
/// directory has no node only where it lies beyond the depth limit, and
/// the record goes on holding only paths with a matching name.
pub proof fn law_record_is_a_safety_net(
    rules: Rules,
    excluded: Seq<Seq<Seq<char>>>,
    dir: Listing,
    path: Seq<Seq<char>>,
)
    requires
        all_marked(excluded, rules.patterns),
        !marked(path, rules.patterns),
    ensures
        all_marked(build(rules, excluded, dir, path).excluded, rules.patterns),
        build(rules, excluded, dir, path).tree is None <==> (rules.max_depth is Some && path.len()
            > rules.max_depth->0),
    decreases dir, 0nat,
{
    lemma_unmarked_is_not_under(excluded, rules.patterns, path);
    if build(rules, excluded, dir, path).tree is Some {
        match dir.entries {
            Some(entries) => {
                let order = sorted_order(names_of(entries), entries.len());
                lemma_scan_marks(rules, excluded, entries, order, order.len(), path);
            },
            None => {},
        }
    }
}

/// A scan records only paths with a matching name.
pub proof fn lemma_scan_marks(
    rules: Rules,
    excluded: Seq<Seq<Seq<char>>>,
    entries: Seq<Listing>,
    order: Seq<usize>,
    n: nat,
    path: Seq<Seq<char>>,
)
    requires
        all_marked(excluded, rules.patterns),
        !marked(path, rules.patterns),
    ensures
        all_marked(scan(rules, excluded, entries, order, n, path).excluded, rules.patterns),
    decreases entries, n,
{
    if n == 0 || n > order.len() {
    } else {
        lemma_scan_marks(rules, excluded, entries, order, (n - 1) as nat, path);
        let prev = scan(rules, excluded, entries, order, (n - 1) as nat, path);
        let at = order[n - 1] as int;
        if 0 <= at < entries.len() {
            let entry = entries[at];
            let below = path.push(entry.name);
            if matches_any(rules.patterns, entry.name) {
                assert(below[path.len() as int] == entry.name);
                assert(marked(below, rules.patterns));
            } else if entry.is_dir {
                assert(!marked(below, rules.patterns)) by {
                    if marked(below, rules.patterns) {
                        let k = choose|k: int|
                            0 <= k < below.len() && matches_any(rules.patterns, #[trigger] below[k]);
                        if k < path.len() {
                            assert(below[k] == path[k]);
                        }
                    }
                }
                law_record_is_a_safety_net(rules, prev.excluded, entry, below);
            }
        }
    }
}

/// Whether the captured entries `a` and `b` are alike as far as the walk
/// looks: in name and kind, and, for a directory whose name no pattern is
/// found in, in what `same_directory` asks. `a` lies `depth` levels below
/// the root.
pub open spec fn same_entry(rules: Rules, a: Listing, b: Listing, depth: nat) -> bool
    decreases a, 1nat,
{
    &&& a.name == b.name
    &&& a.is_dir == b.is_dir
    &&& (a.is_dir && !matches_any(rules.patterns, a.name)) ==> same_directory(rules, a, b, depth)
}

/// Whether the captured directories `a` and `b` are alike as far as the
/// walk looks: where the depth limit lets it read them, both could not be
/// read, or they hold as many entries, alike place by place.
pub open spec fn same_directory(rules: Rules, a: Listing, b: Listing, depth: nat) -> bool
    decreases a, 0nat,
{
    (rules.max_depth is Some ==> depth <= rules.max_depth->0) ==> match a.entries {
        None => b.entries is None,
        Some(x) => {
            &&& b.entries is Some
            &&& x.len() == b.entries->0.len()
            &&& forall|i: int|
                0 <= i < x.len() ==> same_entry(rules, #[trigger] x[i], b.entries->0[i], depth + 1)
        },
    }
}

/// What lies in a directory that the walk does not enter has no part in
/// the result: two captures that are alike wherever the walk reads give the
/// same tree and the same record of excluded paths.
pub proof fn law_unread_entries_do_not_count(
    rules: Rules,
    excluded: Seq<Seq<Seq<char>>>,
    a: Listing,
    b: Listing,
    path: Seq<Seq<char>>,
)
    requires
        same_directory(rules, a, b, path.len()),
        path.len() > 0 ==> a.name == b.name,
    ensures
        build(rules, excluded, a, path) == build(rules, excluded, b, path),
    decreases a, 0nat,
{
    if build(rules, excluded, a, path).tree is Some {
        match a.entries {
            Some(x) => {
                let y = b.entries->0;
                assert(names_of(x) =~= names_of(y));
                let order = sorted_order(names_of(x), x.len());
                lemma_scan_alike(rules, excluded, x, y, order, order.len(), path);
            },
            None => {},
        }
    }
}

/// Scans of entries that are alike place by place give the same.
pub proof fn lemma_scan_alike(
    rules: Rules,
    excluded: Seq<Seq<Seq<char>>>,
    x: Seq<Listing>,
    y: Seq<Listing>,
    order: Seq<usize>,
    n: nat,
    path: Seq<Seq<char>>,
)
    requires
        x.len() == y.len(),
        forall|i: int|
            0 <= i < x.len() ==> same_entry(rules, #[trigger] x[i], y[i], path.len() + 1),
    ensures
        scan(rules, excluded, x, order, n, path) == scan(rules, excluded, y, order, n, path),
    decreases x, n,
{
    if n == 0 || n > order.len() {
    } else {
        lemma_scan_alike(rules, excluded, x, y, order, (n - 1) as nat, path);
        let prev = scan(rules, excluded, x, order, (n - 1) as nat, path);
        let at = order[n - 1] as int;
        if 0 <= at < x.len() {
            assert(same_entry(rules, x[at], y[at], path.len() + 1));
            if !matches_any(rules.patterns, x[at].name) && x[at].is_dir {
                law_unread_entries_do_not_count(
                    rules,
                    prev.excluded,
                    x[at],
                    y[at],
                    path.push(x[at].name),
                );
            }
        }
    }
}

/// Two runs with the same settings on the same captured directory write
/// the same lines: the output is a function of the settings and of what
/// was captured.
pub proof fn law_runs_agree(
    first: crate::printer::Config,
    second: crate::printer::Config,
    a: crate::listing::FsEntry,
    b: crate::listing::FsEntry,
)
    requires
        first@ == second@,
        a@ == b@,
    ensures
        output(first@, Seq::empty(), a@) == output(second@, Seq::empty(), b@),
{
}

} // verus!
