use vstd::prelude::*;
use vstd::string::*;
use regex::Regex;
use crate::exclusion::{child_path, lies_under, path_texts, under_any, is_strictly_under};
use crate::listing::{FsEntry, Listing, names_of};
use crate::node::{Tree, TreeNode, count_among};
use crate::order::{sort_entries, sorted_order};
use crate::pattern::{any_match, compile_patterns, matches_any, select_patterns, sources, warning_head};
use crate::render::{children_lines, statistics, statistics_lines, texts, tree_lines};

verus! {

/// The settings of one run.
pub struct Config {
    /// Where the walk starts; the label of the root.
    pub start_path: String,
    /// How many directory levels below the root are entered; `None` for all.
    pub max_depth: Option<usize>,
    /// Whether files are left out.
    pub directories_only: bool,
    /// An entry whose name one of these is found in is left out, with all
    /// that lies below it.
    pub exclude_patterns: Vec<Regex>,
}

/// The mathematical value of the settings.
pub struct Rules {
    pub start_path: Seq<char>,
    pub max_depth: Option<nat>,
    pub directories_only: bool,
    pub patterns: Seq<Seq<char>>,
}

impl View for Config {
    type V = Rules;

    open spec fn view(&self) -> Rules {
        Rules {
            start_path: self.start_path@,
            max_depth: match self.max_depth {
                Some(m) => Some(m as nat),
                None => None,
            },
            directories_only: self.directories_only,
            patterns: sources(self.exclude_patterns@),
        }
    }
}

impl Config {
    /// The settings for the values given on the command line, and the
    /// warnings for the exclude patterns that do not compile: those are left
    /// out, the others kept in their order.
    pub fn from_args(
        directory: String,
        max_depth: Option<usize>,
        directories_only: bool,
        exclude: &Vec<String>,
    ) -> (out: (Config, Vec<String>))
        ensures
            out.0.start_path == directory,
            out.0.max_depth == max_depth,
            out.0.directories_only == directories_only,
            out.0@.patterns == select_patterns(texts(exclude@), exclude@.len(), true),
            out.1@.len() == select_patterns(texts(exclude@), exclude@.len(), false).len(),
            forall|k: int|
                0 <= k < out.1@.len() ==> warning_head(
                    select_patterns(texts(exclude@), exclude@.len(), false)[k],
                ).is_prefix_of(#[trigger] out.1@[k]@),
    {
        let compiled = compile_patterns(exclude);
        (
            Config {
                start_path: directory,
                max_depth,
                directories_only,
                exclude_patterns: compiled.patterns,
            },
            compiled.warnings,
        )
    }
}

/// What building one directory gives: its node, if it has one, and the
/// excluded paths recorded up to then.
pub struct Built {
    pub tree: Option<Tree>,
    pub excluded: Seq<Seq<Seq<char>>>,
}

/// What scanning the entries of one directory gives: the children found, in
/// their order, and the excluded paths recorded up to then.
pub struct Scanned {
    pub children: Seq<Tree>,
    pub excluded: Seq<Seq<Seq<char>>>,
}

/// The node of the directory `dir`, which lies at `path` below the root
/// (the root itself lies at the empty path). There is none where the
/// directory lies deeper than the depth limit or below a recorded path. A
/// directory that could not be read has no children.
pub open spec fn build(
    rules: Rules,
    excluded: Seq<Seq<Seq<char>>>,
    dir: Listing,
    path: Seq<Seq<char>>,
) -> Built
    decreases dir, 0nat,
{
    if (rules.max_depth is Some && path.len() > rules.max_depth->0) || under_any(excluded, path) {
        Built { tree: None, excluded }
    } else {
        let name = if path.len() == 0 {
            rules.start_path
        } else {
            dir.name
        };
        match dir.entries {
            None => Built {
                tree: Some(Tree { name, is_dir: true, children: Seq::empty() }),
                excluded,
            },
            Some(entries) => {
                let order = sorted_order(names_of(entries), entries.len());
                let found = scan(rules, excluded, entries, order, order.len(), path);
                Built {
                    tree: Some(Tree { name, is_dir: true, children: found.children }),
                    excluded: found.excluded,
                }
            },
        }
    }
}

/// The children that the first `n` places of `order` give, where `order`
/// names the entries of the directory at `path` in the order of their
/// names. An entry whose name matches a pattern is recorded and left out;
/// in directories-only mode a file is left out; a directory is built one
/// level down and kept where that gives a node; a file becomes a leaf.
pub open spec fn scan(
    rules: Rules,
    excluded: Seq<Seq<Seq<char>>>,
    entries: Seq<Listing>,
    order: Seq<usize>,
    n: nat,
    path: Seq<Seq<char>>,
) -> Scanned
    decreases entries, n,
{
    if n == 0 || n > order.len() {
        Scanned { children: Seq::empty(), excluded }
    } else {
        let prev = scan(rules, excluded, entries, order, (n - 1) as nat, path);
        let at = order[n - 1] as int;
        if !(0 <= at < entries.len()) {
            prev
        } else {
            let entry = entries[at];
            if matches_any(rules.patterns, entry.name) {
                Scanned {
                    children: prev.children,
                    excluded: prev.excluded.push(path.push(entry.name)),
                }
            } else if rules.directories_only && !entry.is_dir {
                prev
            } else if entry.is_dir {
                let below = build(rules, prev.excluded, entry, path.push(entry.name));
                Scanned {
                    children: match below.tree {
                        Some(t) => prev.children.push(t),
                        None => prev.children,
                    },
                    excluded: below.excluded,
                }
            } else {
                Scanned {
                    children: prev.children.push(
                        Tree { name: entry.name, is_dir: false, children: Seq::empty() },
                    ),
                    excluded: prev.excluded,
                }
            }
        }
    }
}

/// The lines of a built tree and of its totals. The root is not counted; a
/// file is counted unless the mode is directories-only.
pub open spec fn report_lines(t: Tree, directories_only: bool) -> Seq<Seq<char>> {
    tree_lines(t) + statistics_lines(
        count_among(t.children, t.children.len(), true),
        if directories_only {
            0
        } else {
            count_among(t.children, t.children.len(), false)
        },
        directories_only,
    )
}

/// All that a run writes for the captured directory `root`.
pub open spec fn output(rules: Rules, excluded: Seq<Seq<Seq<char>>>, root: Listing) -> Seq<Seq<char>> {
    match build(rules, excluded, root, Seq::empty()).tree {
        Some(t) => report_lines(t, rules.directories_only),
        None => Seq::empty(),
    }
}

/// Builds the tree of one run and renders it.
pub struct TreePrinter {
    pub config: Config,
    /// The paths, as components below the root, of the entries that were
    /// left out because their name matched a pattern.
    pub excluded_paths: Vec<Vec<String>>,
}

impl TreePrinter {
    /// The recorded paths.
    pub open spec fn excluded(&self) -> Seq<Seq<Seq<char>>> {
        path_texts(self.excluded_paths@)
    }

    /// A printer with nothing recorded.
    pub fn new(config: Config) -> (printer: TreePrinter)
        ensures
            printer.config == config,
            printer.excluded() == Seq::<Seq<Seq<char>>>::empty(),
    {
        let printer = TreePrinter { config, excluded_paths: Vec::new() };
        assert(printer.excluded() =~= Seq::empty());
        printer
    }

    /// Whether an entry of this name is left out: one of the patterns is
    /// found somewhere in the name.
    pub fn should_exclude(&self, file_name: &str) -> (excluded: bool)
        ensures
            excluded == matches_any(self.config@.patterns, file_name@),
    {
        any_match(&self.config.exclude_patterns, file_name)
    }

    /// Whether the walk reads the entries of a directory of this name that
    /// lies `depth` levels below the root: its name matches no pattern and
    /// the depth limit allows its level.
    pub fn enters(&self, name: &str, depth: usize) -> (read: bool)
        ensures
            read == (!matches_any(self.config@.patterns, name@) && (self.config@.max_depth
                matches Some(m) ==> depth <= m)),
    {
        if self.should_exclude(name) {
            return false;
        }
        match self.config.max_depth {
            Some(max_depth) => depth <= max_depth,
            None => true,
        }
    }

    /// Whether `path` lies below a recorded path; a recorded path does not
    /// lie below itself.
    pub fn is_descendant_of_excluded(&self, path: &Vec<String>) -> (under: bool)
        ensures
            under == under_any(self.excluded(), texts(path@)),
    {
        let mut i: usize = 0;
        while i < self.excluded_paths.len()
            invariant
                0 <= i <= self.excluded_paths@.len(),
                forall|j: int|
                    0 <= j < i ==> !is_strictly_under(texts(path@), #[trigger] self.excluded()[j]),
            decreases self.excluded_paths@.len() - i,
        {
            if lies_under(path, &self.excluded_paths[i]) {
                assert(is_strictly_under(texts(path@), self.excluded()[i as int]));
                return true;
            }
            i += 1;
        }
        false
    }

    /// Builds the node of the directory `dir`, which lies at `path` below
    /// the root, `current_depth` levels down, and records the entries that
    /// are left out for their name.
    pub fn build_tree_recursive(
        &mut self,
        dir: &FsEntry,
        path: &mut Vec<String>,
        current_depth: usize,
    ) -> (result: Option<TreeNode>)
        requires
            current_depth == old(path)@.len(),
        ensures
            final(path)@ == old(path)@,
            final(self).config == old(self).config,
            final(self).excluded() == build(
                old(self).config@,
                old(self).excluded(),
                dir@,
                texts(old(path)@),
            ).excluded,
            match result {
                Some(node) => build(
                    old(self).config@,
                    old(self).excluded(),
                    dir@,
                    texts(old(path)@),
                ).tree == Some(node@),
                None => build(
                    old(self).config@,
                    old(self).excluded(),
                    dir@,
                    texts(old(path)@),
                ).tree is None,
            },
        decreases dir,
    {
        if let Some(max_depth) = self.config.max_depth {
            if current_depth > max_depth {
                return None;
            }
        }
        if self.is_descendant_of_excluded(path) {
            return None;
        }
        let name = if path.len() == 0 {
            self.config.start_path.clone()
        } else {
            dir.name.clone()
        };
        let mut node = TreeNode::new(name, true);
        proof {
            dir.lemma_view();
        }
        let entries = match &dir.entries {
            Some(list) => list,
            None => {
                return Some(node);
            },
        };
        let order = sort_entries(entries);
        let ghost rules = self.config@;
        let ghost start = self.excluded();
        let ghost listed = dir@.entries->0;
        let ghost here = texts(path@);
        proof {
            crate::listing::lemma_listings_of(entries@, entries@.len());
            assert(listed =~= crate::listing::listings_of(entries@, entries@.len()));
        }
        let mut k: usize = 0;
        while k < order.len()
            invariant
                0 <= k <= order@.len(),
                path@ == old(path)@,
                here == texts(path@),
                current_depth == path@.len(),
                self.config == old(self).config,
                rules == self.config@,
                dir.entries == Some(*entries),
                listed.len() == entries@.len(),
                forall|j: int| 0 <= j < entries@.len() ==> #[trigger] listed[j] == entries@[j]@,
                forall|j: int| 0 <= j < order@.len() ==> 0 <= #[trigger] order@[j] < entries@.len(),
                node@.name == (if here.len() == 0 {
                    rules.start_path
                } else {
                    dir@.name
                }),
                node@.is_dir,
                node@.children == scan(rules, start, listed, order@, k as nat, here).children,
                self.excluded() == scan(rules, start, listed, order@, k as nat, here).excluded,
            decreases order@.len() - k,
        {
            let entry = &entries[order[k]];
            proof {
                entry.lemma_view();
                assert(listed[order@[k as int] as int] == entry@);
            }
            if self.should_exclude(entry.name.as_str()) {
                let recorded = child_path(path, entry.name.as_str());
                let ghost before = self.excluded();
                self.excluded_paths.push(recorded);
                assert(self.excluded() =~= before.push(here.push(entry@.name)));
            } else if self.config.directories_only && !entry.is_dir {
            } else if entry.is_dir {
                path.push(entry.name.clone());
                assert(texts(path@) =~= here.push(entry@.name));
                let depth_below: usize = path.len();
                let child = self.build_tree_recursive(entry, path, depth_below);
                path.pop();
                assert(path@ =~= old(path)@);
                if let Some(child_node) = child {
                    node.add_child(child_node);
                }
            } else {
                let leaf = TreeNode::new(entry.name.clone(), false);
                node.add_child(leaf);
            }
            k += 1;
        }
        Some(node)
    }

    /// Builds the tree of the captured directory `root` and renders it:
    /// the root's name, one line for each entry, an empty line and the
    /// totals.
    pub fn display_tree(&mut self, root: &FsEntry) -> (lines: Vec<String>)
        ensures
            texts(lines@) == output(old(self).config@, old(self).excluded(), root@),
            final(self).config == old(self).config,
            final(self).excluded() == build(
                old(self).config@,
                old(self).excluded(),
                root@,
                Seq::empty(),
            ).excluded,
    {
        let show_files = !self.config.directories_only;
        let mut path: Vec<String> = Vec::new();
        let mut out: Vec<String> = Vec::new();
        assert(texts(path@) =~= Seq::empty());
        assert(texts(out@) =~= Seq::empty());
        if let Some(root_node) = self.build_tree_recursive(root, &mut path, 0) {
            let mut file_count: usize = 0;
            let mut dir_count: usize = 0;
            out.push(root_node.name.clone());
            proof {
                root_node.lemma_view();
                reveal_strlit("");
                assert(texts(out@) =~= seq![root_node@.name]);
            }
            let n: usize = root_node.children.len();
            let mut i: usize = 0;
            while i < n
                invariant
                    0 <= i <= n,
                    n == root_node.children@.len(),
                    n == root_node@.children.len(),
                    show_files == !self.config.directories_only,
                    texts(out@) == seq![root_node@.name] + children_lines(
                        root_node@.children,
                        i as nat,
                        Seq::empty(),
                    ),
                    dir_count == count_among(root_node@.children, i as nat, true),
                    file_count == (if show_files {
                        count_among(root_node@.children, i as nat, false)
                    } else {
                        0
                    }),
                    file_count + dir_count <= out@.len(),
                decreases n - i,
            {
                proof {
                    root_node.lemma_view();
                    reveal_strlit("");
                    assert(""@ =~= Seq::<char>::empty());
                }
                root_node.children[i].display_entry(
                    "",
                    i == n - 1,
                    &mut file_count,
                    &mut dir_count,
                    show_files,
                    &mut out,
                );
                proof {
                    assert(texts(out@) =~= seq![root_node@.name] + children_lines(
                        root_node@.children,
                        (i + 1) as nat,
                        Seq::empty(),
                    ));
                }
                i += 1;
            }
            let ghost shown = texts(out@);
            let mut ending = self.display_statistics(dir_count, file_count);
            let ghost last = texts(ending@);
            out.append(&mut ending);
            assert(texts(out@) =~= shown + last);
        }
        out
    }

    /// The two lines that end the output: an empty line, then the number of
    /// directories and, unless the mode is directories-only, of files.
    pub fn display_statistics(&self, dir_count: usize, file_count: usize) -> (lines: Vec<String>)
        ensures
            texts(lines@) == statistics_lines(
                dir_count as nat,
                file_count as nat,
                self.config@.directories_only,
            ),
    {
        statistics(dir_count, file_count, self.config.directories_only)
    }
}

} // verus!
