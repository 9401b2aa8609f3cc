use vstd::prelude::*;

verus! {

/// The mathematical value of a tree node: a label, a classification and the
/// ordered values of the children.
pub struct Tree {
    pub name: Seq<char>,
    pub is_dir: bool,
    pub children: Seq<Tree>,
}

/// One entry of the tree that is shown: a directory or a file.
#[derive(Debug)]
pub struct TreeNode {
    /// Display label: the start path for the root, the bare entry name otherwise.
    pub name: String,
    /// Whether the entry is a directory.
    pub is_dir: bool,
    /// The entries below this one, in the order in which they are shown.
    pub children: Vec<TreeNode>,
}

impl View for TreeNode {
    type V = Tree;

    open spec fn view(&self) -> Tree {
        tree_of(*self)
    }
}

/// The value of a node.
pub open spec fn tree_of(node: TreeNode) -> Tree
    decreases node, 0nat,
{
    Tree {
        name: node.name@,
        is_dir: node.is_dir,
        children: trees_of(node.children@, node.children@.len()),
    }
}

/// The values of the first `n` of the nodes `nodes`, in their order.
pub open spec fn trees_of(nodes: Seq<TreeNode>, n: nat) -> Seq<Tree>
    decreases nodes, n,
{
    if n == 0 || n > nodes.len() {
        Seq::empty()
    } else {
        trees_of(nodes, (n - 1) as nat).push(tree_of(nodes[n - 1]))
    }
}

/// `trees_of` keeps the length and the order.
pub proof fn lemma_trees_of(nodes: Seq<TreeNode>, n: nat)
    requires
        n <= nodes.len(),
    ensures
        trees_of(nodes, n).len() == n,
        forall|i: int| 0 <= i < n ==> #[trigger] trees_of(nodes, n)[i] == tree_of(nodes[i]),
    decreases n,
{
    if n > 0 {
        lemma_trees_of(nodes, (n - 1) as nat);
    }
}

/// A file has no children, and so for every node below.
pub open spec fn well_formed(t: Tree) -> bool
    decreases t,
{
    &&& !t.is_dir ==> t.children.len() == 0
    &&& forall|i: int| 0 <= i < t.children.len() ==> well_formed(#[trigger] t.children[i])
}

/// The number of nodes of `t`, itself included, that are directories
/// (`dirs` true) or files (`dirs` false).
pub open spec fn count_in(t: Tree, dirs: bool) -> nat
    decreases t, 0nat,
{
    (if t.is_dir == dirs { 1nat } else { 0nat }) + count_among(t.children, t.children.len(), dirs)
}

/// The same count over the first `n` trees of `ts`.
pub open spec fn count_among(ts: Seq<Tree>, n: nat, dirs: bool) -> nat
    decreases ts, n,
{
    if n == 0 || n > ts.len() {
        0
    } else {
        count_among(ts, (n - 1) as nat, dirs) + count_in(ts[n - 1], dirs)
    }
}

impl TreeNode {
    /// The value of a node, field by field: the children's values are the
    /// values of the children.
    pub proof fn lemma_view(&self)
        ensures
            self@.name == self.name@,
            self@.is_dir == self.is_dir,
            self@.children.len() == self.children@.len(),
            forall|i: int|
                0 <= i < self.children@.len() ==> #[trigger] self@.children[i]
                    == self.children@[i]@,
    {
        lemma_trees_of(self.children@, self.children@.len());
    }

    /// A node without children.
    pub fn new(name: String, is_dir: bool) -> (node: TreeNode)
        ensures
            node@ == (Tree { name: name@, is_dir: is_dir, children: Seq::empty() }),
            node.name == name,
            node.children@.len() == 0,
    {
        let node = TreeNode { name, is_dir, children: Vec::new() };
        assert(node@.children =~= Seq::empty());
        node
    }

    /// Appends `child` behind the children already held.
    pub fn add_child(&mut self, child: TreeNode)
        ensures
            final(self)@ == (Tree {
                name: old(self)@.name,
                is_dir: old(self)@.is_dir,
                children: old(self)@.children.push(child@),
            }),
            final(self).name == old(self).name,
            final(self).is_dir == old(self).is_dir,
            final(self).children@ == old(self).children@.push(child),
    {
        self.children.push(child);
        proof {
            old(self).lemma_view();
            self.lemma_view();
        }
        assert(self@.children =~= old(self)@.children.push(child@));
    }
}

} // verus!
