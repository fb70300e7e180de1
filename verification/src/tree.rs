//! The size tree: files and directories with the number of bytes they hold.
//!
//! A tree is built once, bottom-up, and never changed afterwards. Every
//! directory holds exactly the sum of its children, and keeps them in the
//! order in which they were listed.

use vstd::prelude::*;

verus! {

/// The mathematical content of a size tree.
pub enum Tree {
    File { name: Seq<char>, size: nat },
    Directory { name: Seq<char>, size: nat, children: Seq<Tree> },
}

/// The bytes held by the first `count` of `children`.
pub open spec fn weight_before(children: Seq<Tree>, count: int) -> nat
    decreases count,
{
    if count <= 0 {
        0
    } else {
        weight_before(children, count - 1) + children[count - 1].size()
    }
}

/// The bytes held by all of `children`.
pub open spec fn total_weight(children: Seq<Tree>) -> nat {
    weight_before(children, children.len() as int)
}

impl Tree {
    /// The bytes that this node accounts for.
    pub open spec fn size(self) -> nat {
        match self {
            Tree::File { size, .. } => size,
            Tree::Directory { size, .. } => size,
        }
    }

    /// The name of this node within its parent.
    pub open spec fn name(self) -> Seq<char> {
        match self {
            Tree::File { name, .. } => name,
            Tree::Directory { name, .. } => name,
        }
    }

    /// The entries of a directory in listing order; a file has none.
    pub open spec fn children(self) -> Seq<Tree> {
        match self {
            Tree::File { .. } => Seq::empty(),
            Tree::Directory { children, .. } => children,
        }
    }

    /// Every directory, down to the leaves, holds exactly the sum of its
    /// children.
    pub open spec fn well_formed(self) -> bool
        decreases self,
    {
        match self {
            Tree::File { .. } => true,
            Tree::Directory { size, children, .. } => {
                &&& size == total_weight(children)
                &&& forall|i: int| 0 <= i < children.len() ==> (#[trigger] children[i]).well_formed()
            },
        }
    }

    /// The node reached by following `path`, a sequence of child indices, from
    /// this node; `None` where the path leaves the tree.
    pub open spec fn descend(self, path: Seq<int>) -> Option<Tree>
        decreases path.len(),
    {
        if path.len() == 0 {
            Some(self)
        } else if self is Directory && 0 <= path[0] < self.children().len() {
            self.children()[path[0]].descend(path.drop_first())
        } else {
            None
        }
    }

    /// The names of the nodes from this one along `path`, as far as the path
    /// stays in the tree.
    pub open spec fn names_along(self, path: Seq<int>) -> Seq<Seq<char>>
        decreases path.len(),
    {
        if path.len() > 0 && self is Directory && 0 <= path[0] < self.children().len() {
            seq![self.name()] + self.children()[path[0]].names_along(path.drop_first())
        } else {
            seq![self.name()]
        }
    }
}

/// The weights before two positions are ordered as the positions are.
pub proof fn lemma_weight_before_monotonic(children: Seq<Tree>, low: int, high: int)
    requires
        low <= high,
    ensures
        weight_before(children, low) <= weight_before(children, high),
    decreases high - low,
{
    if low < high {
        lemma_weight_before_monotonic(children, low, high - 1);
    }
}

/// Following one path and then another is following them joined.
pub proof fn lemma_descend_joined(tree: Tree, first: Seq<int>, second: Seq<int>)
    ensures
        tree.descend(first + second) == match tree.descend(first) {
            Some(reached) => reached.descend(second),
            None => None,
        },
    decreases first.len(),
{
    if first.len() == 0 {
        assert(first + second =~= second);
    } else {
        assert((first + second).drop_first() =~= first.drop_first() + second);
        if tree is Directory && 0 <= first[0] < tree.children().len() {
            lemma_descend_joined(tree.children()[first[0]], first.drop_first(), second);
        }
    }
}

/// Where a path stays in the tree, so does the path without its last step.
pub proof fn lemma_descend_shortened(tree: Tree, path: Seq<int>)
    requires
        path.len() > 0,
        tree.descend(path) is Some,
    ensures
        tree.descend(path.drop_last()) is Some,
{
    assert(path =~= path.drop_last() + seq![path.last()]);
    lemma_descend_joined(tree, path.drop_last(), seq![path.last()]);
}

/// A node of the size tree as it is held in memory.
#[derive(Debug)]
pub struct TreeNode {
    name: String,
    size: u64,
    children: Option<Vec<TreeNode>>,
}

/// The contents of a run of nodes.
pub open spec fn views(nodes: Seq<TreeNode>) -> Seq<Tree> {
    Seq::new(nodes.len(), |i: int| nodes[i]@)
}

/// The characters of each of `names`.
pub open spec fn texts(names: Seq<&String>) -> Seq<Seq<char>> {
    Seq::new(names.len(), |i: int| names[i]@)
}

/// A path of child indices as mathematical integers.
pub open spec fn indices(path: Seq<usize>) -> Seq<int> {
    Seq::new(path.len(), |i: int| path[i] as int)
}

/// The content of one node.
spec fn content(node: TreeNode) -> Tree
    decreases node, 0nat,
{
    match node.children {
        None => Tree::File { name: node.name@, size: node.size as nat },
        Some(kids) => Tree::Directory {
            name: node.name@,
            size: node.size as nat,
            children: contents(kids@, kids@.len()),
        },
    }
}

/// The contents of the first `count` of `nodes`.
spec fn contents(nodes: Seq<TreeNode>, count: nat) -> Seq<Tree>
    decreases nodes, count,
{
    if 0 < count <= nodes.len() {
        contents(nodes, (count - 1) as nat).push(content(nodes[count - 1]))
    } else {
        Seq::empty()
    }
}

impl View for TreeNode {
    type V = Tree;

    closed spec fn view(&self) -> Tree {
        content(*self)
    }
}

/// The contents of a run of nodes are the contents of each, in order.
proof fn lemma_contents(nodes: Seq<TreeNode>, count: nat)
    requires
        count <= nodes.len(),
    ensures
        contents(nodes, count) == views(nodes.take(count as int)),
    decreases count,
{
    if count > 0 {
        lemma_contents(nodes, (count - 1) as nat);
        assert(contents(nodes, count) =~= views(nodes.take(count as int)));
    } else {
        assert(contents(nodes, count) =~= views(nodes.take(count as int)));
    }
}

impl TreeNode {
    /// The content of a directory node is made of the contents of its entries.
    proof fn lemma_directory_view(self)
        requires
            self.children is Some,
        ensures
            self@ == (Tree::Directory {
                name: self.name@,
                size: self.size as nat,
                children: views(self.children->0@),
            }),
    {
        let kids = self.children->0@;
        lemma_contents(kids, kids.len());
        assert(kids.take(kids.len() as int) =~= kids);
        assert(self@.children() =~= views(self.children->0@));
    }

    /// What every node in memory satisfies: its sizes add up.
    #[verifier::type_invariant]
    pub open spec fn sizes_add_up(&self) -> bool {
        self@.well_formed()
    }

    /// A file of `size` bytes.
    pub fn file(name: String, size: u64) -> (node: TreeNode)
        ensures
            node@ == (Tree::File { name: name@, size: size as nat }),
    {
        TreeNode { name, size, children: None }
    }

    /// A directory that could not be listed: it counts as empty.
    pub fn unreadable_directory(name: String) -> (node: TreeNode)
        ensures
            node@ == (Tree::Directory { name: name@, size: 0, children: Seq::empty() }),
    {
        let children: Vec<TreeNode> = Vec::new();
        proof {
            (TreeNode { name, size: 0, children: Some(children) }).lemma_directory_view();
            assert(views(children@) =~= Seq::empty());
        }
        TreeNode { name, size: 0, children: Some(children) }
    }

    /// A directory that holds `children` in the given order. Its size is the
    /// sum of theirs; there is no such node where the sum does not fit in 64
    /// bits.
    pub fn directory(name: String, children: Vec<TreeNode>) -> (node: Option<TreeNode>)
        ensures
            match node {
                Some(n) => n@ == (Tree::Directory {
                    name: name@,
                    size: total_weight(views(children@)),
                    children: views(children@),
                }),
                None => total_weight(views(children@)) > u64::MAX,
            },
    {
        let ghost kids = views(children@);
        let mut sum: u64 = 0;
        let mut i: usize = 0;
        while i < children.len()
            invariant
                i <= children.len(),
                kids == views(children@),
                sum == weight_before(kids, i as int),
                forall|j: int| 0 <= j < i ==> (#[trigger] kids[j]).well_formed(),
            decreases children.len() - i,
        {
            let child = &children[i];
            proof {
                use_type_invariant(child);
            }
            match sum.checked_add(child.size) {
                Some(next) => {
                    sum = next;
                },
                None => {
                    proof {
                        lemma_weight_before_monotonic(kids, i + 1, kids.len() as int);
                    }
                    return None;
                },
            }
            i += 1;
        }
        proof {
            (TreeNode { name, size: sum, children: Some(children) }).lemma_directory_view();
        }
        Some(TreeNode { name, size: sum, children: Some(children) })
    }

    /// The bytes that this node accounts for.
    pub fn size(&self) -> (bytes: u64)
        ensures
            bytes == self@.size(),
            self@.well_formed(),
    {
        proof {
            use_type_invariant(self);
        }
        self.size
    }

    /// The name of this node within its parent.
    pub fn name(&self) -> (name: &String)
        ensures
            name@ == self@.name(),
    {
        &self.name
    }

    /// Whether this node is a directory.
    pub fn is_directory(&self) -> (yes: bool)
        ensures
            yes == (self@ is Directory),
    {
        self.children.is_some()
    }

    /// The entries of a directory in listing order; `None` for a file.
    pub fn children(&self) -> (entries: Option<&Vec<TreeNode>>)
        ensures
            match entries {
                Some(kids) => self@ is Directory && views(kids@) == self@.children(),
                None => self@ is File,
            },
            self@.well_formed(),
    {
        proof {
            use_type_invariant(self);
        }
        match &self.children {
            Some(kids) => {
                proof {
                    self.lemma_directory_view();
                }
                Some(kids)
            },
            None => None,
        }
    }

    /// Follows `path`, a sequence of child indices, down from this node.
    pub fn resolve(&self, path: &Vec<usize>) -> (found: Option<&TreeNode>)
        ensures
            match found {
                Some(node) => self@.descend(indices(path@)) == Some(node@),
                None => self@.descend(indices(path@)) is None,
            },
    {
        let mut current: &TreeNode = self;
        let mut step: usize = 0;
        assert(indices(path@).subrange(0, path.len() as int) =~= indices(path@));
        while step < path.len()
            invariant
                step <= path.len(),
                self@.descend(indices(path@)) == current@.descend(
                    indices(path@).subrange(step as int, path.len() as int),
                ),
            decreases path.len() - step,
        {
            let ghost rest = indices(path@).subrange(step as int, path.len() as int);
            let index = path[step];
            assert(rest[0] == index as int);
            assert(rest.drop_first() =~= indices(path@).subrange(step + 1, path.len() as int));
            match current.children() {
                Some(kids) => {
                    if index < kids.len() {
                        assert(views(kids@)[index as int] == kids@[index as int]@);
                        current = &kids[index];
                    } else {
                        return None;
                    }
                },
                None => {
                    return None;
                },
            }
            step += 1;
        }
        assert(indices(path@).subrange(step as int, path.len() as int).len() == 0);
        Some(current)
    }

    /// The names of the nodes from this one along `path`, as far as the path
    /// stays in the tree.
    pub fn names_along<'a>(&'a self, path: &Vec<usize>) -> (names: Vec<&'a String>)
        ensures
            texts(names@) == self@.names_along(indices(path@)),
    {
        let ghost whole = self@.names_along(indices(path@));
        let mut names: Vec<&'a String> = Vec::new();
        let mut current: &'a TreeNode = self;
        let mut step: usize = 0;
        assert(indices(path@).subrange(0, path.len() as int) =~= indices(path@));
        assert(texts(names@) + whole =~= whole);
        while step < path.len()
            invariant
                step <= path.len(),
                whole == texts(names@) + current@.names_along(
                    indices(path@).subrange(step as int, path.len() as int),
                ),
            ensures
                whole == texts(names@) + seq![current@.name()],
            decreases path.len() - step,
        {
            let ghost rest = indices(path@).subrange(step as int, path.len() as int);
            let ghost before = texts(names@);
            let index = path[step];
            assert(rest[0] == index as int);
            assert(rest.drop_first() =~= indices(path@).subrange(step + 1, path.len() as int));
            let kids = match current.children() {
                Some(kids) => kids,
                None => {
                    break ;
                },
            };
            if index >= kids.len() {
                break ;
            }
            assert(views(kids@)[index as int] == kids@[index as int]@);
            names.push(current.name());
            assert(texts(names@) =~= before + seq![current@.name()]);
            assert(whole =~= texts(names@) + kids@[index as int]@.names_along(rest.drop_first()));
            current = &kids[index];
            step += 1;
        }
        let ghost before = texts(names@);
        names.push(current.name());
        assert(texts(names@) =~= before + seq![current@.name()]);
        names
    }
}

} // verus!
