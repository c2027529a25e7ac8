//! The tree that a scan of the file system produces.

use std::path::PathBuf;
use std::time::SystemTime;
use vstd::prelude::*;

verus! {

#[verifier::external_type_specification]
#[verifier::external_body]
pub struct ExPathBuf(PathBuf);

#[verifier::external_type_specification]
#[verifier::external_body]
pub struct ExSystemTime(SystemTime);

/// `Clone::clone` of std's `PathBuf`: the copy holds the same path as the one it copies,
/// so the two are taken to be the same value.
pub assume_specification[ <PathBuf as Clone>::clone ](p: &PathBuf) -> (r: PathBuf)
    ensures
        r == *p,
;

/// What a scan records of one entry of the file system.
#[derive(Debug, Clone)]
pub struct Metadata {
    pub name: String,
    pub path: PathBuf,
    /// Bytes on disk: a file's length, or the total of a directory's children.
    pub size: u64,
    pub modified: Option<SystemTime>,
}

/// A leaf, or a directory with the entries found in it.
#[derive(Debug)]
pub enum NodeKind {
    File,
    Directory(Vec<Box<Node>>),
}

/// One entry of a scanned tree.
#[derive(Debug)]
pub struct Node {
    pub metadata: Metadata,
    pub kind: NodeKind,
}

impl Node {
    pub open spec fn size(self) -> nat {
        self.metadata.size as nat
    }

    pub open spec fn is_directory(self) -> bool {
        self.kind is Directory
    }
}

/// The total size of a sequence of entries.
pub open spec fn sizes_sum(kids: Seq<Box<Node>>) -> nat
    decreases kids.len(),
{
    if kids.len() == 0 {
        0
    } else {
        sizes_sum(kids.drop_last()) + kids.last().size()
    }
}

/// Every directory of the tree records as its size the total of its children's sizes.
pub open spec fn sizes_consistent(n: Node) -> bool
    decreases n,
{
    match n.kind {
        NodeKind::File => true,
        NodeKind::Directory(c) => {
            &&& n.size() == sizes_sum(c@)
            &&& all_consistent(c@)
        },
    }
}

/// Every entry of `kids` is a consistent tree.
pub open spec fn all_consistent(kids: Seq<Box<Node>>) -> bool
    decreases kids,
{
    if kids.len() == 0 {
        true
    } else {
        &&& all_consistent(kids.drop_last())
        &&& sizes_consistent(*kids.last())
    }
}

/// How many directories deep the tree goes below `n`: 0 for a file or an empty directory.
pub open spec fn depth(n: Node) -> nat
    decreases n,
{
    match n.kind {
        NodeKind::File => 0,
        NodeKind::Directory(c) => children_depth(c@),
    }
}

/// One more than the greatest depth among `kids`, or 0 where there are none.
pub open spec fn children_depth(kids: Seq<Box<Node>>) -> nat
    decreases kids,
{
    if kids.len() == 0 {
        0
    } else {
        let rest = children_depth(kids.drop_last());
        let last = depth(*kids.last()) + 1;
        if rest >= last {
            rest
        } else {
            last
        }
    }
}

/// The total size of the files (the leaves) of the tree below `n`.
pub open spec fn leaf_total(n: Node) -> nat
    decreases n,
{
    match n.kind {
        NodeKind::File => n.size(),
        NodeKind::Directory(c) => leaves_total(c@),
    }
}

/// The total size of the files of the trees in `kids`.
pub open spec fn leaves_total(kids: Seq<Box<Node>>) -> nat
    decreases kids,
{
    if kids.len() == 0 {
        0
    } else {
        leaves_total(kids.drop_last()) + leaf_total(*kids.last())
    }
}

proof fn lemma_consistent_children_total(kids: Seq<Box<Node>>)
    requires
        all_consistent(kids),
    ensures
        sizes_sum(kids) == leaves_total(kids),
    decreases kids, 0int,
{
    if kids.len() > 0 {
        lemma_consistent_children_total(kids.drop_last());
        lemma_consistent_size_is_leaf_total(*kids.last());
    }
}

/// In a tree whose directories record the total of their children's sizes, as a scan
/// builds it, every entry's size, the root's included, is the total size of the files
/// below it.
pub proof fn lemma_consistent_size_is_leaf_total(n: Node)
    requires
        sizes_consistent(n),
    ensures
        n.size() == leaf_total(n),
    decreases n, 1int,
{
    match n.kind {
        NodeKind::File => {},
        NodeKind::Directory(c) => {
            assert(decreases_to!(n => n.kind));
            assert(decreases_to!(n.kind => c));
            lemma_consistent_children_total(c@);
        },
    }
}

/// `a` and `b` are the same tree: equal metadata, the same kind, and children that are
/// pairwise the same trees.
pub open spec fn same_tree(a: Node, b: Node) -> bool
    decreases a,
{
    &&& a.metadata == b.metadata
    &&& same_kind(a.kind, b.kind)
}

/// `a` and `b` are both files, or both directories with pairwise the same children.
pub open spec fn same_kind(a: NodeKind, b: NodeKind) -> bool
    decreases a,
{
    match a {
        NodeKind::File => b is File,
        NodeKind::Directory(x) => match b {
            NodeKind::Directory(y) => same_trees(x@, y@),
            NodeKind::File => false,
        },
    }
}

/// `xs` and `ys` are pairwise the same trees.
pub open spec fn same_trees(xs: Seq<Box<Node>>, ys: Seq<Box<Node>>) -> bool
    decreases xs,
{
    &&& xs.len() == ys.len()
    &&& xs.len() > 0 ==> {
        &&& same_trees(xs.drop_last(), ys.drop_last())
        &&& same_tree(*xs.last(), *ys.last())
    }
}

fn copy_kind(k: &NodeKind) -> (r: NodeKind)
    ensures
        same_kind(*k, r),
    decreases k,
{
    match k {
        NodeKind::File => NodeKind::File,
        NodeKind::Directory(c) => {
            let mut v: Vec<Box<Node>> = Vec::new();
            let mut i: usize = 0;
            while i < c.len()
                invariant
                    *k == NodeKind::Directory(*c),
                    i <= c@.len(),
                    same_trees(c@.take(i as int), v@),
                decreases c@.len() - i,
            {
                proof {
                    assert(decreases_to!(*k => k->Directory_0));
                    assert(decreases_to!(*c => c@));
                    assert(decreases_to!(c@ => c@[i as int]));
                }
                let child = copy_node(&c[i]);
                let ghost before = v@;
                v.push(Box::new(child));
                proof {
                    assert(c@.take(i + 1).drop_last() =~= c@.take(i as int));
                    assert(v@.drop_last() =~= before);
                }
                i = i + 1;
            }
            proof {
                assert(c@.take(i as int) =~= c@);
            }
            NodeKind::Directory(v)
        },
    }
}

fn copy_node(n: &Node) -> (r: Node)
    ensures
        same_tree(*n, r),
    decreases n,
{
    let metadata = Metadata {
        name: n.metadata.name.clone(),
        path: n.metadata.path.clone(),
        size: n.metadata.size,
        modified: n.metadata.modified,
    };
    proof {
        assert(decreases_to!(*n => n.kind));
    }
    Node { metadata, kind: copy_kind(&n.kind) }
}

impl Clone for NodeKind {
    /// A deep copy: the same kind, with children that are the same trees.
    fn clone(&self) -> (r: Self)
        ensures
            same_kind(*self, r),
    {
        copy_kind(self)
    }
}

impl Clone for Node {
    /// A deep copy of the tree.
    fn clone(&self) -> (r: Self)
        ensures
            same_tree(*self, r),
    {
        copy_node(self)
    }
}

} // verus!
