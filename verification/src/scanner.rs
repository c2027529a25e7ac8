//! The rules by which a scan turns what it reads from the file system into nodes.

use crate::types::{all_consistent, sizes_consistent, sizes_sum, Metadata, Node, NodeKind};
use std::path::PathBuf;
use std::time::SystemTime;
use vstd::prelude::*;

verus! {

/// The name shown for an entry: its last path component, or `/` for a path that has none.
pub fn display_name(file_name: Option<String>) -> (name: String)
    ensures
        name@ == match file_name {
            Some(n) => n@,
            None => seq!['/'],
        },
{
    match file_name {
        Some(n) => n,
        None => {
            let root = "/";
            proof {
                reveal_strlit("/");
            }
            root.to_owned()
        },
    }
}

/// An entry whose metadata could not be read: an empty file with no modification time.
pub fn unreadable_node(name: String, path: PathBuf) -> (node: Node)
    ensures
        node.metadata.name == name,
        node.metadata.path == path,
        node.metadata.size == 0,
        node.metadata.modified is None,
        node.kind is File,
        sizes_consistent(node),
{
    Node { metadata: Metadata { name, path, size: 0, modified: None }, kind: NodeKind::File }
}

/// A file, or a symbolic link, which a scan never follows: a leaf of the given length.
pub fn file_node(name: String, path: PathBuf, size: u64, modified: Option<SystemTime>) -> (node:
    Node)
    ensures
        node.metadata.name == name,
        node.metadata.path == path,
        node.metadata.size == size,
        node.metadata.modified == modified,
        node.kind is File,
        sizes_consistent(node),
{
    Node { metadata: Metadata { name, path, size, modified }, kind: NodeKind::File }
}

/// The total size of `children`, or `None` where it does not fit in a `u64`.
pub fn total_size(children: &Vec<Box<Node>>) -> (total: Option<u64>)
    ensures
        match total {
            Some(t) => t == sizes_sum(children@),
            None => sizes_sum(children@) > u64::MAX,
        },
{
    let mut sum: u64 = 0;
    let mut i: usize = 0;
    while i < children.len()
        invariant
            i <= children@.len(),
            sum == sizes_sum(children@.take(i as int)),
        decreases children@.len() - i,
    {
        proof {
            assert(children@.take(i + 1).drop_last() =~= children@.take(i as int));
        }
        match sum.checked_add(children[i].metadata.size) {
            Some(s) => {
                sum = s;
            },
            None => {
                proof {
                    lemma_sizes_sum_prefix(children@, i + 1);
                }
                return None;
            },
        }
        i = i + 1;
    }
    proof {
        assert(children@.take(i as int) =~= children@);
    }
    Some(sum)
}

/// The total of a prefix never exceeds the total of the whole sequence.
pub proof fn lemma_sizes_sum_prefix(kids: Seq<Box<Node>>, k: int)
    requires
        0 <= k <= kids.len(),
    ensures
        sizes_sum(kids.take(k)) <= sizes_sum(kids),
    decreases kids.len(),
{
    if k < kids.len() {
        lemma_sizes_sum_prefix(kids.drop_last(), k);
        assert(kids.drop_last().take(k) =~= kids.take(k));
    } else {
        assert(kids.take(k) =~= kids);
    }
}

/// A directory, whose size is the total of its children's sizes; `None` where that total
/// does not fit in a `u64`. Built from consistent children, the directory is consistent too.
pub fn directory_node(
    name: String,
    path: PathBuf,
    modified: Option<SystemTime>,
    children: Vec<Box<Node>>,
) -> (node: Option<Node>)
    ensures
        node is Some <==> sizes_sum(children@) <= u64::MAX,
        node matches Some(n) ==> {
            &&& n.metadata.name == name
            &&& n.metadata.path == path
            &&& n.metadata.size == sizes_sum(children@)
            &&& n.metadata.modified == modified
            &&& n.kind == NodeKind::Directory(children)
        },
        node matches Some(n) ==> (all_consistent(children@) ==> sizes_consistent(n)),
{
    match total_size(&children) {
        Some(size) => Some(
            Node {
                metadata: Metadata { name, path, size, modified },
                kind: NodeKind::Directory(children),
            },
        ),
        None => None,
    }
}

} // verus!
