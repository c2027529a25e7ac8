//! The structure of a 3D island: which entries get a block, in which order, on which layer,
//! standing on which platform and taking which share of it. Coordinates are left to the
//! caller, which fills them in from these shares.

use crate::hash::{hash_string, spec_hash_string};
use crate::order::{is_largest_first, kid_sizes, order_largest_first, sizes_of_children};
use crate::types::{Node, NodeKind};
use std::path::PathBuf;
use vstd::prelude::*;

verus! {

/// A folder's slab, or a file's tower.
#[derive(Debug, Clone, Copy, PartialEq, Eq, Structural)]
pub enum Shape {
    /// A slab one floor thick, as wide and deep as the space it is given.
    Platform,
    /// A file standing on a platform, as tall as its size calls for.
    Tower,
}

/// Where a block stands.
#[derive(Debug, Clone, Copy, PartialEq, Eq, Structural)]
pub enum Anchor {
    /// In the space the caller gives the island (its first block).
    Given,
    /// On the platform at index `parent` of the plan, taking the fraction `share / total`
    /// of that platform's inner width, after the siblings listed before it.
    Within { parent: usize, share: u64, total: u64 },
}

/// A block of the layout, without its coordinates.
#[derive(Debug)]
pub struct BlockPlan {
    pub name: String,
    pub path: PathBuf,
    pub size: u64,
    pub is_dir: bool,
    pub layer: u32,
    pub color_hash: u64,
    pub shape: Shape,
    pub anchor: Anchor,
}

/// A planned block as a value: its name as text, its layer as an integer.
pub struct PlannedBlock {
    pub name: Seq<char>,
    pub path: PathBuf,
    pub size: u64,
    pub is_dir: bool,
    pub layer: int,
    pub color_hash: u64,
    pub shape: Shape,
    pub anchor: Anchor,
}

impl View for BlockPlan {
    type V = PlannedBlock;

    open spec fn view(&self) -> PlannedBlock {
        PlannedBlock {
            name: self.name@,
            path: self.path,
            size: self.size,
            is_dir: self.is_dir,
            layer: self.layer as int,
            color_hash: self.color_hash,
            shape: self.shape,
            anchor: self.anchor,
        }
    }
}

pub open spec fn plan_view(plan: Seq<BlockPlan>) -> Seq<PlannedBlock> {
    plan.map_values(|b: BlockPlan| b@)
}

/// The block of entry `n`, coloured by the hash of its name.
pub open spec fn block_of(n: Node, layer: int, shape: Shape, is_dir: bool, anchor: Anchor) -> PlannedBlock {
    PlannedBlock {
        name: n.metadata.name@,
        path: n.metadata.path,
        size: n.metadata.size,
        is_dir,
        layer,
        color_hash: spec_hash_string(n.metadata.name@),
        shape,
        anchor,
    }
}

/// The total size of the entries of `kids` that are at least `min_size` bytes.
pub open spec fn visible_total(kids: Seq<Box<Node>>, min_size: u64) -> nat
    decreases kids.len(),
{
    if kids.len() == 0 {
        0
    } else {
        visible_total(kids.drop_last(), min_size) + if kids.last().metadata.size >= min_size {
            kids.last().size()
        } else {
            0
        }
    }
}

/// The blocks of the island of `n`, listed from index `base` of the plan on: nothing for an
/// entry below `min_size`; otherwise a platform for `n` on `layer`, then for each child of
/// at least `min_size` bytes, in order, a tower (a file) or the child's own island (a
/// directory) one layer up, standing on that platform and taking the child's share of the
/// children's total.
pub open spec fn island_blocks(n: Node, layer: int, min_size: u64, anchor: Anchor, base: int) -> Seq<PlannedBlock>
    decreases n,
{
    if n.metadata.size < min_size {
        seq![]
    } else {
        let head = block_of(n, layer, Shape::Platform, n.is_directory(), anchor);
        match n.kind {
            NodeKind::File => seq![head],
            NodeKind::Directory(c) => {
                let total = visible_total(c@, min_size);
                if c@.len() == 0 || total == 0 {
                    seq![head]
                } else {
                    seq![head] + child_blocks(c@, layer + 1, min_size, base, total, base + 1)
                }
            },
        }
    }
}

/// The blocks that the children `kids` of the platform at index `parent` add, listed from
/// index `start` of the plan on.
pub open spec fn child_blocks(
    kids: Seq<Box<Node>>,
    layer: int,
    min_size: u64,
    parent: int,
    total: nat,
    start: int,
) -> Seq<PlannedBlock>
    decreases kids,
{
    if kids.len() == 0 {
        seq![]
    } else {
        let before = child_blocks(kids.drop_last(), layer, min_size, parent, total, start);
        let k = *kids.last();
        let anchor = Anchor::Within {
            parent: parent as usize,
            share: k.metadata.size,
            total: total as u64,
        };
        if k.metadata.size < min_size {
            before
        } else if k.is_directory() {
            before + island_blocks(k, layer, min_size, anchor, start + before.len())
        } else {
            before.push(block_of(k, layer, Shape::Tower, false, anchor))
        }
    }
}

/// Planning the island of `n` on `layer` stays within the machine's integers: each total
/// of visible children fits in a `u64`, and each layer that gets a block fits in a `u32`.
pub open spec fn island_fits(n: Node, layer: int, min_size: u64) -> bool
    decreases n, 1int,
{
    if n.metadata.size < min_size {
        true
    } else {
        match n.kind {
            NodeKind::File => true,
            NodeKind::Directory(c) => {
                let total = visible_total(c@, min_size);
                if c@.len() == 0 || total == 0 {
                    true
                } else {
                    &&& total <= u64::MAX
                    &&& layer + 1 <= u32::MAX
                    &&& children_fit(c@, layer + 1, min_size)
                }
            },
        }
    }
}

/// Every island of `kids` on `layer` fits the machine's integers.
pub open spec fn children_fit(kids: Seq<Box<Node>>, layer: int, min_size: u64) -> bool
    decreases kids, 0int,
{
    if kids.len() == 0 {
        true
    } else {
        &&& children_fit(kids.drop_last(), layer, min_size)
        &&& island_fits(*kids.last(), layer, min_size)
    }
}

/// Where the children fit, so does every prefix of them.
proof fn lemma_children_fit_prefix(kids: Seq<Box<Node>>, k: int, layer: int, min_size: u64)
    requires
        0 <= k <= kids.len(),
        children_fit(kids, layer, min_size),
    ensures
        children_fit(kids.take(k), layer, min_size),
    decreases kids.len(),
{
    if k < kids.len() {
        lemma_children_fit_prefix(kids.drop_last(), k, layer, min_size);
        assert(kids.drop_last().take(k) =~= kids.take(k));
    } else {
        assert(kids.take(k) =~= kids);
    }
}

proof fn lemma_fits_directory(n: Node, c: Vec<Box<Node>>, layer: int, min_size: u64)
    requires
        n.kind == NodeKind::Directory(c),
        n.metadata.size >= min_size,
        c@.len() > 0,
        0 < visible_total(c@, min_size) <= u64::MAX,
        layer + 1 <= u32::MAX,
    ensures
        island_fits(n, layer, min_size) <==> children_fit(c@, layer + 1, min_size),
{
}

/// The block of entry `node` on `layer`, coloured by the hash of its name.
fn plan_block(node: &Node, layer: u32, shape: Shape, is_dir: bool, anchor: Anchor) -> (b: BlockPlan)
    ensures
        b@ == block_of(*node, layer as int, shape, is_dir, anchor),
{
    BlockPlan {
        name: node.metadata.name.clone(),
        path: node.metadata.path.clone(),
        size: node.metadata.size,
        is_dir,
        layer,
        color_hash: hash_string(node.metadata.name.as_str()),
        shape,
        anchor,
    }
}

/// The visible total of `kids`, or `None` where it does not fit in a `u64`.
fn visible_total_of(kids: &Vec<Box<Node>>, min_size: u64) -> (total: Option<u64>)
    ensures
        match total {
            Some(t) => t == visible_total(kids@, min_size),
            None => visible_total(kids@, min_size) > u64::MAX,
        },
{
    let mut sum: u64 = 0;
    let mut i: usize = 0;
    while i < kids.len()
        invariant
            i <= kids@.len(),
            sum == visible_total(kids@.take(i as int), min_size),
        decreases kids@.len() - i,
    {
        proof {
            assert(kids@.take(i + 1).drop_last() =~= kids@.take(i as int));
        }
        let size = kids[i].metadata.size;
        if size >= min_size {
            match sum.checked_add(size) {
                Some(s) => {
                    sum = s;
                },
                None => {
                    proof {
                        lemma_visible_total_prefix(kids@, i + 1, min_size);
                    }
                    return None;
                },
            }
        }
        i = i + 1;
    }
    proof {
        assert(kids@.take(i as int) =~= kids@);
    }
    Some(sum)
}

/// The visible total of a prefix never exceeds that of the whole sequence.
proof fn lemma_visible_total_prefix(kids: Seq<Box<Node>>, k: int, min_size: u64)
    requires
        0 <= k <= kids.len(),
    ensures
        visible_total(kids.take(k), min_size) <= visible_total(kids, min_size),
    decreases kids.len(),
{
    if k < kids.len() {
        lemma_visible_total_prefix(kids.drop_last(), k, min_size);
        assert(kids.drop_last().take(k) =~= kids.take(k));
    } else {
        assert(kids.take(k) =~= kids);
    }
}

/// Appends the island of `node` to `out`; `false`, with `out` left unspecified, exactly
/// where the island does not fit the machine's integers.
fn plan_island_into(
    node: &Node,
    layer: u32,
    min_size: u64,
    anchor: Anchor,
    out: &mut Vec<BlockPlan>,
) -> (ok: bool)
    ensures
        ok == island_fits(*node, layer as int, min_size),
        ok ==> plan_view(final(out)@) == plan_view(old(out)@) + island_blocks(
            *node,
            layer as int,
            min_size,
            anchor,
            old(out)@.len() as int,
        ),
    decreases node,
{
    let ghost start = plan_view(out@);
    if node.metadata.size < min_size {
        proof {
            assert(plan_view(out@) =~= start + seq![]);
        }
        return true;
    }
    let base = out.len();
    let is_dir = match &node.kind {
        NodeKind::Directory(_) => true,
        NodeKind::File => false,
    };
    let head = plan_block(node, layer, Shape::Platform, is_dir, anchor);
    out.push(head);
    let ghost with_head = plan_view(out@);
    proof {
        assert(with_head =~= start + seq![block_of(*node, layer as int, Shape::Platform, is_dir, anchor)]);
    }
    let children = match &node.kind {
        NodeKind::Directory(c) => c,
        NodeKind::File => {
            return true;
        },
    };
    if children.len() == 0 {
        return true;
    }
    let total = match visible_total_of(children, min_size) {
        Some(t) => t,
        None => {
            return false;
        },
    };
    if total == 0 {
        return true;
    }
    if layer == u32::MAX {
        return false;
    }
    let next = layer + 1;
    let mut i: usize = 0;
    while i < children.len()
        invariant
            0 < total,
            node.metadata.size >= min_size,
            total == visible_total(children@, min_size),
            next == layer + 1,
            base == start.len(),
            with_head.len() == base + 1,
            i <= children@.len(),
            *node == (Node { metadata: node.metadata, kind: NodeKind::Directory(*children) }),
            children_fit(children@.take(i as int), layer + 1, min_size),
            plan_view(out@) == with_head + child_blocks(
                children@.take(i as int),
                next as int,
                min_size,
                base as int,
                total as nat,
                base + 1,
            ),
        decreases children@.len() - i,
    {
        let child: &Node = &children[i];
        let ghost before = child_blocks(
            children@.take(i as int),
            next as int,
            min_size,
            base as int,
            total as nat,
            base + 1,
        );
        proof {
            assert(children@.take(i + 1).drop_last() =~= children@.take(i as int));
            assert(children@.take(i + 1).last() == children@[i as int]);
        }
        if child.metadata.size >= min_size {
            let within = Anchor::Within { parent: base, share: child.metadata.size, total };
            match &child.kind {
                NodeKind::Directory(_) => {
                    proof {
                        assert(decreases_to!(*node => node.kind));
                        assert(decreases_to!(node.kind => node.kind->Directory_0));
                        assert(decreases_to!(*children => children@));
                        assert(decreases_to!(children@ => children@[i as int]));
                    }
                    let ok = plan_island_into(child, next, min_size, within, out);
                    if !ok {
                        proof {
                            assert(!island_fits(*children@[i as int], layer + 1, min_size));
                            if island_fits(*node, layer as int, min_size) {
                                lemma_fits_directory(*node, *children, layer as int, min_size);
                                lemma_children_fit_prefix(children@, i + 1, layer + 1, min_size);
                            }
                        }
                        return false;
                    }
                    proof {
                        assert(plan_view(out@) =~= with_head + (before + island_blocks(
                            *child,
                            next as int,
                            min_size,
                            within,
                            base + 1 + before.len(),
                        )));
                    }
                },
                NodeKind::File => {
                    let tower = plan_block(child, next, Shape::Tower, false, within);
                    let ghost prior = plan_view(out@);
                    out.push(tower);
                    proof {
                        assert(plan_view(out@) =~= prior.push(
                            block_of(*child, next as int, Shape::Tower, false, within),
                        ));
                        assert(plan_view(out@) =~= with_head + before.push(
                            block_of(*child, next as int, Shape::Tower, false, within),
                        ));
                    }
                },
            }
        }
        proof {
            assert(island_fits(*children@[i as int], layer + 1, min_size));
            assert(children_fit(children@.take(i + 1), layer + 1, min_size));
        }
        i = i + 1;
    }
    proof {
        lemma_fits_directory(*node, *children, layer as int, min_size);
        assert(children@.take(i as int) =~= children@);
        assert(plan_view(out@) =~= start + island_blocks(
            *node,
            layer as int,
            min_size,
            anchor,
            base as int,
        ));
    }
    true
}

/// The blocks of the island of `node` on `layer`, its first block in the space the caller
/// gives; `None` exactly where planning it would overflow the machine's integers.
pub fn plan_island(node: &Node, layer: u32, min_size: u64) -> (plan: Option<Vec<BlockPlan>>)
    ensures
        plan is Some <==> island_fits(*node, layer as int, min_size),
        plan matches Some(p) ==> plan_view(p@) == island_blocks(
            *node,
            layer as int,
            min_size,
            Anchor::Given,
            0,
        ),
{
    let mut out: Vec<BlockPlan> = Vec::new();
    proof {
        assert(plan_view(out@) =~= Seq::<PlannedBlock>::empty());
    }
    if plan_island_into(node, layer, min_size, Anchor::Given, &mut out) {
        proof {
            assert(plan_view(out@) =~= island_blocks(*node, layer as int, min_size, Anchor::Given, 0));
        }
        Some(out)
    } else {
        None
    }
}

/// The tower of a file standing on its own on `layer`, in the space the caller gives.
pub fn plan_file_block(node: &Node, layer: u32) -> (b: BlockPlan)
    ensures
        b@ == block_of(*node, layer as int, Shape::Tower, false, Anchor::Given),
{
    plan_block(node, layer, Shape::Tower, false, Anchor::Given)
}

/// The plan of a whole layout.
#[derive(Debug)]
pub enum LayoutPlan {
    /// A scanned file: one tower of its own, whatever the size threshold, or nothing where
    /// the file is empty (0-byte files are never drawn).
    Lone(Option<BlockPlan>),
    /// A scanned directory: for each island, largest first, the index of the child it
    /// belongs to and its blocks.
    Islands(Vec<(usize, Vec<BlockPlan>)>),
}

/// Every child of the directory fits, as an island on the ground layer.
pub open spec fn islands_fit(kids: Seq<Box<Node>>, min_size: u64) -> bool {
    forall|i: int| 0 <= i < kids.len() ==> #[trigger] island_fits(*kids[i], 0, min_size)
}

/// The plan of the layout of `root`: a file is a lone tower on the ground layer, whatever
/// `min_size` is, or nothing where it is empty; a directory is the islands of its children of at least `min_size` bytes, on
/// the ground layer, largest first. `None` exactly where planning some island would
/// overflow the machine's integers.
pub fn plan_layout(root: &Node, min_size: u64) -> (plan: Option<LayoutPlan>)
    ensures
        root.kind is File ==> (plan matches Some(LayoutPlan::Lone(tower)) && {
            &&& tower is None <==> root.metadata.size == 0
            &&& tower matches Some(b) ==> b@ == block_of(
                *root,
                0,
                Shape::Tower,
                false,
                Anchor::Given,
            )
        }),
        root.kind matches NodeKind::Directory(c) ==> {
            &&& plan is Some <==> islands_fit(c@, min_size)
            &&& plan matches Some(p) ==> (p matches LayoutPlan::Islands(v) && {
                &&& is_largest_first(kid_sizes(c@), min_size, v@.map_values(|e: (usize, Vec<BlockPlan>)| e.0))
                &&& forall|k: int|
                    0 <= k < v@.len() ==> plan_view((#[trigger] v@[k]).1@) == island_blocks(
                        *c@[v@[k].0 as int],
                        0,
                        min_size,
                        Anchor::Given,
                        0,
                    )
            })
        },
{
    let children = match &root.kind {
        NodeKind::File => {
            if root.metadata.size == 0 {
                return Some(LayoutPlan::Lone(None));
            }
            return Some(LayoutPlan::Lone(Some(plan_file_block(root, 0))));
        },
        NodeKind::Directory(c) => c,
    };
    let sizes = sizes_of_children(children);
    let order = order_largest_first(&sizes, min_size);
    let mut islands: Vec<(usize, Vec<BlockPlan>)> = Vec::new();
    let mut k: usize = 0;
    while k < order.len()
        invariant
            root.kind == NodeKind::Directory(*children),
            is_largest_first(kid_sizes(children@), min_size, order@),
            k <= order@.len(),
            islands@.len() == k,
            forall|j: int| 0 <= j < k ==> (#[trigger] islands@[j]).0 == order@[j],
            forall|j: int|
                0 <= j < k ==> plan_view((#[trigger] islands@[j]).1@) == island_blocks(
                    *children@[islands@[j].0 as int],
                    0,
                    min_size,
                    Anchor::Given,
                    0,
                ),
            forall|j: int|
                0 <= j < k ==> island_fits(*children@[(#[trigger] order@[j]) as int], 0, min_size),
        decreases order@.len() - k,
    {
        let index = order[k];
        assert(index < children@.len());
        match plan_island(&children[index], 0, min_size) {
            Some(island) => {
                islands.push((index, island));
            },
            None => {
                proof {
                    assert(!island_fits(*children@[order@[k as int] as int], 0, min_size));
                }
                return None;
            },
        }
        k = k + 1;
    }
    proof {
        assert(islands@.map_values(|e: (usize, Vec<BlockPlan>)| e.0) =~= order@);
        assert forall|i: int| 0 <= i < children@.len() implies #[trigger] island_fits(
            *children@[i],
            0,
            min_size,
        ) by {
            if children@[i].metadata.size >= min_size {
                assert(kid_sizes(children@)[i] == children@[i].metadata.size);
                let j = choose|j: int| 0 <= j < order@.len() && order@[j] == i as usize;
                assert(island_fits(*children@[order@[j] as int], 0, min_size));
            }
        }
    }
    Some(LayoutPlan::Islands(islands))
}

/// The padding of `layer`: the padding listed for it, or `default` past the end of the list.
pub fn padding_for<T: Copy>(layer_padding: &Vec<T>, default: T, layer: u32) -> (p: T)
    ensures
        p == if (layer as int) < layer_padding@.len() {
            layer_padding@[layer as int]
        } else {
            default
        },
{
    let index = layer as usize;
    if index < layer_padding.len() {
        layer_padding[index]
    } else {
        default
    }
}

} // verus!
