//! The structure of the 2D treemap drawing: which entries are drawn, in which order, at
//! which depth, and in which slot of their parent's rectangle. The rectangles themselves
//! are left to the caller, which squarifies each directory's rectangle by the weights given
//! here.

use crate::order::{is_largest_first, kid_sizes, lemma_largest_first_unique, order_largest_first, sizes_of_children};
use crate::types::{children_depth, depth, Node, NodeKind};
use vstd::prelude::*;

verus! {

/// One rectangle of the drawing, without its coordinates.
#[derive(Debug)]
pub struct DrawStep {
    pub name: String,
    pub size: u64,
    /// How many directories above it are drawn: 0 for the root.
    pub depth: usize,
    pub is_dir: bool,
    /// The index, in the drawing, of the directory whose rectangle it is drawn in.
    pub parent: Option<usize>,
    /// Its slot among the rectangles into which that directory's rectangle is divided.
    pub rank: usize,
    /// The sizes of its children, largest first: the weights by which its rectangle is
    /// divided, one slot for each, in this order.
    pub child_weights: Vec<u64>,
}

/// A drawing step as a value.
pub struct DrawnItem {
    pub name: Seq<char>,
    pub size: u64,
    pub depth: int,
    pub is_dir: bool,
    pub parent: Option<usize>,
    pub rank: int,
    pub child_weights: Seq<u64>,
}

impl View for DrawStep {
    type V = DrawnItem;

    open spec fn view(&self) -> DrawnItem {
        DrawnItem {
            name: self.name@,
            size: self.size,
            depth: self.depth as int,
            is_dir: self.is_dir,
            parent: self.parent,
            rank: self.rank as int,
            child_weights: self.child_weights@,
        }
    }
}

pub open spec fn draw_view(steps: Seq<DrawStep>) -> Seq<DrawnItem> {
    steps.map_values(|s: DrawStep| s@)
}

/// The order in which the children `kids` are drawn: all of them, largest first, ties in
/// the order given (the only order that `is_largest_first` admits).
pub open spec fn size_order(kids: Seq<Box<Node>>) -> Seq<usize> {
    choose|o: Seq<usize>| is_largest_first(kid_sizes(kids), 0, o)
}

/// The sizes of `kids` in the order `order`.
pub open spec fn weights_in_order(kids: Seq<Box<Node>>, order: Seq<usize>) -> Seq<u64> {
    order.map_values(|i: usize| kids[i as int].metadata.size)
}

/// The drawing of the tree `n` from index `base` on: first `n` itself, at `depth`, in slot
/// `rank` of `parent`; then, for a directory with children, the drawing of each child,
/// largest first, one level deeper, in its slot of `n`'s rectangle.
pub open spec fn draw_steps(n: Node, depth: int, parent: Option<usize>, rank: int, base: int) -> Seq<DrawnItem>
    decreases n, 0int,
{
    match n.kind {
        NodeKind::File => seq![
            DrawnItem { name: n.metadata.name@, size: n.metadata.size, depth, is_dir: false, parent, rank, child_weights: seq![] },
        ],
        NodeKind::Directory(c) => {
            if c@.len() == 0 {
                seq![
                    DrawnItem { name: n.metadata.name@, size: n.metadata.size, depth, is_dir: true, parent, rank, child_weights: seq![] },
                ]
            } else {
                let order = size_order(c@);
                seq![
                    DrawnItem {
                        name: n.metadata.name@,
                        size: n.metadata.size,
                        depth,
                        is_dir: true,
                        parent,
                        rank,
                        child_weights: weights_in_order(c@, order),
                    },
                ] + child_draws(c@, order, depth + 1, base, base + 1)
            }
        },
    }
}

/// The drawings of the children `kids` taken in the order `order`, in the rectangle of the
/// step at index `parent`, listed from index `start` on.
pub open spec fn child_draws(kids: Seq<Box<Node>>, order: Seq<usize>, depth: int, parent: int, start: int) -> Seq<DrawnItem>
    decreases kids, order.len(),
{
    if order.len() == 0 {
        seq![]
    } else {
        let before = child_draws(kids, order.drop_last(), depth, parent, start);
        let j = order.last() as int;
        if 0 <= j < kids.len() {
            before + draw_steps(
                *kids[j],
                depth,
                Some(parent as usize),
                order.len() - 1,
                start + before.len(),
            )
        } else {
            before
        }
    }
}

proof fn lemma_children_depth_above(kids: Seq<Box<Node>>, j: int)
    requires
        0 <= j < kids.len(),
    ensures
        depth(*kids[j]) + 1 <= children_depth(kids),
    decreases kids.len(),
{
    if j < kids.len() - 1 {
        lemma_children_depth_above(kids.drop_last(), j);
    }
}

proof fn lemma_children_depth_bounded(kids: Seq<Box<Node>>, bound: int)
    requires
        forall|j: int| 0 <= j < kids.len() ==> depth(#[trigger] *kids[j]) + 1 <= bound,
        0 <= bound,
    ensures
        children_depth(kids) <= bound,
    decreases kids.len(),
{
    if kids.len() > 0 {
        assert forall|j: int| 0 <= j < kids.drop_last().len() implies depth(
            #[trigger] *kids.drop_last()[j],
        ) + 1 <= bound by {
            assert(kids.drop_last()[j] == kids[j]);
        }
        lemma_children_depth_bounded(kids.drop_last(), bound);
        assert(depth(*kids[kids.len() - 1]) + 1 <= bound);
    }
}

/// Appends the drawing of `node` to `out`; `false`, with `out` left unspecified, exactly
/// where some depth would overflow a `usize`.
fn draw_into(
    node: &Node,
    level: usize,
    parent: Option<usize>,
    rank: usize,
    out: &mut Vec<DrawStep>,
) -> (ok: bool)
    ensures
        ok == (level + depth(*node) <= usize::MAX),
        ok ==> draw_view(final(out)@) == draw_view(old(out)@) + draw_steps(
            *node,
            level as int,
            parent,
            rank as int,
            old(out)@.len() as int,
        ),
    decreases node,
{
    let ghost start = draw_view(out@);
    let base = out.len();
    let children = match &node.kind {
        NodeKind::File => {
            out.push(
                DrawStep {
                    name: node.metadata.name.clone(),
                    size: node.metadata.size,
                    depth: level,
                    is_dir: false,
                    parent,
                    rank,
                    child_weights: Vec::new(),
                },
            );
            proof {
                assert(draw_view(out@) =~= start + draw_steps(*node, level as int, parent, rank as int, base as int));
            }
            return true;
        },
        NodeKind::Directory(c) => c,
    };
    if children.len() == 0 {
        out.push(
            DrawStep {
                name: node.metadata.name.clone(),
                size: node.metadata.size,
                depth: level,
                is_dir: true,
                parent,
                rank,
                child_weights: Vec::new(),
            },
        );
        proof {
            assert(draw_view(out@) =~= start + draw_steps(*node, level as int, parent, rank as int, base as int));
        }
        return true;
    }
    let sizes = sizes_of_children(children);
    let order = order_largest_first(&sizes, 0);
    proof {
        let chosen = size_order(children@);
        assert(is_largest_first(kid_sizes(children@), 0, chosen));
        lemma_largest_first_unique(kid_sizes(children@), 0, order@, chosen);
    }
    let mut weights: Vec<u64> = Vec::new();
    let mut k: usize = 0;
    while k < order.len()
        invariant
            is_largest_first(kid_sizes(children@), 0, order@),
            sizes@ == kid_sizes(children@),
            k <= order@.len(),
            weights@ =~= weights_in_order(children@, order@).take(k as int),
        decreases order@.len() - k,
    {
        weights.push(sizes[order[k]]);
        k = k + 1;
    }
    proof {
        assert(weights@ =~= weights_in_order(children@, order@));
    }
    out.push(
        DrawStep {
            name: node.metadata.name.clone(),
            size: node.metadata.size,
            depth: level,
            is_dir: true,
            parent,
            rank,
            child_weights: weights,
        },
    );
    let ghost with_head = draw_view(out@);
    proof {
        assert(with_head =~= start + seq![
            DrawnItem {
                name: node.metadata.name@,
                size: node.metadata.size,
                depth: level as int,
                is_dir: true,
                parent,
                rank: rank as int,
                child_weights: weights_in_order(children@, order@),
            },
        ]);
    }
    if level == usize::MAX {
        proof {
            lemma_children_depth_above(children@, 0);
        }
        return false;
    }
    let next = level + 1;
    let mut k: usize = 0;
    while k < order.len()
        invariant
            *node == (Node { metadata: node.metadata, kind: NodeKind::Directory(*children) }),
            is_largest_first(kid_sizes(children@), 0, order@),
            order@ == size_order(children@),
            next == level + 1,
            base == start.len(),
            with_head.len() == base + 1,
            k <= order@.len(),
            forall|q: int|
                0 <= q < k ==> next + depth(*children@[(#[trigger] order@[q]) as int]) <= usize::MAX,
            draw_view(out@) == with_head + child_draws(
                children@,
                order@.take(k as int),
                next as int,
                base as int,
                base + 1,
            ),
        decreases order@.len() - k,
    {
        let index = order[k];
        proof {
            assert(order@.take(k + 1).drop_last() =~= order@.take(k as int));
            assert(order@.take(k + 1).last() == order@[k as int]);
            assert(decreases_to!(*node => node.kind));
            assert(decreases_to!(node.kind => node.kind->Directory_0));
            assert(decreases_to!(*children => children@));
            assert(decreases_to!(children@ => children@[index as int]));
        }
        let ghost before = child_draws(children@, order@.take(k as int), next as int, base as int, base + 1);
        let ok = draw_into(&children[index], next, Some(base), k, out);
        if !ok {
            proof {
                lemma_children_depth_above(children@, index as int);
            }
            return false;
        }
        proof {
            assert(draw_view(out@) =~= with_head + (before + draw_steps(
                *children@[index as int],
                next as int,
                Some(base),
                k as int,
                base + 1 + before.len(),
            )));
        }
        k = k + 1;
    }
    proof {
        assert(order@.take(k as int) =~= order@);
        assert forall|j: int| 0 <= j < children@.len() implies depth(#[trigger] *children@[j]) + 1
            <= usize::MAX - level by {
            // Every child is at least 0 bytes, so the order lists it.
            assert(kid_sizes(children@)[j] >= 0);
            let q = choose|q: int| 0 <= q < order@.len() && order@[q] == j as usize;
            assert(next + depth(*children@[order@[q] as int]) <= usize::MAX);
        }
        lemma_children_depth_bounded(children@, usize::MAX - level);
        assert(draw_view(out@) =~= start + draw_steps(*node, level as int, parent, rank as int, base as int));
    }
    true
}

/// The drawing of the tree `root`: `root` at depth 0 first, then each directory's children,
/// largest first, one level deeper; `None` exactly where a depth would overflow a `usize`.
pub fn draw_plan(root: &Node) -> (plan: Option<Vec<DrawStep>>)
    ensures
        plan is Some <==> depth(*root) <= usize::MAX,
        plan matches Some(p) ==> draw_view(p@) == draw_steps(*root, 0, None, 0, 0),
{
    let mut out: Vec<DrawStep> = Vec::new();
    proof {
        assert(draw_view(out@) =~= Seq::<DrawnItem>::empty());
    }
    if draw_into(root, 0, None, 0, &mut out) {
        proof {
            assert(draw_view(out@) =~= draw_steps(*root, 0, None, 0, 0));
        }
        Some(out)
    } else {
        None
    }
}

/// Step `k` of `steps`, whose indices start at `base`, is drawn in the rectangle of an
/// earlier directory, one level deeper, in the slot whose weight is its own size.
pub open spec fn drawn_in_parent(steps: Seq<DrawnItem>, k: int, base: int) -> bool {
    &&& steps[k].parent is Some
    &&& {
        let p = steps[k].parent.unwrap() as int - base;
        &&& 0 <= p < k
        &&& steps[p].is_dir
        &&& steps[k].depth == steps[p].depth + 1
        &&& 0 <= steps[k].rank < steps[p].child_weights.len()
        &&& steps[p].child_weights[steps[k].rank] == steps[k].size
    }
}

proof fn lemma_draw_structure(n: Node, depth: int, parent: Option<usize>, rank: int, base: int)
    requires
        0 <= base,
        base + draw_steps(n, depth, parent, rank, base).len() <= usize::MAX + 1,
    ensures
        ({
            let s = draw_steps(n, depth, parent, rank, base);
            &&& s.len() > 0
            &&& s[0].parent == parent
            &&& s[0].depth == depth
            &&& s[0].rank == rank
            &&& s[0].size == n.metadata.size
            &&& forall|k: int| 1 <= k < s.len() ==> #[trigger] drawn_in_parent(s, k, base)
        }),
    decreases n, 0int,
{
    let s = draw_steps(n, depth, parent, rank, base);
    match n.kind {
        NodeKind::File => {},
        NodeKind::Directory(c) => {
            if c@.len() > 0 {
                let order = size_order(c@);
                let cd = child_draws(c@, order, depth + 1, base, base + 1);
                assert(decreases_to!(n => n.kind));
                assert(decreases_to!(n.kind => c));
                assert(order.take(order.len() as int) =~= order);
                lemma_child_draws_structure(c@, order, order, depth + 1, base, base + 1);
                assert forall|k: int| 1 <= k < s.len() implies #[trigger] drawn_in_parent(
                    s,
                    k,
                    base,
                ) by {
                    assert(s[k] == cd[k - 1]);
                    if !drawn_in_parent(cd, k - 1, base + 1) {
                        assert(cd[k - 1].parent == Some(base as usize));
                    } else {
                        let p = cd[k - 1].parent.unwrap() as int - (base + 1);
                        assert(s[p + 1] == cd[p]);
                    }
                }
            }
        },
    }
}

proof fn lemma_child_draws_structure(
    kids: Seq<Box<Node>>,
    full: Seq<usize>,
    order: Seq<usize>,
    depth: int,
    parent: int,
    start: int,
)
    requires
        order.len() <= full.len(),
        order == full.take(order.len() as int),
        0 <= parent < start,
        start + child_draws(kids, order, depth, parent, start).len() <= usize::MAX + 1,
    ensures
        ({
            let cd = child_draws(kids, order, depth, parent, start);
            forall|k: int|
                0 <= k < cd.len() ==> {
                    ||| {
                        &&& (#[trigger] cd[k]).parent == Some(parent as usize)
                        &&& cd[k].depth == depth
                        &&& 0 <= cd[k].rank < order.len()
                        &&& weights_in_order(kids, full)[cd[k].rank] == cd[k].size
                    }
                    ||| drawn_in_parent(cd, k, start)
                }
        }),
    decreases kids, order.len(),
{
    if order.len() > 0 {
        let cd = child_draws(kids, order, depth, parent, start);
        let before = child_draws(kids, order.drop_last(), depth, parent, start);
        assert(order.drop_last() =~= full.take(order.len() - 1));
        lemma_child_draws_structure(kids, full, order.drop_last(), depth, parent, start);
        let j = order.last() as int;
        if 0 <= j < kids.len() {
            let at = start + before.len();
            let r = order.len() - 1;
            let x = draw_steps(*kids[j], depth, Some(parent as usize), r, at);
            assert(cd == before + x);
            lemma_draw_structure(*kids[j], depth, Some(parent as usize), r, at);
            assert(full[r] == order[r]);
            assert forall|k: int| 0 <= k < cd.len() implies {
                ||| {
                    &&& (#[trigger] cd[k]).parent == Some(parent as usize)
                    &&& cd[k].depth == depth
                    &&& 0 <= cd[k].rank < order.len()
                    &&& weights_in_order(kids, full)[cd[k].rank] == cd[k].size
                }
                ||| drawn_in_parent(cd, k, start)
            } by {
                if k < before.len() {
                    assert(cd[k] == before[k]);
                    if drawn_in_parent(before, k, start) {
                        let p = before[k].parent.unwrap() as int - start;
                        assert(cd[p] == before[p]);
                    }
                } else {
                    let i = k - before.len();
                    assert(cd[k] == x[i]);
                    if i > 0 {
                        assert(drawn_in_parent(x, i, at));
                        let p = x[i].parent.unwrap() as int - at;
                        assert(cd[p + before.len()] == x[p]);
                    }
                }
            }
        }
    }
}

/// Every entry but the root is drawn in the rectangle of the directory it belongs to, one
/// level deeper, in the slot whose weight is its own size: the rectangles into which a
/// directory is divided go to its children, the right one to each.
pub proof fn lemma_draw_plan_slots(root: Node)
    requires
        draw_steps(root, 0, None, 0, 0).len() <= usize::MAX,
    ensures
        ({
            let s = draw_steps(root, 0, None, 0, 0);
            &&& s.len() > 0
            &&& s[0].parent is None
            &&& s[0].depth == 0
            &&& forall|k: int| 1 <= k < s.len() ==> #[trigger] drawn_in_parent(s, k, 0)
        }),
{
    lemma_draw_structure(root, 0, None, 0, 0);
}

} // verus!
