//! The laws of island plans: what every plan that `plan_island` makes satisfies.

use crate::hash::spec_hash_string;
use crate::layout::{
    block_of, child_blocks, children_fit, island_blocks, island_fits, visible_total, Anchor,
    PlannedBlock, Shape,
};
use crate::types::{all_consistent, children_depth, depth, sizes_consistent, sizes_sum, Node, NodeKind};
use vstd::prelude::*;

verus! {

/// Culling: no block is planned for an entry below the size threshold.
pub open spec fn culled(plan: Seq<PlannedBlock>, min_size: u64) -> bool {
    forall|k: int| 0 <= k < plan.len() ==> (#[trigger] plan[k]).size >= min_size
}

/// Every block is coloured by the hash of its name, so equal names get equal colours.
pub open spec fn coloured_by_name(plan: Seq<PlannedBlock>) -> bool {
    forall|k: int|
        0 <= k < plan.len() ==> (#[trigger] plan[k]).color_hash == spec_hash_string(plan[k].name)
}

/// Block `k` of `plan`, whose indices start at `base`, stands on an earlier block: a
/// directory's platform, one layer below it.
pub open spec fn stands_on_earlier(plan: Seq<PlannedBlock>, k: int, base: int) -> bool {
    &&& plan[k].anchor is Within
    &&& {
        let p = plan[k].anchor->parent as int;
        &&& base <= p < base + k
        &&& plan[p - base].shape == Shape::Platform
        &&& plan[p - base].is_dir
        &&& plan[k].layer == plan[p - base].layer + 1
    }
}

/// The structure of an island whose indices start at `base`: its first block is a platform
/// in the given place on the given layer, and every later block stands on an earlier
/// directory's platform, one layer above it.
pub open spec fn island_structure(plan: Seq<PlannedBlock>, base: int, layer: int, anchor: Anchor) -> bool {
    &&& plan.len() > 0 ==> {
        &&& plan[0].anchor == anchor
        &&& plan[0].layer == layer
        &&& plan[0].shape == Shape::Platform
    }
    &&& forall|k: int| 1 <= k < plan.len() ==> #[trigger] stands_on_earlier(plan, k, base)
}

/// The structure of the blocks that the children of the platform at index `parent` add,
/// listed from `start` on: each stands on that platform, on `layer`, or on a later one.
pub open spec fn children_structure(plan: Seq<PlannedBlock>, parent: int, start: int, layer: int) -> bool {
    forall|k: int|
        0 <= k < plan.len() ==> {
            ||| (#[trigger] plan[k]).anchor is Within && plan[k].anchor->parent as int == parent
                && plan[k].layer == layer
            ||| stands_on_earlier(plan, k, start)
        }
}

proof fn lemma_island_structure(n: Node, layer: int, min_size: u64, anchor: Anchor, base: int)
    requires
        0 <= base,
        base + island_blocks(n, layer, min_size, anchor, base).len() <= usize::MAX + 1,
    ensures
        culled(island_blocks(n, layer, min_size, anchor, base), min_size),
        coloured_by_name(island_blocks(n, layer, min_size, anchor, base)),
        island_structure(island_blocks(n, layer, min_size, anchor, base), base, layer, anchor),
    decreases n, 1int,
{
    let s = island_blocks(n, layer, min_size, anchor, base);
    if n.metadata.size >= min_size {
        let head = block_of(n, layer, Shape::Platform, n.is_directory(), anchor);
        match n.kind {
            NodeKind::File => {},
            NodeKind::Directory(c) => {
                let total = visible_total(c@, min_size);
                if c@.len() != 0 && total != 0 {
                    assert(decreases_to!(n => n.kind));
                    assert(decreases_to!(n.kind => c));
                    let cb = child_blocks(c@, layer + 1, min_size, base, total, base + 1);
                    lemma_children_structure(c@, layer + 1, min_size, base, total, base + 1);
                    assert(s == seq![head] + cb);
                    assert forall|k: int| 1 <= k < s.len() implies #[trigger] stands_on_earlier(
                        s,
                        k,
                        base,
                    ) by {
                        assert(s[k] == cb[k - 1]);
                        if !stands_on_earlier(cb, k - 1, base + 1) {
                            assert(cb[k - 1].anchor->parent as int == base);
                        } else {
                            let p = cb[k - 1].anchor->parent as int;
                            assert(s[p - base] == cb[p - base - 1]);
                        }
                    }
                    assert forall|k: int| 0 <= k < s.len() implies (#[trigger] s[k]).size
                        >= min_size && s[k].color_hash == spec_hash_string(s[k].name) by {
                        if k > 0 {
                            assert(s[k] == cb[k - 1]);
                        }
                    }
                }
            },
        }
    }
}

proof fn lemma_children_structure(
    kids: Seq<Box<Node>>,
    layer: int,
    min_size: u64,
    parent: int,
    total: nat,
    start: int,
)
    requires
        0 <= parent < start,
        start + child_blocks(kids, layer, min_size, parent, total, start).len() <= usize::MAX + 1,
    ensures
        culled(child_blocks(kids, layer, min_size, parent, total, start), min_size),
        coloured_by_name(child_blocks(kids, layer, min_size, parent, total, start)),
        children_structure(child_blocks(kids, layer, min_size, parent, total, start), parent, start, layer),
    decreases kids, 0int,
{
    if kids.len() > 0 {
        let cb = child_blocks(kids, layer, min_size, parent, total, start);
        let before = child_blocks(kids.drop_last(), layer, min_size, parent, total, start);
        let k = *kids.last();
        let anchor = Anchor::Within {
            parent: parent as usize,
            share: k.metadata.size,
            total: total as u64,
        };
        if k.metadata.size >= min_size {
            let at = start + before.len();
            let x = if k.is_directory() {
                island_blocks(k, layer, min_size, anchor, at)
            } else {
                seq![block_of(k, layer, Shape::Tower, false, anchor)]
            };
            assert(cb =~= before + x);
            lemma_children_structure(kids.drop_last(), layer, min_size, parent, total, start);
            if k.is_directory() {
                lemma_island_structure(k, layer, min_size, anchor, at);
            }
            assert forall|i: int| 0 <= i < cb.len() implies {
                ||| (#[trigger] cb[i]).anchor is Within && cb[i].anchor->parent as int == parent
                    && cb[i].layer == layer
                ||| stands_on_earlier(cb, i, start)
            } by {
                if i < before.len() {
                    assert(cb[i] == before[i]);
                    if stands_on_earlier(before, i, start) {
                        let p = before[i].anchor->parent as int;
                        assert(cb[p - start] == before[p - start]);
                    }
                } else {
                    let j = i - before.len();
                    assert(cb[i] == x[j]);
                    if j > 0 {
                        assert(stands_on_earlier(x, j, at));
                        let p = x[j].anchor->parent as int;
                        assert(cb[p - start] == x[p - at]);
                    }
                }
            }
            assert forall|i: int| 0 <= i < cb.len() implies (#[trigger] cb[i]).size >= min_size
                && cb[i].color_hash == spec_hash_string(cb[i].name) by {
                if i < before.len() {
                    assert(cb[i] == before[i]);
                } else {
                    assert(cb[i] == x[i - before.len()]);
                }
            }
        } else {
            lemma_children_structure(kids.drop_last(), layer, min_size, parent, total, start);
        }
    }
}

/// The laws of an island's plan: no block for an entry below the threshold; every block
/// coloured by the hash of its name; the first block a platform in the given space on the
/// given layer; and every other block standing on the platform of an earlier directory,
/// one layer above it, so that files sit on top of their folders.
pub proof fn lemma_island_plan_laws(node: Node, layer: int, min_size: u64)
    requires
        island_blocks(node, layer, min_size, Anchor::Given, 0).len() <= usize::MAX,
    ensures
        culled(island_blocks(node, layer, min_size, Anchor::Given, 0), min_size),
        coloured_by_name(island_blocks(node, layer, min_size, Anchor::Given, 0)),
        island_structure(island_blocks(node, layer, min_size, Anchor::Given, 0), 0, layer, Anchor::Given),
{
    lemma_island_structure(node, layer, min_size, Anchor::Given, 0);
}

proof fn lemma_visible_total_le_sum(kids: Seq<Box<Node>>, min_size: u64)
    ensures
        visible_total(kids, min_size) <= sizes_sum(kids),
    decreases kids.len(),
{
    if kids.len() > 0 {
        lemma_visible_total_le_sum(kids.drop_last(), min_size);
    }
}

proof fn lemma_consistent_island_fits(n: Node, layer: int, min_size: u64)
    requires
        sizes_consistent(n),
        layer + depth(n) <= u32::MAX,
    ensures
        island_fits(n, layer, min_size),
    decreases n, 1int,
{
    if n.metadata.size >= min_size {
        match n.kind {
            NodeKind::File => {},
            NodeKind::Directory(c) => {
                lemma_visible_total_le_sum(c@, min_size);
                if c@.len() > 0 {
                    assert(decreases_to!(n => n.kind));
                    assert(decreases_to!(n.kind => c));
                    lemma_consistent_children_fit(c@, layer + 1, min_size);
                }
            },
        }
    }
}

proof fn lemma_consistent_children_fit(kids: Seq<Box<Node>>, layer: int, min_size: u64)
    requires
        all_consistent(kids),
        layer + children_depth(kids) <= u32::MAX + 1,
    ensures
        children_fit(kids, layer, min_size),
    decreases kids, 0int,
{
    if kids.len() > 0 {
        lemma_consistent_children_fit(kids.drop_last(), layer, min_size);
        lemma_consistent_island_fits(*kids.last(), layer, min_size);
    }
}

/// A tree whose directories record the total of their children's sizes, as a scan builds
/// them, can always be planned: its totals fit in a `u64`, and only a tree more directories
/// deep than a `u32` counts could overflow the layers.
pub proof fn lemma_scanned_tree_plannable(node: Node, layer: int, min_size: u64)
    requires
        sizes_consistent(node),
        0 <= layer,
        layer + depth(node) <= u32::MAX,
    ensures
        island_fits(node, layer, min_size),
{
    lemma_consistent_island_fits(node, layer, min_size);
}

/// The share of the platform at index `p` that block `b` takes: nothing unless it stands there.
pub open spec fn share_on(b: PlannedBlock, p: int) -> nat {
    match b.anchor {
        Anchor::Within { parent, share, total: _ } => if parent as int == p {
            share as nat
        } else {
            0
        },
        Anchor::Given => 0,
    }
}

/// The shares of the platform at index `p` that the blocks of `plan` take, added up.
pub open spec fn shares_on(plan: Seq<PlannedBlock>, p: int) -> nat
    decreases plan.len(),
{
    if plan.len() == 0 {
        0
    } else {
        shares_on(plan.drop_last(), p) + share_on(plan.last(), p)
    }
}

proof fn lemma_shares_on_concat(a: Seq<PlannedBlock>, b: Seq<PlannedBlock>, p: int)
    ensures
        shares_on(a + b, p) == shares_on(a, p) + shares_on(b, p),
    decreases b.len(),
{
    if b.len() == 0 {
        assert(a + b =~= a);
    } else {
        lemma_shares_on_concat(a, b.drop_last(), p);
        assert((a + b).drop_last() =~= a + b.drop_last());
        assert((a + b).last() == b.last());
    }
}

proof fn lemma_shares_on_single(b: PlannedBlock, p: int)
    ensures
        shares_on(seq![b], p) == share_on(b, p),
{
    assert(seq![b].drop_last() =~= Seq::<PlannedBlock>::empty());
    assert(shares_on(Seq::<PlannedBlock>::empty(), p) == 0);
}

/// The anchor of an island's first block lies outside the indices the island itself takes.
pub open spec fn anchored_before(anchor: Anchor, base: int) -> bool {
    anchor is Within ==> (anchor->parent as int) < base
}

proof fn lemma_island_shares(n: Node, layer: int, min_size: u64, anchor: Anchor, base: int)
    requires
        island_fits(n, layer, min_size),
        0 <= base,
        base + island_blocks(n, layer, min_size, anchor, base).len() <= usize::MAX + 1,
        anchored_before(anchor, base),
    ensures
        ({
            let s = island_blocks(n, layer, min_size, anchor, base);
            &&& forall|q: int|
                !(base <= q < base + s.len()) ==> #[trigger] shares_on(s, q) == if s.len() > 0 {
                    share_on(s[0], q)
                } else {
                    0
                }
            &&& forall|k: int|
                1 <= k < s.len() ==> shares_on(s, (#[trigger] s[k]).anchor->parent as int)
                    == s[k].anchor->total
        }),
    decreases n, 1int,
{
    let s = island_blocks(n, layer, min_size, anchor, base);
    lemma_island_structure(n, layer, min_size, anchor, base);
    if n.metadata.size >= min_size {
        let head = block_of(n, layer, Shape::Platform, n.is_directory(), anchor);
        assert forall|q: int| true implies shares_on(seq![head], q) == share_on(head, q) by {
            lemma_shares_on_single(head, q);
        }
        match n.kind {
            NodeKind::File => {},
            NodeKind::Directory(c) => {
                let total = visible_total(c@, min_size);
                if c@.len() != 0 && total != 0 {
                    assert(decreases_to!(n => n.kind));
                    assert(decreases_to!(n.kind => c));
                    let cb = child_blocks(c@, layer + 1, min_size, base, total, base + 1);
                    assert(s == seq![head] + cb);
                    lemma_children_structure(c@, layer + 1, min_size, base, total, base + 1);
                    lemma_children_shares(c@, layer + 1, min_size, base, total, base + 1);
                    assert forall|q: int| true implies shares_on(s, q) == share_on(head, q)
                        + shares_on(cb, q) by {
                        lemma_shares_on_concat(seq![head], cb, q);
                    }
                    assert(share_on(head, base) == 0);
                    assert forall|k: int| 1 <= k < s.len() implies shares_on(
                        s,
                        (#[trigger] s[k]).anchor->parent as int,
                    ) == s[k].anchor->total by {
                        assert(s[k] == cb[k - 1]);
                        let p = cb[k - 1].anchor->parent as int;
                        if p != base {
                            assert(stands_on_earlier(cb, k - 1, base + 1));
                        }
                    }
                }
            },
        }
    }
}

proof fn lemma_children_shares(
    kids: Seq<Box<Node>>,
    layer: int,
    min_size: u64,
    parent: int,
    total: nat,
    start: int,
)
    requires
        children_fit(kids, layer, min_size),
        0 <= parent < start,
        start + child_blocks(kids, layer, min_size, parent, total, start).len() <= usize::MAX + 1,
        total <= u64::MAX,
    ensures
        ({
            let cb = child_blocks(kids, layer, min_size, parent, total, start);
            &&& forall|q: int|
                q != parent && !(start <= q < start + cb.len()) ==> #[trigger] shares_on(cb, q)
                    == 0
            &&& shares_on(cb, parent) == visible_total(kids, min_size)
            &&& forall|k: int|
                0 <= k < cb.len() ==> if (#[trigger] cb[k]).anchor->parent as int == parent {
                    cb[k].anchor->total == total
                } else {
                    shares_on(cb, cb[k].anchor->parent as int) == cb[k].anchor->total
                }
        }),
    decreases kids, 0int,
{
    let cb = child_blocks(kids, layer, min_size, parent, total, start);
    lemma_children_structure(kids, layer, min_size, parent, total, start);
    if kids.len() > 0 {
        let before = child_blocks(kids.drop_last(), layer, min_size, parent, total, start);
        let k = *kids.last();
        let anchor = Anchor::Within {
            parent: parent as usize,
            share: k.metadata.size,
            total: total as u64,
        };
        lemma_children_shares(kids.drop_last(), layer, min_size, parent, total, start);
        lemma_children_structure(kids.drop_last(), layer, min_size, parent, total, start);
        if k.metadata.size < min_size {
            assert(cb == before);
        } else {
            let at = start + before.len();
            let x = if k.is_directory() {
                island_blocks(k, layer, min_size, anchor, at)
            } else {
                seq![block_of(k, layer, Shape::Tower, false, anchor)]
            };
            assert(cb =~= before + x);
            assert forall|q: int| true implies shares_on(cb, q) == shares_on(before, q) + shares_on(
                x,
                q,
            ) by {
                lemma_shares_on_concat(before, x, q);
            }
            if k.is_directory() {
                lemma_island_shares(k, layer, min_size, anchor, at);
                lemma_island_structure(k, layer, min_size, anchor, at);
            } else {
                assert forall|q: int| true implies shares_on(x, q) == share_on(x[0], q) by {
                    lemma_shares_on_single(x[0], q);
                }
            }
            assert(x.len() > 0 && x[0].anchor == anchor);
            assert forall|q: int|
                q != parent && !(start <= q < start + cb.len()) implies #[trigger] shares_on(cb, q)
                == 0 by {
                assert(shares_on(before, q) == 0);
                assert(shares_on(x, q) == share_on(x[0], q));
            }
            assert(shares_on(x, parent) == share_on(x[0], parent));
            assert forall|i: int| 0 <= i < cb.len() implies if (#[trigger] cb[i]).anchor->parent
                as int == parent {
                cb[i].anchor->total == total
            } else {
                shares_on(cb, cb[i].anchor->parent as int) == cb[i].anchor->total
            } by {
                if i < before.len() {
                    assert(cb[i] == before[i]);
                    let p = before[i].anchor->parent as int;
                    if p != parent {
                        assert(stands_on_earlier(before, i, start));
                        assert(shares_on(x, p) == share_on(x[0], p));
                    }
                } else {
                    let j = i - before.len();
                    assert(cb[i] == x[j]);
                    if j > 0 {
                        assert(stands_on_earlier(x, j, at));
                        let p = x[j].anchor->parent as int;
                        assert(shares_on(before, p) == 0);
                    }
                }
            }
        }
    }
}

/// Siblings divide their platform exactly: for every block that stands on a platform, the
/// shares of all the blocks standing on that platform add up to the total that each of
/// them is a share of, so that together they span the platform's inner width.
pub proof fn lemma_island_shares_partition(node: Node, layer: int, min_size: u64)
    requires
        island_fits(node, layer, min_size),
        island_blocks(node, layer, min_size, Anchor::Given, 0).len() <= usize::MAX,
    ensures
        forall|k: int|
            0 <= k < island_blocks(node, layer, min_size, Anchor::Given, 0).len() && (#[trigger] island_blocks(node, layer, min_size, Anchor::Given, 0)[k]).anchor is Within
            ==> shares_on(
                island_blocks(node, layer, min_size, Anchor::Given, 0),
                island_blocks(node, layer, min_size, Anchor::Given, 0)[k].anchor->parent as int,
            ) == island_blocks(node, layer, min_size, Anchor::Given, 0)[k].anchor->total,
{
    lemma_island_shares(node, layer, min_size, Anchor::Given, 0);
}

/// The entries of the tree below `n` that an island shows, in the order the plan lists
/// them: nothing where `n` is below `min_size` bytes; otherwise `n` itself, followed, for a
/// directory whose children of at least `min_size` bytes have a positive total, by the
/// entries that each child shows, children in order.
pub open spec fn shown_entries(n: Node, min_size: u64) -> Seq<Node>
    decreases n,
{
    if n.metadata.size < min_size {
        seq![]
    } else {
        match n.kind {
            NodeKind::File => seq![n],
            NodeKind::Directory(c) => if c@.len() == 0 || visible_total(c@, min_size) == 0 {
                seq![n]
            } else {
                seq![n] + kids_shown_entries(c@, min_size)
            },
        }
    }
}

/// The entries that the children `kids` show, children in order.
pub open spec fn kids_shown_entries(kids: Seq<Box<Node>>, min_size: u64) -> Seq<Node>
    decreases kids,
{
    if kids.len() == 0 {
        seq![]
    } else {
        kids_shown_entries(kids.drop_last(), min_size) + shown_entries(*kids.last(), min_size)
    }
}

/// Block `b` describes entry `e`: its name, path and size, whether it is a directory, and
/// the colour of its name.
pub open spec fn describes(b: PlannedBlock, e: Node) -> bool {
    &&& b.name == e.metadata.name@
    &&& b.path == e.metadata.path
    &&& b.size == e.metadata.size
    &&& b.is_dir == e.is_directory()
    &&& b.color_hash == spec_hash_string(e.metadata.name@)
}

/// Block `b`, not the first of its island, takes as its share of the platform it stands on
/// exactly its own size, and is a platform exactly for a directory.
pub open spec fn placed_as_entry(b: PlannedBlock, e: Node) -> bool {
    &&& b.anchor is Within
    &&& b.anchor->share == b.size
    &&& (b.shape == Shape::Platform <==> e.is_directory())
}

proof fn lemma_island_entries(n: Node, layer: int, min_size: u64, anchor: Anchor, base: int)
    ensures
        ({
            let s = island_blocks(n, layer, min_size, anchor, base);
            let e = shown_entries(n, min_size);
            &&& s.len() == e.len()
            &&& forall|k: int| 0 <= k < s.len() ==> describes(#[trigger] s[k], e[k])
            &&& s.len() > 0 ==> s[0].shape == Shape::Platform && s[0].anchor == anchor
            &&& forall|k: int| 1 <= k < s.len() ==> placed_as_entry(#[trigger] s[k], e[k])
        }),
    decreases n, 1int,
{
    let s = island_blocks(n, layer, min_size, anchor, base);
    let e = shown_entries(n, min_size);
    if n.metadata.size >= min_size {
        let head = block_of(n, layer, Shape::Platform, n.is_directory(), anchor);
        match n.kind {
            NodeKind::File => {},
            NodeKind::Directory(c) => {
                let total = visible_total(c@, min_size);
                if c@.len() != 0 && total != 0 {
                    assert(decreases_to!(n => n.kind));
                    assert(decreases_to!(n.kind => c));
                    let cb = child_blocks(c@, layer + 1, min_size, base, total, base + 1);
                    let ce = kids_shown_entries(c@, min_size);
                    lemma_child_entries(c@, layer + 1, min_size, base, total, base + 1);
                    assert(s == seq![head] + cb);
                    assert(e == seq![n] + ce);
                    assert forall|k: int| 0 <= k < s.len() implies describes(#[trigger] s[k], e[k]) by {
                        if k > 0 {
                            assert(s[k] == cb[k - 1] && e[k] == ce[k - 1]);
                        }
                    }
                    assert forall|k: int| 1 <= k < s.len() implies placed_as_entry(#[trigger] s[k], e[k]) by {
                        assert(s[k] == cb[k - 1] && e[k] == ce[k - 1]);
                    }
                }
            },
        }
    }
}

proof fn lemma_child_entries(
    kids: Seq<Box<Node>>,
    layer: int,
    min_size: u64,
    parent: int,
    total: nat,
    start: int,
)
    ensures
        ({
            let cb = child_blocks(kids, layer, min_size, parent, total, start);
            let e = kids_shown_entries(kids, min_size);
            &&& cb.len() == e.len()
            &&& forall|k: int| 0 <= k < cb.len() ==> describes(#[trigger] cb[k], e[k])
            &&& forall|k: int| 0 <= k < cb.len() ==> placed_as_entry(#[trigger] cb[k], e[k])
        }),
    decreases kids, 0int,
{
    if kids.len() > 0 {
        let cb = child_blocks(kids, layer, min_size, parent, total, start);
        let e = kids_shown_entries(kids, min_size);
        let before = child_blocks(kids.drop_last(), layer, min_size, parent, total, start);
        let eb = kids_shown_entries(kids.drop_last(), min_size);
        let k = *kids.last();
        let anchor = Anchor::Within {
            parent: parent as usize,
            share: k.metadata.size,
            total: total as u64,
        };
        lemma_child_entries(kids.drop_last(), layer, min_size, parent, total, start);
        let ek = shown_entries(k, min_size);
        assert(e == eb + ek);
        if k.metadata.size >= min_size {
            let at = start + before.len();
            let x = if k.is_directory() {
                island_blocks(k, layer, min_size, anchor, at)
            } else {
                seq![block_of(k, layer, Shape::Tower, false, anchor)]
            };
            assert(cb =~= before + x);
            if k.is_directory() {
                lemma_island_entries(k, layer, min_size, anchor, at);
                assert(ek.len() > 0 && ek[0] == k) by {
                    reveal_with_fuel(shown_entries, 1);
                }
            } else {
                assert(ek == seq![k]);
            }
            assert forall|i: int| 0 <= i < cb.len() implies describes(#[trigger] cb[i], e[i]) by {
                if i < before.len() {
                    assert(cb[i] == before[i] && e[i] == eb[i]);
                } else {
                    assert(cb[i] == x[i - before.len()] && e[i] == ek[i - before.len()]);
                }
            }
            assert forall|i: int| 0 <= i < cb.len() implies placed_as_entry(#[trigger] cb[i], e[i]) by {
                if i < before.len() {
                    assert(cb[i] == before[i] && e[i] == eb[i]);
                } else {
                    assert(cb[i] == x[i - before.len()] && e[i] == ek[i - before.len()]);
                }
            }
        } else {
            assert(cb == before);
            assert(ek =~= Seq::<Node>::empty());
            assert(e =~= eb);
        }
    }
}

/// The blocks of an island plan describe, one for one and in order, the entries that the
/// island shows: each block bears its entry's name, path and size, is marked as a directory
/// exactly when the entry is one, whatever its children, and is coloured by the entry's
/// name; the first block is the platform of the island's own entry, and every other block
/// is a platform exactly for a directory, a tower exactly for a file, and takes as its
/// share of the platform it stands on exactly its entry's size.
pub proof fn lemma_island_plan_describes_entries(node: Node, layer: int, min_size: u64)
    ensures
        ({
            let s = island_blocks(node, layer, min_size, Anchor::Given, 0);
            let e = shown_entries(node, min_size);
            &&& s.len() == e.len()
            &&& node.metadata.size >= min_size ==> e.len() > 0 && e[0] == node
            &&& node.metadata.size < min_size ==> e.len() == 0
            &&& forall|k: int| 0 <= k < s.len() ==> describes(#[trigger] s[k], e[k])
            &&& s.len() > 0 ==> s[0].shape == Shape::Platform && s[0].anchor == Anchor::Given
            &&& forall|k: int| 1 <= k < s.len() ==> placed_as_entry(#[trigger] s[k], e[k])
        }),
{
    lemma_island_entries(node, layer, min_size, Anchor::Given, 0);
}

} // verus!
