//! The order in which entries are laid out: largest first, ties in the order given,
//! entries below a size threshold left out.

use crate::types::Node;
use vstd::prelude::*;

verus! {

/// Entry `i` comes before entry `j`: it is larger, or as large and listed earlier.
pub open spec fn ranks_before(sizes: Seq<u64>, i: int, j: int) -> bool {
    ||| sizes[i] > sizes[j]
    ||| sizes[i] == sizes[j] && i < j
}

/// `order` lists each entry of at least `min_size` bytes exactly once, and nothing else,
/// largest first, equal sizes in the order in which they were given.
pub open spec fn is_largest_first(sizes: Seq<u64>, min_size: u64, order: Seq<usize>) -> bool {
    &&& forall|k: int|
        0 <= k < order.len() ==> #[trigger] order[k] < sizes.len() && sizes[order[k] as int]
            >= min_size
    &&& forall|i: int| 0 <= i < sizes.len() && sizes[i] >= min_size ==> order.contains(i as usize)
    &&& forall|a: int, b: int|
        0 <= a < b < order.len() ==> ranks_before(sizes, #[trigger] order[a] as int, #[trigger] order[b] as int)
}

/// The sizes of a list of entries.
pub open spec fn sizes_of(nodes: Seq<&Node>) -> Seq<u64> {
    nodes.map_values(|n: &Node| n.metadata.size)
}

/// The sizes of the children of a directory.
pub open spec fn kid_sizes(kids: Seq<Box<Node>>) -> Seq<u64> {
    kids.map_values(|b: Box<Node>| b.metadata.size)
}

/// The sizes of the children of a directory, in their order.
pub fn sizes_of_children(children: &Vec<Box<Node>>) -> (sizes: Vec<u64>)
    ensures
        sizes@ == kid_sizes(children@),
        sizes@.len() == children@.len(),
        forall|i: int| 0 <= i < sizes@.len() ==> sizes@[i] == (#[trigger] children@[i]).metadata.size,
{
    let mut sizes: Vec<u64> = Vec::new();
    let mut i: usize = 0;
    while i < children.len()
        invariant
            i <= children@.len(),
            sizes@ =~= kid_sizes(children@).take(i as int),
        decreases children@.len() - i,
    {
        sizes.push(children[i].metadata.size);
        i = i + 1;
    }
    proof {
        assert(sizes@ =~= kid_sizes(children@));
        lemma_kid_sizes_in_bytes(children@);
    }
    sizes
}

/// The sizes by which children are ranked are their own sizes in bytes, one for each
/// child, in the children's order.
pub proof fn lemma_kid_sizes_in_bytes(kids: Seq<Box<Node>>)
    ensures
        kid_sizes(kids).len() == kids.len(),
        forall|i: int| 0 <= i < kids.len() ==> kid_sizes(kids)[i] == (#[trigger] kids[i]).metadata.size,
{
}

/// The sizes of a list of entries are their own sizes in bytes, one for each entry, in
/// the entries' order.
pub proof fn lemma_sizes_in_bytes(nodes: Seq<&Node>)
    ensures
        sizes_of(nodes).len() == nodes.len(),
        forall|i: int| 0 <= i < nodes.len() ==> sizes_of(nodes)[i] == (#[trigger] nodes[i]).metadata.size,
{
}

/// Strictly ordered by rank, so no entry occurs twice.
pub open spec fn strictly_ranked(sizes: Seq<u64>, s: Seq<usize>) -> bool {
    forall|a: int, b: int|
        0 <= a < b < s.len() ==> ranks_before(sizes, #[trigger] s[a] as int, #[trigger] s[b] as int)
}

proof fn lemma_ranked_same_members_equal(sizes: Seq<u64>, s1: Seq<usize>, s2: Seq<usize>)
    requires
        strictly_ranked(sizes, s1),
        strictly_ranked(sizes, s2),
        forall|x: usize| s1.contains(x) <==> s2.contains(x),
    ensures
        s1 == s2,
    decreases s1.len(),
{
    if s1.len() == 0 {
        if s2.len() > 0 {
            assert(s2.contains(s2[0]));
        }
        assert(s1 =~= s2);
    } else {
        assert(s1.contains(s1[0]));
        let j = choose|j: int| 0 <= j < s2.len() && s2[j] == s1[0];
        if j > 0 {
            assert(s2.contains(s2[0]));
            let m = choose|m: int| 0 <= m < s1.len() && s1[m] == s2[0];
            assert(ranks_before(sizes, s2[0] as int, s2[j] as int));
            if m > 0 {
                assert(ranks_before(sizes, s1[0] as int, s1[m] as int));
            }
        }
        let t1 = s1.drop_first();
        let t2 = s2.drop_first();
        assert forall|x: usize| t1.contains(x) <==> t2.contains(x) by {
            if t1.contains(x) {
                let k = choose|k: int| 0 <= k < t1.len() && t1[k] == x;
                assert(s1[k + 1] == x);
                assert(ranks_before(sizes, s1[0] as int, s1[k + 1] as int));
                assert(s1.contains(x));
                let k2 = choose|k2: int| 0 <= k2 < s2.len() && s2[k2] == x;
                if k2 == 0 {
                    assert(false);
                }
                assert(t2[k2 - 1] == x);
            }
            if t2.contains(x) {
                let k = choose|k: int| 0 <= k < t2.len() && t2[k] == x;
                assert(s2[k + 1] == x);
                assert(ranks_before(sizes, s2[0] as int, s2[k + 1] as int));
                assert(s2.contains(x));
                let k1 = choose|k1: int| 0 <= k1 < s1.len() && s1[k1] == x;
                if k1 == 0 {
                    assert(false);
                }
                assert(t1[k1 - 1] == x);
            }
        }
        assert(strictly_ranked(sizes, t1)) by {
            assert forall|a: int, b: int| 0 <= a < b < t1.len() implies ranks_before(
                sizes,
                #[trigger] t1[a] as int,
                #[trigger] t1[b] as int,
            ) by {
                assert(t1[a] == s1[a + 1] && t1[b] == s1[b + 1]);
            }
        }
        assert(strictly_ranked(sizes, t2)) by {
            assert forall|a: int, b: int| 0 <= a < b < t2.len() implies ranks_before(
                sizes,
                #[trigger] t2[a] as int,
                #[trigger] t2[b] as int,
            ) by {
                assert(t2[a] == s2[a + 1] && t2[b] == s2[b + 1]);
            }
        }
        lemma_ranked_same_members_equal(sizes, t1, t2);
        assert(s1 =~= seq![s1[0]] + t1);
        assert(s2 =~= seq![s2[0]] + t2);
    }
}

/// The layout order is determined by the sizes and the threshold alone: two orders that
/// both meet `is_largest_first` for the same sizes are the same order.
pub proof fn lemma_largest_first_unique(sizes: Seq<u64>, min_size: u64, o1: Seq<usize>, o2: Seq<usize>)
    requires
        is_largest_first(sizes, min_size, o1),
        is_largest_first(sizes, min_size, o2),
    ensures
        o1 == o2,
{
    assert forall|x: usize| o1.contains(x) <==> o2.contains(x) by {
        if o1.contains(x) {
            let k = choose|k: int| 0 <= k < o1.len() && o1[k] == x;
            assert(o1[k] < sizes.len());
        }
        if o2.contains(x) {
            let k = choose|k: int| 0 <= k < o2.len() && o2[k] == x;
            assert(o2[k] < sizes.len());
        }
    }
    lemma_ranked_same_members_equal(sizes, o1, o2);
}

/// Indices of the entries of at least `min_size` bytes, largest first; a stable sort, so
/// entries of equal size keep the order in which they were given.
pub fn order_largest_first(sizes: &Vec<u64>, min_size: u64) -> (order: Vec<usize>)
    ensures
        is_largest_first(sizes@, min_size, order@),
{
    let n = sizes.len();
    let mut order: Vec<usize> = Vec::new();
    let mut i: usize = 0;
    while i < n
        invariant
            n == sizes@.len(),
            i <= n,
            forall|k: int|
                0 <= k < order@.len() ==> #[trigger] order@[k] < i && sizes@[order@[k] as int]
                    >= min_size,
            forall|j: int| 0 <= j < i && sizes@[j] >= min_size ==> order@.contains(j as usize),
            forall|a: int, b: int|
                0 <= a < b < order@.len() ==> ranks_before(
                    sizes@,
                    #[trigger] order@[a] as int,
                    #[trigger] order@[b] as int,
                ),
        decreases n - i,
    {
        let size = sizes[i];
        if size >= min_size {
            // The new entry goes after every entry at least as large, all of which came earlier.
            let mut pos: usize = 0;
            while pos < order.len() && sizes[order[pos]] >= size
                invariant
                    n == sizes@.len(),
                    i < n,
                    size == sizes@[i as int],
                    pos <= order@.len(),
                    forall|k: int| 0 <= k < order@.len() ==> #[trigger] order@[k] < i,
                    forall|k: int| 0 <= k < pos ==> sizes@[#[trigger] order@[k] as int] >= size,
                decreases order@.len() - pos,
            {
                pos = pos + 1;
            }
            let ghost prev = order@;
            order.insert(pos, i);
            proof {
                assert(order@ == prev.insert(pos as int, i));
                assert forall|a: int, b: int| 0 <= a < b < order@.len() implies ranks_before(
                    sizes@,
                    #[trigger] order@[a] as int,
                    #[trigger] order@[b] as int,
                ) by {
                    if b < pos {
                        assert(order@[a] == prev[a] && order@[b] == prev[b]);
                    } else if b == pos {
                        assert(order@[a] == prev[a]);
                    } else if a == pos {
                        assert(order@[b] == prev[b - 1]);
                        assert(sizes@[prev[pos as int] as int] < size);
                        if b - 1 > pos {
                            assert(ranks_before(sizes@, prev[pos as int] as int, prev[b - 1] as int));
                        }
                    } else if a < pos {
                        assert(order@[a] == prev[a] && order@[b] == prev[b - 1]);
                    } else {
                        assert(order@[a] == prev[a - 1] && order@[b] == prev[b - 1]);
                    }
                }
                assert forall|j: int| 0 <= j < i + 1 && sizes@[j] >= min_size implies order@.contains(
                    j as usize,
                ) by {
                    if j == i {
                        assert(order@[pos as int] == i);
                    } else {
                        let k = choose|k: int| 0 <= k < prev.len() && prev[k] == j as usize;
                        if k < pos {
                            assert(order@[k] == prev[k]);
                        } else {
                            assert(order@[k + 1] == prev[k]);
                        }
                    }
                }
            }
        }
        i = i + 1;
    }
    order
}

/// Indices of the entries of at least `min_size` bytes, largest first, ties kept in order.
pub fn largest_first(nodes: &[&Node], min_size: u64) -> (order: Vec<usize>)
    ensures
        is_largest_first(sizes_of(nodes@), min_size, order@),
        places_by_bytes(nodes@, min_size, order@),
{
    let mut sizes: Vec<u64> = Vec::new();
    let mut i: usize = 0;
    while i < nodes.len()
        invariant
            i <= nodes@.len(),
            sizes@ =~= sizes_of(nodes@).take(i as int),
        decreases nodes@.len() - i,
    {
        sizes.push(nodes[i].metadata.size);
        i = i + 1;
    }
    proof {
        assert(sizes@ =~= sizes_of(nodes@));
    }
    let order = order_largest_first(&sizes, min_size);
    proof {
        lemma_largest_first_by_bytes(nodes@, min_size, order@);
    }
    order
}

/// `order` places the entries by their own sizes in bytes: it lists each entry of at least
/// `min_size` bytes exactly once and nothing else, a larger entry before a smaller one, and
/// entries of equal size in the order they were given.
pub open spec fn places_by_bytes(nodes: Seq<&Node>, min_size: u64, order: Seq<usize>) -> bool {
    &&& forall|k: int|
        0 <= k < order.len() ==> #[trigger] order[k] < nodes.len() && nodes[order[k] as int].metadata.size
            >= min_size
    &&& forall|i: int|
        0 <= i < nodes.len() && (#[trigger] nodes[i]).metadata.size >= min_size ==> order.contains(i as usize)
    &&& forall|a: int, b: int|
        0 <= a < b < order.len() ==> {
            let x = nodes[#[trigger] order[a] as int].metadata.size;
            let y = nodes[#[trigger] order[b] as int].metadata.size;
            x > y || (x == y && order[a] < order[b])
        }
}

/// The largest-first order of a list of entries ranks them by their own sizes in bytes and
/// leaves out exactly those below `min_size` bytes.
pub proof fn lemma_largest_first_by_bytes(nodes: Seq<&Node>, min_size: u64, order: Seq<usize>)
    requires
        is_largest_first(sizes_of(nodes), min_size, order),
    ensures
        places_by_bytes(nodes, min_size, order),
{
    let sizes = sizes_of(nodes);
    assert forall|i: int|
        0 <= i < nodes.len() && (#[trigger] nodes[i]).metadata.size >= min_size implies order.contains(
        i as usize,
    ) by {
        assert(sizes[i] == nodes[i].metadata.size);
    }
    assert forall|k: int| 0 <= k < order.len() implies #[trigger] order[k] < nodes.len()
        && nodes[order[k] as int].metadata.size >= min_size by {
        assert(sizes[order[k] as int] == nodes[order[k] as int].metadata.size);
    }
    assert forall|a: int, b: int| 0 <= a < b < order.len() implies {
        let x = nodes[#[trigger] order[a] as int].metadata.size;
        let y = nodes[#[trigger] order[b] as int].metadata.size;
        x > y || (x == y && order[a] < order[b])
    } by {
        assert(ranks_before(sizes, order[a] as int, order[b] as int));
        assert(sizes[order[a] as int] == nodes[order[a] as int].metadata.size);
        assert(sizes[order[b] as int] == nodes[order[b] as int].metadata.size);
    }
}

/// Where a new entry of size `v` goes in `order`: after every entry at least as large.
pub open spec fn insert_position(sizes: Seq<u64>, order: Seq<usize>, v: u64) -> nat
    decreases order.len(),
{
    if order.len() == 0 || sizes[order[0] as int] < v {
        0
    } else {
        1 + insert_position(sizes, order.drop_first(), v)
    }
}

proof fn lemma_insert_position(sizes: Seq<u64>, order: Seq<usize>, v: u64)
    ensures
        insert_position(sizes, order, v) <= order.len(),
        forall|q: int|
            0 <= q < insert_position(sizes, order, v) ==> sizes[#[trigger] order[q] as int] >= v,
        insert_position(sizes, order, v) < order.len() ==> sizes[order[insert_position(
            sizes,
            order,
            v,
        ) as int] as int] < v,
    decreases order.len(),
{
    if order.len() > 0 && sizes[order[0] as int] >= v {
        let rest = order.drop_first();
        lemma_insert_position(sizes, rest, v);
        assert forall|q: int| 0 <= q < insert_position(sizes, order, v) implies sizes[#[trigger] order[
            q
        ] as int] >= v by {
            if q > 0 {
                assert(order[q] == rest[q - 1]);
            }
        }
    }
}

/// An order of all but the last entry, read against all the entries: it still lists only
/// entries of at least `min_size` bytes, ranked, and every such entry but the last.
proof fn lemma_prefix_order_lifts(sizes: Seq<u64>, min_size: u64, o: Seq<usize>)
    requires
        sizes.len() > 0,
        is_largest_first(sizes.drop_last(), min_size, o),
    ensures
        forall|k: int|
            0 <= k < o.len() ==> #[trigger] o[k] < sizes.len() - 1 && sizes[o[k] as int] >= min_size,
        forall|i: int| 0 <= i < sizes.len() - 1 && sizes[i] >= min_size ==> o.contains(i as usize),
        forall|a: int, b: int|
            0 <= a < b < o.len() ==> ranks_before(sizes, #[trigger] o[a] as int, #[trigger] o[b] as int),
{
    let prefix = sizes.drop_last();
    assert forall|k: int| 0 <= k < o.len() implies #[trigger] o[k] < sizes.len() - 1 && sizes[o[k]
        as int] >= min_size by {
        assert(prefix[o[k] as int] == sizes[o[k] as int]);
    }
    assert forall|i: int| 0 <= i < sizes.len() - 1 && sizes[i] >= min_size implies o.contains(
        i as usize,
    ) by {
        assert(prefix[i] == sizes[i]);
    }
    assert forall|a: int, b: int| 0 <= a < b < o.len() implies ranks_before(
        sizes,
        #[trigger] o[a] as int,
        #[trigger] o[b] as int,
    ) by {
        assert(ranks_before(prefix, o[a] as int, o[b] as int));
    }
}

/// Inserting the last entry after every entry at least as large extends the order.
#[verifier::spinoff_prover]
proof fn lemma_insert_last(sizes: Seq<u64>, min_size: u64, o: Seq<usize>)
    requires
        sizes.len() > 0,
        sizes.len() - 1 <= usize::MAX,
        sizes[sizes.len() - 1] >= min_size,
        forall|k: int|
            0 <= k < o.len() ==> #[trigger] o[k] < sizes.len() - 1 && sizes[o[k] as int] >= min_size,
        forall|i: int| 0 <= i < sizes.len() - 1 && sizes[i] >= min_size ==> o.contains(i as usize),
        forall|a: int, b: int|
            0 <= a < b < o.len() ==> ranks_before(sizes, #[trigger] o[a] as int, #[trigger] o[b] as int),
    ensures
        is_largest_first(
            sizes,
            min_size,
            o.insert(insert_position(sizes, o, sizes[sizes.len() - 1]) as int, (sizes.len() - 1) as usize),
        ),
{
    let n = sizes.len() - 1;
    let v = sizes[n];
    lemma_insert_position(sizes, o, v);
    let pos = insert_position(sizes, o, v) as int;
    let r = o.insert(pos, n as usize);
    assert forall|k: int| 0 <= k < r.len() implies #[trigger] r[k] < sizes.len() && sizes[r[k] as int]
        >= min_size by {
        if k < pos {
            assert(r[k] == o[k]);
        } else if k > pos {
            assert(r[k] == o[k - 1]);
        } else {
            assert(r[k] == n as usize);
        }
    }
    assert forall|i: int| 0 <= i < sizes.len() && sizes[i] >= min_size implies r.contains(i as usize) by {
        if i == n {
            assert(r[pos] == n as usize);
        } else {
            assert(o.contains(i as usize));
            let k = choose|k: int| 0 <= k < o.len() && o[k] == i as usize;
            if k < pos {
                assert(r[k] == o[k]);
            } else {
                assert(r[k + 1] == o[k]);
            }
        }
    }
    assert forall|a: int, b: int| 0 <= a < b < r.len() implies ranks_before(
        sizes,
        #[trigger] r[a] as int,
        #[trigger] r[b] as int,
    ) by {
        if b < pos {
            assert(r[a] == o[a] && r[b] == o[b]);
        } else if b == pos {
            assert(r[a] == o[a] && r[b] == n as usize);
            assert(sizes[o[a] as int] >= v);
        } else if a == pos {
            assert(r[a] == n as usize && r[b] == o[b - 1]);
            assert(sizes[o[pos] as int] < v);
            if b - 1 > pos {
                assert(ranks_before(sizes, o[pos] as int, o[b - 1] as int));
            }
        } else if a < pos {
            assert(r[a] == o[a] && r[b] == o[b - 1]);
        } else {
            assert(r[a] == o[a - 1] && r[b] == o[b - 1]);
        }
    }
}

/// For any sizes and threshold there is an order that `is_largest_first` admits (and by
/// `lemma_largest_first_unique`, only one).
pub proof fn lemma_largest_first_exists(sizes: Seq<u64>, min_size: u64)
    requires
        sizes.len() <= usize::MAX,
    ensures
        exists|o: Seq<usize>| is_largest_first(sizes, min_size, o),
    decreases sizes.len(),
{
    if sizes.len() == 0 {
        assert(is_largest_first(sizes, min_size, Seq::<usize>::empty()));
    } else {
        let n = sizes.len() - 1;
        let prefix = sizes.drop_last();
        lemma_largest_first_exists(prefix, min_size);
        let o = choose|o: Seq<usize>| is_largest_first(prefix, min_size, o);
        lemma_prefix_order_lifts(sizes, min_size, o);
        if sizes[n] < min_size {
            assert(is_largest_first(sizes, min_size, o));
        } else {
            lemma_insert_last(sizes, min_size, o);
            let r = o.insert(insert_position(sizes, o, sizes[n]) as int, n as usize);
            assert(is_largest_first(sizes, min_size, r));
        }
    }
}

} // verus!
