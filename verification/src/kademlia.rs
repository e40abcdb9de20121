//! Kademlia-style routing table: an ordered list of buckets, each a
//! duplicate-free list of nodes sorted by node id, keyed by closeness to a
//! local id.
//!
//! The ordering that sorts buckets and answers range probes is the one
//! `cmp_distance` decides: for the BitTorrent id type this is plain
//! byte-wise comparison of the raw ids, used as a stable total order, not a
//! distance to any third reference.  `bucket_index` measures the shared
//! prefix of two ids and drives both bucket choice and bucket splitting.

use vstd::prelude::*;

use core::cmp::Ordering;

verus! {

/// A network address that can be used to contact a node.
pub trait Address: Sized {

}

/// Comparison and shared-prefix measurement between node identifiers.
///
/// `le_spec` is the total order that `cmp_distance` decides;
/// `bucket_index_spec` is the shared-prefix length that `bucket_index`
/// computes.  Implementations prove the order laws, so that the routing
/// table's contracts hold for every implementation.
pub trait Xorable: Sized {
    /// The order `cmp_distance` decides: `self` before or equal to `other`.
    spec fn le_spec(&self, other: &Self) -> bool;

    /// The shared-prefix length `bucket_index` computes.
    spec fn bucket_index_spec(&self, other: &Self) -> int;

    /// `le_spec` is a total order whose equal elements are equal values.
    proof fn lemma_le_total_order(a: &Self, b: &Self, c: &Self)
        ensures
            a.le_spec(b) || b.le_spec(a),
            (a.le_spec(b) && b.le_spec(a)) ==> a == b,
            (a.le_spec(b) && b.le_spec(c)) ==> a.le_spec(c),
            a.le_spec(a),
    ;

    /// An id shares at least as long a prefix with itself as with any other.
    proof fn lemma_bucket_index_self(a: &Self, b: &Self)
        ensures
            a.bucket_index_spec(a) >= a.bucket_index_spec(b),
            a.bucket_index_spec(b) >= 0,
    ;

    /// Three-way comparison in the `le_spec` order.
    fn cmp_distance(&self, other: &Self) -> (r: Ordering)
        ensures
            (r == Ordering::Equal) == (*self == *other),
            (r != Ordering::Greater) == self.le_spec(other),
            (r != Ordering::Less) == other.le_spec(self),
    ;

    /// The number of leading positions in which the two ids agree.
    fn bucket_index(&self, other: &Self) -> (r: usize)
        ensures
            r as int == self.bucket_index_spec(other),
    ;
}

/// A node identifier: totally ordered, prefix-measurable, copyable, and
/// convertible to and from its fixed raw byte form.
pub trait NodeId: Xorable + Copy + PartialEq + Eq + Sized {
    /// The raw bytes of the id, as they travel on the wire.
    spec fn id_bytes(&self) -> Seq<u8>;

    /// Whether a byte run is a well-formed id.
    spec fn valid_id_bytes(b: Seq<u8>) -> bool;

    /// The id a well-formed byte run denotes.
    spec fn id_of_bytes(b: Seq<u8>) -> Self;

    /// An id's bytes are well-formed and denote it back.
    proof fn lemma_id_bytes_roundtrip(a: &Self)
        ensures
            Self::valid_id_bytes(a.id_bytes()),
            Self::id_of_bytes(a.id_bytes()) == *a,
    ;

    /// Parses an id from raw bytes; rejects malformed runs.
    fn try_from_bytes(b: &[u8]) -> (r: Result<Self, ()>)
        ensures
            (r is Ok) == Self::valid_id_bytes(b@),
            r matches Ok(x) ==> x == Self::id_of_bytes(b@),
    ;

    /// The raw bytes of the id.
    fn to_bytes(&self) -> (r: Vec<u8>)
        ensures
            r@ == self.id_bytes(),
    ;
}

/// A discovered node: its id and the addresses it can be reached at.
pub struct Node<A: Address, N: NodeId> {
    pub id: N,
    pub addresses: Vec<A>,
}

impl<A: Address, N: NodeId> Node<A, N> {
    /// Builds a node from an id and its addresses.
    pub fn new(id: N, addresses: Vec<A>) -> (r: Self)
        ensures
            r.id == id,
            r.addresses == addresses,
    {
        Node { id, addresses }
    }
}

/// A bucket: nodes sorted strictly ascending by id, so ids are unique.
pub struct Bucket<A: Address, N: NodeId> {
    nodes: Vec<Node<A, N>>,
}

/// Strictly ascending by id in the `le_spec` order: sorted and
/// duplicate-free.
pub open spec fn nodes_sorted<A: Address, N: NodeId>(ns: Seq<Node<A, N>>) -> bool {
    forall|i: int, j: int|
        #![trigger ns[i], ns[j]]
        0 <= i < j < ns.len() ==> ns[i].id.le_spec(&ns[j].id) && ns[i].id != ns[j].id
}

/// Whether some node of the sequence has the given id.
pub open spec fn nodes_contain<A: Address, N: NodeId>(ns: Seq<Node<A, N>>, id: N) -> bool {
    exists|k: int| 0 <= k < ns.len() && (#[trigger] ns[k]).id == id
}

/// How many nodes sort strictly before the given id: the position where a
/// new node with that id lands.
pub open spec fn rank<A: Address, N: NodeId>(ns: Seq<Node<A, N>>, id: N) -> int
    decreases ns.len(),
{
    if ns.len() == 0 {
        0
    } else {
        rank(ns.drop_last(), id) + if ns.last().id.le_spec(&id) && ns.last().id != id {
            1int
        } else {
            0int
        }
    }
}

/// The first position holding the given id, or the length if none does.
pub open spec fn find_index<A: Address, N: NodeId>(ns: Seq<Node<A, N>>, id: N) -> int
    decreases ns.len(),
{
    if ns.len() == 0 {
        0
    } else if ns[0].id == id {
        0
    } else {
        1 + find_index(ns.subrange(1, ns.len() as int), id)
    }
}

proof fn lemma_rank_bounds<A: Address, N: NodeId>(ns: Seq<Node<A, N>>, id: N)
    ensures
        0 <= rank(ns, id) <= ns.len(),
    decreases ns.len(),
{
    if ns.len() > 0 {
        lemma_rank_bounds(ns.drop_last(), id);
    }
}

/// A scan that stops at the first node not strictly below `id` has found
/// the rank.
proof fn lemma_rank_eq<A: Address, N: NodeId>(ns: Seq<Node<A, N>>, id: N, i: int)
    requires
        0 <= i <= ns.len(),
        forall|k: int|
            0 <= k < i ==> (#[trigger] ns[k].id).le_spec(&id) && ns[k].id != id,
        forall|k: int|
            i <= k < ns.len() ==> !((#[trigger] ns[k].id).le_spec(&id) && ns[k].id != id),
    ensures
        rank(ns, id) == i,
    decreases ns.len(),
{
    if ns.len() > 0 {
        let ns0 = ns.drop_last();
        if i == ns.len() {
            lemma_rank_eq(ns0, id, i - 1);
        } else {
            lemma_rank_eq(ns0, id, i);
        }
    }
}

proof fn lemma_find_index<A: Address, N: NodeId>(ns: Seq<Node<A, N>>, id: N)
    ensures
        0 <= find_index(ns, id) <= ns.len(),
        nodes_contain(ns, id) ==> find_index(ns, id) < ns.len() && ns[find_index(ns, id)].id
            == id,
        forall|k: int| 0 <= k < find_index(ns, id) ==> (#[trigger] ns[k]).id != id,
    decreases ns.len(),
{
    if ns.len() > 0 && ns[0].id != id {
        let tail = ns.subrange(1, ns.len() as int);
        lemma_find_index(tail, id);
        if nodes_contain(ns, id) {
            let w = choose|k: int| 0 <= k < ns.len() && (#[trigger] ns[k]).id == id;
            assert(tail[w - 1] == ns[w]);
            assert(nodes_contain(tail, id));
        }
        assert forall|k: int| 0 <= k < find_index(ns, id) implies (#[trigger] ns[k]).id != id by {
            if k > 0 {
                assert(ns[k] == tail[k - 1]);
            }
        }
    }
}

impl<A: Address, N: NodeId> Bucket<A, N> {
    /// The nodes of the bucket, in id order.
    pub closed spec fn nodes_seq(&self) -> Seq<Node<A, N>> {
        self.nodes@
    }

    /// The bucket's well-formedness: strictly sorted by id.
    pub open spec fn wf(&self) -> bool {
        nodes_sorted(self.nodes_seq())
    }

    /// The first node of the bucket, the one with the least id.
    pub fn first(&self) -> (r: Option<&Node<A, N>>)
        ensures
            match r {
                Some(n) => self.nodes_seq().len() > 0 && *n == self.nodes_seq()[0],
                None => self.nodes_seq().len() == 0,
            },
    {
        if self.nodes.len() == 0 {
            None
        } else {
            Some(&self.nodes[0])
        }
    }

    /// The last node of the bucket, the one with the greatest id.
    pub fn last(&self) -> (r: Option<&Node<A, N>>)
        ensures
            match r {
                Some(n) => self.nodes_seq().len() > 0 && *n == self.nodes_seq()[self.nodes_seq().len()
                    - 1],
                None => self.nodes_seq().len() == 0,
            },
    {
        if self.nodes.len() == 0 {
            None
        } else {
            Some(&self.nodes[self.nodes.len() - 1])
        }
    }

    /// The node at the given position, if any.
    pub fn get(&self, index: usize) -> (r: Option<&Node<A, N>>)
        ensures
            match r {
                Some(n) => index < self.nodes_seq().len() && *n == self.nodes_seq()[index as int],
                None => index >= self.nodes_seq().len(),
            },
    {
        if index < self.nodes.len() {
            Some(&self.nodes[index])
        } else {
            None
        }
    }

    /// A mutable reference to the node at the given position, if any.
    pub fn get_mut(&mut self, index: usize) -> (r: Option<&mut Node<A, N>>)
        ensures
            (r is Some) == (index < old(self).nodes_seq().len()),
            r matches Some(node) ==> *node == old(self).nodes_seq()[index as int],
    {
        if index < self.nodes.len() {
            let node_ref = &mut self.nodes[index];
            Some(node_ref)
        } else {
            None
        }
    }

    /// Finds the position of the id, or where it would be inserted.
    #[verifier::loop_isolation(false)]
    fn find(&self, id: &N) -> (r: Result<usize, usize>)
        requires
            self.wf(),
        ensures
            match r {
                Ok(i) => i < self.nodes_seq().len() && self.nodes_seq()[i as int].id == *id,
                Err(i) => i as int == rank(self.nodes_seq(), *id) && !nodes_contain(
                    self.nodes_seq(),
                    *id,
                ) && i <= self.nodes_seq().len() && (forall|k: int|
                    0 <= k < i ==> (#[trigger] self.nodes_seq()[k].id).le_spec(id)
                        && self.nodes_seq()[k].id != *id) && (forall|k: int|
                    i <= k < self.nodes_seq().len() ==> !((#[trigger] self.nodes_seq()[k].id).le_spec(
                        id,
                    ) && self.nodes_seq()[k].id != *id)),
            },
    {
        let ns = &self.nodes;
        let mut i: usize = 0;
        while i < ns.len()
            invariant
                i <= ns@.len(),
                forall|k: int|
                    0 <= k < i ==> (#[trigger] ns@[k].id).le_spec(id) && ns@[k].id != *id,
            decreases ns@.len() - i,
        {
            let ord = ns[i].id.cmp_distance(id);
            match ord {
                Ordering::Equal => {
                    return Ok(i);
                },
                Ordering::Less => {
                    proof {
                        N::lemma_le_total_order(&ns@[i as int].id, id, id);
                    }
                },
                Ordering::Greater => {
                    proof {
                        assert forall|k: int|
                            i <= k < ns@.len() implies !((#[trigger] ns@[k].id).le_spec(id)
                            && ns@[k].id != *id) by {
                            N::lemma_le_total_order(&ns@[i as int].id, &ns@[k].id, id);
                            N::lemma_le_total_order(id, &ns@[i as int].id, &ns@[k].id);
                            N::lemma_le_total_order(id, &ns@[k].id, id);
                        }
                        lemma_rank_eq(ns@, *id, i as int);
                        assert forall|k: int|
                            0 <= k < ns@.len() implies (#[trigger] ns@[k]).id != *id by {}
                    }
                    return Err(i);
                },
            }
            i = i + 1;
        }
        proof {
            lemma_rank_eq(ns@, *id, i as int);
        }
        Err(i)
    }

    /// Inserts the node at its sorted position; a node whose id is already
    /// present is rejected and nothing changes.
    pub fn insert(&mut self, node: Node<A, N>) -> (r: bool)
        requires
            old(self).wf(),
        ensures
            final(self).wf(),
            r == !nodes_contain(old(self).nodes_seq(), node.id),
            r ==> final(self).nodes_seq() == old(self).nodes_seq().insert(
                rank(old(self).nodes_seq(), node.id),
                node,
            ),
            !r ==> final(self).nodes_seq() == old(self).nodes_seq(),
    {
        match self.find(&node.id) {
            Ok(_) => {
                proof {
                    let i = choose|k: int|
                        0 <= k < self.nodes_seq().len() && (#[trigger] self.nodes_seq()[k]).id
                            == node.id;
                }
                false
            },
            Err(index) => {
                let ghost ns0 = self.nodes_seq();
                proof {
                    lemma_rank_bounds(ns0, node.id);
                }
                self.nodes.insert(index, node);
                proof {
                    ns0.insert_ensures(index as int, node);
                    lemma_sorted_after_insert(ns0, node, index as int);
                }
                true
            },
        }
    }

    /// Removes the node with the given id, handing it back if it was there.
    pub fn remove(&mut self, id: &N) -> (r: Option<Node<A, N>>)
        requires
            old(self).wf(),
        ensures
            final(self).wf(),
            match r {
                Some(n) => nodes_contain(old(self).nodes_seq(), *id) && n.id == *id
                    && n == old(self).nodes_seq()[find_index(old(self).nodes_seq(), *id)]
                    && final(self).nodes_seq() == old(self).nodes_seq().remove(
                    find_index(old(self).nodes_seq(), *id),
                ),
                None => !nodes_contain(old(self).nodes_seq(), *id) && final(self).nodes_seq()
                    == old(self).nodes_seq(),
            },
    {
        match self.find(id) {
            Ok(index) => {
                let ghost ns0 = self.nodes_seq();
                proof {
                    lemma_find_index(ns0, *id);
                    assert(nodes_contain(ns0, *id));
                    // Sorted ids are unique, so the found index is the first.
                    let fi = find_index(ns0, *id);
                    if fi != index as int {
                        assert(ns0[fi].id == *id && ns0[index as int].id == *id);
                        assert(false);
                    }
                }
                let node = self.nodes.remove(index);
                proof {
                    ns0.remove_ensures(index as int);
                    assert forall|i: int, j: int|
                        #![trigger self.nodes_seq()[i], self.nodes_seq()[j]]
                        0 <= i < j < self.nodes_seq().len() implies self.nodes_seq()[i].id.le_spec(
                        &self.nodes_seq()[j].id,
                    ) && self.nodes_seq()[i].id != self.nodes_seq()[j].id by {
                        let a = if i < index as int {
                            i
                        } else {
                            i + 1
                        };
                        let b = if j < index as int {
                            j
                        } else {
                            j + 1
                        };
                        assert(self.nodes_seq()[i] == ns0[a]);
                        assert(self.nodes_seq()[j] == ns0[b]);
                    }
                }
                Some(node)
            },
            Err(_) => None,
        }
    }

    /// Whether a node with the given id is in the bucket.
    pub fn contains(&self, id: &N) -> (r: bool)
        requires
            self.wf(),
        ensures
            r == nodes_contain(self.nodes_seq(), *id),
    {
        match self.find(id) {
            Ok(_) => true,
            Err(_) => false,
        }
    }

    /// Whether the id lies within the bucket's range: between the first and
    /// the last node's ids in the `cmp_distance` order, both inclusive.
    pub fn range_contains(&self, id: &N) -> (r: bool)
        requires
            self.wf(),
            self.nodes_seq().len() >= 1,
        ensures
            r == range_spec(self.nodes_seq(), *id),
    {
        let first = &self.nodes[0];
        let last = &self.nodes[self.nodes.len() - 1];
        let cmp_first = id.cmp_distance(&first.id);
        let cmp_last = id.cmp_distance(&last.id);
        let r1 = matches!(cmp_first, Ordering::Less);
        let r2 = matches!(cmp_last, Ordering::Greater);
        !r1 && !r2
    }

    /// The number of nodes in the bucket.
    pub fn len(&self) -> (r: usize)
        ensures
            r == self.nodes_seq().len(),
    {
        self.nodes.len()
    }
}

/// The id lies between the first and last node ids, both inclusive.
pub open spec fn range_spec<A: Address, N: NodeId>(ns: Seq<Node<A, N>>, id: N) -> bool
    recommends
        ns.len() >= 1,
{
    ns[0].id.le_spec(&id) && id.le_spec(&ns[ns.len() - 1].id)
}

/// Inserting at the rank keeps a sorted sequence sorted.
proof fn lemma_sorted_after_insert<A: Address, N: NodeId>(
    ns: Seq<Node<A, N>>,
    node: Node<A, N>,
    i: int,
)
    requires
        nodes_sorted(ns),
        0 <= i <= ns.len(),
        forall|k: int| 0 <= k < i ==> (#[trigger] ns[k].id).le_spec(&node.id) && ns[k].id != node.id,
        forall|k: int|
            i <= k < ns.len() ==> !((#[trigger] ns[k].id).le_spec(&node.id) && ns[k].id != node.id),
        !nodes_contain(ns, node.id),
    ensures
        nodes_sorted(ns.insert(i, node)),
{
    let r = ns.insert(i, node);
    ns.insert_ensures(i, node);
    assert forall|a: int, b: int|
        #![trigger r[a], r[b]]
        0 <= a < b < r.len() implies r[a].id.le_spec(&r[b].id) && r[a].id != r[b].id by {
        if a == i {
            // node before an old element at position b - 1 >= i
            let k = b - 1;
            assert(r[b] == ns[k]);
            assert(ns[k].id != node.id);
            N::lemma_le_total_order(&node.id, &ns[k].id, &ns[k].id);
        } else if b == i {
            let k = a;
            assert(r[a] == ns[k]);
        } else {
            let ka = if a < i {
                a
            } else {
                a - 1
            };
            let kb = if b < i {
                b
            } else {
                b - 1
            };
            assert(r[a] == ns[ka]);
            assert(r[b] == ns[kb]);
        }
    }
}


/// The score `find_bucket` gives a non-empty bucket for an id: the smaller
/// of the shared-prefix lengths with the bucket's first and last node.
pub open spec fn bucket_score<A: Address, N: NodeId>(ns: Seq<Node<A, N>>, id: N) -> int
    recommends
        ns.len() >= 1,
{
    let a = id.bucket_index_spec(&ns[0].id);
    let b = id.bucket_index_spec(&ns[ns.len() - 1].id);
    if a <= b {
        a
    } else {
        b
    }
}

/// The bucket scan: walks the buckets in order keeping the best index,
/// preferring later buckets on ties; empty buckets are skipped.
pub open spec fn fbi_loop<A: Address, N: NodeId>(
    bs: Seq<Seq<Node<A, N>>>,
    id: N,
    i: int,
    best: int,
    score: int,
) -> (int, int)
    decreases bs.len() - i,
{
    if i < 0 || i >= bs.len() {
        (best, score)
    } else if bs[i].len() > 0 && bucket_score(bs[i], id) >= score {
        fbi_loop(bs, id, i + 1, i, bucket_score(bs[i], id))
    } else {
        fbi_loop(bs, id, i + 1, best, score)
    }
}

/// The index `find_bucket` chooses: the bucket whose members maximize the
/// minimum shared-prefix length with the id, later buckets winning ties.
/// With no buckets at all there is none to choose.
pub open spec fn spec_find_bucket_index<A: Address, N: NodeId>(
    bs: Seq<Seq<Node<A, N>>>,
    id: N,
) -> Option<int> {
    if bs.len() == 0 {
        None
    } else {
        Some(fbi_loop(bs, id, 0, 0, 0).0)
    }
}

proof fn lemma_fbi_bounds<A: Address, N: NodeId>(
    bs: Seq<Seq<Node<A, N>>>,
    id: N,
    i: int,
    best: int,
    score: int,
)
    requires
        0 <= best < bs.len(),
        0 <= i,
    ensures
        0 <= fbi_loop(bs, id, i, best, score).0 < bs.len(),
    decreases bs.len() - i,
{
    if i < bs.len() {
        if bs[i].len() > 0 && bucket_score(bs[i], id) >= score {
            lemma_fbi_bounds(bs, id, i + 1, i, bucket_score(bs[i], id));
        } else {
            lemma_fbi_bounds(bs, id, i + 1, best, score);
        }
    }
}

/// The shared-prefix length between a bucket's first and last node ids:
/// nodes at or above it go left on a split, the rest go right.
pub open spec fn split_point<A: Address, N: NodeId>(ns: Seq<Node<A, N>>) -> int
    recommends
        ns.len() >= 1,
{
    ns[0].id.bucket_index_spec(&ns[ns.len() - 1].id)
}

/// The nodes whose shared prefix with `first` reaches the split point,
/// in their original order.
pub open spec fn split_left<A: Address, N: NodeId>(
    ns: Seq<Node<A, N>>,
    first: N,
    point: int,
) -> Seq<Node<A, N>>
    decreases ns.len(),
{
    if ns.len() == 0 {
        Seq::empty()
    } else if first.bucket_index_spec(&ns.last().id) >= point {
        split_left(ns.drop_last(), first, point).push(ns.last())
    } else {
        split_left(ns.drop_last(), first, point)
    }
}

/// The nodes whose shared prefix with `first` falls short of the split
/// point, in their original order.
pub open spec fn split_right<A: Address, N: NodeId>(
    ns: Seq<Node<A, N>>,
    first: N,
    point: int,
) -> Seq<Node<A, N>>
    decreases ns.len(),
{
    if ns.len() == 0 {
        Seq::empty()
    } else if first.bucket_index_spec(&ns.last().id) >= point {
        split_right(ns.drop_last(), first, point)
    } else {
        split_right(ns.drop_last(), first, point).push(ns.last())
    }
}

/// Each side of a split is a subsequence of the input: sortedness carries
/// over, and every node comes from the input.
proof fn lemma_split_side_sorted<A: Address, N: NodeId>(ns: Seq<Node<A, N>>, first: N, point: int)
    requires
        nodes_sorted(ns),
    ensures
        nodes_sorted(split_left(ns, first, point)),
        nodes_sorted(split_right(ns, first, point)),
        split_left(ns, first, point).len() + split_right(ns, first, point).len() == ns.len(),
        forall|q: int|
            0 <= q < split_left(ns, first, point).len() ==> exists|p: int|
                0 <= p < ns.len() && #[trigger] split_left(ns, first, point)[q] == ns[p],
        forall|q: int|
            0 <= q < split_right(ns, first, point).len() ==> exists|p: int|
                0 <= p < ns.len() && #[trigger] split_right(ns, first, point)[q] == ns[p],
    decreases ns.len(),
{
    if ns.len() > 0 {
        let ns0 = ns.drop_last();
        assert(nodes_sorted(ns0));
        lemma_split_side_sorted(ns0, first, point);
        let l0 = split_left(ns0, first, point);
        let r0 = split_right(ns0, first, point);
        assert forall|q: int| 0 <= q < l0.len() implies l0[q].id.le_spec(&ns.last().id)
            && l0[q].id != ns.last().id by {
            let p = choose|p: int| 0 <= p < ns0.len() && l0[q] == ns0[p];
            assert(ns[p] == ns0[p]);
        }
        assert forall|q: int| 0 <= q < r0.len() implies r0[q].id.le_spec(&ns.last().id)
            && r0[q].id != ns.last().id by {
            let p = choose|p: int| 0 <= p < ns0.len() && r0[q] == ns0[p];
            assert(ns[p] == ns0[p]);
        }
        if first.bucket_index_spec(&ns.last().id) >= point {
            let l = split_left(ns, first, point);
            assert(l == l0.push(ns.last()));
            assert forall|a: int, b: int|
                #![trigger l[a], l[b]]
                0 <= a < b < l.len() implies l[a].id.le_spec(&l[b].id) && l[a].id != l[b].id by {
                if b == l.len() - 1 {
                    assert(l[a] == l0[a]);
                } else {
                    assert(l[a] == l0[a] && l[b] == l0[b]);
                }
            }
            assert forall|q: int| 0 <= q < l.len() implies exists|p: int|
                0 <= p < ns.len() && #[trigger] l[q] == ns[p] by {
                if q < l.len() - 1 {
                    let p = choose|p: int| 0 <= p < ns0.len() && l0[q] == ns0[p];
                    assert(l[q] == ns[p]);
                } else {
                    assert(l[q] == ns[ns.len() - 1]);
                }
            }
            assert forall|q: int| 0 <= q < split_right(ns, first, point).len() implies exists|
                p: int,
            | 0 <= p < ns.len() && #[trigger] split_right(ns, first, point)[q] == ns[p] by {
                let p = choose|p: int| 0 <= p < ns0.len() && r0[q] == ns0[p];
                assert(split_right(ns, first, point)[q] == ns[p]);
            }
        } else {
            let r = split_right(ns, first, point);
            assert(r == r0.push(ns.last()));
            assert forall|a: int, b: int|
                #![trigger r[a], r[b]]
                0 <= a < b < r.len() implies r[a].id.le_spec(&r[b].id) && r[a].id != r[b].id by {
                if b == r.len() - 1 {
                    assert(r[a] == r0[a]);
                } else {
                    assert(r[a] == r0[a] && r[b] == r0[b]);
                }
            }
            assert forall|q: int| 0 <= q < r.len() implies exists|p: int|
                0 <= p < ns.len() && #[trigger] r[q] == ns[p] by {
                if q < r.len() - 1 {
                    let p = choose|p: int| 0 <= p < ns0.len() && r0[q] == ns0[p];
                    assert(r[q] == ns[p]);
                } else {
                    assert(r[q] == ns[ns.len() - 1]);
                }
            }
            assert forall|q: int| 0 <= q < split_left(ns, first, point).len() implies exists|
                p: int,
            | 0 <= p < ns.len() && #[trigger] split_left(ns, first, point)[q] == ns[p] by {
                let p = choose|p: int| 0 <= p < ns0.len() && l0[q] == ns0[p];
                assert(split_left(ns, first, point)[q] == ns[p]);
            }
        }
    }
}

/// What `insert` does to the table's buckets, and whether it reports the
/// node as inserted.  It mirrors the algorithm: find the bucket; a missing
/// bucket means a fresh one-node bucket; a bucket with room takes the node
/// in sorted position, rejecting a duplicate id; a full bucket takes the
/// node only if the local id lies in its range, and is then split at the
/// shared-prefix length of its first and last ids, the two halves replacing
/// it at the end of the bucket list.
pub open spec fn spec_table_insert<A: Address, N: NodeId>(
    bs: Seq<Seq<Node<A, N>>>,
    local: N,
    size: int,
    node: Node<A, N>,
) -> (Seq<Seq<Node<A, N>>>, bool) {
    if bs.len() == 0 {
        (bs.push(seq![node]), true)
    } else {
        let i = fbi_loop(bs, node.id, 0, 0, 0).0;
        let b = bs[i];
        if b.len() < size {
            if nodes_contain(b, node.id) {
                (bs, false)
            } else {
                (bs.update(i, b.insert(rank(b, node.id), node)), true)
            }
        } else if !range_spec(b, local) {
            (bs, false)
        } else {
            let b2 = if nodes_contain(b, node.id) {
                b
            } else {
                b.insert(rank(b, node.id), node)
            };
            let bs2 = bs.update(i, b2);
            let j = fbi_loop(bs2, node.id, 0, 0, 0).0;
            let bj = bs2[j];
            if bj.len() < size {
                (bs2.remove(j).push(bj), true)
            } else {
                let f = bj[0].id;
                let point = split_point(bj);
                (
                    bs2.remove(j).push(split_left(bj, f, point)).push(split_right(bj, f, point)),
                    true,
                )
            }
        }
    }
}

/// What `remove` does to the table's buckets, and what it hands back is
/// described in the method's contract over this mirror of the lookup.
pub open spec fn spec_table_remove<A: Address, N: NodeId>(
    bs: Seq<Seq<Node<A, N>>>,
    id: N,
) -> Seq<Seq<Node<A, N>>> {
    match spec_find_bucket_index(bs, id) {
        Option::None => bs,
        Option::Some(i) => {
            let b = bs[i];
            let b2 = if nodes_contain(b, id) {
                b.remove(find_index(b, id))
            } else {
                b
            };
            if b2.len() == 0 {
                bs.remove(i)
            } else {
                bs.update(i, b2)
            }
        },
    }
}

/// An ordered list of buckets, a local id, and the bucket capacity.
pub struct RoutingTable<A: Address, N: NodeId> {
    buckets: Vec<Bucket<A, N>>,
    local_id: N,
    bucket_size: usize,
}

impl<A: Address, N: NodeId> RoutingTable<A, N> {
    /// The node sequences of the buckets, in bucket order.
    pub closed spec fn buckets_model(&self) -> Seq<Seq<Node<A, N>>> {
        Seq::new(self.buckets@.len(), |i: int| self.buckets@[i].nodes_seq())
    }

    /// The id of the node that owns the table.
    pub closed spec fn local_id_spec(&self) -> N {
        self.local_id
    }

    /// The capacity of each bucket.
    pub closed spec fn bucket_size_spec(&self) -> int {
        self.bucket_size as int
    }

    /// Every bucket is strictly sorted by id, so ids are unique per
    /// bucket; the capacity is positive.
    pub open spec fn wf(&self) -> bool {
        self.bucket_size_spec() >= 1 && forall|i: int|
            0 <= i < self.buckets_model().len() ==> nodes_sorted(#[trigger] self.buckets_model()[i])
    }

    /// The number of buckets the table holds.
    pub fn bucket_count(&self) -> (r: usize)
        ensures
            r == self.buckets_model().len(),
    {
        self.buckets.len()
    }

    /// A new table for the given local id: no buckets, capacity 20.
    pub fn new(local_id: N) -> (r: RoutingTable<A, N>)
        ensures
            r.buckets_model() == Seq::<Seq<Node<A, N>>>::empty(),
            r.local_id_spec() == local_id,
            r.bucket_size_spec() == 20,
            r.wf(),
    {
        let r = RoutingTable { buckets: Vec::new(), local_id, bucket_size: 20 };
        proof {
            assert(r.buckets_model() =~= Seq::<Seq<Node<A, N>>>::empty());
        }
        r
    }

    /// Finds the index of the bucket `find_bucket` would choose.
    #[verifier::loop_isolation(false)]
    fn find_bucket_index(&self, id: &N) -> (r: Option<usize>)
        ensures
            match r {
                Option::None => self.buckets_model().len() == 0,
                Option::Some(i) => self.buckets_model().len() > 0 && spec_find_bucket_index(
                    self.buckets_model(),
                    *id,
                ) == Some(i as int) && i < self.buckets_model().len(),
            },
    {
        let ghost bm = self.buckets_model();
        if self.buckets.len() == 0 {
            return None;
        }
        let mut best: usize = 0;
        let mut score: usize = 0;
        let mut i: usize = 0;
        while i < self.buckets.len()
            invariant
                i <= self.buckets@.len(),
                best < self.buckets@.len(),
                fbi_loop(bm, *id, i as int, best as int, score as int) == fbi_loop(
                    bm,
                    *id,
                    0,
                    0,
                    0,
                ),
            decreases self.buckets@.len() - i,
        {
            let b = &self.buckets[i];
            proof {
                assert(bm[i as int] == b.nodes_seq());
            }
            if b.nodes.len() > 0 {
                let l = id.bucket_index(&b.nodes[0].id);
                let rd = id.bucket_index(&b.nodes[b.nodes.len() - 1].id);
                let bindex = if l < rd {
                    l
                } else {
                    rd
                };
                proof {
                    assert(bindex as int == bucket_score(bm[i as int], *id));
                }
                if bindex >= score {
                    best = i;
                    score = bindex;
                }
            }
            i = i + 1;
        }
        Some(best)
    }

    /// The bucket whose members share the longest common prefix with the
    /// id, if the table has any bucket.
    pub fn find_bucket(&self, id: &N) -> (r: Option<&Bucket<A, N>>)
        ensures
            match r {
                Option::None => self.buckets_model().len() == 0 && spec_find_bucket_index(
                    self.buckets_model(),
                    *id,
                ) is None,
                Option::Some(b) => spec_find_bucket_index(self.buckets_model(), *id) matches Some(
                    i,
                ) && b.nodes_seq() == self.buckets_model()[i],
            },
    {
        match self.find_bucket_index(id) {
            Option::None => None,
            Option::Some(index) => Some(&self.buckets[index]),
        }
    }
}


impl<A: Address, N: NodeId> RoutingTable<A, N> {
    /// Inserts a node.  Returns whether the table reports an insertion:
    /// false when the chosen bucket rejects a duplicate id with room to
    /// spare, or is full with the local id outside its range; true
    /// otherwise, including the forced insert that splits a full bucket.
    /// The exact outcome is [`spec_table_insert`] of the old state.
    pub fn insert(&mut self, node: Node<A, N>) -> (r: bool)
        requires
            old(self).wf(),
        ensures
            final(self).wf(),
            final(self).local_id_spec() == old(self).local_id_spec(),
            final(self).bucket_size_spec() == old(self).bucket_size_spec(),
            final(self).buckets_model() == spec_table_insert(
                old(self).buckets_model(),
                old(self).local_id_spec(),
                old(self).bucket_size_spec(),
                node,
            ).0,
            r == spec_table_insert(
                old(self).buckets_model(),
                old(self).local_id_spec(),
                old(self).bucket_size_spec(),
                node,
            ).1,
    {
        let ghost bs0 = self.buckets_model();
        let ghost goal = spec_table_insert(
            bs0,
            self.local_id_spec(),
            self.bucket_size_spec(),
            node,
        );
        let bucket_size = self.bucket_size;
        let local_id = self.local_id;
        let node_id = node.id;
        match self.find_bucket_index(&node_id) {
            Option::None => {
                let mut ns: Vec<Node<A, N>> = Vec::new();
                ns.push(node);
                self.buckets.push(Bucket { nodes: ns });
                proof {
                    assert(self.buckets_model() =~= bs0.push(seq![node]));
                    assert(self.buckets_model() == goal.0);
                    assert forall|i: int|
                        0 <= i < self.buckets_model().len() implies nodes_sorted(
                        #[trigger] self.buckets_model()[i],
                    ) by {
                        if i < bs0.len() {
                            assert(self.buckets_model()[i] == bs0[i]);
                        }
                    }
                }
                true
            },
            Option::Some(index) => {
                let ghost i = index as int;
                let blen = self.buckets[index].len();
                if blen < bucket_size {
                    let mut b = self.buckets.remove(index);
                    proof {
                        assert(b.nodes_seq() == bs0[i]);
                        assert(b.wf());
                    }
                    let inserted = b.insert(node);
                    self.buckets.insert(index, b);
                    proof {
                        assert(self.buckets_model() =~= bs0.update(
                            i,
                            self.buckets@[i].nodes_seq(),
                        ));
                        if inserted {
                            assert(self.buckets_model() =~= goal.0);
                        } else {
                            assert(self.buckets_model() =~= bs0);
                        }
                        assert forall|q: int|
                            0 <= q < self.buckets_model().len() implies nodes_sorted(
                            #[trigger] self.buckets_model()[q],
                        ) by {
                            if q != i {
                                assert(self.buckets_model()[q] == bs0[q]);
                            }
                        }
                    }
                    inserted
                } else {
                    let mut b = self.buckets.remove(index);
                    proof {
                        assert(b.nodes_seq() == bs0[i]);
                        assert(b.wf());
                        assert(b.nodes_seq().len() >= 1);
                    }
                    if !b.range_contains(&local_id) {
                        self.buckets.insert(index, b);
                        proof {
                            assert(self.buckets_model() =~= bs0);
                        }
                        return false;
                    }
                    b.insert(node);
                    self.buckets.insert(index, b);
                    let ghost bs2 = self.buckets_model();
                    proof {
                        assert(bs2 =~= bs0.update(i, self.buckets@[i].nodes_seq()));
                        let bold = bs0[i];
                        let b2 = if nodes_contain(bold, node.id) {
                            bold
                        } else {
                            bold.insert(rank(bold, node.id), node)
                        };
                        assert(bs2 =~= bs0.update(i, b2));
                        assert forall|q: int| 0 <= q < bs2.len() implies nodes_sorted(
                            #[trigger] bs2[q],
                        ) by {
                            if q != i {
                                assert(bs2[q] == bs0[q]);
                            }
                        }
                    }
                    match self.find_bucket_index(&node_id) {
                        Option::None => {
                            // The table always has this bucket, so the
                            // lookup cannot fail.
                            proof {
                                assert(false);
                            }
                            true
                        },
                        Option::Some(target) => {
                            self.split_bucket(target);
                            proof {
                                assert(self.buckets_model() == goal.0);
                            }
                            true
                        },
                    }
                }
            },
        }
    }

    /// Splits the bucket at the given index at the shared-prefix length of
    /// its first and last ids; the two halves replace it at the end of the
    /// bucket list.  A bucket below capacity is only moved to the end.
    #[verifier::loop_isolation(false)]
    fn split_bucket(&mut self, index: usize)
        requires
            old(self).wf(),
            index < old(self).buckets_model().len(),
        ensures
            final(self).wf(),
            final(self).local_id_spec() == old(self).local_id_spec(),
            final(self).bucket_size_spec() == old(self).bucket_size_spec(),
            ({
                let bs = old(self).buckets_model();
                let bj = bs[index as int];
                if bj.len() < old(self).bucket_size_spec() {
                    final(self).buckets_model() == bs.remove(index as int).push(bj)
                } else {
                    final(self).buckets_model() == bs.remove(index as int).push(
                        split_left(bj, bj[0].id, split_point(bj)),
                    ).push(split_right(bj, bj[0].id, split_point(bj)))
                }
            }),
    {
        let ghost bs0 = self.buckets_model();
        let b = self.buckets.remove(index);
        let ghost bj = b.nodes_seq();
        proof {
            assert(bj == bs0[index as int]);
            assert(nodes_sorted(bj));
        }
        if b.nodes.len() < self.bucket_size {
            self.buckets.push(b);
            proof {
                assert(self.buckets_model() =~= bs0.remove(index as int).push(bj));
                assert forall|q: int|
                    0 <= q < self.buckets_model().len() implies nodes_sorted(
                    #[trigger] self.buckets_model()[q],
                ) by {
                    let m = self.buckets_model();
                    if q < m.len() - 1 {
                        let p = if q < index as int {
                            q
                        } else {
                            q + 1
                        };
                        assert(m[q] == bs0[p]);
                    } else {
                        assert(m[q] == bj);
                    }
                }
            }
            return ;
        }
        let first_id = b.nodes[0].id;
        let last_id = b.nodes[b.nodes.len() - 1].id;
        let point = first_id.bucket_index(&last_id);
        let ghost spoint = split_point(bj);
        proof {
            assert(point as int == spoint);
        }
        let Bucket { nodes: mut ns } = b;
        let mut left: Vec<Node<A, N>> = Vec::new();
        let mut right: Vec<Node<A, N>> = Vec::new();
        proof {
            assert(bj.subrange(0, 0) =~= Seq::<Node<A, N>>::empty());
            assert(left@ =~= split_left(bj.subrange(0, 0), first_id, spoint));
            assert(right@ =~= split_right(bj.subrange(0, 0), first_id, spoint));
        }
        while ns.len() > 0
            invariant
                left@.len() + right@.len() + ns@.len() == bj.len(),
                ns@ == bj.subrange(bj.len() - ns@.len(), bj.len() as int),
                left@ == split_left(
                    bj.subrange(0, bj.len() - ns@.len()),
                    first_id,
                    spoint,
                ),
                right@ == split_right(
                    bj.subrange(0, bj.len() - ns@.len()),
                    first_id,
                    spoint,
                ),
            decreases ns@.len(),
        {
            let ghost done_so_far = bj.len() - ns@.len();
            let nd = ns.remove(0);
            proof {
                assert(nd == bj[done_so_far]);
                assert(ns@ =~= bj.subrange(done_so_far + 1, bj.len() as int));
                assert(bj.subrange(0, done_so_far + 1).drop_last() =~= bj.subrange(
                    0,
                    done_so_far,
                ));
                assert(bj.subrange(0, done_so_far + 1).last() == bj[done_so_far]);
            }
            let bi = first_id.bucket_index(&nd.id);
            if bi >= point {
                left.push(nd);
            } else {
                right.push(nd);
            }
        }
        proof {
            assert(bj.subrange(0, bj.len() as int) =~= bj);
        }
        self.buckets.push(Bucket { nodes: left });
        self.buckets.push(Bucket { nodes: right });
        proof {
            assert(self.buckets_model() =~= bs0.remove(index as int).push(
                split_left(bj, bj[0].id, spoint),
            ).push(split_right(bj, bj[0].id, spoint)));
            lemma_split_side_sorted(bj, bj[0].id, spoint);
            assert forall|q: int|
                0 <= q < self.buckets_model().len() implies nodes_sorted(
                #[trigger] self.buckets_model()[q],
            ) by {
                let m = self.buckets_model();
                if q < m.len() - 2 {
                    let p = if q < index as int {
                        q
                    } else {
                        q + 1
                    };
                    assert(m[q] == bs0[p]);
                }
            }
        }
    }

    /// Removes the node with the given id from its bucket, handing it back
    /// if it was there; a bucket left empty disappears from the table.
    pub fn remove(&mut self, id: &N) -> (r: Option<Node<A, N>>)
        requires
            old(self).wf(),
        ensures
            final(self).wf(),
            final(self).local_id_spec() == old(self).local_id_spec(),
            final(self).bucket_size_spec() == old(self).bucket_size_spec(),
            final(self).buckets_model() == spec_table_remove(old(self).buckets_model(), *id),
            match r {
                Option::Some(n) => spec_find_bucket_index(old(self).buckets_model(), *id)
                    matches Some(i) && nodes_contain(old(self).buckets_model()[i], *id) && n.id
                    == *id && n == old(self).buckets_model()[i][find_index(
                    old(self).buckets_model()[i],
                    *id,
                )],
                Option::None => match spec_find_bucket_index(old(self).buckets_model(), *id) {
                    Option::None => true,
                    Option::Some(i) => !nodes_contain(old(self).buckets_model()[i], *id),
                },
            },
    {
        let ghost bs0 = self.buckets_model();
        match self.find_bucket_index(id) {
            Option::None => None,
            Option::Some(index) => {
                let ghost i = index as int;
                let mut b = self.buckets.remove(index);
                proof {
                    assert(b.nodes_seq() == bs0[i]);
                    assert(b.wf());
                }
                let removed = b.remove(id);
                if b.len() == 0 {
                    proof {
                        assert(self.buckets_model() =~= bs0.remove(i));
                        assert(self.buckets_model() == spec_table_remove(bs0, *id));
                        assert forall|q: int|
                            0 <= q < self.buckets_model().len() implies nodes_sorted(
                            #[trigger] self.buckets_model()[q],
                        ) by {
                            let p = if q < i {
                                q
                            } else {
                                q + 1
                            };
                            assert(self.buckets_model()[q] == bs0[p]);
                        }
                    }
                    removed
                } else {
                    self.buckets.insert(index, b);
                    proof {
                        assert(self.buckets_model() =~= bs0.update(
                            i,
                            self.buckets@[i].nodes_seq(),
                        ));
                        if removed is None {
                            assert(self.buckets_model() =~= bs0);
                        }
                        assert(self.buckets_model() == spec_table_remove(bs0, *id));
                        assert forall|q: int|
                            0 <= q < self.buckets_model().len() implies nodes_sorted(
                            #[trigger] self.buckets_model()[q],
                        ) by {
                            if q != i {
                                assert(self.buckets_model()[q] == bs0[q]);
                            }
                        }
                    }
                    removed
                }
            },
        }
    }
}


/// Characterization of the bucket scan from any intermediate state: the
/// result is in bounds, its score dominates every non-empty bucket from
/// `i` on, strictly so past the winner, and as soon as any non-empty
/// bucket can win, the winner is a non-empty bucket scored exactly.
proof fn lemma_fbi_char<A: Address, N: NodeId>(
    bs: Seq<Seq<Node<A, N>>>,
    id: N,
    i: int,
    best: int,
    score: int,
)
    requires
        0 <= i <= bs.len(),
        0 <= best < bs.len(),
    ensures
        ({
            let (w, sc) = fbi_loop(bs, id, i, best, score);
            &&& 0 <= w < bs.len()
            &&& sc >= score
            &&& ((w == best && sc == score) || (i <= w && bs[w].len() > 0 && sc == bucket_score(
                bs[w],
                id,
            )))
            &&& (forall|q: int|
                i <= q < bs.len() && (#[trigger] bs[q]).len() > 0 ==> bucket_score(bs[q], id)
                    <= sc)
            &&& (forall|q: int|
                w < q < bs.len() && q >= i && (#[trigger] bs[q]).len() > 0 ==> bucket_score(
                    bs[q],
                    id,
                ) < sc)
            &&& ((exists|q: int|
                i <= q < bs.len() && (#[trigger] bs[q]).len() > 0 && bucket_score(bs[q], id)
                    >= score) ==> (i <= w && bs[w].len() > 0 && sc == bucket_score(bs[w], id)))
        }),
    decreases bs.len() - i,
{
    if i < bs.len() {
        if bs[i].len() > 0 && bucket_score(bs[i], id) >= score {
            lemma_fbi_char(bs, id, i + 1, i, bucket_score(bs[i], id));
            let (w, sc) = fbi_loop(bs, id, i, best, score);
            assert((w == i && sc == bucket_score(bs[i], id)) || (i + 1 <= w && bs[w].len() > 0
                && sc == bucket_score(bs[w], id)));
        } else {
            lemma_fbi_char(bs, id, i + 1, best, score);
            let (w, sc) = fbi_loop(bs, id, i, best, score);
            if exists|q: int|
                i <= q < bs.len() && (#[trigger] bs[q]).len() > 0 && bucket_score(bs[q], id)
                    >= score {
                let q = choose|q: int|
                    i <= q < bs.len() && (#[trigger] bs[q]).len() > 0 && bucket_score(bs[q], id)
                        >= score;
                assert(q >= i + 1);
            }
        }
    }
}

/// After a node is inserted into the bucket the scan chose for its id,
/// the scan still chooses that bucket: its score can only have grown, and
/// every rival keeps its old, dominated score.
proof fn lemma_fbi_stable_after_insert<A: Address, N: NodeId>(
    bs: Seq<Seq<Node<A, N>>>,
    bs2: Seq<Seq<Node<A, N>>>,
    id: N,
    w: int,
)
    requires
        bs.len() == bs2.len(),
        bs.len() > 0,
        fbi_loop(bs, id, 0, 0, 0).0 == w,
        forall|q: int| 0 <= q < bs.len() && q != w ==> #[trigger] bs2[q] == bs[q],
        bs2[w].len() > 0,
        bucket_score(bs2[w], id) >= fbi_loop(bs, id, 0, 0, 0).1,
        bucket_score(bs2[w], id) >= 0,
    ensures
        fbi_loop(bs2, id, 0, 0, 0).0 == w,
        bs2[fbi_loop(bs2, id, 0, 0, 0).0].len() > 0,
{
    lemma_fbi_char(bs, id, 0, 0, 0);
    lemma_fbi_char(bs2, id, 0, 0, 0);
    let (w1, sc1) = fbi_loop(bs, id, 0, 0, 0);
    let (w2, sc2) = fbi_loop(bs2, id, 0, 0, 0);
    assert(w1 == w);
    // Some bucket of the new table is non-empty with a non-negative score,
    // so the new scan's winner is scored exactly.
    assert(bs2[w].len() > 0 && bucket_score(bs2[w], id) >= 0);
    assert(bs2[w2].len() > 0 && sc2 == bucket_score(bs2[w2], id));
    assert(bucket_score(bs2[w], id) <= sc2);
    if w2 < w {
        assert(bucket_score(bs2[w], id) < sc2);
        assert(bs2[w2] == bs[w2]);
        assert(bucket_score(bs[w2], id) <= sc1);
        assert(sc2 <= sc1);
        assert(sc1 <= bucket_score(bs2[w], id));
        assert(false);
    }
    if w2 > w {
        assert(bs2[w2] == bs[w2]);
        assert(bucket_score(bs[w2], id) < sc1);
        assert(sc1 <= bucket_score(bs2[w], id));
        assert(bucket_score(bs2[w], id) <= sc2);
        assert(false);
    }
}

/// After inserting a node into an existing bucket with room, the table
/// still finds that bucket for the node's id, the bucket now holds the
/// node, and every other bucket, and every other node of that bucket, is
/// untouched.
pub proof fn lemma_insert_finds_node<A: Address, N: NodeId>(
    bs: Seq<Seq<Node<A, N>>>,
    local: N,
    size: int,
    node: Node<A, N>,
)
    requires
        forall|q: int| 0 <= q < bs.len() ==> nodes_sorted(#[trigger] bs[q]),
        bs.len() > 0,
        ({
            let w = fbi_loop(bs, node.id, 0, 0, 0).0;
            0 <= w < bs.len() && bs[w].len() < size
        }),
    ensures
        ({
            let w = fbi_loop(bs, node.id, 0, 0, 0).0;
            let (bs2, r) = spec_table_insert(bs, local, size, node);
            &&& spec_find_bucket_index(bs2, node.id) == Some(w)
            &&& nodes_contain(bs2[w], node.id)
            &&& bs2.len() == bs.len()
            &&& (forall|q: int| 0 <= q < bs.len() && q != w ==> #[trigger] bs2[q] == bs[q])
            &&& (forall|k: int|
                0 <= k < bs[w].len() ==> nodes_contain(#[trigger] bs2[w], bs[w][k].id))
        }),
{
    let w = fbi_loop(bs, node.id, 0, 0, 0).0;
    let sc = fbi_loop(bs, node.id, 0, 0, 0).1;
    let b = bs[w];
    let (bs2, r) = spec_table_insert(bs, local, size, node);
    lemma_fbi_char(bs, node.id, 0, 0, 0);
    if nodes_contain(b, node.id) {
        assert(bs2 == bs);
        assert(spec_find_bucket_index(bs2, node.id) == Some(w));
        assert forall|k: int| 0 <= k < bs[w].len() implies nodes_contain(
            #[trigger] bs2[w],
            bs[w][k].id,
        ) by {
            assert(bs2[w][k] == bs[w][k]);
        }
    } else {
        let rk = rank(b, node.id);
        lemma_rank_bounds(b, node.id);
        let b2 = b.insert(rk, node);
        b.insert_ensures(rk, node);
        assert(bs2 =~= bs.update(w, b2));
        assert(b2[rk] == node);
        assert(nodes_contain(b2, node.id));
        // The bucket's score cannot have dropped.
        N::lemma_bucket_index_self(&node.id, &node.id);
        assert(b2.len() > 0);
        if b.len() == 0 {
            assert(b2 =~= seq![node]);
            N::lemma_bucket_index_self(&node.id, &b2[b2.len() - 1].id);
            assert(bucket_score(b2, node.id) >= 0);
            // The old scan never saw a winning non-empty bucket with this
            // winner empty, so its score is the initial zero.
            assert(sc >= 0);
            assert(bs[w].len() == 0);
            assert(w == 0 && sc == 0) by {
                if !(w == 0 && sc == 0) {
                    assert(bs[w].len() > 0);
                }
            }
            lemma_fbi_stable_after_insert(bs, bs2, node.id, w);
        } else {
            let first0 = b[0];
            let last0 = b[b.len() - 1];
            let first2 = b2[0];
            let last2 = b2[b2.len() - 1];
            assert(first2 == if rk == 0 {
                node
            } else {
                first0
            });
            assert(last2 == if rk == b.len() {
                node
            } else {
                last0
            });
            N::lemma_bucket_index_self(&node.id, &first0.id);
            N::lemma_bucket_index_self(&node.id, &last0.id);
            N::lemma_bucket_index_self(&node.id, &node.id);
            assert(bucket_score(b, node.id) <= sc);
            assert(bucket_score(b2, node.id) >= bucket_score(b, node.id));
            assert(bucket_score(b2, node.id) >= 0);
            assert(sc == bucket_score(b, node.id)) by {
                assert(bs[w].len() > 0);
            }
            lemma_fbi_stable_after_insert(bs, bs2, node.id, w);
        }
        assert forall|k: int| 0 <= k < bs[w].len() implies nodes_contain(
            #[trigger] bs2[w],
            bs[w][k].id,
        ) by {
            if k < rk {
                assert(b2[k] == b[k]);
            } else {
                assert(b2[k + 1] == b[k]);
            }
        }
    }
}


/// The total number of nodes across all buckets.
pub open spec fn table_node_count<A: Address, N: NodeId>(bs: Seq<Seq<Node<A, N>>>) -> int
    decreases bs.len(),
{
    if bs.len() == 0 {
        0
    } else {
        table_node_count(bs.drop_last()) + bs.last().len()
    }
}

proof fn lemma_count_update<A: Address, N: NodeId>(
    bs: Seq<Seq<Node<A, N>>>,
    i: int,
    b: Seq<Node<A, N>>,
)
    requires
        0 <= i < bs.len(),
    ensures
        table_node_count(bs.update(i, b)) == table_node_count(bs) - bs[i].len() + b.len(),
    decreases bs.len(),
{
    if i == bs.len() - 1 {
        assert(bs.update(i, b).drop_last() =~= bs.drop_last());
    } else {
        assert(bs.update(i, b).drop_last() =~= bs.drop_last().update(i, b));
        lemma_count_update(bs.drop_last(), i, b);
    }
}

proof fn lemma_count_remove<A: Address, N: NodeId>(bs: Seq<Seq<Node<A, N>>>, i: int)
    requires
        0 <= i < bs.len(),
    ensures
        table_node_count(bs.remove(i)) == table_node_count(bs) - bs[i].len(),
    decreases bs.len(),
{
    if i == bs.len() - 1 {
        assert(bs.remove(i) =~= bs.drop_last());
    } else {
        assert(bs.remove(i).drop_last() =~= bs.drop_last().remove(i));
        assert(bs.remove(i).last() == bs.last());
        lemma_count_remove(bs.drop_last(), i);
    }
}

proof fn lemma_count_push<A: Address, N: NodeId>(bs: Seq<Seq<Node<A, N>>>, b: Seq<Node<A, N>>)
    ensures
        table_node_count(bs.push(b)) == table_node_count(bs) + b.len(),
{
    assert(bs.push(b).drop_last() =~= bs);
}

/// Insertion accounting: a successful insert of a fresh id adds exactly
/// one node; a rejected insert leaves the count unchanged.  A full
/// bucket's forced insert of an id it already holds is the one case that
/// reports success without growing the table.
pub proof fn lemma_insert_count<A: Address, N: NodeId>(
    bs: Seq<Seq<Node<A, N>>>,
    local: N,
    size: int,
    node: Node<A, N>,
)
    requires
        bs.len() > 0 ==> 0 <= fbi_loop(bs, node.id, 0, 0, 0).0 < bs.len(),
        bs.len() > 0 ==> !nodes_contain(bs[fbi_loop(bs, node.id, 0, 0, 0).0], node.id),
    ensures
        ({
            let (bs2, r) = spec_table_insert(bs, local, size, node);
            table_node_count(bs2) == table_node_count(bs) + if r {
                1int
            } else {
                0int
            }
        }),
{
    let (bs2, r) = spec_table_insert(bs, local, size, node);
    if bs.len() == 0 {
        lemma_count_push(bs, seq![node]);
    } else {
        let w = fbi_loop(bs, node.id, 0, 0, 0).0;
        let b = bs[w];
        lemma_rank_bounds(b, node.id);
        let b2 = b.insert(rank(b, node.id), node);
        if b.len() < size {
            lemma_count_update(bs, w, b2);
        } else if range_spec(b, local) {
            let bsu = bs.update(w, b2);
            lemma_count_update(bs, w, b2);
            let j = fbi_loop(bsu, node.id, 0, 0, 0).0;
            lemma_fbi_bounds(bsu, node.id, 0, 0, 0);
            let bj = bsu[j];
            if bj.len() < size {
                lemma_count_remove(bsu, j);
                lemma_count_push(bsu.remove(j), bj);
            } else {
                let f = bj[0].id;
                let point = split_point(bj);
                lemma_split_count(bj, f, point);
                lemma_count_remove(bsu, j);
                lemma_count_push(bsu.remove(j), split_left(bj, f, point));
                lemma_count_push(
                    bsu.remove(j).push(split_left(bj, f, point)),
                    split_right(bj, f, point),
                );
            }
        }
    }
}

/// A split loses no node: the two halves together hold as many nodes as
/// the bucket did.
proof fn lemma_split_count<A: Address, N: NodeId>(ns: Seq<Node<A, N>>, first: N, point: int)
    ensures
        split_left(ns, first, point).len() + split_right(ns, first, point).len() == ns.len(),
    decreases ns.len(),
{
    if ns.len() > 0 {
        lemma_split_count(ns.drop_last(), first, point);
    }
}


/// Removal accounting: removing a present id takes away exactly one
/// node; removing an absent id leaves the count unchanged.
pub proof fn lemma_remove_count<A: Address, N: NodeId>(bs: Seq<Seq<Node<A, N>>>, id: N)
    requires
        match spec_find_bucket_index(bs, id) {
            Option::Some(i) => 0 <= i < bs.len(),
            Option::None => true,
        },
    ensures
        table_node_count(spec_table_remove(bs, id)) == table_node_count(bs) - (match spec_find_bucket_index(
            bs,
            id,
        ) {
            Option::Some(i) => if nodes_contain(bs[i], id) {
                1int
            } else {
                0int
            },
            Option::None => 0int,
        }),
{
    match spec_find_bucket_index(bs, id) {
        Option::None => {},
        Option::Some(i) => {
            let b = bs[i];
            if nodes_contain(b, id) {
                lemma_find_index(b, id);
                let b2 = b.remove(find_index(b, id));
                if b2.len() == 0 {
                    lemma_count_remove(bs, i);
                } else {
                    lemma_count_update(bs, i, b2);
                }
            } else {
                if b.len() == 0 {
                    lemma_count_remove(bs, i);
                } else {
                    lemma_count_update(bs, i, b);
                    assert(bs.update(i, b) =~= bs);
                }
            }
        },
    }
}

/// Capacity: as long as no bucket is forced to split, every bucket stays
/// within the table's capacity.  A forced split of a full bucket can
/// exceed it when every node falls on the same side of the split point.
pub proof fn lemma_insert_respects_capacity<A: Address, N: NodeId>(
    bs: Seq<Seq<Node<A, N>>>,
    local: N,
    size: int,
    node: Node<A, N>,
)
    requires
        size >= 1,
        forall|q: int| 0 <= q < bs.len() ==> (#[trigger] bs[q]).len() <= size,
        bs.len() > 0 ==> ({
            let w = fbi_loop(bs, node.id, 0, 0, 0).0;
            0 <= w < bs.len() && (bs[w].len() < size || !range_spec(bs[w], local))
        }),
    ensures
        forall|q: int|
            0 <= q < spec_table_insert(bs, local, size, node).0.len() ==> (
            #[trigger] spec_table_insert(bs, local, size, node).0[q]).len() <= size,
{
    let (bs2, r) = spec_table_insert(bs, local, size, node);
    if bs.len() == 0 {
        assert forall|q: int| 0 <= q < bs2.len() implies (#[trigger] bs2[q]).len() <= size by {
            assert(bs2[q] == seq![node]);
        }
    } else {
        let w = fbi_loop(bs, node.id, 0, 0, 0).0;
        let b = bs[w];
        if b.len() < size {
            if nodes_contain(b, node.id) {
            } else {
                lemma_rank_bounds(b, node.id);
                let b2 = b.insert(rank(b, node.id), node);
                b.insert_ensures(rank(b, node.id), node);
                assert forall|q: int| 0 <= q < bs2.len() implies (#[trigger] bs2[q]).len()
                    <= size by {
                    if q != w {
                        assert(bs2[q] == bs[q]);
                    }
                }
            }
        }
    }
}

} // verus!
