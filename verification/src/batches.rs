//! Cutting a sorted group of nodes into batches, each a provisional branch
//! over a run of nodes.

use vstd::prelude::*;
use vstd::arithmetic::logarithm::{lemma_log_s, log};
use vstd::arithmetic::power::{lemma_pow0, lemma_pow_strictly_increases_converse, pow};
use crate::climate::ParameterRange;
use crate::shape::Shape;

verus! {

/// The size of the batches that a group of `n` nodes is cut into: the
/// largest power of six below `n`.
pub open spec fn chunk_size(n: int) -> int {
    pow(6, log(6, n - 1) as nat)
}

/// The number of batches that a group of `n` nodes is cut into.
pub open spec fn batch_count(n: int) -> int {
    (n + chunk_size(n) - 1) / chunk_size(n)
}

/// A provisional branch over `members`.
pub open spec fn batch<T>(members: Seq<Shape<T>>) -> Shape<T> {
    Shape::Branch { children: members, bounds: Shape::hull(members) }
}

/// The `i`-th run of `size` nodes of `nodes`; the last run may be shorter.
pub open spec fn chunk<T>(nodes: Seq<Shape<T>>, size: int, i: int) -> Seq<Shape<T>> {
    nodes.subrange(
        i * size,
        if (i + 1) * size <= nodes.len() { (i + 1) * size } else { nodes.len() as int },
    )
}

/// `nodes` cut into batches of `chunk_size` nodes each, in order.
pub open spec fn batched<T>(nodes: Seq<Shape<T>>) -> Seq<Shape<T>> {
    if nodes.len() == 0 {
        Seq::empty()
    } else {
        Seq::new(
            batch_count(nodes.len() as int) as nat,
            |i: int| batch(chunk(nodes, chunk_size(nodes.len() as int), i)),
        )
    }
}

/// The sum of the extents of all seven parameters.
pub open spec fn extent(bounds: Seq<ParameterRange>) -> int {
    bounds[0].width() + bounds[1].width() + bounds[2].width() + bounds[3].width()
        + bounds[4].width() + bounds[5].width() + bounds[6].width()
}

/// The sum of the extents of the bounds of `nodes`.
pub open spec fn total_extent<T>(nodes: Seq<Shape<T>>) -> int
    decreases nodes.len(),
{
    if nodes.len() == 0 {
        0
    } else {
        total_extent(nodes.drop_last()) + extent(nodes.last().bounds())
    }
}

/// Whether every node of `part` is a node of `whole`.
pub open spec fn drawn_from<T>(part: Seq<Shape<T>>, whole: Seq<Shape<T>>) -> bool {
    forall|k: int| 0 <= k < part.len() ==> whole.contains(#[trigger] part[k])
}

/// Whether `node` is a batch of at least one and at most `size` nodes, all
/// of them nodes of `whole`.
pub open spec fn is_batch_of<T>(node: Shape<T>, whole: Seq<Shape<T>>, size: int) -> bool {
    &&& node == batch(node.children())
    &&& 1 <= node.children().len() <= size
    &&& drawn_from(node.children(), whole)
}

/// Whether one of `batches` holds exactly `size` nodes.
pub open spec fn some_batch_is_full<T>(batches: Seq<Shape<T>>, size: int) -> bool {
    exists|i: int| 0 <= i < batches.len() && (#[trigger] batches[i]).children().len() == size
}

/// Whether `leaf` is a leaf of a member of one of `batches`.
pub open spec fn some_batch_has_leaf<T>(batches: Seq<Shape<T>>, leaf: Shape<T>) -> bool {
    exists|i: int|
        0 <= i < batches.len() && Shape::any_has_leaf((#[trigger] batches[i]).children(), leaf)
}

/// The logarithm rounds down: `m` lies between the power it names and the
/// next one.
pub proof fn lemma_log_bounds(m: int)
    requires
        m >= 1,
    ensures
        log(6, m) >= 0,
        pow(6, log(6, m) as nat) <= m < 6 * pow(6, log(6, m) as nat),
    decreases m,
{
    if m < 6 {
        reveal(log);
        lemma_pow0(6);
    } else {
        lemma_log_s(6, m);
        lemma_log_bounds(m / 6);
        reveal(pow);
    }
}

/// The batches of a group of at least two nodes are smaller than the group,
/// and at least two and at most six of them cover it.
pub proof fn lemma_chunk_size(n: int)
    requires
        n >= 2,
    ensures
        1 <= chunk_size(n) < n <= 6 * chunk_size(n),
        2 <= batch_count(n) <= 6,
        (batch_count(n) - 1) * chunk_size(n) < n <= batch_count(n) * chunk_size(n),
{
    lemma_log_bounds(n - 1);
    let c = chunk_size(n);
    let q = batch_count(n);
    assert((q - 1) * c < n <= q * c && 2 <= q <= 6) by (nonlinear_arith)
        requires
            1 <= c < n <= 6 * c,
            q == (n + c - 1) / c,
    ;
}

/// A power of six that is below `n` and within a factor of six of it is
/// the batch size for `n`.
pub proof fn lemma_chunk_size_unique(n: int, k: nat)
    requires
        n >= 2,
        pow(6, k) < n <= 6 * pow(6, k),
    ensures
        chunk_size(n) == pow(6, k),
{
    lemma_log_bounds(n - 1);
    let l = log(6, n - 1) as nat;
    reveal(pow);
    if k < l {
        lemma_pow_strictly_increases_converse(6, l, k + 1);
    } else if l < k {
        lemma_pow_strictly_increases_converse(6, k, l + 1);
    }
}

/// The batches of a group of at least two nodes: there are between two and
/// six, each is smaller than the group, and together they hold the group's
/// nodes.
pub proof fn lemma_batched<T>(nodes: Seq<Shape<T>>)
    requires
        nodes.len() >= 2,
    ensures
        2 <= batched(nodes).len() <= 6,
        batched(nodes).len() == batch_count(nodes.len() as int),
        forall|i: int|
            0 <= i < batched(nodes).len() ==> is_batch_of(
                #[trigger] batched(nodes)[i],
                nodes,
                chunk_size(nodes.len() as int),
            ),
        some_batch_is_full(batched(nodes), chunk_size(nodes.len() as int)),
        forall|leaf: Shape<T>| #[trigger]
            some_batch_has_leaf(batched(nodes), leaf) <==> Shape::any_has_leaf(nodes, leaf),
{
    let n = nodes.len() as int;
    let c = chunk_size(n);
    let q = batch_count(n);
    let b = batched(nodes);
    lemma_chunk_size(n);
    assert forall|i: int| 0 <= i < q implies 0 <= i * c < n && i * c + 1 <= #[trigger] ((i + 1)
        * c) && (i + 1) * c - i * c == c by {
        assert(0 <= i * c <= (q - 1) * c && (i + 1) * c == i * c + c) by (nonlinear_arith)
            requires
                0 <= i <= q - 1,
                c >= 1,
        ;
    }
    assert(b[0].children().len() == c) by {
        assert(0 * c == 0 && (0 + 1) * c == c) by (nonlinear_arith);
    }
    assert forall|leaf: Shape<T>| #[trigger]
        some_batch_has_leaf(b, leaf) <==> Shape::any_has_leaf(nodes, leaf) by {
        if Shape::any_has_leaf(nodes, leaf) {
            let j = choose|j: int| 0 <= j < nodes.len() && (#[trigger] nodes[j]).has_leaf(leaf);
            let i = j / c;
            assert(0 <= i < q && i * c <= j < (i + 1) * c) by (nonlinear_arith)
                requires
                    0 <= j < n <= q * c,
                    c >= 1,
                    i == j / c,
            ;
            let members = chunk(nodes, c, i);
            assert(b[i] == batch(members));
            assert(members[j - i * c] == nodes[j]);
        }
    }
}

/// The leaves of a batch are the leaves of its members.
pub proof fn lemma_batch_leaves<T>(members: Seq<Shape<T>>, leaf: Shape<T>)
    ensures
        batch(members).has_leaf(leaf) <==> Shape::any_has_leaf(members, leaf),
{
}

} // verus!
