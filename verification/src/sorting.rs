//! The keys that nodes are sorted by, and what sorting by them gives.

use vstd::prelude::*;
use crate::climate::ParameterRange;
use crate::shape::Shape;

verus! {

/// What a group of nodes is sorted by.
#[derive(Clone, Copy, Debug, PartialEq, Eq, Structural)]
pub enum SortKey {
    /// The sum of the midpoints of all seven parameters.
    Center,
    /// The midpoint along `parameter`; ties go to the next parameter, and so
    /// on round all seven. With `abs` the midpoints compare by magnitude.
    Axis { parameter: usize, abs: bool },
}

/// Twice the sum of the midpoints of all seven parameters.
pub open spec fn center2(bounds: Seq<ParameterRange>) -> int {
    bounds[0].midpoint2() + bounds[1].midpoint2() + bounds[2].midpoint2() + bounds[3].midpoint2()
        + bounds[4].midpoint2() + bounds[5].midpoint2() + bounds[6].midpoint2()
}

/// Twice the midpoint of `range`, or its magnitude.
pub open spec fn axis_value(range: ParameterRange, abs: bool) -> int {
    if abs && range.midpoint2() < 0 {
        -range.midpoint2()
    } else {
        range.midpoint2()
    }
}

/// Whether `a` comes before `b` when the parameters are compared in turn,
/// starting `step` parameters after `parameter`.
pub open spec fn axis_precedes(
    a: Seq<ParameterRange>,
    b: Seq<ParameterRange>,
    parameter: int,
    abs: bool,
    step: int,
) -> bool
    decreases 7 - step,
{
    if step < 0 || step >= 7 {
        false
    } else {
        let d = (parameter + step) % 7;
        if axis_value(a[d], abs) < axis_value(b[d], abs) {
            true
        } else if axis_value(a[d], abs) > axis_value(b[d], abs) {
            false
        } else {
            axis_precedes(a, b, parameter, abs, step + 1)
        }
    }
}

/// Whether bounds `a` come strictly before bounds `b` under `key`.
pub open spec fn precedes(a: Seq<ParameterRange>, b: Seq<ParameterRange>, key: SortKey) -> bool {
    match key {
        SortKey::Center => center2(a) < center2(b),
        SortKey::Axis { parameter, abs } => axis_precedes(a, b, parameter as int, abs, 0),
    }
}

/// Whether `key` puts neither of `a` and `b` before the other.
pub open spec fn ties(a: Seq<ParameterRange>, b: Seq<ParameterRange>, key: SortKey) -> bool {
    !precedes(a, b, key) && !precedes(b, a, key)
}

/// `sorted` with `node` put behind every node that does not come after it.
pub open spec fn insert_sorted<T>(sorted: Seq<Shape<T>>, node: Shape<T>, key: SortKey) -> Seq<
    Shape<T>,
>
    decreases sorted.len(),
{
    if sorted.len() > 0 && precedes(node.bounds(), sorted.last().bounds(), key) {
        insert_sorted(sorted.drop_last(), node, key).push(sorted.last())
    } else {
        sorted.push(node)
    }
}

/// `nodes` in ascending order of `key`; nodes that `key` does not tell apart
/// keep the order they came in.
pub open spec fn stable_sorted<T>(nodes: Seq<Shape<T>>, key: SortKey) -> Seq<Shape<T>>
    decreases nodes.len(),
{
    if nodes.len() == 0 {
        nodes
    } else {
        insert_sorted(stable_sorted(nodes.drop_last(), key), nodes.last(), key)
    }
}

/// Whether no node of `nodes` comes strictly before a node in front of it.
pub open spec fn is_sorted<T>(nodes: Seq<Shape<T>>, key: SortKey) -> bool {
    forall|i: int, j: int|
        0 <= i < j < nodes.len() ==> !precedes(
            (#[trigger] nodes[j]).bounds(),
            (#[trigger] nodes[i]).bounds(),
            key,
        )
}

/// The test that picks the nodes that `key` does not tell apart from
/// `like`.
pub open spec fn tied_with<T>(like: Shape<T>, key: SortKey) -> spec_fn(Shape<T>) -> bool {
    |node: Shape<T>| ties(node.bounds(), like.bounds(), key)
}

/// Inserting a node makes the sequence one longer and adds that node alone.
pub proof fn lemma_insert_sorted<T>(sorted: Seq<Shape<T>>, node: Shape<T>, key: SortKey)
    ensures
        insert_sorted(sorted, node, key).len() == sorted.len() + 1,
        forall|x: Shape<T>|
            #[trigger] insert_sorted(sorted, node, key).contains(x) <==> (sorted.contains(x) || x
                == node),
    decreases sorted.len(),
{
    let out = insert_sorted(sorted, node, key);
    if sorted.len() > 0 && precedes(node.bounds(), sorted.last().bounds(), key) {
        let front = sorted.drop_last();
        let inner = insert_sorted(front, node, key);
        lemma_insert_sorted(front, node, key);
        assert forall|x: Shape<T>| out.contains(x) <==> (sorted.contains(x) || x == node) by {
            assert(inner.contains(x) <==> (front.contains(x) || x == node));
            if sorted.contains(x) {
                let j = choose|j: int| 0 <= j < sorted.len() && sorted[j] == x;
                if j < front.len() {
                    assert(front[j] == x);
                    let i = choose|i: int| 0 <= i < inner.len() && inner[i] == x;
                    assert(out[i] == x);
                } else {
                    assert(out[out.len() - 1] == x);
                }
            }
            if x == node {
                let i = choose|i: int| 0 <= i < inner.len() && inner[i] == x;
                assert(out[i] == x);
            }
        }
    } else {
        assert forall|x: Shape<T>| out.contains(x) <==> (sorted.contains(x) || x == node) by {
            if sorted.contains(x) {
                let j = choose|j: int| 0 <= j < sorted.len() && sorted[j] == x;
                assert(out[j] == x);
            }
            if x == node {
                assert(out[out.len() - 1] == x);
            }
        }
    }
}

/// Where a node goes into a sorted sequence: before the nodes that it
/// comes before, behind the last node that it does not come before.
pub proof fn lemma_insert_position<T>(
    sorted: Seq<Shape<T>>,
    node: Shape<T>,
    key: SortKey,
    position: int,
)
    requires
        0 <= position <= sorted.len(),
        forall|j: int|
            position <= j < sorted.len() ==> precedes(
                node.bounds(),
                (#[trigger] sorted[j]).bounds(),
                key,
            ),
        position > 0 ==> !precedes(node.bounds(), sorted[position - 1].bounds(), key),
    ensures
        insert_sorted(sorted, node, key) == sorted.insert(position, node),
    decreases sorted.len(),
{
    if sorted.len() > 0 && precedes(node.bounds(), sorted.last().bounds(), key) {
        let front = sorted.drop_last();
        lemma_insert_position(front, node, key, position);
    }
}

/// Sorting keeps the length and the nodes.
pub proof fn lemma_stable_sorted<T>(nodes: Seq<Shape<T>>, key: SortKey)
    ensures
        stable_sorted(nodes, key).len() == nodes.len(),
        forall|x: Shape<T>| #[trigger]
            stable_sorted(nodes, key).contains(x) <==> nodes.contains(x),
    decreases nodes.len(),
{
    if nodes.len() > 0 {
        let front = nodes.drop_last();
        let inner = stable_sorted(front, key);
        let out = stable_sorted(nodes, key);
        lemma_stable_sorted(front, key);
        lemma_insert_sorted(inner, nodes.last(), key);
        assert forall|x: Shape<T>| out.contains(x) <==> nodes.contains(x) by {
            if nodes.contains(x) {
                let j = choose|j: int| 0 <= j < nodes.len() && nodes[j] == x;
                if j < front.len() {
                    assert(front[j] == x);
                }
            }
        }
    }
}

/// Comparing parameter by parameter: of two hypercubes at most one comes
/// before the other, and not coming before is transitive.
pub proof fn lemma_axis_order(
    a: Seq<ParameterRange>,
    b: Seq<ParameterRange>,
    c: Seq<ParameterRange>,
    parameter: int,
    abs: bool,
    step: int,
)
    ensures
        !(axis_precedes(a, b, parameter, abs, step) && axis_precedes(b, a, parameter, abs, step)),
        !axis_precedes(a, b, parameter, abs, step) && !axis_precedes(b, c, parameter, abs, step)
            ==> !axis_precedes(a, c, parameter, abs, step),
    decreases 7 - step,
{
    if 0 <= step < 7 {
        lemma_axis_order(a, b, c, parameter, abs, step + 1);
    }
}

/// Every key is a strict weak order: of two hypercubes at most one comes
/// before the other, and not coming before is transitive.
pub proof fn lemma_key_order(
    a: Seq<ParameterRange>,
    b: Seq<ParameterRange>,
    c: Seq<ParameterRange>,
    key: SortKey,
)
    ensures
        !(precedes(a, b, key) && precedes(b, a, key)),
        !precedes(a, b, key) && !precedes(b, c, key) ==> !precedes(a, c, key),
{
    match key {
        SortKey::Center => {},
        SortKey::Axis { parameter, abs } => {
            lemma_axis_order(a, b, c, parameter as int, abs, 0);
        },
    }
}

/// Inserting into a sorted sequence gives a sorted sequence.
pub proof fn lemma_insert_keeps_sorted<T>(sorted: Seq<Shape<T>>, node: Shape<T>, key: SortKey)
    requires
        is_sorted(sorted, key),
    ensures
        is_sorted(insert_sorted(sorted, node, key), key),
    decreases sorted.len(),
{
    let out = insert_sorted(sorted, node, key);
    if sorted.len() > 0 && precedes(node.bounds(), sorted.last().bounds(), key) {
        let front = sorted.drop_last();
        let last = sorted.last();
        let inner = insert_sorted(front, node, key);
        lemma_insert_keeps_sorted(front, node, key);
        lemma_insert_sorted(front, node, key);
        assert forall|i: int, j: int| 0 <= i < j < out.len() implies !precedes(
            (#[trigger] out[j]).bounds(),
            (#[trigger] out[i]).bounds(),
            key,
        ) by {
            if j >= inner.len() {
                assert(inner.contains(inner[i]));
                if inner[i] == node {
                    lemma_key_order(node.bounds(), last.bounds(), last.bounds(), key);
                }
            }
        }
    } else {
        assert forall|i: int, j: int| 0 <= i < j < out.len() implies !precedes(
            (#[trigger] out[j]).bounds(),
            (#[trigger] out[i]).bounds(),
            key,
        ) by {
            if j >= sorted.len() && i < sorted.len() - 1 {
                let last = sorted[sorted.len() - 1];
                lemma_key_order(node.bounds(), last.bounds(), sorted[i].bounds(), key);
            }
        }
    }
}

/// Inserting a node puts it behind the nodes that the key does not tell
/// apart from it, and leaves every other such run of nodes as it was.
pub proof fn lemma_insert_is_stable<T>(
    sorted: Seq<Shape<T>>,
    node: Shape<T>,
    key: SortKey,
    like: Shape<T>,
)
    ensures
        insert_sorted(sorted, node, key).filter(tied_with(like, key)) == if ties(
            node.bounds(),
            like.bounds(),
            key,
        ) {
            sorted.filter(tied_with(like, key)).push(node)
        } else {
            sorted.filter(tied_with(like, key))
        },
    decreases sorted.len(),
{
    let test = tied_with(like, key);
    if sorted.len() > 0 && precedes(node.bounds(), sorted.last().bounds(), key) {
        let front = sorted.drop_last();
        let last = sorted.last();
        lemma_insert_is_stable(front, node, key, like);
        insert_sorted(front, node, key).lemma_filter_push(last, test);
        front.lemma_filter_push(last, test);
        assert(front.push(last) =~= sorted);
        if ties(node.bounds(), like.bounds(), key) {
            lemma_key_order(node.bounds(), like.bounds(), last.bounds(), key);
        }
    } else {
        sorted.lemma_filter_push(node, test);
    }
}

/// What sorting means. The sorted sequence is in ascending order of the
/// key, and the nodes that the key does not tell apart stand in it in the
/// order they came in.
pub proof fn lemma_stable_sorted_is_sorted_and_stable<T>(
    nodes: Seq<Shape<T>>,
    key: SortKey,
    like: Shape<T>,
)
    ensures
        is_sorted(stable_sorted(nodes, key), key),
        stable_sorted(nodes, key).filter(tied_with(like, key)) == nodes.filter(
            tied_with(like, key),
        ),
    decreases nodes.len(),
{
    if nodes.len() > 0 {
        let front = nodes.drop_last();
        lemma_stable_sorted_is_sorted_and_stable(front, key, like);
        lemma_insert_keeps_sorted(stable_sorted(front, key), nodes.last(), key);
        lemma_insert_is_stable(stable_sorted(front, key), nodes.last(), key, like);
        front.lemma_filter_push(nodes.last(), tied_with(like, key));
        assert(front.push(nodes.last()) =~= nodes);
    }
}

} // verus!
