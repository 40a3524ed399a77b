//! Looking up the nearest registry entry of a point: the descent through
//! the tree, the cache of the last answer, and the linear scan that both
//! stand for.

use vstd::prelude::*;
use crate::climate::{
    contains_point, distance, distance_to, inside, lemma_inside_iff_distance_zero,
    NoiseHypercube, NoiseValuePoint, ParameterRange,
};
use crate::partition::{levels, partition};
use crate::shape::{lemma_bounds_are_nearer, Shape};
use crate::tree::{lemma_leaves_of_registry, lemma_views, registry_leaves, views, TreeNode};

verus! {

/// The distance from `at` to the hypercube of entry `i`.
pub open spec fn entry_distance<T>(entries: Seq<(NoiseHypercube, T)>, i: int, at: Seq<i32>) -> int {
    distance(entries[i].0.parameters(), at)
}

/// The linear scan over the first `count` entries: the place of the first
/// entry that no other of them is strictly nearer than.
pub open spec fn nearest_among<T>(
    entries: Seq<(NoiseHypercube, T)>,
    at: Seq<i32>,
    count: int,
) -> int
    decreases count,
{
    if count <= 1 {
        0
    } else {
        let best = nearest_among(entries, at, count - 1);
        if entry_distance(entries, count - 1, at) < entry_distance(entries, best, at) {
            count - 1
        } else {
            best
        }
    }
}

/// The linear scan over the whole registry.
pub open spec fn nearest<T>(entries: Seq<(NoiseHypercube, T)>, at: Seq<i32>) -> int {
    nearest_among(entries, at, entries.len() as int)
}

/// Whether leaf `a` is to be preferred to leaf `b`, or is as good: it is
/// nearer to `at`, or as near and not later in the registry.
pub open spec fn no_worse<T>(a: Shape<T>, b: Shape<T>, at: Seq<i32>) -> bool {
    let to_a = distance(a.bounds(), at);
    let to_b = distance(b.bounds(), at);
    to_a < to_b || (to_a == to_b && a->rank <= b->rank)
}

/// The scan ends on an entry of the registry that is no worse than any
/// other.
pub proof fn lemma_nearest_among<T>(entries: Seq<(NoiseHypercube, T)>, at: Seq<i32>, count: int)
    requires
        1 <= count <= entries.len(),
    ensures
        0 <= nearest_among(entries, at, count) < count,
        forall|j: int|
            0 <= j < count ==> no_worse(
                registry_leaves(entries)[nearest_among(entries, at, count)],
                #[trigger] registry_leaves(entries)[j],
                at,
            ),
    decreases count,
{
    if count > 1 {
        lemma_nearest_among(entries, at, count - 1);
    }
}

/// The leaf of a tree as a cache holds it.
#[derive(Debug)]
pub struct TreeLeafNode<T> {
    pub value: T,
    pub point: [ParameterRange; 7],
    pub rank: usize,
}

impl<T: Copy> Copy for TreeLeafNode<T> {}

impl<T: Copy> Clone for TreeLeafNode<T> {
    fn clone(&self) -> (copy: Self)
        ensures
            copy == *self,
    {
        *self
    }
}

impl<T> View for TreeLeafNode<T> {
    type V = Shape<T>;

    open spec fn view(&self) -> Shape<T> {
        Shape::Leaf { value: self.value, point: self.point@, rank: self.rank as int }
    }
}

/// A leaf together with its distance from the point that is looked up.
#[derive(Debug)]
pub struct Candidate<T> {
    pub leaf: TreeLeafNode<T>,
    pub distance: u128,
}

impl<T: Copy> Copy for Candidate<T> {}

impl<T: Copy> Clone for Candidate<T> {
    fn clone(&self) -> (copy: Self)
        ensures
            copy == *self,
    {
        *self
    }
}

impl<T> Candidate<T> {
    /// Whether `distance` is the distance of the leaf from `at`.
    pub open spec fn measured_from(self, at: Seq<i32>) -> bool {
        self.distance == distance(self.leaf@.bounds(), at)
    }
}

impl<T: Copy> TreeNode<T> {
    /// The best leaf among `candidate` and the leaves under `self`: the
    /// nearest to `point`, and of those as near the first in the registry.
    /// Children that are farther from `point` than the best leaf so far
    /// are passed over.
    pub fn search(
        &self,
        point: &NoiseValuePoint,
        candidate: Option<Candidate<T>>,
    ) -> (found: Candidate<T>)
        requires
            self@.wf(),
            candidate is Some ==> candidate->0.measured_from(point.coordinates()),
        ensures
            found.measured_from(point.coordinates()),
            self@.has_leaf(found.leaf@) || (candidate is Some && found.leaf == candidate->0.leaf),
            candidate is Some ==> no_worse(found.leaf@, candidate->0.leaf@, point.coordinates()),
            forall|leaf: Shape<T>| #[trigger]
                self@.has_leaf(leaf) ==> no_worse(found.leaf@, leaf, point.coordinates()),
        decreases self,
    {
        let ghost at = point.coordinates();
        match self {
            TreeNode::Leaf { value, point: bounds, rank } => {
                let here = TreeLeafNode { value: *value, point: *bounds, rank: *rank };
                let to_here: u128 = distance_to(bounds, point);
                match candidate {
                    None => Candidate { leaf: here, distance: to_here },
                    Some(other) => {
                        if to_here < other.distance || (to_here == other.distance && *rank
                            < other.leaf.rank) {
                            Candidate { leaf: here, distance: to_here }
                        } else {
                            other
                        }
                    },
                }
            },
            TreeNode::Branch { children, bounds } => {
                let mut best = candidate;
                let mut i: usize = 0;
                proof {
                    lemma_views(children@);
                }
                while i < children.len()
                    invariant
                        i <= children.len(),
                        children.len() >= 1,
                        at == point.coordinates(),
                        *self == (TreeNode::Branch { children: *children, bounds: *bounds }),
                        self@.wf(),
                        self@.children() == views(children@),
                        views(children@).len() == children.len(),
                        forall|j: int|
                            0 <= j < children.len() ==> #[trigger] views(children@)[j]
                                == children@[j]@,
                        i > 0 ==> best is Some,
                        candidate is None && best is Some ==> exists|j: int|
                            0 <= j < i && (#[trigger] views(children@)[j]).has_leaf(
                                best->0.leaf@,
                            ),
                        best is Some ==> best->0.measured_from(at),
                        candidate is Some ==> best is Some && no_worse(
                            best->0.leaf@,
                            candidate->0.leaf@,
                            at,
                        ) && (best->0.leaf == candidate->0.leaf || exists|j: int|
                            0 <= j < i && (#[trigger] views(children@)[j]).has_leaf(
                                best->0.leaf@,
                            )),
                        forall|j: int, leaf: Shape<T>|
                            0 <= j < i && #[trigger] views(children@)[j].has_leaf(leaf)
                                ==> no_worse(best->0.leaf@, leaf, at),
                    decreases children.len() - i,
                {
                    let child = &children[i];
                    let ghost shape = views(children@)[i as int];
                    let ghost previous = best;
                    let pruned = match (best, child) {
                        (Some(so_far), TreeNode::Branch { bounds: below, .. }) => distance_to(
                            below,
                            point,
                        ) > so_far.distance,
                        _ => false,
                    };
                    if pruned {
                        proof {
                            assert forall|leaf: Shape<T>| shape.has_leaf(leaf) implies no_worse(
                                best->0.leaf@,
                                leaf,
                                at,
                            ) by {
                                lemma_bounds_are_nearer(shape, leaf, at);
                            }
                        }
                    } else {
                        let found = child.search(point, best);
                        best = Some(found);
                    }
                    i = i + 1;
                }
                let found = best.unwrap();
                proof {
                    assert forall|leaf: Shape<T>| #[trigger] self@.has_leaf(leaf) implies no_worse(
                        found.leaf@,
                        leaf,
                        at,
                    ) by {
                        let below = self@.children();
                        let j = choose|j: int|
                            0 <= j < below.len() && (#[trigger] below[j]).has_leaf(leaf);
                    }
                }
                found
            },
        }
    }
}

/// Why a tree could not be built.
#[derive(Clone, Copy, Debug, PartialEq, Eq, Structural)]
pub enum TreeError {
    /// The registry has no entry.
    EmptyRegistry,
    /// A group of nodes could not be split along any parameter. `create`
    /// proves that it never returns this.
    TreeConstruction,
}

/// What one worker remembers between lookups: the leaf that answered the
/// last one, and how often it had to descend through the tree.
#[derive(Debug)]
pub struct QueryCache<T> {
    pub last: Option<TreeLeafNode<T>>,
    pub descents: u64,
}

impl<T: Copy> Copy for QueryCache<T> {}

impl<T: Copy> Clone for QueryCache<T> {
    fn clone(&self) -> (copy: Self)
        ensures
            copy == *self,
    {
        *self
    }
}

impl<T: Copy> QueryCache<T> {
    /// Whether the cache answers a lookup at `at` by itself: it holds a
    /// leaf, and `at` lies inside that leaf's hypercube.
    pub open spec fn hits(self, at: Seq<i32>) -> bool {
        self.last is Some && inside(self.last->0.point@, at)
    }

    /// Whether the leaf in the cache, if there is one, is the leaf of an
    /// entry of `entries`.
    pub open spec fn drawn_from(self, entries: Seq<(NoiseHypercube, T)>) -> bool {
        self.last is Some ==> self.last->0.rank < entries.len() && self.last->0@
            == registry_leaves(entries)[self.last->0.rank as int]
    }

    /// Whether this cache answers a lookup at `at`, if it does, with the
    /// label that the linear scan over `entries` gives.
    pub open spec fn agrees(self, entries: Seq<(NoiseHypercube, T)>, at: Seq<i32>) -> bool {
        self.hits(at) ==> self.last->0.value == entries[nearest(entries, at)].1
    }

    /// The count of descents after one more.
    pub open spec fn one_more(self) -> u64 {
        if self.descents < u64::MAX {
            (self.descents + 1) as u64
        } else {
            u64::MAX
        }
    }

    /// A cache that holds no leaf and has seen no descent.
    pub fn new() -> (cache: Self)
        ensures
            cache.last is None,
            cache.descents == 0,
    {
        QueryCache { last: None, descents: 0 }
    }

    /// Forgets the leaf.
    pub fn clear(&mut self)
        ensures
            final(self).last is None,
            final(self).descents == old(self).descents,
    {
        self.last = None;
    }
}

/// Whether no point lies inside the hypercubes of two entries with
/// different labels.
pub open spec fn unambiguous<T>(entries: Seq<(NoiseHypercube, T)>) -> bool {
    forall|i: int, j: int, at: Seq<i32>|
        0 <= i < entries.len() && 0 <= j < entries.len() && #[trigger] inside(
            entries[i].0.parameters(),
            at,
        ) && #[trigger] inside(entries[j].0.parameters(), at) ==> entries[i].1 == entries[j].1
}

/// The search tree of a registry.
pub struct SearchTree<T: Copy> {
    root: TreeNode<T>,
    entries: Ghost<Seq<(NoiseHypercube, T)>>,
}

impl<T: Copy> View for SearchTree<T> {
    type V = Shape<T>;

    closed spec fn view(&self) -> Shape<T> {
        self.root@
    }
}

impl<T: Copy> SearchTree<T> {
    /// Every search tree is well formed.
    #[verifier::type_invariant]
    spec fn inv(&self) -> bool {
        self.wf()
    }

    /// The registry that the tree was built from.
    pub closed spec fn entries(&self) -> Seq<(NoiseHypercube, T)> {
        self.entries@
    }

    /// A search tree is well formed when it is the tree of the leaves of
    /// its registry, and the registry has an entry.
    pub open spec fn wf(&self) -> bool {
        &&& self.entries().len() >= 1
        &&& self@ == partition(registry_leaves(self.entries()))
    }

    /// The label that `get` returns: that of the leaf in the cache where
    /// the cache answers, else that of the first entry of the registry that
    /// no other entry is strictly nearer to the point than.
    pub open spec fn answer(&self, cache: QueryCache<T>, point: NoiseValuePoint) -> T {
        if cache.hits(point.coordinates()) {
            cache.last->0.value
        } else {
            self.entries()[nearest(self.entries(), point.coordinates())].1
        }
    }

    /// Builds the search tree of `entries`. Only an empty registry is
    /// refused.
    pub fn create(entries: Vec<(NoiseHypercube, T)>) -> (built: Result<Self, TreeError>)
        ensures
            entries.len() == 0 ==> built is Err && built->Err_0 == TreeError::EmptyRegistry,
            entries.len() >= 1 ==> built is Ok && built->Ok_0.wf() && built->Ok_0.entries()
                == entries@,
    {
        if entries.len() == 0 {
            return Err(TreeError::EmptyRegistry);
        }
        let ghost registry = entries@;
        let root = TreeNode::create(entries);
        Ok(SearchTree { root, entries: Ghost(registry) })
    }

    /// The root of the tree.
    pub fn root(&self) -> (root: &TreeNode<T>)
        ensures
            root@ == self@,
            self.wf(),
    {
        proof {
            use_type_invariant(self);
        }
        &self.root
    }

    /// The label of `point`. Where `point` lies inside the leaf that
    /// answered the last lookup, that leaf answers again and nothing
    /// changes. Else the tree is searched for the nearest leaf, which then
    /// answers and goes into the cache.
    pub fn get(&self, point: &NoiseValuePoint, cache: &mut QueryCache<T>) -> (label: T)
        ensures
            self.wf(),
            label == self.answer(*old(cache), *point),
            old(cache).hits(point.coordinates()) ==> *final(cache) == *old(cache),
            !old(cache).hits(point.coordinates()) ==> final(cache).last is Some,
            !old(cache).hits(point.coordinates()) ==> final(cache).last->0@ == registry_leaves(
                self.entries(),
            )[nearest(self.entries(), point.coordinates())],
            !old(cache).hits(point.coordinates()) ==> final(cache).descents == old(cache)
                .one_more(),
            old(cache).drawn_from(self.entries()) ==> final(cache).drawn_from(self.entries()),
    {
        proof {
            use_type_invariant(self);
        }
        match &cache.last {
            Some(leaf) => {
                if contains_point(&leaf.point, point) {
                    return leaf.value;
                }
            },
            None => {},
        }
        proof {
            lemma_leaves_of_registry(self.entries());
        }
        let found = self.root.search(point, None);
        proof {
            let at = point.coordinates();
            lemma_nearest_among(self.entries(), at, self.entries().len() as int);
        }
        cache.last = Some(found.leaf);
        if cache.descents < u64::MAX {
            cache.descents = cache.descents + 1;
        }
        found.leaf.value
    }
}

/// The shape of a search tree. The bounds of every branch are the union of
/// the bounds of its children, every branch has at least two and at most
/// six children, the leaves are the entries of the registry with their
/// places, a registry of one entry gives a leaf, and the depth grows with
/// the powers of six that the size of the registry exceeds.
pub proof fn lemma_search_tree_shape<T: Copy>(tree: SearchTree<T>)
    requires
        tree.wf(),
    ensures
        tree@.wf(),
        tree@.compact(),
        tree@.depth() == levels(tree.entries().len() as int),
        tree.entries().len() == 1 ==> tree@ == registry_leaves(tree.entries())[0],
        forall|leaf: Shape<T>| #[trigger]
            tree@.has_leaf(leaf) <==> exists|i: int|
                0 <= i < tree.entries().len() && #[trigger] registry_leaves(tree.entries())[i]
                    == leaf,
{
    lemma_leaves_of_registry(tree.entries());
}

/// Equivalence to the linear scan: `get` returns the label of the first
/// entry of the registry that no other entry is strictly nearer to the
/// point than, unless the cache answers with a leaf of another label.
pub proof fn lemma_equivalent_to_linear_scan<T: Copy>(
    tree: SearchTree<T>,
    cache: QueryCache<T>,
    point: NoiseValuePoint,
)
    requires
        tree.wf(),
        cache.agrees(tree.entries(), point.coordinates()),
    ensures
        tree.answer(cache, point) == tree.entries()[nearest(
            tree.entries(),
            point.coordinates(),
        )].1,
        0 <= nearest(tree.entries(), point.coordinates()) < tree.entries().len(),
        forall|j: int|
            0 <= j < tree.entries().len() ==> entry_distance(
                tree.entries(),
                nearest(tree.entries(), point.coordinates()),
                point.coordinates(),
            ) <= #[trigger] entry_distance(tree.entries(), j, point.coordinates()),
        forall|j: int|
            0 <= j < nearest(tree.entries(), point.coordinates()) ==> entry_distance(
                tree.entries(),
                nearest(tree.entries(), point.coordinates()),
                point.coordinates(),
            ) < #[trigger] entry_distance(tree.entries(), j, point.coordinates()),
{
    let entries = tree.entries();
    let at = point.coordinates();
    lemma_nearest_among(entries, at, entries.len() as int);
    let scanned = nearest(entries, at);
    assert forall|j: int| 0 <= j < entries.len() implies entry_distance(entries, scanned, at)
        <= #[trigger] entry_distance(entries, j, at) by {
        assert(no_worse(registry_leaves(entries)[scanned], registry_leaves(entries)[j], at));
    }
    assert forall|j: int| 0 <= j < scanned implies entry_distance(entries, scanned, at)
        < #[trigger] entry_distance(entries, j, at) by {
        assert(no_worse(registry_leaves(entries)[scanned], registry_leaves(entries)[j], at));
    }
}

/// Ties go to the first: an entry never answers the scan if an earlier
/// entry is as near to the point, as one with the same hypercube always is.
pub proof fn lemma_tie_goes_to_first<T>(
    entries: Seq<(NoiseHypercube, T)>,
    at: Seq<i32>,
    earlier: int,
    later: int,
)
    requires
        0 <= earlier < later < entries.len(),
        entry_distance(entries, earlier, at) <= entry_distance(entries, later, at),
    ensures
        nearest(entries, at) != later,
        entries.len() == 2 ==> nearest(entries, at) == 0,
{
    lemma_nearest_among(entries, at, entries.len() as int);
    let leaves = registry_leaves(entries);
    assert(no_worse(leaves[nearest(entries, at)], leaves[earlier], at));
}

/// Locality: once a lookup has put the leaf of the nearest entry into the
/// cache, every lookup at a point inside that entry's hypercube is
/// answered by the cache, with that entry's label.
pub proof fn lemma_locality<T: Copy>(
    tree: SearchTree<T>,
    cache: QueryCache<T>,
    first: NoiseValuePoint,
    next: NoiseValuePoint,
)
    requires
        tree.wf(),
        cache.last is Some,
        cache.last->0@ == registry_leaves(tree.entries())[nearest(
            tree.entries(),
            first.coordinates(),
        )],
        inside(
            tree.entries()[nearest(tree.entries(), first.coordinates())].0.parameters(),
            next.coordinates(),
        ),
    ensures
        cache.hits(next.coordinates()),
        tree.answer(cache, next) == tree.entries()[nearest(
            tree.entries(),
            first.coordinates(),
        )].1,
{
    lemma_nearest_among(tree.entries(), first.coordinates(), tree.entries().len() as int);
}

/// Determinism: two trees built from the same registry are the same tree,
/// and answer every lookup alike.
pub proof fn lemma_same_registry_same_answers<T: Copy>(
    first: SearchTree<T>,
    second: SearchTree<T>,
    cache: QueryCache<T>,
    point: NoiseValuePoint,
)
    requires
        first.wf(),
        second.wf(),
        first.entries() == second.entries(),
    ensures
        first@ == second@,
        first.answer(cache, point) == second.answer(cache, point),
{
}

/// Cache transparency: a lookup with the cache cleared gives the same
/// label as the lookup with the cache as it is, unless the cache answers
/// with a leaf of another label than the linear scan gives.
pub proof fn lemma_cache_is_transparent<T: Copy>(
    tree: SearchTree<T>,
    cache: QueryCache<T>,
    point: NoiseValuePoint,
)
    requires
        tree.wf(),
        cache.agrees(tree.entries(), point.coordinates()),
    ensures
        tree.answer(cache, point) == tree.answer(
            QueryCache { last: None, descents: cache.descents },
            point,
        ),
{
}

/// Where no point lies inside two entries with different labels, a cache
/// that holds a leaf of the registry answers as the linear scan does.
pub proof fn lemma_unambiguous_registry_agrees<T: Copy>(
    entries: Seq<(NoiseHypercube, T)>,
    cache: QueryCache<T>,
    at: Seq<i32>,
)
    requires
        entries.len() >= 1,
        unambiguous(entries),
        cache.drawn_from(entries),
    ensures
        cache.agrees(entries, at),
{
    if cache.hits(at) {
        let scanned = nearest(entries, at);
        lemma_nearest_among(entries, at, entries.len() as int);
        lemma_inside_iff_distance_zero(entries[scanned].0.parameters(), at);
    }
}

} // verus!
