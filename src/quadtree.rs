//! A region tree over borrowed elements located in 2D space.
use vstd::prelude::*;

use crate::bounds::{Bounded, Bounds, Quadrant};

verus! {

broadcast use {
    vstd::seq_lib::lemma_multiset_commutative,
    vstd::seq_lib::group_to_multiset_ensures,
    vstd::multiset::group_multiset_axioms,
};

/// The default number of elements a leaf holds before it splits.
pub const DEFAULT_CAPACITY: usize = 4;

/// The default depth below which no node splits.
pub const DEFAULT_MAX_DEPTH: usize = 10;

/// A tree of regions over borrowed elements.
///
/// Each node holds the elements that fit no single quadrant of its region
/// strictly, or, while it is a leaf, every element routed to it. A leaf
/// splits into four quadrants once it holds more than `capacity` elements,
/// unless it is `max_depth` deep.
pub struct QuadTree<'a, T> {
    capacity: usize,
    depth: usize,
    max_depth: usize,
    bounds: Bounds,
    elements: Vec<&'a T>,
    children: Option<Box<Children<'a, T>>>,
}

/// The items of `items` that quadrant `q` of `b` holds strictly, in order.
pub open spec fn fitting<'a, T: Bounded>(b: Bounds, q: Quadrant, items: Seq<&'a T>) -> Seq<&'a T>
    decreases items.len(),
{
    if items.len() == 0 {
        Seq::empty()
    } else {
        let before = fitting(b, q, items.drop_last());
        if b.quadrant_of(items.last().spec_bounds()) == Some(q) {
            before.push(items.last())
        } else {
            before
        }
    }
}

/// The items of `items` that no quadrant of `b` holds strictly, in order.
pub open spec fn straddling<'a, T: Bounded>(b: Bounds, items: Seq<&'a T>) -> Seq<&'a T>
    decreases items.len(),
{
    if items.len() == 0 {
        Seq::empty()
    } else {
        let before = straddling(b, items.drop_last());
        if b.quadrant_of(items.last().spec_bounds()) is None {
            before.push(items.last())
        } else {
            before
        }
    }
}

/// The four subtrees of a split node.
pub struct Children<'a, T> {
    top_left: QuadTree<'a, T>,
    top_right: QuadTree<'a, T>,
    bottom_right: QuadTree<'a, T>,
    bottom_left: QuadTree<'a, T>,
}

impl<'a, T: Bounded> Children<'a, T> {
    /// The subtree of quadrant `q`.
    pub closed spec fn child(self, q: Quadrant) -> QuadTree<'a, T> {
        match q {
            Quadrant::TopLeft => self.top_left,
            Quadrant::TopRight => self.top_right,
            Quadrant::BottomRight => self.bottom_right,
            Quadrant::BottomLeft => self.bottom_left,
        }
    }

    /// All elements below, in the order top left, top right, bottom right,
    /// bottom left.
    pub closed spec fn elems(self) -> Seq<&'a T> {
        self.top_left.elems() + self.top_right.elems() + self.bottom_right.elems()
            + self.bottom_left.elems()
    }

    /// Subtree `q` is a well-formed node at `depth` over quadrant `q` of
    /// `parent`.
    pub closed spec fn child_ok(
        self,
        q: Quadrant,
        parent: Bounds,
        capacity: usize,
        depth: int,
        max_depth: usize,
    ) -> bool {
        let c = self.child(q);
        &&& c.bounds == parent.spec_quadrant(q)
        &&& c.capacity == capacity
        &&& c.depth == depth
        &&& c.max_depth == max_depth
        &&& c.wf()
    }

    pub closed spec fn wf_under(self, parent: Bounds, capacity: usize, depth: int, max_depth: usize) -> bool {
        &&& self.child_ok(Quadrant::TopLeft, parent, capacity, depth, max_depth)
        &&& self.child_ok(Quadrant::TopRight, parent, capacity, depth, max_depth)
        &&& self.child_ok(Quadrant::BottomRight, parent, capacity, depth, max_depth)
        &&& self.child_ok(Quadrant::BottomLeft, parent, capacity, depth, max_depth)
    }

    /// Four empty leaves over the quadrants of `parent`.
    fn new_leaves(parent: &Bounds, capacity: usize, depth: usize, max_depth: usize) -> (r: Self)
        requires
            parent.wf(),
            depth <= max_depth,
        ensures
            r.wf_under(*parent, capacity, depth as int, max_depth),
            r.elems() == Seq::<&'a T>::empty(),
            forall|q: Quadrant| #[trigger] r.child(q).holds(Seq::<&'a T>::empty()),
    {
        let r = Children {
            top_left: QuadTree::leaf(parent.quadrant_bounds(Quadrant::TopLeft), capacity, depth, max_depth),
            top_right: QuadTree::leaf(parent.quadrant_bounds(Quadrant::TopRight), capacity, depth, max_depth),
            bottom_right: QuadTree::leaf(parent.quadrant_bounds(Quadrant::BottomRight), capacity, depth, max_depth),
            bottom_left: QuadTree::leaf(parent.quadrant_bounds(Quadrant::BottomLeft), capacity, depth, max_depth),
        };
        assert(r.elems() =~= Seq::<&'a T>::empty());
        r
    }

    /// Inserts `element` into the subtree of quadrant `q`.
    fn insert_at(&mut self, q: Quadrant, element: &'a T)
        requires
            old(self).child(q).wf(),
        ensures
            final(self).child(q).same_shape(old(self).child(q)),
            final(self).child(q).wf(),
            final(self).elems().to_multiset() == old(self).elems().to_multiset().insert(element),
            final(self).elems().len() == old(self).elems().len() + 1,
            forall|p: Quadrant| p != q ==> final(self).child(p) == old(self).child(p),
            forall|items: Seq<&'a T>|
                #[trigger] old(self).child(q).holds(items) ==> final(self).child(q).holds(items.push(element)),
        decreases old(self).child(q).levels_left(), 3int,
    {
        match q {
            Quadrant::TopLeft => self.top_left.insert(element),
            Quadrant::TopRight => self.top_right.insert(element),
            Quadrant::BottomRight => self.bottom_right.insert(element),
            Quadrant::BottomLeft => self.bottom_left.insert(element),
        }
        proof {
            let o = *old(self);
            let f = *final(self);
            assert(f.elems().to_multiset() =~= o.elems().to_multiset().insert(element));
        }
    }
}

impl<'a, T: Bounded> QuadTree<'a, T> {
    /// Every element of the tree: a node's own elements first, then those
    /// of its quadrants in the order top left, top right, bottom right,
    /// bottom left.
    pub closed spec fn elems(self) -> Seq<&'a T>
        decreases self,
    {
        match self.children {
            None => self.elements@,
            Some(c) => self.elements@ + (c.top_left.elems() + c.top_right.elems()
                + c.bottom_right.elems() + c.bottom_left.elems()),
        }
    }

    /// The tree is exactly what inserting `items`, in order, into an empty
    /// node of the same region, capacity and depth gives: where more than
    /// `capacity` items reach a node above the depth limit, it has split,
    /// keeps the items that fit no quadrant in their order, and each
    /// quadrant holds the items that fit it; otherwise it is a leaf holding
    /// `items` in their order.
    pub closed spec fn holds(self, items: Seq<&'a T>) -> bool
        decreases self,
    {
        if items.len() > self.capacity && self.depth < self.max_depth {
            match self.children {
                Some(c) => {
                    &&& self.elements@ == straddling(self.bounds, items)
                    &&& c.top_left.holds(fitting(self.bounds, Quadrant::TopLeft, items))
                    &&& c.top_right.holds(fitting(self.bounds, Quadrant::TopRight, items))
                    &&& c.bottom_right.holds(fitting(self.bounds, Quadrant::BottomRight, items))
                    &&& c.bottom_left.holds(fitting(self.bounds, Quadrant::BottomLeft, items))
                },
                None => false,
            }
        } else {
            self.children is None && self.elements@ == items
        }
    }

    /// The region of the subtree of quadrant `q`, where the node has split.
    pub closed spec fn child_region(self, q: Quadrant) -> Bounds {
        self.children->0.child(q).bounds
    }

    /// The depth of the node; the root is at depth zero.
    pub closed spec fn spec_depth(self) -> usize {
        self.depth
    }

    /// The depth below which no node splits.
    pub closed spec fn spec_max_depth(self) -> usize {
        self.max_depth
    }

    /// The region of the whole tree.
    pub closed spec fn spec_region(self) -> Bounds {
        self.bounds
    }

    /// How many levels may still be added below this node.
    pub closed spec fn levels_left(self) -> int {
        self.max_depth - self.depth
    }

    /// The node has not split.
    pub closed spec fn is_leaf(self) -> bool {
        self.children is None
    }

    /// The number of elements a leaf holds before it splits.
    pub closed spec fn spec_capacity(self) -> usize {
        self.capacity
    }

    /// Same region, capacity and depth.
    pub closed spec fn same_shape(self, other: Self) -> bool {
        &&& self.bounds == other.bounds
        &&& self.capacity == other.capacity
        &&& self.depth == other.depth
        &&& self.max_depth == other.max_depth
    }

    /// The tree's invariant: quadrants lie exactly over the quarters of
    /// their parent, one level deeper; a split node keeps only elements that
    /// fit no quadrant; a leaf over capacity lies at the depth limit.
    pub closed spec fn wf(self) -> bool
        decreases self,
    {
        &&& self.bounds.wf()
        &&& self.depth <= self.max_depth
        &&& match self.children {
            None => self.elements.len() <= self.capacity || self.depth >= self.max_depth,
            Some(c) => {
                &&& self.depth < self.max_depth
                &&& forall|i: int|
                    0 <= i < self.elements.len() ==> self.bounds.quadrant_of(
                        #[trigger] self.elements@[i].spec_bounds(),
                    ) is None
                &&& c.top_left.bounds == self.bounds.spec_quadrant(Quadrant::TopLeft)
                &&& c.top_right.bounds == self.bounds.spec_quadrant(Quadrant::TopRight)
                &&& c.bottom_right.bounds == self.bounds.spec_quadrant(Quadrant::BottomRight)
                &&& c.bottom_left.bounds == self.bounds.spec_quadrant(Quadrant::BottomLeft)
                &&& c.top_left.capacity == self.capacity && c.top_right.capacity == self.capacity
                &&& c.bottom_right.capacity == self.capacity && c.bottom_left.capacity == self.capacity
                &&& c.top_left.max_depth == self.max_depth && c.top_right.max_depth == self.max_depth
                &&& c.bottom_right.max_depth == self.max_depth && c.bottom_left.max_depth == self.max_depth
                &&& c.top_left.depth == self.depth + 1 && c.top_right.depth == self.depth + 1
                &&& c.bottom_right.depth == self.depth + 1 && c.bottom_left.depth == self.depth + 1
                &&& c.top_left.wf() && c.top_right.wf() && c.bottom_right.wf() && c.bottom_left.wf()
            },
        }
    }

    proof fn lemma_wf_children(self)
        requires
            self.wf(),
            self.children is Some,
        ensures
            self.children->0.wf_under(self.bounds, self.capacity, self.depth + 1, self.max_depth),
            self.elems() == self.elements@ + self.children->0.elems(),
    {
        self.lemma_elems_split();
    }

    proof fn lemma_elems_below(self)
        ensures
            self.elems() == self.elements@ + self.below(),
    {
        if self.children is Some {
            self.lemma_elems_split();
        } else {
            assert(self.elems() =~= self.elements@ + self.below());
        }
    }

    proof fn lemma_elems_split(self)
        requires
            self.children is Some,
        ensures
            self.elems() == self.elements@ + self.children->0.elems(),
    {
        let c = self.children->0;
        assert(self.elems() == self.elements@ + (c.top_left.elems() + c.top_right.elems()
                + c.bottom_right.elems() + c.bottom_left.elems()));
    }

    /// An empty leaf.
    fn leaf(bounds: Bounds, capacity: usize, depth: usize, max_depth: usize) -> (r: Self)
        requires
            bounds.wf(),
            depth <= max_depth,
        ensures
            r.wf(),
            r.is_leaf(),
            r.elems() == Seq::<&'a T>::empty(),
            r.bounds == bounds,
            r.capacity == capacity,
            r.depth == depth,
            r.max_depth == max_depth,
            r.holds(Seq::<&'a T>::empty()),
    {
        QuadTree { capacity, depth, max_depth, bounds, elements: Vec::new(), children: None }
    }

    /// Constructs an empty tree over `bounds`, holding up to four elements
    /// per leaf and splitting down to depth ten.
    pub fn new(bounds: Bounds) -> (r: Self)
        requires
            bounds.wf(),
        ensures
            r.wf(),
            r.is_leaf(),
            r.elems() == Seq::<&'a T>::empty(),
            r.spec_region() == bounds,
            r.spec_capacity() == DEFAULT_CAPACITY,
            r.spec_depth() == 0,
            r.spec_max_depth() == DEFAULT_MAX_DEPTH,
            r.holds(Seq::<&'a T>::empty()),
    {
        Self::leaf(bounds, DEFAULT_CAPACITY, 0, DEFAULT_MAX_DEPTH)
    }

    /// Inserts an element.
    ///
    /// It goes down to the quadrant that holds it strictly, as long as the
    /// node there has split; a leaf that then holds more than its capacity
    /// splits once.
    pub fn insert(&mut self, element: &'a T)
        requires
            old(self).wf(),
        ensures
            final(self).wf(),
            final(self).same_shape(*old(self)),
            final(self).spec_region() == old(self).spec_region(),
            final(self).spec_capacity() == old(self).spec_capacity(),
            final(self).elems().to_multiset() == old(self).elems().to_multiset().insert(element),
            final(self).elems().len() == old(self).elems().len() + 1,
            old(self).is_leaf() && old(self).elems().len() < old(self).spec_capacity() ==> {
                &&& final(self).is_leaf()
                &&& final(self).elems() == old(self).elems().push(element)
            },
            final(self).spec_depth() == old(self).spec_depth(),
            final(self).spec_max_depth() == old(self).spec_max_depth(),
            forall|items: Seq<&'a T>|
                #[trigger] old(self).holds(items) ==> final(self).holds(items.push(element)),
        decreases old(self).levels_left(), 2int,
    {
        let b = element.bounds();
        let q = self.bounds.quadrant(&b);
        let ghost o = *old(self);
        match &mut self.children {
            Some(c) => {
                proof { o.lemma_wf_children(); }
                match q {
                    Some(q) => {
                        c.insert_at(q, element);
                    },
                    None => {
                        self.elements.push(element);
                    },
                }
            },
            None => {
                self.elements.push(element);
                if self.elements.len() > self.capacity {
                    self.split();
                }
            },
        }
        proof {
            let f = *final(self);
            if f.children is Some {
                f.lemma_elems_split();
                if o.children is Some {
                    o.lemma_elems_split();
                }
            }
            assert(f.elems().to_multiset() =~= o.elems().to_multiset().insert(element));
            assert forall|items: Seq<&'a T>| #[trigger] o.holds(items) implies f.holds(items.push(element)) by {
                let its = items.push(element);
                assert(its.drop_last() =~= items);
                assert(its.last() == element);
                if o.children is Some {
                    let oc = o.children->0;
                    let fc = f.children->0;
                    assert(items.len() > o.capacity && o.depth < o.max_depth);
                    assert(oc.child(Quadrant::TopLeft).holds(fitting(o.bounds, Quadrant::TopLeft, items)));
                    assert(oc.child(Quadrant::TopRight).holds(fitting(o.bounds, Quadrant::TopRight, items)));
                    assert(oc.child(Quadrant::BottomRight).holds(fitting(o.bounds, Quadrant::BottomRight, items)));
                    assert(oc.child(Quadrant::BottomLeft).holds(fitting(o.bounds, Quadrant::BottomLeft, items)));
                    assert(fc.child(Quadrant::TopLeft).holds(fitting(o.bounds, Quadrant::TopLeft, its)));
                    assert(fc.child(Quadrant::TopRight).holds(fitting(o.bounds, Quadrant::TopRight, its)));
                    assert(fc.child(Quadrant::BottomRight).holds(fitting(o.bounds, Quadrant::BottomRight, its)));
                    assert(fc.child(Quadrant::BottomLeft).holds(fitting(o.bounds, Quadrant::BottomLeft, its)));
                } else {
                    assert(o.elements@ == items);
                    if its.len() > o.capacity && o.depth < o.max_depth {
                        assert(f.elements@ == straddling(o.bounds, its));
                        assert(f.children->0.child(Quadrant::TopLeft).holds(fitting(o.bounds, Quadrant::TopLeft, its)));
                        assert(f.children->0.child(Quadrant::TopRight).holds(fitting(o.bounds, Quadrant::TopRight, its)));
                        assert(f.children->0.child(Quadrant::BottomRight).holds(fitting(o.bounds, Quadrant::BottomRight, its)));
                        assert(f.children->0.child(Quadrant::BottomLeft).holds(fitting(o.bounds, Quadrant::BottomLeft, its)));
                    }
                }
            }
        }
    }

    /// Splits a leaf into four quadrants and moves down every element that
    /// one of them holds strictly. A leaf at the depth limit stays as it is.
    fn split(&mut self)
        requires
            old(self).children is None,
            old(self).bounds.wf(),
            old(self).depth <= old(self).max_depth,
        ensures
            final(self).wf(),
            final(self).same_shape(*old(self)),
            final(self).elems().to_multiset() == old(self).elements@.to_multiset(),
            final(self).elems().len() == old(self).elements@.len(),
            old(self).depth >= old(self).max_depth ==> *final(self) == *old(self),
            old(self).depth < old(self).max_depth ==> {
                &&& final(self).children is Some
                &&& final(self).elements@ == straddling(old(self).bounds, old(self).elements@)
                &&& forall|q: Quadrant|
                    #[trigger] final(self).children->0.child(q).holds(
                        fitting(old(self).bounds, q, old(self).elements@),
                    )
            },
        decreases old(self).levels_left(), 0int,
    {
        if self.depth >= self.max_depth {
            return;
        }
        let mut c: Children<'a, T> = Children::new_leaves(&self.bounds, self.capacity, self.depth + 1, self.max_depth);
        let mut rest: Vec<&'a T> = Vec::new();
        let mut i: usize = 0;
        proof {
            assert(rest@ + c.elems() =~= Seq::<&'a T>::empty());
            assert(self.elements@.take(0) =~= Seq::<&'a T>::empty());
        }
        while i < self.elements.len()
            invariant
                self.bounds.wf(),
                self.depth < self.max_depth,
                i <= self.elements.len(),
                c.wf_under(self.bounds, self.capacity, self.depth + 1, self.max_depth),
                forall|j: int|
                    0 <= j < rest.len() ==> self.bounds.quadrant_of(
                        #[trigger] rest@[j].spec_bounds(),
                    ) is None,
                (rest@ + c.elems()).to_multiset() == self.elements@.take(i as int).to_multiset(),
                rest@.len() + c.elems().len() == i,
                rest@ == straddling(self.bounds, self.elements@.take(i as int)),
                forall|q: Quadrant|
                    #[trigger] c.child(q).holds(fitting(self.bounds, q, self.elements@.take(i as int))),
            decreases self.elements.len() - i,
        {
            let e = self.elements[i];
            let b = e.bounds();
            let ghost c0 = c;
            let ghost r0 = rest@;
            match self.bounds.quadrant(&b) {
                Some(q) => {
                    c.insert_at(q, e);
                },
                None => {
                    rest.push(e);
                },
            }
            proof {
                assert(self.elements@.take(i + 1) =~= self.elements@.take(i as int).push(e));
                assert(self.elements@.take(i + 1).drop_last() =~= self.elements@.take(i as int));
                assert((rest@ + c.elems()).to_multiset() =~= (r0 + c0.elems()).to_multiset().insert(e));
                assert forall|q: Quadrant|
                    #[trigger] c.child(q).holds(fitting(self.bounds, q, self.elements@.take(i + 1))) by {
                    assert(c0.child(q).holds(fitting(self.bounds, q, self.elements@.take(i as int))));
                }
            }
            i += 1;
        }
        proof {
            assert(self.elements@.take(i as int) =~= self.elements@);
            assert(forall|q: Quadrant| #[trigger] c.child(q).holds(fitting(self.bounds, q, self.elements@)));
        }
        self.children = Some(Box::new(c));
        self.elements = rest;
        proof {
            final(self).lemma_elems_split();
        }
    }

    /// What a query for an element with region `b` yields, and whether it
    /// stopped early.
    ///
    /// The query takes a node's own elements, then goes down into the one
    /// quadrant that holds `b` strictly. Where none does, it stops unless
    /// `b` lies inside the node's region; if it does, it visits the top left
    /// quadrant and then the bottom left, bottom right and top right ones,
    /// and a stop anywhere below ends the whole query.
    pub closed spec fn query_spec(self, b: Bounds) -> (Seq<&'a T>, bool)
        decreases self,
    {
        match self.children {
            None => (self.elements@, false),
            Some(c) => match self.bounds.quadrant_of(b) {
                Some(q) => {
                    let r = match q {
                        Quadrant::TopLeft => c.top_left.query_spec(b),
                        Quadrant::TopRight => c.top_right.query_spec(b),
                        Quadrant::BottomRight => c.bottom_right.query_spec(b),
                        Quadrant::BottomLeft => c.bottom_left.query_spec(b),
                    };
                    (self.elements@ + r.0, r.1)
                },
                None => if !self.bounds.spec_contains(b) {
                    (self.elements@, true)
                } else {
                    let r0 = c.top_left.query_spec(b);
                    let r1 = c.bottom_left.query_spec(b);
                    let r2 = c.bottom_right.query_spec(b);
                    let r3 = c.top_right.query_spec(b);
                    if r0.1 {
                        (self.elements@ + r0.0, true)
                    } else if r1.1 {
                        (self.elements@ + r0.0 + r1.0, true)
                    } else if r2.1 {
                        (self.elements@ + r0.0 + r1.0 + r2.0, true)
                    } else {
                        (self.elements@ + r0.0 + r1.0 + r2.0 + r3.0, r3.1)
                    }
                },
            },
        }
    }

    /// The elements that a query for an element with region `b` yields.
    pub closed spec fn query_result(self, b: Bounds) -> Seq<&'a T> {
        self.query_spec(b).0
    }

    /// Returns the number of elements in the tree.
    pub fn len(&self) -> (r: usize)
        requires
            self.wf(),
            self.elems().len() <= usize::MAX,
        ensures
            r == self.elems().len(),
        decreases self.levels_left(),
    {
        let mut count: usize = self.elements.len();
        match &self.children {
            Some(c) => {
                proof {
                    self.lemma_wf_children();
                }
                count = count + c.top_left.len();
                count = count + c.top_right.len();
                count = count + c.bottom_right.len();
                count = count + c.bottom_left.len();
            },
            None => {},
        }
        count
    }

    /// Removes every element; the tree becomes one empty leaf over the same
    /// region.
    pub fn clear(&mut self)
        requires
            old(self).wf(),
        ensures
            final(self).wf(),
            final(self).same_shape(*old(self)),
            final(self).spec_region() == old(self).spec_region(),
            final(self).is_leaf(),
            final(self).elems() == Seq::<&'a T>::empty(),
    {
        self.elements.clear();
        self.children = None;
    }

    /// Appends every element to `out`, in the order of `elems`.
    fn collect_into(&self, out: &mut Vec<&'a T>)
        requires
            self.wf(),
        ensures
            final(out)@ == old(out)@ + self.elems(),
        decreases self.levels_left(),
    {
        let mut i: usize = 0;
        while i < self.elements.len()
            invariant
                i <= self.elements.len(),
                out@ == old(out)@ + self.elements@.take(i as int),
            decreases self.elements.len() - i,
        {
            out.push(self.elements[i]);
            i += 1;
            proof {
                assert(self.elements@.take(i as int) =~= self.elements@.take(i - 1).push(self.elements@[i - 1]));
            }
        }
        proof {
            assert(self.elements@.take(i as int) =~= self.elements@);
        }
        match &self.children {
            Some(c) => {
                proof {
                    self.lemma_wf_children();
                }
                c.top_left.collect_into(out);
                c.top_right.collect_into(out);
                c.bottom_right.collect_into(out);
                c.bottom_left.collect_into(out);
                proof {
                    assert(out@ =~= old(out)@ + self.elems());
                }
            },
            None => {},
        }
    }

    /// Returns an iterator over all elements: a node's own elements in the
    /// order they were added, then its quadrants top left, top right, bottom
    /// right, bottom left.
    pub fn iter(&'a self) -> (r: Items<'a, T>)
        requires
            self.wf(),
        ensures
            r.wf(),
            r.rest() == self.elems(),
    {
        let r = Items { current: self, element_index: 0, pending: Vec::new() };
        proof {
            self.lemma_elems_below();
            assert(self.elements@.skip(0) =~= self.elements@);
            assert(r.rest() =~= self.elems());
        }
        r
    }

    /// Returns all elements in the order of `iter`.
    pub fn to_vec(&self) -> (r: Vec<&'a T>)
        requires
            self.wf(),
        ensures
            r@ == self.elems(),
    {
        let mut all: Vec<&'a T> = Vec::new();
        self.collect_into(&mut all);
        proof {
            assert(all@ =~= self.elems());
        }
        all
    }

    /// Appends what a query for region `b` yields to `out`; tells whether
    /// it stopped early.
    fn query_into(&self, b: &Bounds, out: &mut Vec<&'a T>) -> (stopped: bool)
        requires
            self.wf(),
        ensures
            final(out)@ == old(out)@ + self.query_spec(*b).0,
            stopped == self.query_spec(*b).1,
        decreases self.levels_left(),
    {
        let mut i: usize = 0;
        while i < self.elements.len()
            invariant
                i <= self.elements.len(),
                out@ == old(out)@ + self.elements@.take(i as int),
            decreases self.elements.len() - i,
        {
            out.push(self.elements[i]);
            i += 1;
            proof {
                assert(self.elements@.take(i as int) =~= self.elements@.take(i - 1).push(self.elements@[i - 1]));
            }
        }
        proof {
            assert(self.elements@.take(i as int) =~= self.elements@);
        }
        match &self.children {
            None => false,
            Some(c) => {
                proof {
                    self.lemma_wf_children();
                }
                match self.bounds.quadrant(b) {
                    Some(q) => {
                        let stopped = match q {
                            Quadrant::TopLeft => c.top_left.query_into(b, out),
                            Quadrant::TopRight => c.top_right.query_into(b, out),
                            Quadrant::BottomRight => c.bottom_right.query_into(b, out),
                            Quadrant::BottomLeft => c.bottom_left.query_into(b, out),
                        };
                        proof {
                            assert(out@ =~= old(out)@ + self.query_spec(*b).0);
                        }
                        stopped
                    },
                    None => {
                        if !self.bounds.contains(b) {
                            return true;
                        }
                        let ghost o1 = out@;
                        if c.top_left.query_into(b, out) {
                            assert(out@ =~= old(out)@ + self.query_spec(*b).0);
                            return true;
                        }
                        if c.bottom_left.query_into(b, out) {
                            assert(out@ =~= old(out)@ + self.query_spec(*b).0);
                            return true;
                        }
                        if c.bottom_right.query_into(b, out) {
                            assert(out@ =~= old(out)@ + self.query_spec(*b).0);
                            return true;
                        }
                        let stopped = c.top_right.query_into(b, out);
                        assert(out@ =~= old(out)@ + self.query_spec(*b).0);
                        stopped
                    },
                }
            },
        }
    }

    /// Returns an iterator over the elements near `element`, which need not
    /// be in the tree: those on the path of nodes down to the smallest
    /// quadrant that holds it strictly (see `query_spec`). Elements in a
    /// neighbouring quadrant are not visited.
    pub fn query<B: Bounded>(&'a self, element: &B) -> (r: QueryItems<'a, T>)
        requires
            self.wf(),
        ensures
            r.wf(),
            r.rest() == self.query_result(element.spec_bounds()),
    {
        let b = element.bounds();
        let r = QueryItems { qt: self, index: 0, element: b, next_qts: Vec::new() };
        proof {
            assert(query_pending(b, Seq::<&'a QuadTree<'a, T>>::empty()) =~= Seq::<&'a T>::empty());
            assert(query_from(self, b, Seq::empty()) =~= self.query_result(b));
            assert(r.rest() =~= self.query_result(b));
        }
        r
    }

    /// Returns what a query for an element with region `b` yields, in the
    /// order of `query`.
    pub fn query_to_vec(&self, b: &Bounds) -> (r: Vec<&'a T>)
        requires
            self.wf(),
        ensures
            r@ == self.query_result(*b),
    {
        let mut found: Vec<&'a T> = Vec::new();
        let _stopped = self.query_into(b, &mut found);
        proof {
            assert(found@ =~= self.query_result(*b));
        }
        found
    }
}

/// Inserting the elements `items` one after another into an empty tree,
/// where `states[i + 1]` is the tree after inserting `items[i]` into
/// `states[i]`, leaves a tree of exactly `items.len()` elements, which are
/// those of `items`.
pub proof fn lemma_inserts_count<'a, T: Bounded>(states: Seq<QuadTree<'a, T>>, items: Seq<&'a T>)
    requires
        states.len() == items.len() + 1,
        states[0].elems().len() == 0,
        forall|i: int|
            0 <= i < items.len() ==> {
                &&& (#[trigger] states[i + 1]).elems().to_multiset() == states[i].elems().to_multiset().insert(items[i])
                &&& states[i + 1].elems().len() == states[i].elems().len() + 1
            },
    ensures
        states.last().elems().len() == items.len(),
        states.last().elems().to_multiset() == items.to_multiset(),
    decreases items.len(),
{
    if items.len() == 0 {
        assert(items =~= Seq::<&'a T>::empty());
        assert(states[0].elems() =~= Seq::<&'a T>::empty());
    } else {
        let n = items.len() - 1;
        let s0 = states.drop_last();
        let i0 = items.drop_last();
        assert forall|i: int| 0 <= i < i0.len() implies {
            &&& (#[trigger] s0[i + 1]).elems().to_multiset() == s0[i].elems().to_multiset().insert(i0[i])
            &&& s0[i + 1].elems().len() == s0[i].elems().len() + 1
        } by {
            assert(states[i + 1] == s0[i + 1]);
        }
        lemma_inserts_count(s0, i0);
        assert(states[n + 1] == states.last());
        assert(items =~= i0.push(items[n]));
    }
}

/// Inserting `items` one after another into an empty leaf, where
/// `states[i + 1]` is the tree after inserting `items[i]` into `states[i]`,
/// keeps the order of insertion as long as no more than the leaf's
/// capacity are inserted: the leaf never splits.
pub proof fn lemma_inserts_keep_order<'a, T: Bounded>(states: Seq<QuadTree<'a, T>>, items: Seq<&'a T>)
    requires
        states.len() == items.len() + 1,
        states[0].is_leaf(),
        states[0].elems().len() == 0,
        items.len() <= states[0].spec_capacity(),
        forall|i: int|
            0 <= i < items.len() ==> {
                &&& (#[trigger] states[i + 1]).spec_capacity() == states[i].spec_capacity()
                &&& states[i].is_leaf() && states[i].elems().len() < states[i].spec_capacity() ==> {
                    &&& states[i + 1].is_leaf()
                    &&& states[i + 1].elems() == states[i].elems().push(items[i])
                }
            },
    ensures
        states.last().is_leaf(),
        states.last().elems() == items,
        states.last().spec_capacity() == states[0].spec_capacity(),
    decreases items.len(),
{
    if items.len() == 0 {
        assert(items =~= Seq::<&'a T>::empty());
        assert(states[0].elems() =~= Seq::<&'a T>::empty());
    } else {
        let n = items.len() - 1;
        let s0 = states.drop_last();
        let i0 = items.drop_last();
        assert forall|i: int| 0 <= i < i0.len() implies {
            &&& (#[trigger] s0[i + 1]).spec_capacity() == s0[i].spec_capacity()
            &&& s0[i].is_leaf() && s0[i].elems().len() < s0[i].spec_capacity() ==> {
                &&& s0[i + 1].is_leaf()
                &&& s0[i + 1].elems() == s0[i].elems().push(i0[i])
            }
        } by {
            assert(states[i + 1] == s0[i + 1]);
        }
        lemma_inserts_keep_order(s0, i0);
        assert(states[n] == s0.last());
        assert(states[n + 1] == states.last());
        assert(items =~= i0.push(items[n]));
    }
}

/// Two well-formed trees of the same region, capacity and depth that both
/// come from inserting `items` hold the same elements in the same order and
/// answer every query alike: the insertions fix the tree.
pub proof fn lemma_holds_determines<'a, T: Bounded>(
    t1: QuadTree<'a, T>,
    t2: QuadTree<'a, T>,
    items: Seq<&'a T>,
    b: Bounds,
)
    requires
        t1.wf(),
        t2.wf(),
        t1.spec_region() == t2.spec_region(),
        t1.spec_capacity() == t2.spec_capacity(),
        t1.spec_depth() == t2.spec_depth(),
        t1.spec_max_depth() == t2.spec_max_depth(),
        t1.holds(items),
        t2.holds(items),
    ensures
        t1.elems() == t2.elems(),
        t1.query_spec(b) == t2.query_spec(b),
        t1.query_result(b) == t2.query_result(b),
    decreases t1,
{
    if items.len() > t1.capacity && t1.depth < t1.max_depth {
        let c1 = t1.children->0;
        let c2 = t2.children->0;
        lemma_holds_determines(c1.top_left, c2.top_left, fitting(t1.bounds, Quadrant::TopLeft, items), b);
        lemma_holds_determines(c1.top_right, c2.top_right, fitting(t1.bounds, Quadrant::TopRight, items), b);
        lemma_holds_determines(
            c1.bottom_right,
            c2.bottom_right,
            fitting(t1.bounds, Quadrant::BottomRight, items),
            b,
        );
        lemma_holds_determines(c1.bottom_left, c2.bottom_left, fitting(t1.bounds, Quadrant::BottomLeft, items), b);
    }
}

proof fn lemma_fitting_contains<'a, T: Bounded>(b: Bounds, items: Seq<&'a T>, e: &'a T)
    requires
        items.contains(e),
    ensures
        b.quadrant_of(e.spec_bounds()) is None ==> straddling(b, items).contains(e),
        b.quadrant_of(e.spec_bounds()) matches Some(q) ==> fitting(b, q, items).contains(e),
    decreases items.len(),
{
    let last = items.last();
    if last == e {
        assert(straddling(b, items).last() == e || !(b.quadrant_of(e.spec_bounds()) is None));
        if b.quadrant_of(e.spec_bounds()) is None {
            assert(straddling(b, items)[straddling(b, items).len() - 1] == e);
        }
        if let Some(q) = b.quadrant_of(e.spec_bounds()) {
            assert(fitting(b, q, items)[fitting(b, q, items).len() - 1] == e);
        }
    } else {
        let k = choose|k: int| 0 <= k < items.len() && items[k] == e;
        assert(items.drop_last()[k] == e);
        lemma_fitting_contains(b, items.drop_last(), e);
        let s0 = straddling(b, items.drop_last());
        if b.quadrant_of(e.spec_bounds()) is None {
            let j = choose|j: int| 0 <= j < s0.len() && s0[j] == e;
            assert(straddling(b, items)[j] == e);
        }
        if let Some(q) = b.quadrant_of(e.spec_bounds()) {
            let f0 = fitting(b, q, items.drop_last());
            let j = choose|j: int| 0 <= j < f0.len() && f0[j] == e;
            assert(fitting(b, q, items)[j] == e);
        }
    }
}

/// A query for an element that was inserted yields that element: the query
/// goes down the same path that its insertion took.
pub proof fn lemma_query_finds_inserted<'a, T: Bounded>(t: QuadTree<'a, T>, items: Seq<&'a T>, e: &'a T)
    requires
        t.holds(items),
        items.contains(e),
    ensures
        t.query_result(e.spec_bounds()).contains(e),
    decreases t,
{
    let b = e.spec_bounds();
    lemma_fitting_contains(t.bounds, items, e);
    let own = t.elements@;
    if items.len() > t.capacity && t.depth < t.max_depth {
        let c = t.children->0;
        match t.bounds.quadrant_of(b) {
            None => {
                let j = choose|j: int| 0 <= j < own.len() && own[j] == e;
                assert(t.query_spec(b).0 == own + t.query_spec(b).0.skip(own.len() as int)) by {
                    t.lemma_query_starts_with_own(b);
                }
                assert(t.query_spec(b).0[j] == e);
            },
            Some(q) => {
                let child = match q {
                    Quadrant::TopLeft => c.top_left,
                    Quadrant::TopRight => c.top_right,
                    Quadrant::BottomRight => c.bottom_right,
                    Quadrant::BottomLeft => c.bottom_left,
                };
                lemma_query_finds_inserted(child, fitting(t.bounds, q, items), e);
                let r = child.query_spec(b).0;
                let j = choose|j: int| 0 <= j < r.len() && r[j] == e;
                assert(t.query_spec(b).0 == own + r);
                assert(t.query_spec(b).0[own.len() + j] == e);
            },
        }
    } else {
        let j = choose|j: int| 0 <= j < items.len() && items[j] == e;
        assert(t.query_spec(b).0[j] == e);
    }
}

/// The order in which a tree over `b` at `depth`, made by inserting
/// `items`, yields its elements: where more than `capacity` items reach a
/// node above `max_depth`, those that fit no quadrant, then those of each
/// quadrant, top left, top right, bottom right, bottom left; otherwise
/// `items` as they came.
pub open spec fn insertion_order<'a, T: Bounded>(
    b: Bounds,
    capacity: int,
    depth: int,
    max_depth: int,
    items: Seq<&'a T>,
) -> Seq<&'a T>
    decreases max_depth - depth,
{
    if items.len() > capacity && depth < max_depth {
        straddling(b, items) + insertion_order(
            b.spec_quadrant(Quadrant::TopLeft),
            capacity,
            depth + 1,
            max_depth,
            fitting(b, Quadrant::TopLeft, items),
        ) + insertion_order(
            b.spec_quadrant(Quadrant::TopRight),
            capacity,
            depth + 1,
            max_depth,
            fitting(b, Quadrant::TopRight, items),
        ) + insertion_order(
            b.spec_quadrant(Quadrant::BottomRight),
            capacity,
            depth + 1,
            max_depth,
            fitting(b, Quadrant::BottomRight, items),
        ) + insertion_order(
            b.spec_quadrant(Quadrant::BottomLeft),
            capacity,
            depth + 1,
            max_depth,
            fitting(b, Quadrant::BottomLeft, items),
        )
    } else {
        items
    }
}

/// The elements of a tree made by inserting `items` come in
/// `insertion_order`.
pub proof fn lemma_holds_elems<'a, T: Bounded>(t: QuadTree<'a, T>, items: Seq<&'a T>)
    requires
        t.wf(),
        t.holds(items),
    ensures
        t.elems() == insertion_order(
            t.spec_region(),
            t.spec_capacity() as int,
            t.spec_depth() as int,
            t.spec_max_depth() as int,
            items,
        ),
    decreases t,
{
    if items.len() > t.capacity && t.depth < t.max_depth {
        let c = t.children->0;
        lemma_holds_elems(c.top_left, fitting(t.bounds, Quadrant::TopLeft, items));
        lemma_holds_elems(c.top_right, fitting(t.bounds, Quadrant::TopRight, items));
        lemma_holds_elems(c.bottom_right, fitting(t.bounds, Quadrant::BottomRight, items));
        lemma_holds_elems(c.bottom_left, fitting(t.bounds, Quadrant::BottomLeft, items));
        assert(t.elems() =~= insertion_order(
            t.bounds,
            t.capacity as int,
            t.depth as int,
            t.max_depth as int,
            items,
        ));
    }
}

/// What a query for region `qb` yields, and whether it stopped early, on a
/// tree over `b` at `depth` made by inserting `items` (see `query_spec`).
pub open spec fn insertion_query<'a, T: Bounded>(
    b: Bounds,
    capacity: int,
    depth: int,
    max_depth: int,
    items: Seq<&'a T>,
    qb: Bounds,
) -> (Seq<&'a T>, bool)
    decreases max_depth - depth,
{
    if items.len() > capacity && depth < max_depth {
        let own = straddling(b, items);
        let part = |q: Quadrant|
            insertion_query(b.spec_quadrant(q), capacity, depth + 1, max_depth, fitting(b, q, items), qb);
        match b.quadrant_of(qb) {
            Some(q) => {
                let r = part(q);
                (own + r.0, r.1)
            },
            None => if !b.spec_contains(qb) {
                (own, true)
            } else {
                let r0 = part(Quadrant::TopLeft);
                let r1 = part(Quadrant::BottomLeft);
                let r2 = part(Quadrant::BottomRight);
                let r3 = part(Quadrant::TopRight);
                if r0.1 {
                    (own + r0.0, true)
                } else if r1.1 {
                    (own + r0.0 + r1.0, true)
                } else if r2.1 {
                    (own + r0.0 + r1.0 + r2.0, true)
                } else {
                    (own + r0.0 + r1.0 + r2.0 + r3.0, r3.1)
                }
            },
        }
    } else {
        (items, false)
    }
}

/// A query on a tree made by inserting `items` yields `insertion_query`.
pub proof fn lemma_holds_query<'a, T: Bounded>(t: QuadTree<'a, T>, items: Seq<&'a T>, qb: Bounds)
    requires
        t.wf(),
        t.holds(items),
    ensures
        t.query_spec(qb) == insertion_query(
            t.spec_region(),
            t.spec_capacity() as int,
            t.spec_depth() as int,
            t.spec_max_depth() as int,
            items,
            qb,
        ),
        t.query_result(qb) == insertion_query(
            t.spec_region(),
            t.spec_capacity() as int,
            t.spec_depth() as int,
            t.spec_max_depth() as int,
            items,
            qb,
        ).0,
    decreases t,
{
    if items.len() > t.capacity && t.depth < t.max_depth {
        let c = t.children->0;
        lemma_holds_query(c.top_left, fitting(t.bounds, Quadrant::TopLeft, items), qb);
        lemma_holds_query(c.top_right, fitting(t.bounds, Quadrant::TopRight, items), qb);
        lemma_holds_query(c.bottom_right, fitting(t.bounds, Quadrant::BottomRight, items), qb);
        lemma_holds_query(c.bottom_left, fitting(t.bounds, Quadrant::BottomLeft, items), qb);
    }
}

/// A tree that fewer than `capacity` insertions made, or as many, is one
/// leaf holding them in the order of insertion.
pub proof fn lemma_holds_unsplit<'a, T: Bounded>(t: QuadTree<'a, T>, items: Seq<&'a T>)
    requires
        t.holds(items),
        items.len() <= t.spec_capacity(),
    ensures
        t.is_leaf(),
        t.elems() == items,
{
}

/// A query on a leaf yields all its elements.
pub proof fn lemma_leaf_query<'a, T: Bounded>(t: QuadTree<'a, T>, b: Bounds)
    requires
        t.is_leaf(),
    ensures
        t.query_result(b) == t.elems(),
{
}

/// The quadrants of a split node lie over the quarters of its region.
pub proof fn lemma_child_regions<'a, T: Bounded>(t: QuadTree<'a, T>, q: Quadrant)
    requires
        t.wf(),
        !t.is_leaf(),
    ensures
        t.child_region(q) == t.spec_region().spec_quadrant(q),
{
}

/// A query depends on the tree and the element's region alone: two queries
/// with the same element on the same tree yield the same elements in the
/// same order.
pub proof fn lemma_query_repeatable<'a, T: Bounded, B: Bounded>(
    tree: QuadTree<'a, T>,
    element: B,
    first: Seq<&'a T>,
    second: Seq<&'a T>,
)
    requires
        first == tree.query_result(element.spec_bounds()),
        second == tree.query_result(element.spec_bounds()),
    ensures
        first == second,
{
}

/// An iterator over all elements of a tree.
///
/// It walks the tree without recursion: it yields the elements of the
/// current node, then moves to its top left quadrant and keeps the other
/// three on a stack, top right on top; at a leaf it takes the next node
/// from the stack.
pub struct Items<'a, T> {
    current: &'a QuadTree<'a, T>,
    element_index: usize,
    pending: Vec<&'a QuadTree<'a, T>>,
}

/// The elements of the nodes of `stack`, from its top down.
pub closed spec fn stack_elems<'a, T: Bounded>(stack: Seq<&'a QuadTree<'a, T>>) -> Seq<&'a T>
    decreases stack.len(),
{
    if stack.len() == 0 {
        Seq::empty()
    } else {
        stack.last().elems() + stack_elems(stack.drop_last())
    }
}

/// The number of nodes of the trees of `stack`.
pub closed spec fn stack_nodes<'a, T: Bounded>(stack: Seq<&'a QuadTree<'a, T>>) -> nat
    decreases stack.len(),
{
    if stack.len() == 0 {
        0
    } else {
        stack.last().node_count() + stack_nodes(stack.drop_last())
    }
}

impl<'a, T: Bounded> QuadTree<'a, T> {
    /// The number of nodes of the tree.
    pub closed spec fn node_count(self) -> nat
        decreases self,
    {
        match self.children {
            None => 1,
            Some(c) => 1 + c.top_left.node_count() + c.top_right.node_count()
                + c.bottom_right.node_count() + c.bottom_left.node_count(),
        }
    }

    /// The elements of the node's quadrants.
    pub closed spec fn below(self) -> Seq<&'a T> {
        match self.children {
            None => Seq::empty(),
            Some(c) => c.elems(),
        }
    }
}

impl<'a, T: Bounded> Items<'a, T> {
    /// The elements still to come, in order.
    pub closed spec fn rest(self) -> Seq<&'a T> {
        self.current.elements@.skip(self.element_index as int) + self.current.below() + stack_elems(
            self.pending@,
        )
    }

    pub closed spec fn wf(self) -> bool {
        &&& self.current.wf()
        &&& self.element_index <= self.current.elements.len()
        &&& forall|i: int| 0 <= i < self.pending.len() ==> (#[trigger] self.pending@[i]).wf()
    }

    /// Returns the next element, or `None` once all have been returned.
    pub fn next(&mut self) -> (r: Option<&'a T>)
        requires
            old(self).wf(),
        ensures
            final(self).wf(),
            old(self).rest().len() == 0 ==> r is None && final(self).rest() == old(self).rest(),
            old(self).rest().len() > 0 ==> r == Some(old(self).rest()[0]) && final(self).rest()
                == old(self).rest().skip(1),
    {
        let ghost start = old(self).rest();
        loop
            invariant
                self.wf(),
                self.rest() == start,
                start == old(self).rest(),
            decreases self.current.node_count() + stack_nodes(self.pending@),
        {
            let cur: &'a QuadTree<'a, T> = self.current;
            if self.element_index < cur.elements.len() {
                let e = cur.elements[self.element_index];
                proof {
                    let s = cur.elements@.skip(self.element_index as int);
                    assert(s =~= seq![e] + s.skip(1));
                    assert(s.skip(1) =~= cur.elements@.skip(self.element_index + 1));
                    assert(start =~= seq![e] + (s.skip(1) + cur.below() + stack_elems(self.pending@)));
                }
                self.element_index = self.element_index + 1;
                proof {
                    assert(self.rest() =~= start.skip(1));
                    assert(start.len() > 0);
                    assert(start[0] == e);
                }
                return Some(e);
            }
            match &cur.children {
                Some(c) => {
                    let ghost p0 = self.pending@;
                    proof {
                        cur.lemma_wf_children();
                    }
                    self.pending.push(&c.bottom_left);
                    self.pending.push(&c.bottom_right);
                    self.pending.push(&c.top_right);
                    self.current = &c.top_left;
                    self.element_index = 0;
                    proof {
                        let p = self.pending@;
                        assert(p.drop_last() =~= p0.push(&c.bottom_left).push(&c.bottom_right));
                        assert(p.drop_last().drop_last() =~= p0.push(&c.bottom_left));
                        assert(p.drop_last().drop_last().drop_last() =~= p0);
                        let p1 = p.drop_last();
                        let p2 = p1.drop_last();
                        assert(p1 =~= p0.push(&c.bottom_left).push(&c.bottom_right));
                        assert(p2 =~= p0.push(&c.bottom_left));
                        assert(p2.drop_last() =~= p0);
                        assert(stack_elems(p2) == c.bottom_left.elems() + stack_elems(p0));
                        assert(stack_elems(p1) == c.bottom_right.elems() + stack_elems(p2));
                        assert(stack_elems(p) == c.top_right.elems() + stack_elems(p1));
                        assert(stack_nodes(p2) == c.bottom_left.node_count() + stack_nodes(p0));
                        assert(stack_nodes(p1) == c.bottom_right.node_count() + stack_nodes(p2));
                        assert(stack_nodes(p) == c.top_right.node_count() + stack_nodes(p1));
                        assert(cur.node_count() == 1 + c.top_left.node_count() + c.top_right.node_count()
                            + c.bottom_right.node_count() + c.bottom_left.node_count());
                        assert(forall|i: int| 0 <= i < p.len() ==> (#[trigger] p[i]).wf()) by {
                            assert forall|i: int| 0 <= i < p.len() implies (#[trigger] p[i]).wf() by {
                                if i < p0.len() {
                                    assert(p[i] == p0[i]);
                                }
                            }
                        }
                        assert(cur.below() =~= c.top_left.elems() + c.top_right.elems() + c.bottom_right.elems()
                            + c.bottom_left.elems());
                        assert(c.top_left.elements@.skip(0) =~= c.top_left.elements@);
                        c.top_left.lemma_elems_below();
                        assert(self.rest() =~= start);
                    }
                },
                None => {
                    if self.pending.len() == 0 {
                        proof {
                            assert(cur.elements@.skip(self.element_index as int) =~= Seq::<&'a T>::empty());
                            assert(cur.below() =~= Seq::<&'a T>::empty());
                            assert(stack_elems(self.pending@) =~= Seq::<&'a T>::empty());
                            assert(start =~= Seq::<&'a T>::empty());
                        }
                        return None;
                    }
                    let ghost p0 = self.pending@;
                    let next = self.pending.pop().unwrap();
                    self.current = next;
                    self.element_index = 0;
                    proof {
                        assert(self.pending@ =~= p0.drop_last());
                        assert(next == p0.last());
                        assert(cur.node_count() == 1);
                        assert(stack_nodes(p0) == next.node_count() + stack_nodes(p0.drop_last()));
                        assert(forall|i: int| 0 <= i < self.pending.len() ==> self.pending@[i] == p0[i]);
                        next.lemma_elems_below();
                        assert(next.elements@.skip(0) =~= next.elements@);
                        assert(self.rest() =~= start);
                    }
                },
            }
        }
    }
}

/// An iterator over the elements near a query element.
///
/// It walks down from the root without recursion: it yields the elements
/// of the current node, then goes down into the quadrant that holds the
/// query region strictly. Where none does, it stops unless the region lies
/// inside the node; if it does, it moves to the top left quadrant and keeps
/// the top right, bottom right and bottom left ones on a stack, bottom left
/// on top. At a leaf it takes the next node from the stack.
pub struct QueryItems<'a, T> {
    qt: &'a QuadTree<'a, T>,
    index: usize,
    element: Bounds,
    next_qts: Vec<&'a QuadTree<'a, T>>,
}

/// What a query for region `b` yields from `node`, followed, unless it
/// stops there, by what it yields from the nodes of `pending`, top first.
pub closed spec fn query_from<'a, T: Bounded>(
    node: &'a QuadTree<'a, T>,
    b: Bounds,
    pending: Seq<&'a QuadTree<'a, T>>,
) -> Seq<&'a T>
    decreases node.node_count() + stack_nodes(pending), 0int,
{
    let r = node.query_spec(b);
    if r.1 {
        r.0
    } else {
        r.0 + query_pending(b, pending)
    }
}

/// What a query for region `b` yields from the nodes of `pending`, top
/// first, up to where it stops.
pub closed spec fn query_pending<'a, T: Bounded>(b: Bounds, pending: Seq<&'a QuadTree<'a, T>>) -> Seq<&'a T>
    decreases stack_nodes(pending), 1int,
{
    if pending.len() == 0 {
        Seq::empty()
    } else {
        query_from(pending.last(), b, pending.drop_last())
    }
}

impl<'a, T: Bounded> QuadTree<'a, T> {
    proof fn lemma_node_count_positive(self)
        ensures
            self.node_count() >= 1,
    {
    }

    proof fn lemma_query_starts_with_own(self, b: Bounds)
        ensures
            self.query_spec(b).0 == self.elements@ + self.query_spec(b).0.skip(self.elements.len() as int),
    {
        assert(self.query_spec(b).0 =~= self.elements@ + self.query_spec(b).0.skip(self.elements.len() as int));
    }
}

/// The elements of `node` come first in what a query yields from it.
proof fn lemma_query_from_starts<'a, T: Bounded>(node: &'a QuadTree<'a, T>, b: Bounds, p: Seq<&'a QuadTree<'a, T>>)
    ensures
        query_from(node, b, p) == node.elements@ + query_from(node, b, p).skip(node.elements.len() as int),
{
    node.lemma_query_starts_with_own(b);
    let r = node.query_spec(b);
    if !r.1 {
        assert(query_from(node, b, p) =~= node.elements@ + (r.0.skip(node.elements.len() as int) + query_pending(b, p)));
    }
    assert(query_from(node, b, p) =~= node.elements@ + query_from(node, b, p).skip(node.elements.len() as int));
}

/// After a leaf's elements, a query goes on with the pending nodes.
proof fn lemma_query_from_leaf<'a, T: Bounded>(node: &'a QuadTree<'a, T>, b: Bounds, p: Seq<&'a QuadTree<'a, T>>)
    requires
        node.children is None,
    ensures
        query_from(node, b, p).skip(node.elements.len() as int) == query_pending(b, p),
{
    assert(query_from(node, b, p) =~= node.elements@ + query_pending(b, p));
    assert(query_from(node, b, p).skip(node.elements.len() as int) =~= query_pending(b, p));
}

/// After a split node's elements, a query whose region one quadrant holds
/// strictly goes on in that quadrant.
proof fn lemma_query_from_descend<'a, T: Bounded>(
    node: &'a QuadTree<'a, T>,
    child: &'a QuadTree<'a, T>,
    b: Bounds,
    p: Seq<&'a QuadTree<'a, T>>,
)
    requires
        node.children is Some,
        node.bounds.quadrant_of(b) is Some,
        child == node.children->0.child(node.bounds.quadrant_of(b)->0),
    ensures
        query_from(node, b, p).skip(node.elements.len() as int) == query_from(child, b, p),
{
    let r = node.query_spec(b);
    let rc = child.query_spec(b);
    assert(r.0 == node.elements@ + rc.0);
    assert(r.1 == rc.1);
    if r.1 {
        assert(query_from(node, b, p) =~= node.elements@ + query_from(child, b, p));
    } else {
        assert(query_from(node, b, p) =~= node.elements@ + query_from(child, b, p));
    }
    assert(query_from(node, b, p).skip(node.elements.len() as int) =~= query_from(child, b, p));
}

/// After a split node's elements, a query whose region no quadrant holds
/// strictly and that lies outside the node yields nothing more.
proof fn lemma_query_from_outside<'a, T: Bounded>(node: &'a QuadTree<'a, T>, b: Bounds, p: Seq<&'a QuadTree<'a, T>>)
    requires
        node.children is Some,
        node.bounds.quadrant_of(b) is None,
        !node.bounds.spec_contains(b),
    ensures
        query_from(node, b, p).skip(node.elements.len() as int) == Seq::<&'a T>::empty(),
{
    assert(query_from(node, b, p) =~= node.elements@);
    assert(query_from(node, b, p).skip(node.elements.len() as int) =~= Seq::<&'a T>::empty());
}

/// After a split node's elements, a query whose region no quadrant holds
/// strictly but that lies inside the node goes on in the top left quadrant,
/// with the top right, bottom right and bottom left ones pending.
proof fn lemma_query_from_straddle<'a, T: Bounded>(node: &'a QuadTree<'a, T>, b: Bounds, p0: Seq<&'a QuadTree<'a, T>>)
    requires
        node.children is Some,
        node.bounds.quadrant_of(b) is None,
        node.bounds.spec_contains(b),
    ensures
        ({
            let c = node.children->0;
            query_from(node, b, p0).skip(node.elements.len() as int) == query_from(
                &c.top_left,
                b,
                p0.push(&c.top_right).push(&c.bottom_right).push(&c.bottom_left),
            )
        }),
{
    let c = node.children->0;
    let p1 = p0.push(&c.top_right);
    let p2 = p1.push(&c.bottom_right);
    let p = p2.push(&c.bottom_left);
    assert(p.drop_last() =~= p2);
    assert(p2.drop_last() =~= p1);
    assert(p1.drop_last() =~= p0);
    assert(query_pending(b, p1) == query_from(&c.top_right, b, p0));
    assert(query_pending(b, p2) == query_from(&c.bottom_right, b, p1));
    assert(query_pending(b, p) == query_from(&c.bottom_left, b, p2));
    let r0 = c.top_left.query_spec(b);
    let r1 = c.bottom_left.query_spec(b);
    let r2 = c.bottom_right.query_spec(b);
    let r3 = c.top_right.query_spec(b);
    let all = query_from(node, b, p0);
    if r0.1 {
        assert(all =~= node.elements@ + r0.0);
    } else if r1.1 {
        assert(all =~= node.elements@ + (r0.0 + r1.0));
    } else if r2.1 {
        assert(all =~= node.elements@ + (r0.0 + (r1.0 + r2.0)));
    } else if r3.1 {
        assert(all =~= node.elements@ + (r0.0 + (r1.0 + (r2.0 + r3.0))));
    } else {
        assert(all =~= node.elements@ + (r0.0 + (r1.0 + (r2.0 + (r3.0 + query_pending(b, p0))))));
    }
    assert(all.skip(node.elements.len() as int) =~= query_from(&c.top_left, b, p));
}

impl<'a, T: Bounded> QueryItems<'a, T> {
    /// The elements still to come, in order.
    pub closed spec fn rest(self) -> Seq<&'a T> {
        query_from(self.qt, self.element, self.next_qts@).skip(self.index as int)
    }

    pub closed spec fn wf(self) -> bool {
        &&& self.qt.wf()
        &&& self.index <= self.qt.elements.len()
        &&& forall|i: int| 0 <= i < self.next_qts.len() ==> (#[trigger] self.next_qts@[i]).wf()
    }

    /// Returns the next element, or `None` once all have been returned.
    pub fn next(&mut self) -> (r: Option<&'a T>)
        requires
            old(self).wf(),
        ensures
            final(self).wf(),
            old(self).rest().len() == 0 ==> r is None && final(self).rest() == old(self).rest(),
            old(self).rest().len() > 0 ==> r == Some(old(self).rest()[0]) && final(self).rest()
                == old(self).rest().skip(1),
    {
        let ghost start = old(self).rest();
        loop
            invariant
                self.wf(),
                self.rest() == start,
                start == old(self).rest(),
            decreases self.qt.node_count() + stack_nodes(self.next_qts@),
        {
            let cur: &'a QuadTree<'a, T> = self.qt;
            let ghost b = self.element;
            let ghost p0 = self.next_qts@;
            let ghost all = query_from(cur, b, p0);
            let ghost n = cur.elements.len() as int;
            proof {
                lemma_query_from_starts(cur, b, p0);
            }
            if self.index < cur.elements.len() {
                let e = cur.elements[self.index];
                self.index = self.index + 1;
                proof {
                    let i = self.index - 1;
                    assert(start =~= all.skip(i));
                    assert(all[i] == cur.elements@[i]);
                    assert(self.rest() =~= start.skip(1));
                }
                return Some(e);
            }
            proof {
                assert(start == all.skip(n));
            }
            match &cur.children {
                None => {
                    proof {
                        lemma_query_from_leaf(cur, b, p0);
                    }
                    if self.next_qts.len() == 0 {
                        return None;
                    }
                    let next = self.next_qts.pop().unwrap();
                    self.qt = next;
                    self.index = 0;
                    proof {
                        assert(self.next_qts@ =~= p0.drop_last());
                        assert(next == p0.last());
                        assert(forall|i: int| 0 <= i < self.next_qts.len() ==> self.next_qts@[i] == p0[i]);
                        assert(cur.node_count() == 1);
                        assert(stack_nodes(p0) == next.node_count() + stack_nodes(p0.drop_last()));
                        assert(query_from(next, b, p0.drop_last()).skip(0) =~= query_from(next, b, p0.drop_last()));
                    }
                },
                Some(c) => {
                    proof {
                        cur.lemma_wf_children();
                        assert(cur.node_count() == 1 + c.top_left.node_count() + c.top_right.node_count()
                            + c.bottom_right.node_count() + c.bottom_left.node_count());
                    }
                    match cur.bounds.quadrant(&self.element) {
                        Some(q) => {
                            let child: &'a QuadTree<'a, T> = match q {
                                Quadrant::TopLeft => &c.top_left,
                                Quadrant::TopRight => &c.top_right,
                                Quadrant::BottomRight => &c.bottom_right,
                                Quadrant::BottomLeft => &c.bottom_left,
                            };
                            self.qt = child;
                            self.index = 0;
                            proof {
                                lemma_query_from_descend(cur, child, b, p0);
                                assert(query_from(child, b, p0).skip(0) =~= query_from(child, b, p0));
                                c.top_left.lemma_node_count_positive();
                                c.top_right.lemma_node_count_positive();
                                c.bottom_right.lemma_node_count_positive();
                                c.bottom_left.lemma_node_count_positive();
                            }
                        },
                        None => {
                            if !cur.bounds.contains(&self.element) {
                                proof {
                                    lemma_query_from_outside(cur, b, p0);
                                }
                                return None;
                            }
                            self.next_qts.push(&c.top_right);
                            self.next_qts.push(&c.bottom_right);
                            self.next_qts.push(&c.bottom_left);
                            self.qt = &c.top_left;
                            self.index = 0;
                            proof {
                                let p = self.next_qts@;
                                lemma_query_from_straddle(cur, b, p0);
                                let p1 = p0.push(&c.top_right);
                                let p2 = p1.push(&c.bottom_right);
                                assert(p =~= p2.push(&c.bottom_left));
                                assert(p.drop_last() =~= p2);
                                assert(p2.drop_last() =~= p1);
                                assert(p1.drop_last() =~= p0);
                                assert(stack_nodes(p1) == c.top_right.node_count() + stack_nodes(p0));
                                assert(stack_nodes(p2) == c.bottom_right.node_count() + stack_nodes(p1));
                                assert(stack_nodes(p) == c.bottom_left.node_count() + stack_nodes(p2));
                                assert forall|i: int| 0 <= i < p.len() implies (#[trigger] p[i]).wf() by {
                                    if i < p0.len() {
                                        assert(p[i] == p0[i]);
                                    }
                                }
                                assert(query_from(&c.top_left, b, p).skip(0) =~= query_from(&c.top_left, b, p));
                            }
                        },
                    }
                },
            }
        }
    }
}

} // verus!
