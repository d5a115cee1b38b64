use vstd::prelude::*;

use crate::item::{
    all_points_distinct, derefs, distinct_points, first_at, has_match, has_point, lemma_distinct_insert,
    lemma_distinct_remove, lemma_distinct_update, lemma_has_match_add, lemma_has_point_add,
    lemma_insert_middle, lemma_remove_middle, lemma_replace_part, lemma_within_all_or_none,
    replace_outcome, same_item, within, Vector,
};
use crate::shape::Rectangle;
use vstd::std_specs::cmp::PartialEqSpec;

verus! {

/// The four children of a subdivided node, one per quadrant.
#[derive(Debug)]
pub struct Quadrants<T: Vector> {
    pub nw: Box<QuadTree<T>>,
    pub ne: Box<QuadTree<T>>,
    pub sw: Box<QuadTree<T>>,
    pub se: Box<QuadTree<T>>,
}

/// A point quadtree: each node stores up to `capacity` items directly and,
/// once it overflows, owns four children that split its boundary.
#[derive(Debug)]
pub struct QuadTree<T: Vector> {
    boundary: Rectangle,
    capacity: usize,
    points: Vec<T>,
    children: Option<Quadrants<T>>,
}

impl<T: Vector> QuadTree<T> {
    /// The boundary of the node.
    pub closed spec fn region(self) -> Rectangle {
        self.boundary
    }

    /// The capacity of the node, shared by the whole tree.
    pub closed spec fn limit(self) -> nat {
        self.capacity as nat
    }

    /// The items held by this node itself, in insertion order.
    pub closed spec fn own_items(self) -> Seq<T> {
        self.points@
    }

    /// The children of this node, once it has been subdivided.
    pub closed spec fn quadrants(self) -> Option<Quadrants<T>> {
        self.children
    }

    /// Every stored item in traversal order: a node's own items, then those of
    /// its children in the order north-west, north-east, south-west, south-east.
    pub closed spec fn items(self) -> Seq<T>
        decreases self,
    {
        self.points@ + match self.children {
            None => Seq::empty(),
            Some(q) => q.nw.items() + q.ne.items() + q.sw.items() + q.se.items(),
        }
    }

    /// Some item held directly by this node sits at `p`.
    pub closed spec fn holds_here(self, p: (u32, u32)) -> bool {
        has_point(self.points@, p)
    }

    /// The node's own items: at most `capacity`, inside the boundary, at
    /// pairwise different points; and no two items of the subtree share a
    /// point.
    pub closed spec fn node_ok(self) -> bool {
        &&& self.boundary.fits()
        &&& self.points@.len() <= self.capacity
        &&& forall|i: int|
            0 <= i < self.points@.len() ==> self.boundary.covers((#[trigger] self.points@[i]).point())
        &&& forall|i: int, j: int|
            0 <= i < self.points@.len() && 0 <= j < self.points@.len() && i != j
                ==> (#[trigger] self.points@[i]).point() != (#[trigger] self.points@[j]).point()
        &&& self.items().len() <= usize::MAX
        &&& distinct_points(self.items())
    }

    /// The child in slot `i` has the `i`-th quadrant as its boundary and the
    /// parent's capacity.
    pub closed spec fn child_fits(self, c: QuadTree<T>, i: int) -> bool {
        &&& c.boundary == self.boundary.quadrant(i)
        &&& c.capacity == self.capacity
    }

    /// Well-formedness of the whole subtree.
    pub closed spec fn wf(self) -> bool
        decreases self,
    {
        &&& self.node_ok()
        &&& match self.children {
            None => true,
            Some(q) => {
                &&& self.child_fits(*q.nw, 0)
                &&& self.child_fits(*q.ne, 1)
                &&& self.child_fits(*q.sw, 2)
                &&& self.child_fits(*q.se, 3)
                &&& q.nw.wf()
                &&& q.ne.wf()
                &&& q.sw.wf()
                &&& q.se.wf()
            },
        }
    }

    /// Whether there is a place for an item at `p`: the boundary covers `p`
    /// and either the node has room, or it is full and the child whose
    /// quadrant covers `p` has a place for it (children that do not exist
    /// yet start empty).
    pub closed spec fn room(self, p: (u32, u32)) -> bool
        decreases self,
    {
        &&& self.boundary.covers(p)
        &&& (self.points@.len() < self.capacity || (self.points@.len() == self.capacity
            && match self.children {
            None => self.capacity > 0 && exists|i: int|
                0 <= i < 4 && (#[trigger] self.boundary.quadrant(i)).covers(p),
            Some(q) => q.nw.room(p) || q.ne.room(p) || q.sw.room(p) || q.se.room(p),
        }))
    }

    /// Whether `insert` stores an item at `p`: no item of the tree sits at
    /// `p` and there is a place for one.
    pub closed spec fn admits(self, p: (u32, u32)) -> bool {
        !has_point(self.items(), p) && self.room(p)
    }

    /// A node's items are its own items followed by those of its children.
    pub proof fn lemma_items_unfold(self)
        ensures
            self.items() == self.own_items() + match self.quadrants() {
                None => Seq::empty(),
                Some(q) => q.nw.items() + q.ne.items() + q.sw.items() + q.se.items(),
            },
    {
    }

    /// `admits` and `room` spelled out over the node's parts.
    pub proof fn lemma_admits_unfold(self, p: (u32, u32))
        ensures
            self.admits(p) == (!has_point(self.items(), p) && self.room(p)),
            self.room(p) == (self.region().covers(p) && (self.own_items().len() < self.limit() || (
            self.own_items().len() == self.limit() && match self.quadrants() {
                None => self.limit() > 0 && exists|i: int|
                    0 <= i < 4 && (#[trigger] self.region().quadrant(i)).covers(p),
                Some(q) => q.nw.room(p) || q.ne.room(p) || q.sw.room(p) || q.se.room(p),
            }))),
    {
    }

    /// What well-formedness says of a node and its children.
    pub proof fn lemma_wf_unfold(self)
        requires
            self.wf(),
        ensures
            self.region().fits(),
            self.own_items().len() <= self.limit(),
            self.items().len() <= usize::MAX,
            distinct_points(self.items()),
            forall|i: int|
                0 <= i < self.own_items().len() ==> self.region().covers(
                    (#[trigger] self.own_items()[i]).point(),
                ),
            match self.quadrants() {
                None => true,
                Some(q) => {
                    &&& q.nw.region() == self.region().quadrant(0)
                    &&& q.ne.region() == self.region().quadrant(1)
                    &&& q.sw.region() == self.region().quadrant(2)
                    &&& q.se.region() == self.region().quadrant(3)
                    &&& q.nw.limit() == self.limit() && q.ne.limit() == self.limit()
                    &&& q.sw.limit() == self.limit() && q.se.limit() == self.limit()
                    &&& q.nw.wf() && q.ne.wf() && q.sw.wf() && q.se.wf()
                },
            },
    {
    }

    /// A tree of capacity zero has no place for any point.
    pub proof fn lemma_zero_capacity_refuses(self, p: (u32, u32))
        requires
            self.wf(),
            self.limit() == 0,
        ensures
            !self.room(p),
            !self.admits(p),
        decreases self,
    {
        if let Some(q) = self.children {
            q.nw.lemma_zero_capacity_refuses(p);
            q.ne.lemma_zero_capacity_refuses(p);
            q.sw.lemma_zero_capacity_refuses(p);
            q.se.lemma_zero_capacity_refuses(p);
        }
    }

    /// A tree with no items admits exactly the points of its boundary, unless
    /// its capacity is zero.
    pub proof fn lemma_admits_when_empty(self, p: (u32, u32))
        requires
            self.wf(),
            self.items().len() == 0,
        ensures
            self.admits(p) == (self.region().covers(p) && self.limit() > 0),
    {
        if self.capacity == 0 {
            self.lemma_zero_capacity_refuses(p);
        } else {
            assert(self.points@.len() == 0);
        }
    }

    /// Every item of a well-formed subtree lies inside the node's boundary.
    pub proof fn lemma_items_covered(self)
        requires
            self.wf(),
        ensures
            forall|i: int|
                0 <= i < self.items().len() ==> self.region().covers(
                    (#[trigger] self.items()[i]).point(),
                ),
        decreases self,
    {
        match self.children {
            None => {},
            Some(q) => {
                q.nw.lemma_items_covered();
                q.ne.lemma_items_covered();
                q.sw.lemma_items_covered();
                q.se.lemma_items_covered();
                let s = self.items();
                let n0 = self.points@.len();
                let n1 = n0 + q.nw.items().len();
                let n2 = n1 + q.ne.items().len();
                let n3 = n2 + q.sw.items().len();
                assert forall|i: int| 0 <= i < s.len() implies self.boundary.covers(
                    (#[trigger] s[i]).point(),
                ) by {
                    let p = s[i].point();
                    if i < n0 {
                        assert(s[i] == self.points@[i]);
                    } else if i < n1 {
                        assert(s[i] == q.nw.items()[i - n0]);
                        self.boundary.lemma_quadrant_inside(0, p);
                    } else if i < n2 {
                        assert(s[i] == q.ne.items()[i - n1]);
                        self.boundary.lemma_quadrant_inside(1, p);
                    } else if i < n3 {
                        assert(s[i] == q.sw.items()[i - n2]);
                        self.boundary.lemma_quadrant_inside(2, p);
                    } else {
                        assert(s[i] == q.se.items()[i - n3]);
                        self.boundary.lemma_quadrant_inside(3, p);
                    }
                }
            },
        }
    }

    /// A match among a node's items is a match among its own items or among
    /// those of one of its children.
    proof fn lemma_match_split(self, item: T)
        ensures
            has_match(self.items(), item) == (has_match(self.points@, item) || match self.children {
                None => false,
                Some(q) => has_match(q.nw.items(), item) || has_match(q.ne.items(), item)
                    || has_match(q.sw.items(), item) || has_match(q.se.items(), item),
            }),
    {
        match self.children {
            None => {
                assert(self.items() =~= self.points@);
            },
            Some(q) => {
                let b = q.nw.items();
                let c = q.ne.items();
                let d = q.sw.items();
                let e = q.se.items();
                lemma_has_match_add(self.points@, b + c + d + e, item);
                lemma_has_match_add(b + c + d, e, item);
                lemma_has_match_add(b + c, d, item);
                lemma_has_match_add(b, c, item);
            },
        }
    }

    /// Taking the `i`-th own item out of a well-formed node keeps it
    /// well-formed and takes the same item out of its traversal.
    proof fn lemma_remove_own(self, post: Self, i: int)
        requires
            self.wf(),
            0 <= i < self.points@.len(),
            post.boundary == self.boundary,
            post.capacity == self.capacity,
            post.children == self.children,
            post.points@ == self.points@.remove(i),
        ensures
            post.wf(),
            post.items() == self.items().remove(i),
    {
        assert(post.items() =~= self.items().remove(i));
        assert forall|a: int| 0 <= a < post.points@.len() implies #[trigger] post.points@[a]
            == self.points@[if a < i { a } else { a + 1 }] by {}
        assert forall|a: int, b: int|
            0 <= a < post.points@.len() && 0 <= b < post.points@.len() && a != b implies (
            #[trigger] post.points@[a]).point() != (#[trigger] post.points@[b]).point() by {
            let a0 = if a < i { a } else { a + 1 };
            let b0 = if b < i { b } else { b + 1 };
            assert(post.points@[a] == self.points@[a0]);
            assert(post.points@[b] == self.points@[b0]);
        }
    }

    /// Taking a matching item out of the child in slot `k` (none when `k` is
    /// 4) takes it out of the node's traversal at the matching position.
    #[verifier::spinoff_prover]
    proof fn lemma_remove_in_child(self, post: Self, k: int, item: T)
        requires
            self.wf(),
            post.boundary == self.boundary,
            post.capacity == self.capacity,
            post.points == self.points,
            0 <= k <= 4,
            k < 4 ==> self.children.is_some(),
            self.children.is_none() ==> post.children.is_none(),
            self.children.is_some() ==> post.children.is_some(),
            ({
                let q0 = self.children.unwrap();
                let q1 = post.children.unwrap();
                self.children.is_some() ==> {
                    &&& q1.nw.boundary == q0.nw.boundary && q1.nw.capacity == q0.nw.capacity
                    &&& q1.ne.boundary == q0.ne.boundary && q1.ne.capacity == q0.ne.capacity
                    &&& q1.sw.boundary == q0.sw.boundary && q1.sw.capacity == q0.sw.capacity
                    &&& q1.se.boundary == q0.se.boundary && q1.se.capacity == q0.se.capacity
                    &&& q1.nw.wf() && q1.ne.wf() && q1.sw.wf() && q1.se.wf()
                    &&& Self::removed_or_kept(q0.nw.items(), q1.nw.items(), item, k == 0)
                    &&& Self::removed_or_kept(q0.ne.items(), q1.ne.items(), item, k == 1)
                    &&& Self::removed_or_kept(q0.sw.items(), q1.sw.items(), item, k == 2)
                    &&& Self::removed_or_kept(q0.se.items(), q1.se.items(), item, k == 3)
                }
            }),
        ensures
            post.wf(),
            k < 4 ==> exists|i: int|
                0 <= i < self.items().len() && same_item(self.items()[i], item) && post.items()
                    == self.items().remove(i),
            k == 4 ==> post.items() == self.items(),
    {
        if let Some(q0) = self.children {
            let q1 = post.children.unwrap();
            let (a, b, c, d, e) = (self.points@, q0.nw.items(), q0.ne.items(), q0.sw.items(), q0.se.items());
            let (b1, c1, d1, e1) = (q1.nw.items(), q1.ne.items(), q1.sw.items(), q1.se.items());
            assert(self.items() == a + b + c + d + e) by {
                assert(self.items() =~= a + b + c + d + e);
            }
            assert(post.items() == a + b1 + c1 + d1 + e1) by {
                assert(post.items() =~= a + b1 + c1 + d1 + e1);
            }
            if k == 0 {
                let j = choose|j: int|
                    0 <= j < b.len() && same_item(b[j], item) && b1 == b.remove(j);
                lemma_remove_middle(a, b, c + d + e, j);
                lemma_distinct_remove(self.items(), a.len() + j);
                assert(a + b + c + d + e =~= a + b + (c + d + e));
                assert(a + b1 + c + d + e =~= a + b1 + (c + d + e));
                assert(self.items()[a.len() + j] == b[j]);
            } else if k == 1 {
                let j = choose|j: int|
                    0 <= j < c.len() && same_item(c[j], item) && c1 == c.remove(j);
                lemma_remove_middle(a + b, c, d + e, j);
                lemma_distinct_remove(self.items(), (a + b).len() + j);
                assert(a + b + c + d + e =~= a + b + c + (d + e));
                assert(a + b + c1 + d + e =~= a + b + c1 + (d + e));
                assert(self.items()[(a + b).len() + j] == c[j]);
            } else if k == 2 {
                let j = choose|j: int|
                    0 <= j < d.len() && same_item(d[j], item) && d1 == d.remove(j);
                lemma_remove_middle(a + b + c, d, e, j);
                lemma_distinct_remove(self.items(), (a + b + c).len() + j);
                assert(self.items()[(a + b + c).len() + j] == d[j]);
            } else if k == 3 {
                let j = choose|j: int|
                    0 <= j < e.len() && same_item(e[j], item) && e1 == e.remove(j);
                lemma_remove_middle(a + b + c + d, e, Seq::empty(), j);
                lemma_distinct_remove(self.items(), (a + b + c + d).len() + j);
                assert(a + b + c + d + e =~= a + b + c + d + e + Seq::empty());
                assert(a + b + c + d + e1 =~= a + b + c + d + e1 + Seq::empty());
                assert(self.items()[(a + b + c + d).len() + j] == e[j]);
            }
        } else {
            assert(post.items() =~= self.items());
        }
    }

    /// `after` is `before` with one matching item taken out, or, when `taken`
    /// is false, `before` itself.
    spec fn removed_or_kept(before: Seq<T>, after: Seq<T>, item: T, taken: bool) -> bool {
        if taken {
            exists|j: int|
                0 <= j < before.len() && same_item(before[j], item) && after == before.remove(j)
        } else {
            after == before
        }
    }

    /// An item at a point among a node's items is one among its own items or
    /// among those of one of its children.
    proof fn lemma_point_split(self, p: (u32, u32))
        ensures
            has_point(self.items(), p) == (has_point(self.points@, p) || match self.children {
                None => false,
                Some(q) => has_point(q.nw.items(), p) || has_point(q.ne.items(), p)
                    || has_point(q.sw.items(), p) || has_point(q.se.items(), p),
            }),
    {
        match self.children {
            None => {
                assert(self.items() =~= self.points@);
            },
            Some(q) => {
                let b = q.nw.items();
                let c = q.ne.items();
                let d = q.sw.items();
                let e = q.se.items();
                lemma_has_point_add(self.points@, b + c + d + e, p);
                lemma_has_point_add(b + c + d, e, p);
                lemma_has_point_add(b + c, d, p);
                lemma_has_point_add(b, c, p);
            },
        }
    }

    /// A well-formed subtree whose boundary misses a point has no item there.
    proof fn lemma_no_point_outside(self, p: (u32, u32))
        requires
            self.wf(),
            !self.boundary.covers(p),
        ensures
            !has_point(self.items(), p),
    {
        self.lemma_items_covered();
    }

    /// Putting the new item in place of the `i`-th own item, at the same
    /// point.
    proof fn lemma_replace_own(self, post: Self, i: int, item: T)
        requires
            self.wf(),
            0 <= i < self.points@.len(),
            self.points@[i].point() == item.point(),
            post.boundary == self.boundary,
            post.capacity == self.capacity,
            post.children == self.children,
            post.points@ == self.points@.update(i, item),
        ensures
            post.wf(),
            replace_outcome(self.items(), post.items(), item, Some(self.points@[i])),
    {
        let a = self.points@;
        assert(post.items() =~= self.items().update(i, item));
        assert forall|j: int| 0 <= j < i implies (#[trigger] self.items()[j]).point()
            != item.point() by {
            assert(self.items()[j] == a[j]);
        }
        assert(self.items()[i] == a[i]);
        lemma_distinct_update(a, i, item);
        lemma_distinct_update(self.items(), i, item);
        assert forall|x: int| 0 <= x < post.points@.len() implies self.boundary.covers(
            (#[trigger] post.points@[x]).point(),
        ) by {
            assert(post.points@[x].point() == a[x].point());
        }
    }

    /// A node whose children were each swapped for a well-formed subtree with
    /// the same boundary and capacity stays well-formed, given it holds no
    /// more items than before.
    proof fn lemma_children_swapped_wf(self, post: Self)
        requires
            self.wf(),
            post.boundary == self.boundary,
            post.capacity == self.capacity,
            post.points == self.points,
            post.items().len() <= usize::MAX,
            distinct_points(post.items()),
            self.children.is_none() ==> post.children.is_none(),
            ({
                let q0 = self.children.unwrap();
                let q1 = post.children.unwrap();
                self.children.is_some() ==> {
                    &&& post.children.is_some()
                    &&& q1.nw.boundary == q0.nw.boundary && q1.nw.capacity == q0.nw.capacity
                    &&& q1.ne.boundary == q0.ne.boundary && q1.ne.capacity == q0.ne.capacity
                    &&& q1.sw.boundary == q0.sw.boundary && q1.sw.capacity == q0.sw.capacity
                    &&& q1.se.boundary == q0.se.boundary && q1.se.capacity == q0.se.capacity
                    &&& q1.nw.wf() && q1.ne.wf() && q1.sw.wf() && q1.se.wf()
                }
            }),
        ensures
            post.wf(),
    {
    }

    /// Only the child whose quadrant covers a point can hold an item there.
    proof fn lemma_point_in_one_child(self, p: (u32, u32))
        requires
            self.wf(),
            self.children.is_some(),
        ensures
            ({
                let q = self.children.unwrap();
                let b = self.boundary;
                &&& !b.quadrant(0).covers(p) ==> !has_point(q.nw.items(), p)
                &&& !b.quadrant(1).covers(p) ==> !has_point(q.ne.items(), p)
                &&& !b.quadrant(2).covers(p) ==> !has_point(q.sw.items(), p)
                &&& !b.quadrant(3).covers(p) ==> !has_point(q.se.items(), p)
                &&& forall|i: int, j: int|
                    0 <= i < 4 && 0 <= j < 4 && i != j ==> !((#[trigger] b.quadrant(i)).covers(p)
                        && (#[trigger] b.quadrant(j)).covers(p))
            }),
    {
        let q = self.children.unwrap();
        let b = self.boundary;
        assert forall|i: int, j: int|
            0 <= i < 4 && 0 <= j < 4 && i != j implies !((#[trigger] b.quadrant(i)).covers(p) && (
            #[trigger] b.quadrant(j)).covers(p)) by {
            b.lemma_quadrants_disjoint(i, j, p);
        }
        if !b.quadrant(0).covers(p) {
            q.nw.lemma_no_point_outside(p);
        }
        if !b.quadrant(1).covers(p) {
            q.ne.lemma_no_point_outside(p);
        }
        if !b.quadrant(2).covers(p) {
            q.sw.lemma_no_point_outside(p);
        }
        if !b.quadrant(3).covers(p) {
            q.se.lemma_no_point_outside(p);
        }
    }

    /// Placing the item inside the child in slot `k` of a full node, the one
    /// whose quadrant covers its point (no child when `k` is 4).
    #[verifier::spinoff_prover]
    proof fn lemma_place_in_child(self, post: Self, k: int, item: T, r: bool)
        requires
            self.wf(),
            self.items().len() < usize::MAX,
            self.boundary.covers(item.point()),
            !has_point(self.items(), item.point()),
            self.points@.len() == self.capacity,
            self.children.is_some(),
            post.children.is_some(),
            post.boundary == self.boundary,
            post.capacity == self.capacity,
            post.points == self.points,
            0 <= k <= 4,
            k == 4 ==> post == self && !r && forall|i: int|
                0 <= i < 4 ==> !(#[trigger] self.boundary.quadrant(i)).covers(item.point()),
            k < 4 ==> self.boundary.quadrant(k).covers(item.point()),
            ({
                let q0 = self.children.unwrap();
                let q1 = post.children.unwrap();
                k < 4 ==> {
                    &&& (if k == 0 { Self::placed_in(*q0.nw, *q1.nw, item, r) } else { q1.nw == q0.nw })
                    &&& (if k == 1 { Self::placed_in(*q0.ne, *q1.ne, item, r) } else { q1.ne == q0.ne })
                    &&& (if k == 2 { Self::placed_in(*q0.sw, *q1.sw, item, r) } else { q1.sw == q0.sw })
                    &&& (if k == 3 { Self::placed_in(*q0.se, *q1.se, item, r) } else { q1.se == q0.se })
                }
            }),
        ensures
            distinct_points(post.items()),
            post.items().len() <= usize::MAX,
            r ==> exists|j: int|
                0 <= j <= self.items().len() && post.items() == self.items().insert(j, item),
            !r ==> post.items() == self.items(),
    {
        let p = item.point();
        let q0 = self.children.unwrap();
        let q1 = post.children.unwrap();
        let (a, c0, c1, c2, c3) = (self.points@, q0.nw.items(), q0.ne.items(), q0.sw.items(), q0.se.items());
        let (d0, d1, d2, d3) = (q1.nw.items(), q1.ne.items(), q1.sw.items(), q1.se.items());
        assert(self.items() =~= a + c0 + c1 + c2 + c3);
        assert(post.items() =~= a + d0 + d1 + d2 + d3);
        if r {
            if k == 0 {
                let j = choose|j: int| 0 <= j <= c0.len() && d0 == c0.insert(j, item);
                lemma_insert_middle(a, c0, c1 + c2 + c3, j, item);
                assert(a + c0 + c1 + c2 + c3 =~= a + c0 + (c1 + c2 + c3));
                assert(a + d0 + c1 + c2 + c3 =~= a + d0 + (c1 + c2 + c3));
                lemma_distinct_insert(self.items(), a.len() + j, item);
            } else if k == 1 {
                let j = choose|j: int| 0 <= j <= c1.len() && d1 == c1.insert(j, item);
                lemma_insert_middle(a + c0, c1, c2 + c3, j, item);
                assert(a + c0 + c1 + c2 + c3 =~= a + c0 + c1 + (c2 + c3));
                assert(a + c0 + d1 + c2 + c3 =~= a + c0 + d1 + (c2 + c3));
                lemma_distinct_insert(self.items(), (a + c0).len() + j, item);
            } else if k == 2 {
                let j = choose|j: int| 0 <= j <= c2.len() && d2 == c2.insert(j, item);
                lemma_insert_middle(a + c0 + c1, c2, c3, j, item);
                lemma_distinct_insert(self.items(), (a + c0 + c1).len() + j, item);
            } else {
                let j = choose|j: int| 0 <= j <= c3.len() && d3 == c3.insert(j, item);
                lemma_insert_middle(a + c0 + c1 + c2, c3, Seq::empty(), j, item);
                assert(a + c0 + c1 + c2 + c3 =~= a + c0 + c1 + c2 + c3 + Seq::empty());
                assert(a + c0 + c1 + c2 + d3 =~= a + c0 + c1 + c2 + d3 + Seq::empty());
                lemma_distinct_insert(self.items(), (a + c0 + c1 + c2).len() + j, item);
            }
        } else {
            assert(post.items() =~= self.items());
        }
    }

    /// In a full node, there is a place for a point exactly where the child
    /// whose quadrant covers it has one; a child in slot `k` that had none
    /// still has none afterwards (no child covers the point when `k` is 4).
    #[verifier::spinoff_prover]
    proof fn lemma_room_via_child(self, post: Self, k: int, p: (u32, u32), r: bool)
        requires
            self.wf(),
            self.boundary.covers(p),
            self.points@.len() == self.capacity,
            self.children.is_some(),
            post.children.is_some(),
            post.boundary == self.boundary,
            post.capacity == self.capacity,
            post.points@.len() == self.points@.len(),
            0 <= k <= 4,
            k == 4 ==> !r && forall|i: int|
                0 <= i < 4 ==> !(#[trigger] self.boundary.quadrant(i)).covers(p),
            k < 4 ==> self.boundary.quadrant(k).covers(p),
            ({
                let q0 = self.children.unwrap();
                let q1 = post.children.unwrap();
                &&& q1.nw.boundary == q0.nw.boundary && q1.ne.boundary == q0.ne.boundary
                &&& q1.sw.boundary == q0.sw.boundary && q1.se.boundary == q0.se.boundary
                &&& k == 0 ==> r == q0.nw.room(p) && (!r ==> !q1.nw.room(p))
                &&& k == 1 ==> r == q0.ne.room(p) && (!r ==> !q1.ne.room(p))
                &&& k == 2 ==> r == q0.sw.room(p) && (!r ==> !q1.sw.room(p))
                &&& k == 3 ==> r == q0.se.room(p) && (!r ==> !q1.se.room(p))
            }),
        ensures
            r == self.room(p),
            !r ==> !post.room(p),
    {
        self.lemma_point_in_one_child(p);
        let q0 = self.children.unwrap();
        let q1 = post.children.unwrap();
        assert(q0.nw.room(p) ==> q0.nw.boundary.covers(p));
        assert(q0.ne.room(p) ==> q0.ne.boundary.covers(p));
        assert(q0.sw.room(p) ==> q0.sw.boundary.covers(p));
        assert(q0.se.room(p) ==> q0.se.boundary.covers(p));
        assert(q1.nw.room(p) ==> q1.nw.boundary.covers(p));
        assert(q1.ne.room(p) ==> q1.ne.boundary.covers(p));
        assert(q1.sw.room(p) ==> q1.sw.boundary.covers(p));
        assert(q1.se.room(p) ==> q1.se.boundary.covers(p));
    }

    /// `after` is what placing the item made of the subtree `before`.
    spec fn placed_in(before: Self, after: Self, item: T, r: bool) -> bool {
        &&& after.wf()
        &&& after.boundary == before.boundary
        &&& after.capacity == before.capacity
        &&& r == before.room(item.point())
        &&& r ==> exists|j: int|
            0 <= j <= before.items().len() && after.items() == before.items().insert(j, item)
        &&& !r ==> after.items() == before.items()
        &&& !r ==> !after.room(item.point())
    }

    /// Replacing inside the child in slot `k`, the one whose quadrant covers
    /// the item's point (no child when `k` is 4).
    #[verifier::spinoff_prover]
    proof fn lemma_replace_in_child(self, post: Self, k: int, item: T, r: Option<T>)
        requires
            self.wf(),
            self.boundary.covers(item.point()),
            !self.holds_here(item.point()),
            post.boundary == self.boundary,
            post.capacity == self.capacity,
            post.points == self.points,
            0 <= k <= 4,
            k == 4 ==> post == self && r.is_none(),
            k == 4 && self.children.is_some() ==> forall|i: int|
                0 <= i < 4 ==> !(#[trigger] self.boundary.quadrant(i)).covers(item.point()),
            k < 4 ==> self.children.is_some() && post.children.is_some(),
            k < 4 ==> self.boundary.quadrant(k).covers(item.point()),
            ({
                let q0 = self.children.unwrap();
                let q1 = post.children.unwrap();
                k < 4 ==> {
                    &&& (if k == 0 { Self::replaced_in(*q0.nw, *q1.nw, item, r) } else { q1.nw == q0.nw })
                    &&& (if k == 1 { Self::replaced_in(*q0.ne, *q1.ne, item, r) } else { q1.ne == q0.ne })
                    &&& (if k == 2 { Self::replaced_in(*q0.sw, *q1.sw, item, r) } else { q1.sw == q0.sw })
                    &&& (if k == 3 { Self::replaced_in(*q0.se, *q1.se, item, r) } else { q1.se == q0.se })
                }
            }),
        ensures
            replace_outcome(self.items(), post.items(), item, r),
            post.items().len() == self.items().len(),
            r.is_none() ==> post == self,
    {
        let p = item.point();
        self.lemma_point_split(p);
        if let Some(q0) = self.children {
            self.lemma_point_in_one_child(p);
            if k < 4 {
                let q1 = post.children.unwrap();
                let (a, c0, c1, c2, c3) = (
                    self.points@,
                    q0.nw.items(),
                    q0.ne.items(),
                    q0.sw.items(),
                    q0.se.items(),
                );
                let (d0, d1, d2, d3) = (q1.nw.items(), q1.ne.items(), q1.sw.items(), q1.se.items());
                assert(self.items() =~= a + c0 + c1 + c2 + c3);
                assert(post.items() =~= a + d0 + d1 + d2 + d3);
                lemma_replace_part(a, seq![c0, c1, c2, c3], seq![d0, d1, d2, d3], k, item, r);
            }
        }
    }

    /// `after` is what `replace` made of the subtree `before`, returning `r`.
    spec fn replaced_in(before: Self, after: Self, item: T, r: Option<T>) -> bool {
        &&& after.wf()
        &&& after.boundary == before.boundary
        &&& after.capacity == before.capacity
        &&& replace_outcome(before.items(), after.items(), item, r)
        &&& r.is_none() ==> after == before
    }

    /// A range that misses the boundary, in the sense of the pruning test,
    /// holds no item of the subtree.
    pub proof fn lemma_query_outside(self, range: Rectangle)
        requires
            self.wf(),
            !range.overlaps(self.region()),
        ensures
            within(self.items(), range) == Seq::<T>::empty(),
    {
        self.lemma_items_covered();
        let s = self.items();
        assert forall|i: int| 0 <= i < s.len() implies !range.covers((#[trigger] s[i]).point()) by {
            if range.covers(s[i].point()) {
                range.lemma_common_point_overlaps(self.boundary, s[i].point());
            }
        }
        lemma_within_all_or_none(s, range);
    }

    /// Filtering a node's items filters its own items and each child's.
    proof fn lemma_within_split(self, range: Rectangle)
        requires
            self.children.is_some(),
        ensures
            ({
                let q = self.children.unwrap();
                within(self.items(), range) == within(self.points@, range) + within(
                    q.nw.items(),
                    range,
                ) + within(q.ne.items(), range) + within(q.sw.items(), range) + within(
                    q.se.items(),
                    range,
                )
            }),
    {
        let q = self.children.unwrap();
        let pred = |t: T| range.covers(t.point());
        let (a, b, c, d, e) = (self.points@, q.nw.items(), q.ne.items(), q.sw.items(), q.se.items());
        assert(self.items() =~= a + b + c + d + e);
        Seq::filter_distributes_over_add(a + b + c + d, e, pred);
        Seq::filter_distributes_over_add(a + b + c, d, pred);
        Seq::filter_distributes_over_add(a + b, c, pred);
        Seq::filter_distributes_over_add(a, b, pred);
    }

    /// Creates an empty tree over `boundary` whose nodes hold up to `capacity`
    /// items each. A capacity of zero is allowed: such a tree stores nothing.
    pub fn new(boundary: Rectangle, capacity: usize) -> (r: Self)
        requires
            boundary.fits(),
        ensures
            r.wf(),
            r.region() == boundary,
            r.limit() == capacity,
            r.items() == Seq::<T>::empty(),
            r.own_items() == Seq::<T>::empty(),
            r.quadrants().is_none(),
    {
        let r = Self { boundary, capacity, points: Vec::new(), children: None };
        proof {
            assert(r.items() =~= Seq::<T>::empty());
        }
        r
    }

    /// Makes the four empty children of a node with the given boundary.
    fn subdivide(boundary: Rectangle, capacity: usize) -> (r: Quadrants<T>)
        requires
            boundary.fits(),
        ensures
            r.nw.boundary == boundary.quadrant(0),
            r.ne.boundary == boundary.quadrant(1),
            r.sw.boundary == boundary.quadrant(2),
            r.se.boundary == boundary.quadrant(3),
            r.nw.capacity == capacity && r.ne.capacity == capacity,
            r.sw.capacity == capacity && r.se.capacity == capacity,
            r.nw.wf() && r.ne.wf() && r.sw.wf() && r.se.wf(),
            r.nw.items().len() == 0 && r.ne.items().len() == 0,
            r.sw.items().len() == 0 && r.se.items().len() == 0,
            r.nw.children.is_none() && r.ne.children.is_none(),
            r.sw.children.is_none() && r.se.children.is_none(),
    {
        let x = boundary.x;
        let y = boundary.y;
        let w = boundary.w / 2;
        let h = boundary.h / 2;

        let nw = Rectangle::new(x, y, w, h);
        let ne = Rectangle::new(x + w, y, w, h);
        let sw = Rectangle::new(x, y + h, w, h);
        let se = Rectangle::new(x + w, y + h, w, h);

        let r = Quadrants {
            nw: Box::new(QuadTree { boundary: nw, capacity, points: Vec::new(), children: None }),
            ne: Box::new(QuadTree { boundary: ne, capacity, points: Vec::new(), children: None }),
            sw: Box::new(QuadTree { boundary: sw, capacity, points: Vec::new(), children: None }),
            se: Box::new(QuadTree { boundary: se, capacity, points: Vec::new(), children: None }),
        };
        proof {
            assert(r.nw.items() =~= Seq::<T>::empty());
            assert(r.ne.items() =~= Seq::<T>::empty());
            assert(r.sw.items() =~= Seq::<T>::empty());
            assert(r.se.items() =~= Seq::<T>::empty());
        }
        r
    }

    /// The position of the item of this node itself that sits at the item's
    /// point.
    fn find_location(&self, item: &T) -> (r: Option<usize>)
        ensures
            match r {
                Some(i) => i < self.points@.len() && self.points@[i as int].point() == item.point(),
                None => !self.holds_here(item.point()),
            },
    {
        let p = item.as_point();
        let mut i: usize = 0;
        while i < self.points.len()
            invariant
                0 <= i <= self.points@.len(),
                p == item.point(),
                forall|j: int| 0 <= j < i ==> (#[trigger] self.points@[j]).point() != p,
            decreases self.points@.len() - i,
        {
            let q = self.points[i].as_point();
            if q.0 == p.0 && q.1 == p.1 {
                return Some(i);
            }
            i += 1;
        }
        None
    }

    /// Whether some stored item sits at the item's point. Only the node and
    /// the child whose quadrant covers the point are searched, in turn.
    fn holds_point(&self, item: &T) -> (r: bool)
        requires
            self.wf(),
        ensures
            r == has_point(self.items(), item.point()),
        decreases self,
    {
        proof {
            self.lemma_point_split(item.point());
        }
        if !self.boundary.contains(item) {
            proof {
                self.lemma_no_point_outside(item.point());
            }
            return false;
        }
        if self.find_location(item).is_some() {
            return true;
        }
        match &self.children {
            None => false,
            Some(q) => q.nw.holds_point(item) || q.ne.holds_point(item) || q.sw.holds_point(item)
                || q.se.holds_point(item),
        }
    }

    /// Stores an item at a point inside the boundary that no item holds yet:
    /// a node with room keeps it; a full node hands it to the child whose
    /// quadrant covers its point, creating its four children first if it has
    /// none.
    #[verifier::spinoff_prover]
    fn place(&mut self, item: T) -> (r: bool)
        requires
            old(self).wf(),
            old(self).items().len() < usize::MAX,
            old(self).boundary.covers(item.point()),
            !has_point(old(self).items(), item.point()),
        ensures
            final(self).wf(),
            final(self).boundary == old(self).boundary,
            final(self).capacity == old(self).capacity,
            r == old(self).room(item.point()),
            r ==> exists|k: int|
                0 <= k <= old(self).items().len() && final(self).items() == old(self).items().insert(
                    k,
                    item,
                ),
            !r ==> final(self).items() == old(self).items(),
            !r ==> !final(self).room(item.point()),
            old(self).points@.len() < old(self).capacity ==> r && final(self).points@ == old(
                self,
            ).points@.push(item) && final(self).children == old(self).children,
            old(self).points@.len() >= old(self).capacity ==> final(self).points == old(self).points
                && final(self).children.is_some(),
        decreases old(self).boundary.w + old(self).boundary.h,
    {
        let ghost p = item.point();
        let ghost pre = *self;
        if self.points.len() < self.capacity {
            self.points.push(item);
            proof {
                let post = *self;
                let n = pre.points@.len() as int;
                assert(post.items() =~= pre.items().insert(n, item));
                lemma_distinct_insert(pre.items(), n, item);
                assert forall|i: int, j: int|
                    0 <= i < post.points@.len() && 0 <= j < post.points@.len() && i != j
                    implies (#[trigger] post.points@[i]).point() != (#[trigger] post.points@[j]).point() by {
                    assert(post.points@[i] == post.items()[i]);
                    assert(post.points@[j] == post.items()[j]);
                }
            }
            return true;
        }
        if self.children.is_none() {
            self.children = Some(Self::subdivide(self.boundary, self.capacity));
            proof {
                assert(self.items() =~= pre.items());
            }
        }
        let ghost mid = *self;
        proof {
            mid.lemma_point_split(p);
            mid.lemma_point_in_one_child(p);
        }
        let ghost mut k: int = 4;
        let r = match &mut self.children {
            None => false,
            Some(q) => {
                if q.nw.boundary.contains(&item) {
                    proof { k = 0; }
                    q.nw.place(item)
                } else if q.ne.boundary.contains(&item) {
                    proof { k = 1; }
                    q.ne.place(item)
                } else if q.sw.boundary.contains(&item) {
                    proof { k = 2; }
                    q.sw.place(item)
                } else if q.se.boundary.contains(&item) {
                    proof { k = 3; }
                    q.se.place(item)
                } else {
                    false
                }
            },
        };
        proof {
            mid.lemma_place_in_child(*self, k, item, r);
            mid.lemma_room_via_child(*self, k, p, r);
            mid.lemma_children_swapped_wf(*self);
            if pre.children.is_none() {
                let q0 = mid.children.unwrap();
                let b = self.boundary;
                assert(q0.nw.room(p) == (b.quadrant(0).covers(p) && self.capacity > 0));
                assert(q0.ne.room(p) == (b.quadrant(1).covers(p) && self.capacity > 0));
                assert(q0.sw.room(p) == (b.quadrant(2).covers(p) && self.capacity > 0));
                assert(q0.se.room(p) == (b.quadrant(3).covers(p) && self.capacity > 0));
            }
        }
        r
    }

    /// Stores the item unless the boundary misses its point or some item of
    /// the tree already sits there. A node with room keeps the item; a full
    /// node hands it to the child whose quadrant covers its point, creating
    /// its four children first if it has none. A point is never stored twice.
    /// The tree must hold fewer than `usize::MAX` items, so that its size
    /// stays countable.
    pub fn insert(&mut self, item: T) -> (r: bool)
        requires
            old(self).wf(),
            old(self).items().len() < usize::MAX,
        ensures
            final(self).wf(),
            final(self).region() == old(self).region(),
            final(self).limit() == old(self).limit(),
            r == old(self).admits(item.point()),
            r ==> exists|k: int|
                0 <= k <= old(self).items().len() && final(self).items() == old(self).items().insert(
                    k,
                    item,
                ),
            !r ==> final(self).items() == old(self).items(),
            final(self).items().len() == old(self).items().len() + if r {
                1int
            } else {
                0int
            },
            !final(self).admits(item.point()),
            !old(self).region().covers(item.point()) ==> !r && *final(self) == *old(self),
            has_point(old(self).items(), item.point()) ==> !r && *final(self) == *old(self),
            old(self).region().covers(item.point()) && !has_point(old(self).items(), item.point())
                && old(self).own_items().len() < old(self).limit() ==> r && final(self).own_items()
                == old(self).own_items().push(item) && final(self).quadrants() == old(
                self,
            ).quadrants(),
            old(self).region().covers(item.point()) && !has_point(old(self).items(), item.point())
                && old(self).own_items().len() >= old(self).limit() ==> final(self).own_items()
                == old(self).own_items() && final(self).quadrants().is_some(),
            old(self).quadrants().is_some() ==> final(self).quadrants().is_some(),
    {
        if !self.boundary.contains(&item) {
            return false;
        }
        if self.holds_point(&item) {
            return false;
        }
        let ghost pre = *self;
        let r = self.place(item);
        proof {
            let p = item.point();
            if r {
                let k = choose|k: int|
                    0 <= k <= pre.items().len() && self.items() == pre.items().insert(k, item);
                assert(self.items()[k] == item);
            }
        }
        r
    }

    /// The position of the item of this node itself that matches `item`.
    fn find_match(&self, item: &T) -> (r: Option<usize>)
        requires
            T::obeys_eq_spec(),
        ensures
            match r {
                Some(i) => i < self.points@.len() && same_item(self.points@[i as int], *item),
                None => !has_match(self.points@, *item),
            },
    {
        let p = item.as_point();
        let mut i: usize = 0;
        while i < self.points.len()
            invariant
                0 <= i <= self.points@.len(),
                p == item.point(),
                T::obeys_eq_spec(),
                forall|j: int| 0 <= j < i ==> !same_item(#[trigger] self.points@[j], *item),
            decreases self.points@.len() - i,
        {
            let q = self.points[i].as_point();
            if q.0 == p.0 && q.1 == p.1 && self.points[i].eq(item) {
                return Some(i);
            }
            i += 1;
        }
        None
    }

    /// Whether some stored item matches `item`: the node's own items are
    /// searched first, then each child in turn.
    pub fn contains(&self, item: &T) -> (r: bool)
        requires
            self.wf(),
            T::obeys_eq_spec(),
        ensures
            r == has_match(self.items(), *item),
        decreases self,
    {
        proof {
            self.lemma_match_split(*item);
        }
        if self.find_match(item).is_some() {
            return true;
        }
        match &self.children {
            None => false,
            Some(q) => q.nw.contains(item) || q.ne.contains(item) || q.sw.contains(item)
                || q.se.contains(item),
        }
    }

    /// Deletes the first stored item that matches `item`, searching the node's
    /// own items first and then each child in turn. Emptied children stay.
    pub fn remove(&mut self, item: &T) -> (r: bool)
        requires
            old(self).wf(),
            T::obeys_eq_spec(),
        ensures
            final(self).wf(),
            final(self).region() == old(self).region(),
            final(self).limit() == old(self).limit(),
            r == has_match(old(self).items(), *item),
            r ==> exists|i: int|
                0 <= i < old(self).items().len() && same_item(old(self).items()[i], *item)
                    && final(self).items() == old(self).items().remove(i),
            !r ==> final(self).items() == old(self).items(),
            final(self).items().len() == old(self).items().len() - if r {
                1int
            } else {
                0int
            },
            final(self).quadrants().is_some() == old(self).quadrants().is_some(),
        decreases *old(self),
    {
        let ghost pre = *self;
        proof {
            pre.lemma_match_split(*item);
        }
        match self.find_match(item) {
            Some(i) => {
                self.points.remove(i);
                proof {
                    pre.lemma_remove_own(*self, i as int);
                }
                return true;
            },
            None => {},
        }
        let ghost mut k: int = 4;
        let r = match &mut self.children {
            None => false,
            Some(q) => {
                if q.nw.remove(item) {
                    proof { k = 0; }
                    true
                } else if q.ne.remove(item) {
                    proof { k = 1; }
                    true
                } else if q.sw.remove(item) {
                    proof { k = 2; }
                    true
                } else if q.se.remove(item) {
                    proof { k = 3; }
                    true
                } else {
                    false
                }
            },
        };
        proof {
            pre.lemma_remove_in_child(*self, k, *item);
        }
        r
    }

    /// Puts the item in the place of the stored item at its point (there is at
    /// most one) and returns the one it displaced. The node's own items are
    /// searched first, then the child whose quadrant covers the point. Where
    /// no item sits at that point nothing changes and `None` comes back: this
    /// never adds a new location. An item equal in full to the one it displaces
    /// still takes its place, which leaves the items as they were.
    pub fn replace(&mut self, item: T) -> (r: Option<T>)
        requires
            old(self).wf(),
        ensures
            final(self).wf(),
            final(self).region() == old(self).region(),
            final(self).limit() == old(self).limit(),
            replace_outcome(old(self).items(), final(self).items(), item, r),
            r.is_none() ==> *final(self) == *old(self),
            !old(self).region().covers(item.point()) ==> r.is_none(),
            final(self).quadrants().is_some() == old(self).quadrants().is_some(),
        decreases *old(self),
    {
        let ghost pre = *self;
        let ghost p = item.point();
        if !self.boundary.contains(&item) {
            proof {
                pre.lemma_no_point_outside(p);
            }
            return None;
        }
        if let Some(i) = self.find_location(&item) {
            let mut displaced = item;
            self.points.set_and_swap(i, &mut displaced);
            proof {
                pre.lemma_replace_own(*self, i as int, item);
            }
            return Some(displaced);
        }
        let ghost mut k: int = 4;
        let r = match &mut self.children {
            None => None,
            Some(q) => {
                if q.nw.boundary.contains(&item) {
                    proof { k = 0; }
                    q.nw.replace(item)
                } else if q.ne.boundary.contains(&item) {
                    proof { k = 1; }
                    q.ne.replace(item)
                } else if q.sw.boundary.contains(&item) {
                    proof { k = 2; }
                    q.sw.replace(item)
                } else if q.se.boundary.contains(&item) {
                    proof { k = 3; }
                    q.se.replace(item)
                } else {
                    None
                }
            },
        };
        proof {
            pre.lemma_replace_in_child(*self, k, item, r);
            pre.lemma_children_swapped_wf(*self);
        }
        r
    }

    /// Appends to `out` the items whose point lies in `range`, in traversal
    /// order, skipping every subtree whose boundary misses `range`.
    #[verifier::spinoff_prover]
    fn collect<'a>(&'a self, range: &Rectangle, out: &mut Vec<&'a T>)
        requires
            self.wf(),
        ensures
            derefs(final(out)@) == derefs(old(out)@) + within(self.items(), *range),
        decreases self,
    {
        proof {
            self.lemma_items_covered();
        }
        if !range.intersects(&self.boundary) {
            proof {
                self.lemma_query_outside(*range);
                assert(derefs(out@) + Seq::<T>::empty() =~= derefs(out@));
            }
            return;
        }
        let ghost pred = |t: T| range.covers(t.point());
        let mut i: usize = 0;
        while i < self.points.len()
            invariant
                0 <= i <= self.points@.len(),
                pred == (|t: T| range.covers(t.point())),
                derefs(out@) == derefs(old(out)@) + within(self.points@.subrange(0, i as int), *range),
            decreases self.points@.len() - i,
        {
            let p = &self.points[i];
            let ghost before = derefs(out@);
            proof {
                let head = self.points@.subrange(0, i as int);
                assert(self.points@.subrange(0, i + 1) == head.push(*p));
                head.lemma_filter_push(*p, pred);
            }
            if range.contains(p) {
                out.push(p);
                proof {
                    assert(derefs(out@) =~= before.push(*p));
                }
            }
            i += 1;
        }
        proof {
            assert(self.points@.subrange(0, self.points@.len() as int) == self.points@);
        }
        match &self.children {
            None => {
                proof {
                    assert(self.items() =~= self.points@);
                }
            },
            Some(q) => {
                q.nw.collect(range, out);
                q.ne.collect(range, out);
                q.sw.collect(range, out);
                q.se.collect(range, out);
                proof {
                    self.lemma_within_split(*range);
                    assert(derefs(out@) =~= derefs(old(out)@) + within(self.items(), *range));
                }
            },
        }
    }

    /// The items whose point lies in `range`, or in the tree's boundary when no
    /// range is given, in traversal order: a node's own items before those of
    /// its children, children in the order north-west, north-east, south-west,
    /// south-east. Subtrees whose boundary misses the range are not visited.
    pub fn query_items(&self, range: Option<&Rectangle>) -> (r: Vec<&T>)
        requires
            self.wf(),
        ensures
            derefs(r@) == within(
                self.items(),
                match range {
                    Some(b) => *b,
                    None => self.region(),
                },
            ),
            !(match range {
                Some(b) => *b,
                None => self.region(),
            }).overlaps(self.region()) ==> r@.len() == 0,
    {
        let mut out: Vec<&T> = Vec::new();
        match range {
            Some(b) => self.collect(b, &mut out),
            None => self.collect(&self.boundary, &mut out),
        }
        proof {
            let range_or_all = match range {
                Some(b) => *b,
                None => self.region(),
            };
            if !range_or_all.overlaps(self.region()) {
                self.lemma_query_outside(range_or_all);
            }
            assert(derefs(Seq::<&T>::empty()) =~= Seq::<T>::empty());
            assert(Seq::<T>::empty() + within(self.items(), match range {
                Some(b) => *b,
                None => self.region(),
            }) =~= within(self.items(), match range {
                Some(b) => *b,
                None => self.region(),
            }));
        }
        out
    }

    /// Hands `func` each item whose point lies in `range` (or in the tree's
    /// boundary when no range is given), in the order of [`Self::query_items`].
    pub fn query<F: FnMut(&T)>(&self, range: Option<&Rectangle>, func: &mut F)
        requires
            self.wf(),
            forall|t: &T| call_requires(*old(func), (t,)),
        ensures
            ({
                let seen = within(
                    self.items(),
                    match range {
                        Some(b) => *b,
                        None => self.region(),
                    },
                );
                forall|i: int| 0 <= i < seen.len() ==> call_ensures(*old(func), (&seen[i],), ())
            }),
    {
        let found = self.query_items(range);
        let mut i: usize = 0;
        while i < found.len()
            invariant
                0 <= i <= found@.len(),
                *func == *old(func),
                forall|t: &T| call_requires(*old(func), (t,)),
                forall|j: int| 0 <= j < i ==> call_ensures(*old(func), (found@[j],), ()),
            decreases found@.len() - i,
        {
            func(found[i]);
            i += 1;
        }
    }

    /// Every stored item, in traversal order.
    pub fn iter(&self) -> (r: Vec<&T>)
        requires
            self.wf(),
        ensures
            derefs(r@) == self.items(),
    {
        proof {
            self.lemma_items_covered();
            lemma_within_all_or_none(self.items(), self.boundary);
        }
        self.query_items(None)
    }

    /// Takes the tree apart into its items, in traversal order.
    pub fn into_iter(self) -> (r: Vec<T>)
        ensures
            r@ == self.items(),
        decreases self,
    {
        let ghost whole = self.items();
        let QuadTree { boundary: _, capacity: _, points, children } = self;
        let mut out = points;
        match children {
            None => {
                proof {
                    assert(whole =~= out@);
                }
            },
            Some(q) => {
                let Quadrants { nw, ne, sw, se } = q;
                let mut a = (*nw).into_iter();
                let mut b = (*ne).into_iter();
                let mut c = (*sw).into_iter();
                let mut d = (*se).into_iter();
                out.append(&mut a);
                out.append(&mut b);
                out.append(&mut c);
                out.append(&mut d);
                proof {
                    assert(whole =~= out@);
                }
            },
        }
        out
    }

    /// The boundary of this node.
    pub fn boundary(&self) -> (r: &Rectangle)
        ensures
            *r == self.region(),
    {
        &self.boundary
    }

    /// The capacity of this node.
    pub fn capacity(&self) -> (r: usize)
        ensures
            r == self.limit(),
    {
        self.capacity
    }

    /// The items held by this node itself.
    pub fn points(&self) -> (r: &Vec<T>)
        ensures
            r@ == self.own_items(),
    {
        &self.points
    }

    /// The children of this node, once it has been subdivided.
    pub fn children(&self) -> (r: Option<&Quadrants<T>>)
        ensures
            match r {
                None => self.quadrants().is_none(),
                Some(q) => self.quadrants() == Some(*q),
            },
    {
        self.children.as_ref()
    }

    /// Appends every item of the subtree to `out`, in traversal order.
    fn gather<'a>(&'a self, out: &mut Vec<&'a T>)
        ensures
            derefs(final(out)@) == derefs(old(out)@) + self.items(),
        decreases self,
    {
        let mut i: usize = 0;
        while i < self.points.len()
            invariant
                0 <= i <= self.points@.len(),
                derefs(out@) == derefs(old(out)@) + self.points@.subrange(0, i as int),
            decreases self.points@.len() - i,
        {
            let ghost before = derefs(out@);
            out.push(&self.points[i]);
            proof {
                assert(derefs(out@) =~= before.push(self.points@[i as int]));
                assert(self.points@.subrange(0, i + 1) =~= self.points@.subrange(0, i as int).push(
                    self.points@[i as int],
                ));
            }
            i += 1;
        }
        proof {
            assert(self.points@.subrange(0, self.points@.len() as int) == self.points@);
        }
        match &self.children {
            None => {
                proof {
                    assert(self.items() =~= self.points@);
                }
            },
            Some(q) => {
                q.nw.gather(out);
                q.ne.gather(out);
                q.sw.gather(out);
                q.se.gather(out);
                proof {
                    assert(derefs(out@) =~= derefs(old(out)@) + self.items());
                }
            },
        }
    }

    /// Whether the subtree is well-formed.
    fn check(&self) -> (r: bool)
        ensures
            r == self.wf(),
        decreases self,
    {
        let children_ok = match &self.children {
            None => true,
            Some(q) => q.nw.check() && q.ne.check() && q.sw.check() && q.se.check(),
        };
        if !children_ok {
            return false;
        }
        if !self.boundary.in_space() {
            return false;
        }
        if let Some(q) = &self.children {
            if !(q.nw.boundary == self.boundary.quadrant_at(0) && q.ne.boundary
                == self.boundary.quadrant_at(1) && q.sw.boundary == self.boundary.quadrant_at(2)
                && q.se.boundary == self.boundary.quadrant_at(3)) {
                return false;
            }
            if !(q.nw.capacity == self.capacity && q.ne.capacity == self.capacity && q.sw.capacity
                == self.capacity && q.se.capacity == self.capacity) {
                return false;
            }
        }
        if self.points.len() > self.capacity {
            return false;
        }
        let mut i: usize = 0;
        while i < self.points.len()
            invariant
                0 <= i <= self.points@.len(),
                forall|j: int|
                    0 <= j < i ==> self.boundary.covers((#[trigger] self.points@[j]).point()),
            decreases self.points@.len() - i,
        {
            if !self.boundary.contains(&self.points[i]) {
                return false;
            }
            i += 1;
        }
        let mut all: Vec<&T> = Vec::new();
        self.gather(&mut all);
        let _ = all.len();
        proof {
            assert(derefs(Seq::<&T>::empty()) + self.items() =~= self.items());
        }
        let distinct = all_points_distinct(&all);
        proof {
            if distinct {
                assert forall|a: int, b: int|
                    0 <= a < self.points@.len() && 0 <= b < self.points@.len() && a != b
                    implies (#[trigger] self.points@[a]).point() != (#[trigger] self.points@[b]).point() by {
                    assert(self.points@[a] == self.items()[a]);
                    assert(self.points@[b] == self.items()[b]);
                }
            }
        }
        distinct
    }

    /// Builds a tree from its parts: a boundary, a capacity, the root's own
    /// items and its children. This succeeds exactly when the parts make a
    /// well-formed tree, so that a tree taken apart by [`Self::into_parts`]
    /// comes back whole.
    pub fn from_parts(
        boundary: Rectangle,
        capacity: usize,
        points: Vec<T>,
        children: Option<Quadrants<T>>,
    ) -> (r: Option<Self>)
        ensures
            match r {
                Some(t) => {
                    &&& t.wf()
                    &&& t.region() == boundary
                    &&& t.limit() == capacity
                    &&& t.own_items() == points@
                    &&& t.quadrants() == children
                },
                None => forall|t: Self|
                    t.region() == boundary && t.limit() == capacity && t.own_items() == points@
                        && t.quadrants() == children ==> !#[trigger] t.wf(),
            },
    {
        let t = QuadTree { boundary, capacity, points, children };
        if t.check() {
            Some(t)
        } else {
            proof {
                assert forall|u: Self|
                    u.region() == boundary && u.limit() == capacity && u.own_items() == t.points@
                        && u.quadrants() == children implies !#[trigger] u.wf() by {
                    assert(u.items() == t.items());
                }
            }
            None
        }
    }

    /// Takes the root apart into its boundary, capacity, own items and
    /// children.
    pub fn into_parts(self) -> (r: (Rectangle, usize, Vec<T>, Option<Quadrants<T>>))
        ensures
            r.0 == self.region(),
            r.1 == self.limit(),
            r.2@ == self.own_items(),
            r.3 == self.quadrants(),
    {
        (self.boundary, self.capacity, self.points, self.children)
    }

    /// The total number of stored items.
    pub fn len(&self) -> (r: usize)
        requires
            self.wf(),
        ensures
            r == self.items().len(),
        decreases self,
    {
        let own = self.points.len();
        match &self.children {
            None => {
                proof {
                    assert(self.items() =~= self.points@);
                }
                own
            },
            Some(q) => {
                let a = q.nw.len();
                let b = q.ne.len();
                let c = q.sw.len();
                let d = q.se.len();
                own + a + b + c + d
            },
        }
    }

    /// Whether the tree stores no item.
    pub fn is_empty(&self) -> (r: bool)
        requires
            self.wf(),
        ensures
            r == (self.items().len() == 0),
    {
        self.len() == 0
    }
}

} // verus!
