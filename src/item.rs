use vstd::prelude::*;

use crate::shape::Rectangle;
use vstd::std_specs::cmp::PartialEqSpec;

verus! {

/// What a stored item offers the tree: its anchor point, and equality.
///
/// `point` is the model of `as_point`. Code built without verification sees
/// it as an ordinary method and gives it the same body as `as_point`.
pub trait Vector: Sized + PartialEq {
    /// The item's anchor point.
    spec fn point(&self) -> (u32, u32);

    /// Computes the item's anchor point.
    fn as_point(&self) -> (r: (u32, u32))
        ensures
            r == self.point(),
    ;
}

/// An item matches another when both sit at the same point and compare equal.
pub open spec fn same_item<T: Vector>(a: T, b: T) -> bool {
    a.point() == b.point() && a.eq_spec(&b)
}

/// Some item of `s` matches `item`.
pub open spec fn has_match<T: Vector>(s: Seq<T>, item: T) -> bool {
    exists|i: int| 0 <= i < s.len() && same_item(#[trigger] s[i], item)
}

/// A match in a concatenation is a match in one of its parts.
pub(crate) proof fn lemma_has_match_add<T: Vector>(a: Seq<T>, b: Seq<T>, item: T)
    ensures
        has_match(a + b, item) == (has_match(a, item) || has_match(b, item)),
{
    if has_match(a + b, item) {
        let i = choose|i: int| 0 <= i < (a + b).len() && same_item(#[trigger] (a + b)[i], item);
        if i < a.len() {
            assert(same_item(a[i], item));
        } else {
            assert(same_item(b[i - a.len()], item));
        }
    }
    if has_match(a, item) {
        let i = choose|i: int| 0 <= i < a.len() && same_item(#[trigger] a[i], item);
        assert(same_item((a + b)[i], item));
    }
    if has_match(b, item) {
        let i = choose|i: int| 0 <= i < b.len() && same_item(#[trigger] b[i], item);
        assert(same_item((a + b)[a.len() + i], item));
    }
}

/// Some item of `s` sits at `p`.
pub open spec fn has_point<T: Vector>(s: Seq<T>, p: (u32, u32)) -> bool {
    exists|i: int| 0 <= i < s.len() && (#[trigger] s[i]).point() == p
}

/// `i` is the first position in `s` of an item at `p`.
pub open spec fn first_at<T: Vector>(s: Seq<T>, p: (u32, u32), i: int) -> bool {
    &&& 0 <= i < s.len()
    &&& s[i].point() == p
    &&& forall|j: int| 0 <= j < i ==> (#[trigger] s[j]).point() != p
}

/// An item at a point in a concatenation sits in one of its parts.
pub(crate) proof fn lemma_has_point_add<T: Vector>(a: Seq<T>, b: Seq<T>, p: (u32, u32))
    ensures
        has_point(a + b, p) == (has_point(a, p) || has_point(b, p)),
{
    if has_point(a + b, p) {
        let i = choose|i: int| 0 <= i < (a + b).len() && (#[trigger] (a + b)[i]).point() == p;
        if i < a.len() {
            assert(a[i].point() == p);
        } else {
            assert(b[i - a.len()].point() == p);
        }
    }
    if has_point(a, p) {
        let i = choose|i: int| 0 <= i < a.len() && (#[trigger] a[i]).point() == p;
        assert((a + b)[i].point() == p);
    }
    if has_point(b, p) {
        let i = choose|i: int| 0 <= i < b.len() && (#[trigger] b[i]).point() == p;
        assert((a + b)[a.len() + i].point() == p);
    }
}

/// A first position in the middle part of a concatenation, after a part
/// with no item at the point, is a first position in the whole.
proof fn lemma_first_at_middle<T: Vector>(x: Seq<T>, y: Seq<T>, z: Seq<T>, p: (u32, u32), j: int)
    requires
        !has_point(x, p),
        first_at(y, p, j),
    ensures
        first_at(x + y + z, p, x.len() + j),
        (x + y + z)[x.len() + j] == y[j],
{
    let s = x + y + z;
    assert forall|i: int| 0 <= i < x.len() + j implies (#[trigger] s[i]).point() != p by {
        if i < x.len() {
            assert(s[i] == x[i]);
        } else {
            assert(s[i] == y[i - x.len()]);
        }
    }
}

/// What `replace` does to a sequence of items: with no item at the new
/// item's point nothing changes; otherwise the first item there is returned
/// and the new item takes its position.
pub open spec fn replace_outcome<T: Vector>(before: Seq<T>, after: Seq<T>, item: T, r: Option<T>) -> bool {
    match r {
        None => !has_point(before, item.point()) && after == before,
        Some(prev) => exists|i: int|
            first_at(before, item.point(), i) && before[i] == prev && after == before.update(
                i,
                item,
            ),
    }
}

/// No two items of `s` sit at the same point.
pub open spec fn distinct_points<T: Vector>(s: Seq<T>) -> bool {
    forall|i: int, j: int|
        0 <= i < s.len() && 0 <= j < s.len() && i != j ==> (#[trigger] s[i]).point() != (
        #[trigger] s[j]).point()
}

/// Whether no two of the referenced items sit at the same point.
pub(crate) fn all_points_distinct<T: Vector>(v: &Vec<&T>) -> (r: bool)
    ensures
        r == distinct_points(derefs(v@)),
{
    let ghost s = derefs(v@);
    let mut i: usize = 0;
    while i < v.len()
        invariant
            0 <= i <= v@.len(),
            s == derefs(v@),
            forall|a: int, b: int|
                0 <= a < i && 0 <= b < i && a != b ==> (#[trigger] s[a]).point() != (
                #[trigger] s[b]).point(),
        decreases v@.len() - i,
    {
        let p = v[i].as_point();
        let mut j: usize = 0;
        while j < i
            invariant
                0 <= j <= i < v@.len(),
                s == derefs(v@),
                p == s[i as int].point(),
                forall|b: int| 0 <= b < j ==> (#[trigger] s[b]).point() != p,
            decreases i - j,
        {
            let q = v[j].as_point();
            if q.0 == p.0 && q.1 == p.1 {
                assert(s[j as int].point() == s[i as int].point());
                return false;
            }
            j += 1;
        }
        i += 1;
    }
    true
}

/// Adding an item at a point that is still free keeps points distinct.
pub(crate) proof fn lemma_distinct_insert<T: Vector>(s: Seq<T>, k: int, x: T)
    requires
        distinct_points(s),
        !has_point(s, x.point()),
        0 <= k <= s.len(),
    ensures
        distinct_points(s.insert(k, x)),
{
    let t = s.insert(k, x);
    assert forall|i: int| 0 <= i < t.len() && i != k implies #[trigger] t[i] == s[if i < k {
        i
    } else {
        i - 1
    }] by {}
    assert forall|i: int| 0 <= i < t.len() && i != k implies (#[trigger] t[i]).point()
        != x.point() by {
        let i0 = if i < k { i } else { i - 1 };
        assert(s[i0] == t[i]);
    }
}

/// Taking an item out keeps points distinct.
pub(crate) proof fn lemma_distinct_remove<T: Vector>(s: Seq<T>, i: int)
    requires
        distinct_points(s),
        0 <= i < s.len(),
    ensures
        distinct_points(s.remove(i)),
{
    let t = s.remove(i);
    assert forall|a: int| 0 <= a < t.len() implies #[trigger] t[a] == s[if a < i {
        a
    } else {
        a + 1
    }] by {}
}

/// Putting an item in place of one at the same point keeps points distinct.
pub(crate) proof fn lemma_distinct_update<T: Vector>(s: Seq<T>, i: int, x: T)
    requires
        distinct_points(s),
        0 <= i < s.len(),
        s[i].point() == x.point(),
    ensures
        distinct_points(s.update(i, x)),
{
    let t = s.update(i, x);
    assert forall|a: int| 0 <= a < t.len() implies (#[trigger] t[a]).point() == s[a].point() by {}
}

/// A replacement in the middle part of a concatenation, between parts with
/// no item at the point, is a replacement in the whole.
pub(crate) proof fn lemma_replace_middle<T: Vector>(
    x: Seq<T>,
    y: Seq<T>,
    y1: Seq<T>,
    z: Seq<T>,
    item: T,
    r: Option<T>,
)
    requires
        !has_point(x, item.point()),
        !has_point(z, item.point()),
        replace_outcome(y, y1, item, r),
    ensures
        replace_outcome(x + y + z, x + y1 + z, item, r),
        (x + y1 + z).len() == (x + y + z).len(),
{
    let p = item.point();
    match r {
        None => {
            lemma_has_point_add(x, y, p);
            lemma_has_point_add(x + y, z, p);
        },
        Some(prev) => {
            let j = choose|j: int| first_at(y, p, j) && y[j] == prev && y1 == y.update(j, item);
            lemma_first_at_middle(x, y, z, p, j);
            assert(x + y1 + z =~= (x + y + z).update(x.len() + j, item));
        },
    }
}

/// The items of `s` whose point lies in `range`, in order.
pub open spec fn within<T: Vector>(s: Seq<T>, range: Rectangle) -> Seq<T> {
    s.filter(|t: T| range.covers(t.point()))
}

/// The values behind a sequence of references.
pub open spec fn derefs<T>(s: Seq<&T>) -> Seq<T> {
    s.map_values(|r: &T| *r)
}

/// Filtering keeps everything when every item lies in the range, and nothing
/// when none does.
pub(crate) proof fn lemma_within_all_or_none<T: Vector>(s: Seq<T>, range: Rectangle)
    ensures
        (forall|i: int| 0 <= i < s.len() ==> range.covers((#[trigger] s[i]).point())) ==> within(
            s,
            range,
        ) == s,
        (forall|i: int| 0 <= i < s.len() ==> !range.covers((#[trigger] s[i]).point())) ==> within(
            s,
            range,
        ) == Seq::<T>::empty(),
    decreases s.len(),
{
    if s.len() > 0 {
        let init = s.drop_last();
        lemma_within_all_or_none(init, range);
        assert(s == init.push(s.last()));
        init.lemma_filter_push(s.last(), |t: T| range.covers(t.point()));
        if forall|i: int| 0 <= i < s.len() ==> range.covers((#[trigger] s[i]).point()) {
            assert(forall|i: int| 0 <= i < init.len() ==> #[trigger] init[i] == s[i]);
        }
        if forall|i: int| 0 <= i < s.len() ==> !range.covers((#[trigger] s[i]).point()) {
            assert(forall|i: int| 0 <= i < init.len() ==> #[trigger] init[i] == s[i]);
        }
    } else {
        reveal(Seq::filter);
        assert(s =~= Seq::<T>::empty());
    }
}

/// A replacement in part `k` of an item sequence laid out as `a` followed by
/// four parts, where no other part holds an item at the point.
#[verifier::spinoff_prover]
pub(crate) proof fn lemma_replace_part<T: Vector>(
    a: Seq<T>,
    c: Seq<Seq<T>>,
    d: Seq<Seq<T>>,
    k: int,
    item: T,
    r: Option<T>,
)
    requires
        c.len() == 4,
        d.len() == 4,
        0 <= k < 4,
        !has_point(a, item.point()),
        forall|m: int| 0 <= m < 4 && m != k ==> #[trigger] d[m] == c[m] && !has_point(c[m], item.point()),
        replace_outcome(c[k], d[k], item, r),
    ensures
        replace_outcome(a + c[0] + c[1] + c[2] + c[3], a + d[0] + d[1] + d[2] + d[3], item, r),
        (a + d[0] + d[1] + d[2] + d[3]).len() == (a + c[0] + c[1] + c[2] + c[3]).len(),
{
    let p = item.point();
    let (c0, c1, c2, c3) = (c[0], c[1], c[2], c[3]);
    let (d0, d1, d2, d3) = (d[0], d[1], d[2], d[3]);
    if k == 0 {
        lemma_has_point_add(c1 + c2, c3, p);
        lemma_has_point_add(c1, c2, p);
        lemma_replace_middle(a, c0, d0, c1 + c2 + c3, item, r);
        assert(a + c0 + c1 + c2 + c3 =~= a + c0 + (c1 + c2 + c3));
        assert(a + d0 + c1 + c2 + c3 =~= a + d0 + (c1 + c2 + c3));
    } else if k == 1 {
        lemma_has_point_add(a, c0, p);
        lemma_has_point_add(c2, c3, p);
        lemma_replace_middle(a + c0, c1, d1, c2 + c3, item, r);
        assert(a + c0 + c1 + c2 + c3 =~= a + c0 + c1 + (c2 + c3));
        assert(a + c0 + d1 + c2 + c3 =~= a + c0 + d1 + (c2 + c3));
    } else if k == 2 {
        lemma_has_point_add(a, c0, p);
        lemma_has_point_add(a + c0, c1, p);
        lemma_replace_middle(a + c0 + c1, c2, d2, c3, item, r);
    } else {
        lemma_has_point_add(a, c0, p);
        lemma_has_point_add(a + c0, c1, p);
        lemma_has_point_add(a + c0 + c1, c2, p);
        lemma_replace_middle(a + c0 + c1 + c2, c3, d3, Seq::empty(), item, r);
        assert(a + c0 + c1 + c2 + c3 =~= a + c0 + c1 + c2 + c3 + Seq::empty());
        assert(a + c0 + c1 + c2 + d3 =~= a + c0 + c1 + c2 + d3 + Seq::empty());
    }
}

/// Putting an element into the middle part of a concatenation.
pub(crate) proof fn lemma_insert_middle<A>(x: Seq<A>, y: Seq<A>, z: Seq<A>, k: int, e: A)
    requires
        0 <= k <= y.len(),
    ensures
        x + y.insert(k, e) + z == (x + y + z).insert(x.len() + k, e),
{
    assert(x + y.insert(k, e) + z =~= (x + y + z).insert(x.len() + k, e));
}

/// Taking an element out of the middle part of a concatenation.
pub(crate) proof fn lemma_remove_middle<A>(x: Seq<A>, y: Seq<A>, z: Seq<A>, j: int)
    requires
        0 <= j < y.len(),
    ensures
        x + y.remove(j) + z == (x + y + z).remove(x.len() + j),
        (x + y + z)[x.len() + j] == y[j],
{
    assert(x + y.remove(j) + z =~= (x + y + z).remove(x.len() + j));
}

} // verus!
