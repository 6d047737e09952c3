//! Small helpers.

use vstd::prelude::*;

verus! {

/// The pairs of `l` and `r` position by position, as long as the longer of
/// the two, `None` standing for a missing element.
pub open spec fn zipped<A, B>(l: Seq<A>, r: Seq<B>) -> Seq<(Option<A>, Option<B>)> {
    Seq::new(
        if l.len() >= r.len() { l.len() } else { r.len() },
        |i: int| (padded(l, i), padded(r, i)),
    )
}

/// The element of `s` at `i`, or `None` past its end.
pub open spec fn padded<T>(s: Seq<T>, i: int) -> Option<T> {
    if 0 <= i < s.len() {
        Some(s[i])
    } else {
        None
    }
}

/// The values of the `Some` elements of `s`, in order.
pub open spec fn somes<T>(s: Seq<Option<T>>) -> Seq<T>
    decreases s.len(),
{
    if s.len() == 0 {
        Seq::empty()
    } else {
        match s.last() {
            Some(x) => somes(s.drop_last()).push(x),
            None => somes(s.drop_last()),
        }
    }
}

/// Pairs the elements of two vectors position by position, as long as the
/// longer one: a missing element on either side is `None`.
pub fn zip_longest<A, B>(left: Vec<A>, right: Vec<B>) -> (r: Vec<(Option<A>, Option<B>)>)
    ensures
        r@ == zipped(left@, right@),
        r@.len() == if left@.len() >= right@.len() { left@.len() } else { right@.len() },
        forall|i: int| 0 <= i < r@.len() ==> (#[trigger] r@[i]).0 == if i < left@.len() {
            Some(left@[i])
        } else {
            None
        },
        forall|i: int| 0 <= i < r@.len() ==> (#[trigger] r@[i]).1 == if i < right@.len() {
            Some(right@[i])
        } else {
            None
        },
{
    let ghost l0 = left@;
    let ghost r0 = right@;
    let mut left = left;
    let mut right = right;
    let mut out: Vec<(Option<A>, Option<B>)> = Vec::new();
    let mut i: usize = 0;
    let ln = left.len();
    let rn = right.len();
    assert(ln == l0.len() && rn == r0.len());
    assert(l0.skip(0) =~= l0);
    assert(r0.skip(0) =~= r0);
    while left.len() > 0 || right.len() > 0
        invariant
            l0.len() <= usize::MAX,
            r0.len() <= usize::MAX,
            left@ == l0.skip(if i <= l0.len() { i as int } else { l0.len() as int }),
            right@ == r0.skip(if i <= r0.len() { i as int } else { r0.len() as int }),
            out@.len() == i,
            i <= l0.len() || i <= r0.len(),
            forall|k: int| 0 <= k < i ==> (#[trigger] out@[k]).0 == if k < l0.len() {
                Some(l0[k])
            } else {
                None
            },
            forall|k: int| 0 <= k < i ==> (#[trigger] out@[k]).1 == if k < r0.len() {
                Some(r0[k])
            } else {
                None
            },
        decreases left@.len() + right@.len(),
    {
        proof {
            if i >= l0.len() {
                assert(left@.len() == 0);
            }
            if i >= r0.len() {
                assert(right@.len() == 0);
            }
        }
        let a = if left.len() > 0 {
            Some(left.remove(0))
        } else {
            None
        };
        let b = if right.len() > 0 {
            Some(right.remove(0))
        } else {
            None
        };
        out.push((a, b));
        proof {
            if i < l0.len() {
                assert(l0.skip(i as int).drop_first() =~= l0.skip(i + 1));
            }
            if i < r0.len() {
                assert(r0.skip(i as int).drop_first() =~= r0.skip(i + 1));
            }
        }
        i = i + 1;
    }
    assert(out@ =~= zipped(l0, r0));
    out
}

} // verus!
