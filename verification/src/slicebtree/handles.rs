//! Rows of persisted handles: whether they are valid in a pool, what they
//! denote there, and what retaining all of them does to the pool.

use crate::allocator::arc::PersistedArcByteSlice;
use crate::allocator::pool::Pool;
use crate::allocator::view::{chunk_size, PoolView};
use vstd::prelude::*;

verus! {

/// The handle `h` denotes an allocation of the pool `v`.
pub open spec fn handle_valid(v: PoolView, h: PersistedArcByteSlice) -> bool {
    v.is_valid(h.arc_inner_index as int, h.id_tag)
}

/// Every handle of the row `hs` denotes an allocation of the pool `v`.
pub open spec fn handles_valid(v: PoolView, hs: Seq<PersistedArcByteSlice>) -> bool {
    forall|i: int| 0 <= i < hs.len() ==> handle_valid(v, #[trigger] hs[i])
}

/// The bytes that the handle `h` denotes in the pool `v`.
pub open spec fn handle_bytes(v: PoolView, h: PersistedArcByteSlice) -> Seq<u8> {
    v.object(h.arc_inner_index as int).data
}

/// The bytes that the handles of the row `hs` denote in the pool `v`.
pub open spec fn row_bytes(v: PoolView, hs: Seq<PersistedArcByteSlice>) -> Seq<Seq<u8>> {
    Seq::new(hs.len(), |i: int| handle_bytes(v, hs[i]))
}

/// The pool `v` after one more strong reference to what each handle of the
/// row `hs` denotes, the first handle first.
pub open spec fn retained(v: PoolView, hs: Seq<PersistedArcByteSlice>) -> PoolView
    decreases hs.len(),
{
    if hs.len() == 0 {
        v
    } else {
        retained(v, hs.drop_last()).after_retain(hs.last().arc_inner_index as int)
    }
}

/// The pool `v` after the strong reference of each handle of the row `hs`
/// has been given back, the first handle first. A handle that is not valid
/// when its turn comes is passed over.
pub open spec fn released(v: PoolView, hs: Seq<PersistedArcByteSlice>) -> PoolView
    decreases hs.len(),
{
    if hs.len() == 0 {
        v
    } else {
        let u = released(v, hs.drop_last());
        if handle_valid(u, hs.last()) {
            u.after_release(hs.last().arc_inner_index as int)
        } else {
            u
        }
    }
}

/// The row `hs` after the strong reference of each of its handles has been
/// given back in the pool `v`: a handle that was valid when its turn came
/// denotes nothing any more.
pub open spec fn spent(v: PoolView, hs: Seq<PersistedArcByteSlice>) -> Seq<PersistedArcByteSlice> {
    Seq::new(
        hs.len(),
        |k: int|
            if handle_valid(released(v, hs.take(k)), hs[k]) {
                PersistedArcByteSlice::null()
            } else {
                hs[k]
            },
    )
}

/// The pool `w` has every allocation of the pool `v`, with the tag and the
/// payload it has there.
pub open spec fn keeps_all(v: PoolView, w: PoolView) -> bool {
    forall|x: int| v.is_live(x) ==> #[trigger] v.same_payload(w, x)
}

/// A pool that keeps the allocations of another keeps its valid handles
/// valid, and what they denote.
pub proof fn lemma_kept_row(v: PoolView, w: PoolView, hs: Seq<PersistedArcByteSlice>)
    requires
        keeps_all(v, w),
        handles_valid(v, hs),
    ensures
        handles_valid(w, hs),
        row_bytes(w, hs) == row_bytes(v, hs),
{
    assert forall|i: int| 0 <= i < hs.len() implies handle_valid(w, #[trigger] hs[i])
        && handle_bytes(w, hs[i]) == handle_bytes(v, hs[i]) by {
        assert(handle_valid(v, hs[i]));
        assert(v.same_payload(w, hs[i].arc_inner_index as int));
    }
    assert(row_bytes(w, hs) =~= row_bytes(v, hs));
}

/// Keeping allocations carries over from one pool to the next.
pub proof fn lemma_keeps_all_trans(u: PoolView, v: PoolView, w: PoolView)
    requires
        keeps_all(u, v),
        keeps_all(v, w),
    ensures
        keeps_all(u, w),
{
    assert forall|x: int| u.is_live(x) implies #[trigger] u.same_payload(w, x) by {
        assert(u.same_payload(v, x));
        assert(v.same_payload(w, x));
    }
}

/// One more strong reference keeps every allocation, and the pool
/// well-formed.
pub proof fn lemma_retain_keeps_all(v: PoolView, y: int)
    requires
        v.wf(),
        v.is_live(y),
    ensures
        v.after_retain(y).wf(),
        keeps_all(v, v.after_retain(y)),
{
    let i = v.index_of(y);
    assert(v.has_object(i, y));
    v.lemma_with_strong(i, PoolView::raised(v.blocks[i].strong));
    assert forall|x: int| v.is_live(x) implies #[trigger] v.same_payload(v.after_retain(y), x) by {
        v.lemma_retain_keeps(y, x);
    }
}

/// An allocation keeps every allocation there was.
pub proof fn lemma_malloc_keeps_all(v: PoolView, i: int, size: usize, data: Seq<u8>)
    requires
        v.wf(),
        0 <= i < v.blocks.len(),
        v.fits(i, chunk_size(size as int)),
        data.len() == size,
        v.next_id_tag < usize::MAX,
    ensures
        v.after_malloc(i, size, data).wf(),
        keeps_all(v, v.after_malloc(i, size, data)),
{
    v.lemma_after_malloc(i, size, data);
    assert forall|x: int| v.is_live(x) implies #[trigger] v.same_payload(
        v.after_malloc(i, size, data),
        x,
    ) by {
        v.lemma_malloc_keeps(i, size, data, x);
    }
}

/// Retaining a row of valid handles keeps every allocation, and the pool
/// well-formed.
pub proof fn lemma_retained(v: PoolView, hs: Seq<PersistedArcByteSlice>)
    requires
        v.wf(),
        handles_valid(v, hs),
    ensures
        retained(v, hs).wf(),
        keeps_all(v, retained(v, hs)),
    decreases hs.len(),
{
    if hs.len() > 0 {
        let head = hs.drop_last();
        let u = retained(v, head);
        assert forall|i: int| 0 <= i < head.len() implies handle_valid(v, #[trigger] head[i]) by {
            assert(head[i] == hs[i]);
        }
        lemma_retained(v, head);
        assert(handle_valid(v, hs[hs.len() - 1]));
        let y = hs.last().arc_inner_index as int;
        assert(v.same_payload(u, y));
        lemma_retain_keeps_all(u, y);
        lemma_keeps_all_trans(v, u, u.after_retain(y));
    }
}

/// Whether every handle of the row `hs` denotes an allocation of the pool.
pub fn all_valid(pool: &Pool, hs: &Vec<PersistedArcByteSlice>) -> (valid: bool)
    requires
        pool.inv(),
    ensures
        valid == handles_valid(pool@, hs@),
{
    let mut k: usize = 0;
    while k < hs.len()
        invariant
            k <= hs@.len(),
            pool.inv(),
            forall|i: int| 0 <= i < k ==> handle_valid(pool@, #[trigger] hs@[i]),
        decreases hs@.len() - k,
    {
        if !pool.is_valid(&hs[k]) {
            assert(!handle_valid(pool@, hs@[k as int]));
            return false;
        }
        k += 1;
    }
    true
}

/// Takes one more strong reference to what each handle of the row `hs`
/// denotes.
pub fn retain_all(pool: &mut Pool, hs: &Vec<PersistedArcByteSlice>)
    requires
        old(pool).wf(),
        handles_valid(old(pool)@, hs@),
    ensures
        final(pool).wf(),
        final(pool)@ == retained(old(pool)@, hs@),
{
    let mut k: usize = 0;
    while k < hs.len()
        invariant
            k <= hs@.len(),
            pool.wf(),
            old(pool).wf(),
            handles_valid(old(pool)@, hs@),
            pool@ == retained(old(pool)@, hs@.take(k as int)),
        decreases hs@.len() - k,
    {
        proof {
            let head = hs@.take(k as int);
            assert forall|i: int| 0 <= i < head.len() implies handle_valid(
                old(pool)@,
                #[trigger] head[i],
            ) by {
                assert(head[i] == hs@[i]);
            }
            lemma_retained(old(pool)@, head);
            assert(handle_valid(old(pool)@, hs@[k as int]));
            assert(old(pool)@.same_payload(pool@, hs@[k as int].arc_inner_index as int));
            assert(hs@.take(k + 1).drop_last() =~= head);
        }
        pool.retain(hs[k].arc_inner_index);
        k += 1;
    }
    assert(hs@.take(k as int) =~= hs@);
}

/// Giving back a strong reference that is not the last one keeps every
/// allocation, and the pool well-formed.
pub proof fn lemma_release_keeps_all(v: PoolView, y: int)
    requires
        v.wf(),
        v.is_live(y),
        !v.frees(y),
    ensures
        v.after_release(y).wf(),
        keeps_all(v, v.after_release(y)),
{
    let i = v.index_of(y);
    assert(v.has_object(i, y));
    if v.blocks[i].strong != usize::MAX {
        v.lemma_with_strong(i, (v.blocks[i].strong - 1) as usize);
    }
    assert forall|x: int| v.is_live(x) implies #[trigger] v.same_payload(v.after_release(y), x) by {
        v.lemma_release_keeps(y, x);
    }
}

/// Retaining a row of valid handles lowers no strong count, raises one by
/// no more than there are handles, and raises that of what one of the
/// handles denotes.
pub proof fn lemma_retained_strong(v: PoolView, hs: Seq<PersistedArcByteSlice>, x: int)
    requires
        v.wf(),
        handles_valid(v, hs),
        v.is_live(x),
    ensures
        retained(v, hs).object(x).strong >= v.object(x).strong,
        retained(v, hs).object(x).strong <= v.object(x).strong + hs.len(),
        (exists|i: int| 0 <= i < hs.len() && hs[i].arc_inner_index == x) && v.object(x).strong
            < usize::MAX ==> retained(v, hs).object(x).strong > v.object(x).strong,
    decreases hs.len(),
{
    if hs.len() > 0 {
        let head = hs.drop_last();
        let u = retained(v, head);
        let y = hs.last().arc_inner_index as int;
        assert forall|i: int| 0 <= i < head.len() implies handle_valid(v, #[trigger] head[i]) by {
            assert(head[i] == hs[i]);
        }
        lemma_retained(v, head);
        lemma_retained_strong(v, head, x);
        assert(handle_valid(v, hs[hs.len() - 1]));
        assert(v.same_payload(u, y));
        assert(v.same_payload(u, x));
        u.lemma_retain_keeps(y, x);
        if exists|i: int| 0 <= i < hs.len() && hs[i].arc_inner_index == x {
            let i = choose|i: int| 0 <= i < hs.len() && hs[i].arc_inner_index == x;
            if i < head.len() {
                assert(head[i] == hs[i]);
            }
        }
    }
}

/// Gives back the strong reference of each handle of the row `hs`, the
/// first handle first, and makes each of them the handle that denotes
/// nothing. A handle that is not valid when its turn comes is passed over.
pub fn release_all(pool: &mut Pool, hs: &mut Vec<PersistedArcByteSlice>)
    requires
        old(pool).wf(),
    ensures
        final(pool).wf(),
        final(pool)@ == released(old(pool)@, old(hs)@),
        final(hs)@ == spent(old(pool)@, old(hs)@),
{
    let mut k: usize = 0;
    while k < hs.len()
        invariant
            k <= hs@.len(),
            hs@.len() == old(hs)@.len(),
            pool.wf(),
            pool@ == released(old(pool)@, old(hs)@.take(k as int)),
            forall|j: int| 0 <= j < k ==> hs@[j] == spent(old(pool)@, old(hs)@)[j],
            forall|j: int| k <= j < hs@.len() ==> hs@[j] == old(hs)@[j],
        decreases hs@.len() - k,
    {
        let mut handle = PersistedArcByteSlice {
            arc_inner_index: hs[k].arc_inner_index,
            id_tag: hs[k].id_tag,
        };
        proof {
            assert(old(hs)@.take(k + 1).drop_last() =~= old(hs)@.take(k as int));
            assert(old(hs)@.take(k + 1).last() == old(hs)@[k as int]);
        }
        let _ = handle.release(pool);
        hs.set(k, handle);
        k += 1;
    }
    assert(old(hs)@.take(k as int) =~= old(hs)@);
    assert(hs@ =~= spent(old(pool)@, old(hs)@));
}

/// How many handles of the row `hs` name the object at `x`.
pub open spec fn occ(hs: Seq<PersistedArcByteSlice>, x: int) -> int
    decreases hs.len(),
{
    if hs.len() == 0 {
        0
    } else {
        occ(hs.drop_last(), x) + if hs.last().arc_inner_index == x {
            1int
        } else {
            0int
        }
    }
}

/// The strong count `strong` covers `need` references: it is that high, or
/// has reached the largest number, where it stays.
pub open spec fn count_ok(strong: usize, need: int) -> bool {
    strong == usize::MAX || strong >= need
}

/// No row names an object more often than it has handles, nor fewer than
/// no times.
pub proof fn lemma_occ_bounds(hs: Seq<PersistedArcByteSlice>, x: int)
    ensures
        0 <= occ(hs, x) <= hs.len(),
    decreases hs.len(),
{
    if hs.len() > 0 {
        lemma_occ_bounds(hs.drop_last(), x);
    }
}

/// An object that a row names at `i` is named once at least.
pub proof fn lemma_occ_has(hs: Seq<PersistedArcByteSlice>, i: int)
    requires
        0 <= i < hs.len(),
    ensures
        occ(hs, hs[i].arc_inner_index as int) >= 1,
    decreases hs.len(),
{
    lemma_occ_bounds(hs.drop_last(), hs[i].arc_inner_index as int);
    if i < hs.len() - 1 {
        assert(hs.drop_last()[i] == hs[i]);
        lemma_occ_has(hs.drop_last(), i);
    }
}

/// An object that no handle of a row names is named no times.
pub proof fn lemma_occ_none(hs: Seq<PersistedArcByteSlice>, x: int)
    requires
        forall|i: int| 0 <= i < hs.len() ==> (#[trigger] hs[i]).arc_inner_index != x,
    ensures
        occ(hs, x) == 0,
    decreases hs.len(),
{
    if hs.len() > 0 {
        assert forall|i: int| 0 <= i < hs.drop_last().len() implies (
        #[trigger] hs.drop_last()[i]).arc_inner_index != x by {
            assert(hs.drop_last()[i] == hs[i]);
        }
        lemma_occ_none(hs.drop_last(), x);
        assert(hs[hs.len() - 1].arc_inner_index != x);
    }
}

/// A row followed by another names an object as often as the two do
/// together.
pub proof fn lemma_occ_add(a: Seq<PersistedArcByteSlice>, b: Seq<PersistedArcByteSlice>, x: int)
    ensures
        occ(a + b, x) == occ(a, x) + occ(b, x),
    decreases b.len(),
{
    if b.len() == 0 {
        assert(a + b =~= a);
    } else {
        assert((a + b).drop_last() =~= a + b.drop_last());
        assert((a + b).last() == b.last());
        lemma_occ_add(a, b.drop_last(), x);
    }
}

/// A row with a handle put in names the object of that handle once more,
/// and every other object as often as before.
pub proof fn lemma_occ_insert(
    hs: Seq<PersistedArcByteSlice>,
    i: int,
    h: PersistedArcByteSlice,
    x: int,
)
    requires
        0 <= i <= hs.len(),
    ensures
        occ(hs.insert(i, h), x) == occ(hs, x) + if h.arc_inner_index == x {
            1int
        } else {
            0int
        },
{
    let a = hs.subrange(0, i);
    let b = hs.subrange(i, hs.len() as int);
    assert(hs =~= a + b);
    assert(hs.insert(i, h) =~= a.push(h) + b);
    lemma_occ_add(a, b, x);
    lemma_occ_add(a.push(h), b, x);
    assert(a.push(h).drop_last() =~= a);
}

/// A row with a handle taken out names the object of that handle once less,
/// and every other object as often as before.
pub proof fn lemma_occ_remove(hs: Seq<PersistedArcByteSlice>, i: int, x: int)
    requires
        0 <= i < hs.len(),
    ensures
        occ(hs.remove(i), x) == occ(hs, x) - if hs[i].arc_inner_index == x {
            1int
        } else {
            0int
        },
{
    let a = hs.subrange(0, i);
    let b = hs.subrange(i + 1, hs.len() as int);
    assert(hs =~= a.push(hs[i]) + b);
    assert(hs.remove(i) =~= a + b);
    lemma_occ_add(a, b, x);
    lemma_occ_add(a.push(hs[i]), b, x);
    assert(a.push(hs[i]).drop_last() =~= a);
}

/// A row with the handle at `i` replaced names the object of the old handle
/// once less and that of the new one once more.
pub proof fn lemma_occ_update(
    hs: Seq<PersistedArcByteSlice>,
    i: int,
    h: PersistedArcByteSlice,
    x: int,
)
    requires
        0 <= i < hs.len(),
    ensures
        occ(hs.update(i, h), x) == occ(hs, x) - (if hs[i].arc_inner_index == x {
            1int
        } else {
            0int
        }) + if h.arc_inner_index == x {
            1int
        } else {
            0int
        },
{
    assert(hs.update(i, h) =~= hs.remove(i).insert(i, h));
    lemma_occ_remove(hs, i, x);
    lemma_occ_insert(hs.remove(i), i, h, x);
}

/// Retaining a row of valid handles raises the count of an object by the
/// number of times that the row names it.
pub proof fn lemma_retained_count(v: PoolView, hs: Seq<PersistedArcByteSlice>, x: int, base: int)
    requires
        v.wf(),
        handles_valid(v, hs),
        v.is_live(x),
        count_ok(v.object(x).strong, base),
    ensures
        retained(v, hs).is_live(x),
        count_ok(retained(v, hs).object(x).strong, base + occ(hs, x)),
    decreases hs.len(),
{
    if hs.len() > 0 {
        let head = hs.drop_last();
        let u = retained(v, head);
        let y = hs.last().arc_inner_index as int;
        assert forall|i: int| 0 <= i < head.len() implies handle_valid(v, #[trigger] head[i]) by {
            assert(head[i] == hs[i]);
        }
        lemma_retained(v, head);
        lemma_retained_count(v, head, x, base);
        assert(handle_valid(v, hs[hs.len() - 1]));
        assert(v.same_payload(u, y));
        assert(v.same_payload(u, x));
        u.lemma_retain_keeps(y, x);
    }
}

/// Giving back the references of a row leaves the pool well-formed, and
/// keeps an object whose count covers the times that the row names it and
/// one reference more.
pub proof fn lemma_released_count(v: PoolView, hs: Seq<PersistedArcByteSlice>, x: int, rest: int)
    requires
        v.wf(),
        v.is_live(x),
        rest >= 1,
        count_ok(v.object(x).strong, occ(hs, x) + rest),
    ensures
        released(v, hs).wf(),
        v.same_payload(released(v, hs), x),
        count_ok(released(v, hs).object(x).strong, rest),
    decreases hs.len(),
{
    if hs.len() > 0 {
        let head = hs.drop_last();
        let u = released(v, head);
        let y = hs.last().arc_inner_index as int;
        let more = if y == x {
            rest + 1
        } else {
            rest
        };
        lemma_released_count(v, head, x, more);
        if handle_valid(u, hs.last()) {
            u.lemma_after_release(y);
            u.lemma_release_keeps(y, x);
        }
    }
}

/// An object that a row names once at least is named by one of its
/// handles.
pub proof fn lemma_occ_pos(hs: Seq<PersistedArcByteSlice>, x: int) -> (i: int)
    requires
        occ(hs, x) >= 1,
    ensures
        0 <= i < hs.len(),
        hs[i].arc_inner_index == x,
    decreases hs.len(),
{
    if hs.last().arc_inner_index == x {
        hs.len() - 1
    } else {
        let i = lemma_occ_pos(hs.drop_last(), x);
        assert(hs.drop_last()[i] == hs[i]);
        i
    }
}

/// An object that a row of valid handles names is alive.
pub proof fn lemma_named_live(v: PoolView, hs: Seq<PersistedArcByteSlice>, x: int)
    requires
        handles_valid(v, hs),
        occ(hs, x) >= 1,
    ensures
        v.is_live(x),
{
    let i = lemma_occ_pos(hs, x);
    assert(handle_valid(v, hs[i]));
}

/// One more reference to the object at `y` raises its count by one and
/// leaves every other count as it is.
pub proof fn lemma_retain_count(v: PoolView, y: int, x: int, base: int)
    requires
        v.wf(),
        v.is_live(y),
        v.is_live(x),
        count_ok(v.object(x).strong, base),
    ensures
        v.after_retain(y).wf(),
        v.same_payload(v.after_retain(y), x),
        count_ok(v.after_retain(y).object(x).strong, base + if x == y {
            1int
        } else {
            0int
        }),
{
    lemma_retain_keeps_all(v, y);
    v.lemma_retain_keeps(y, x);
}

/// Giving back a reference to the object at `y` lowers its count by one at
/// most and leaves every other count as it is. An object whose count
/// covers that and a reference besides is kept.
pub proof fn lemma_release_count(v: PoolView, y: int, x: int, rest: int)
    requires
        v.wf(),
        v.is_live(y),
        v.is_live(x),
        rest >= 1,
        count_ok(v.object(x).strong, rest + if x == y {
            1int
        } else {
            0int
        }),
    ensures
        v.after_release(y).wf(),
        v.same_payload(v.after_release(y), x),
        count_ok(v.after_release(y).object(x).strong, rest),
{
    v.lemma_after_release(y);
    v.lemma_release_keeps(y, x);
}

} // verus!
