//! The participants' records, kept in the order of their addresses.
//!
//! The model of the store is the sequence of its records in ascending order of
//! address, each address at most once. Looking a record up, putting one in and
//! taking one out are defined on that sequence, and the executable store is
//! proved to do the same.

use crate::address::{
    lemma_lex_asymmetric, lemma_lex_irreflexive, lemma_lex_total, lemma_lex_transitive, lex_less,
    Address, Rank,
};
use crate::state::{address_opt_view, clone_stakers, stakers_view, StakerInfo, StakerView};
use vstd::prelude::*;

verus! {

/// The records stand in strictly ascending order of address.
pub open spec fn sorted(s: Seq<StakerView>) -> bool {
    forall|i: int, j: int|
        #![trigger s[i], s[j]]
        0 <= i < j < s.len() ==> lex_less(s[i].address, s[j].address)
}

/// `k` parts the records into those whose address precedes `a` and the rest.
pub open spec fn is_position(s: Seq<StakerView>, a: Seq<u8>, k: int) -> bool {
    &&& 0 <= k <= s.len()
    &&& forall|i: int| #![trigger s[i]] 0 <= i < k ==> lex_less(s[i].address, a)
    &&& forall|i: int| #![trigger s[i]] k <= i < s.len() ==> !lex_less(s[i].address, a)
}

/// The number of records whose address precedes `a`: where a record for `a`
/// stands, or would stand.
pub open spec fn position(s: Seq<StakerView>, a: Seq<u8>) -> int {
    choose|k: int| is_position(s, a, k)
}

/// Whether the store has a record for `a`.
pub open spec fn holds(s: Seq<StakerView>, a: Seq<u8>) -> bool {
    position(s, a) < s.len() && s[position(s, a)].address == a
}

/// The record for `a`, if there is one.
pub open spec fn lookup(s: Seq<StakerView>, a: Seq<u8>) -> Option<StakerView> {
    if holds(s, a) {
        Some(s[position(s, a)])
    } else {
        None
    }
}

/// The store with `e` as the record for `e.address`, in place of an earlier one
/// or newly inserted at its position.
pub open spec fn put(s: Seq<StakerView>, e: StakerView) -> Seq<StakerView> {
    if holds(s, e.address) {
        s.update(position(s, e.address), e)
    } else {
        s.insert(position(s, e.address), e)
    }
}

/// The store without a record for `a`.
pub open spec fn delete(s: Seq<StakerView>, a: Seq<u8>) -> Seq<StakerView> {
    if holds(s, a) {
        s.remove(position(s, a))
    } else {
        s
    }
}

/// The index of the first record whose address follows the cursor; with no
/// cursor, the first record.
pub open spec fn first_after(s: Seq<StakerView>, cursor: Option<Seq<u8>>) -> int {
    match cursor {
        None => 0,
        Some(c) => if holds(s, c) {
            position(s, c) + 1
        } else {
            position(s, c)
        },
    }
}

/// The records that follow the cursor, in order, `limit` of them at most.
pub open spec fn page_of(s: Seq<StakerView>, cursor: Option<Seq<u8>>, limit: nat) -> Seq<
    StakerView,
> {
    let start = first_after(s, cursor);
    let end = if start + limit < s.len() {
        start + limit
    } else {
        s.len() as int
    };
    s.subrange(start, end)
}

/// The index behind the last record of the batch that follows the cursor: with
/// a limit, behind that many records at most; without, behind the last record.
pub open spec fn batch_end(s: Seq<StakerView>, cursor: Option<Seq<u8>>, limit: Option<u32>) -> int {
    let start = first_after(s, cursor);
    match limit {
        Some(n) => if start + n < s.len() {
            start + n
        } else {
            s.len() as int
        },
        None => s.len() as int,
    }
}

/// The store without the batch that follows the cursor: the records up to the
/// cursor stay, and so do those behind the batch.
pub open spec fn without_batch(
    s: Seq<StakerView>,
    cursor: Option<Seq<u8>>,
    limit: Option<u32>,
) -> Seq<StakerView> {
    s.take(first_after(s, cursor)) + s.skip(batch_end(s, cursor, limit))
}

/// The sum of `f` over the records.
pub open spec fn total(s: Seq<StakerView>, f: spec_fn(StakerView) -> nat) -> nat
    decreases s.len(),
{
    if s.len() == 0 {
        0
    } else {
        total(s.drop_last(), f) + f(s.last())
    }
}

/// The sum of the staked amounts of all records.
pub open spec fn total_staked(s: Seq<StakerView>) -> nat {
    total(s, |e: StakerView| e.staked_amount)
}

/// The sum of the accrued rewards of all records.
pub open spec fn total_reward(s: Seq<StakerView>) -> nat {
    total(s, |e: StakerView| e.accrued_reward)
}

/// A position is the only one.
pub proof fn lemma_position_unique(s: Seq<StakerView>, a: Seq<u8>, k: int)
    requires
        is_position(s, a, k),
    ensures
        position(s, a) == k,
{
    let p = position(s, a);
    assert(is_position(s, a, p));
    if p < k {
        assert(lex_less(s[p].address, a));
    } else if k < p {
        assert(lex_less(s[k].address, a));
    }
}

/// In an ordered store every address has a position.
pub proof fn lemma_position(s: Seq<StakerView>, a: Seq<u8>)
    requires
        sorted(s),
    ensures
        is_position(s, a, position(s, a)),
    decreases s.len(),
{
    if s.len() == 0 {
        assert(is_position(s, a, 0));
    } else {
        let t = s.drop_last();
        assert forall|i: int, j: int| 0 <= i < j < t.len() implies lex_less(
            t[i].address,
            t[j].address,
        ) by {
            assert(t[i] == s[i] && t[j] == s[j]);
        }
        lemma_position(t, a);
        let k = position(t, a);
        if lex_less(s.last().address, a) {
            assert forall|i: int| 0 <= i < s.len() implies lex_less(s[i].address, a) by {
                if i < s.len() - 1 {
                    assert(lex_less(s[i].address, s[s.len() - 1].address));
                    lemma_lex_transitive(s[i].address, s.last().address, a);
                }
            }
            assert(is_position(s, a, s.len() as int));
        } else {
            assert forall|i: int| 0 <= i < k implies lex_less(s[i].address, a) by {
                assert(t[i] == s[i]);
            }
            assert forall|i: int| k <= i < s.len() implies !lex_less(s[i].address, a) by {
                if i < t.len() {
                    assert(t[i] == s[i]);
                }
            }
            assert(is_position(s, a, k));
        }
    }
}

/// In an ordered store the record at index `i` is the one that is found under
/// its address.
pub proof fn lemma_lookup_index(s: Seq<StakerView>, i: int)
    requires
        sorted(s),
        0 <= i < s.len(),
    ensures
        position(s, s[i].address) == i,
        lookup(s, s[i].address) == Some(s[i]),
{
    let a = s[i].address;
    assert forall|j: int| i <= j < s.len() implies !lex_less(s[j].address, a) by {
        if j == i {
            lemma_lex_irreflexive(a);
        } else {
            assert(lex_less(s[i].address, s[j].address));
            lemma_lex_asymmetric(a, s[j].address);
        }
    }
    assert(is_position(s, a, i));
    lemma_position_unique(s, a, i);
}

/// A record is found under an address exactly if it stands in the store with
/// that address.
pub proof fn lemma_lookup_member(s: Seq<StakerView>, a: Seq<u8>)
    requires
        sorted(s),
    ensures
        lookup(s, a) is Some <==> exists|i: int| 0 <= i < s.len() && #[trigger] s[i].address == a,
        lookup(s, a) is Some ==> lookup(s, a)->0.address == a,
{
    if exists|i: int| 0 <= i < s.len() && #[trigger] s[i].address == a {
        let i = choose|i: int| 0 <= i < s.len() && #[trigger] s[i].address == a;
        lemma_lookup_index(s, i);
    }
    if lookup(s, a) is Some {
        lemma_position(s, a);
        let k = position(s, a);
        assert(s[k].address == a);
    }
}

/// Where the other addresses stand once `e` has been put in, and that the
/// order is kept.
pub proof fn lemma_put(s: Seq<StakerView>, e: StakerView)
    requires
        sorted(s),
    ensures
        sorted(put(s, e)),
        position(put(s, e), e.address) == position(s, e.address),
        lookup(put(s, e), e.address) == Some(e),
        put(s, e).len() == if holds(s, e.address) { s.len() } else { s.len() + 1 },
{
    let a = e.address;
    let k = position(s, a);
    let t = put(s, e);
    lemma_position(s, a);
    lemma_lex_irreflexive(a);
    if holds(s, a) {
        assert forall|i: int, j: int| 0 <= i < j < t.len() implies lex_less(
            t[i].address,
            t[j].address,
        ) by {
            assert(lex_less(s[i].address, s[j].address));
        }
        assert forall|i: int| k <= i < t.len() implies !lex_less(t[i].address, a) by {
            if i > k {
                assert(lex_less(s[k].address, s[i].address));
                lemma_lex_asymmetric(a, s[i].address);
            }
        }
        assert forall|i: int| 0 <= i < k implies lex_less(t[i].address, a) by {
            assert(lex_less(s[i].address, s[k].address));
        }
        assert(is_position(t, a, k));
    } else {
        assert forall|i: int| k <= i < s.len() implies lex_less(a, s[i].address) by {
            assert(!lex_less(s[i].address, a));
            lemma_lex_total(a, s[i].address);
            if s[i].address == a {
                if i > k {
                    assert(lex_less(s[k].address, s[i].address));
                    assert(!lex_less(s[k].address, a));
                }
            }
        }
        assert forall|i: int, j: int| 0 <= i < j < t.len() implies lex_less(
            t[i].address,
            t[j].address,
        ) by {
            if j < k {
                assert(lex_less(s[i].address, s[j].address));
            } else if j == k {
                assert(lex_less(s[i].address, a));
            } else if i < k {
                assert(lex_less(s[i].address, a));
                assert(lex_less(a, s[j - 1].address));
                lemma_lex_transitive(s[i].address, a, s[j - 1].address);
            } else if i == k {
                assert(lex_less(a, s[j - 1].address));
            } else {
                assert(lex_less(s[i - 1].address, s[j - 1].address));
            }
        }
        assert forall|i: int| k <= i < t.len() implies !lex_less(t[i].address, a) by {
            if i > k {
                assert(lex_less(a, s[i - 1].address));
                lemma_lex_asymmetric(a, s[i - 1].address);
            }
        }
        assert forall|i: int| 0 <= i < k implies lex_less(t[i].address, a) by {
            assert(lex_less(s[i].address, a));
        }
        assert(is_position(t, a, k));
    }
    lemma_position_unique(t, a, k);
}

/// Putting a record in leaves the records of all other addresses as they were.
pub proof fn lemma_put_other(s: Seq<StakerView>, e: StakerView, b: Seq<u8>)
    requires
        sorted(s),
        b != e.address,
    ensures
        lookup(put(s, e), b) == lookup(s, b),
{
    let a = e.address;
    let k = position(s, a);
    let t = put(s, e);
    lemma_put(s, e);
    lemma_position(s, a);
    lemma_position(s, b);
    lemma_position(t, b);
    let p = position(s, b);
    if holds(s, a) {
        assert forall|i: int| 0 <= i < p implies lex_less(t[i].address, b) by {
            assert(lex_less(s[i].address, b));
        }
        assert forall|i: int| p <= i < t.len() implies !lex_less(t[i].address, b) by {
            assert(!lex_less(s[i].address, b));
        }
        assert(is_position(t, b, p));
        lemma_position_unique(t, b, p);
    } else {
        lemma_lex_total(a, b);
        if lex_less(b, a) {
            // b stands before the new record
            assert(p <= k) by {
                if k < p {
                    assert(lex_less(s[k].address, b));
                    assert(!lex_less(s[k].address, a));
                    lemma_lex_transitive(s[k].address, b, a);
                }
            }
            assert forall|i: int| 0 <= i < p implies lex_less(t[i].address, b) by {
                assert(lex_less(s[i].address, b));
            }
            assert forall|i: int| p <= i < t.len() implies !lex_less(t[i].address, b) by {
                if i < k {
                    assert(!lex_less(s[i].address, b));
                } else if i == k {
                    lemma_lex_asymmetric(b, a);
                } else {
                    assert(!lex_less(s[i - 1].address, b));
                }
            }
            assert(is_position(t, b, p));
            lemma_position_unique(t, b, p);
            if p < k {
                assert(t[p] == s[p]);
            } else {
                assert(t[p] == e);
                if p < s.len() {
                    // s[p] does not precede a and is not b either
                    assert(!lex_less(s[p].address, a));
                    if s[p].address == b {
                        assert(false);
                    }
                }
            }
        } else {
            // b stands behind the new record
            assert(k <= p) by {
                if p < k {
                    assert(lex_less(s[p].address, a));
                    assert(!lex_less(s[p].address, b));
                    lemma_lex_transitive(s[p].address, a, b);
                }
            }
            assert forall|i: int| 0 <= i < p + 1 implies lex_less(t[i].address, b) by {
                if i < k {
                    assert(lex_less(s[i].address, b));
                } else if i > k {
                    assert(lex_less(s[i - 1].address, b));
                }
            }
            assert forall|i: int| p + 1 <= i < t.len() implies !lex_less(t[i].address, b) by {
                assert(!lex_less(s[i - 1].address, b));
            }
            assert(is_position(t, b, p + 1));
            lemma_position_unique(t, b, p + 1);
            if p < s.len() {
                assert(t[p + 1] == s[p]);
            }
        }
    }
}

/// Taking a record out keeps the order, removes that record and no other.
pub proof fn lemma_delete(s: Seq<StakerView>, a: Seq<u8>)
    requires
        sorted(s),
    ensures
        sorted(delete(s, a)),
        lookup(delete(s, a), a) is None,
        delete(s, a).len() == if holds(s, a) { s.len() - 1 } else { s.len() as int },
{
    let k = position(s, a);
    let t = delete(s, a);
    lemma_position(s, a);
    if holds(s, a) {
        assert forall|i: int, j: int| 0 <= i < j < t.len() implies lex_less(
            t[i].address,
            t[j].address,
        ) by {
            let i0 = if i < k { i } else { i + 1 };
            let j0 = if j < k { j } else { j + 1 };
            assert(lex_less(s[i0].address, s[j0].address));
        }
        assert forall|i: int| 0 <= i < k implies lex_less(t[i].address, a) by {
            assert(lex_less(s[i].address, a));
        }
        assert forall|i: int| k <= i < t.len() implies !lex_less(t[i].address, a) by {
            assert(!lex_less(s[i + 1].address, a));
        }
        assert(is_position(t, a, k));
        lemma_position_unique(t, a, k);
        if k < t.len() {
            assert(lex_less(s[k].address, s[k + 1].address));
            lemma_lex_irreflexive(a);
        }
    }
}

/// Taking a record out leaves the records of all other addresses as they were.
pub proof fn lemma_delete_other(s: Seq<StakerView>, a: Seq<u8>, b: Seq<u8>)
    requires
        sorted(s),
        b != a,
    ensures
        lookup(delete(s, a), b) == lookup(s, b),
{
    let k = position(s, a);
    let t = delete(s, a);
    lemma_delete(s, a);
    lemma_position(s, a);
    lemma_position(s, b);
    let p = position(s, b);
    if holds(s, a) {
        lemma_lex_total(a, b);
        if lex_less(b, a) {
            assert(p <= k) by {
                if k < p {
                    assert(lex_less(s[k].address, b));
                    lemma_lex_asymmetric(a, b);
                }
            }
            assert forall|i: int| 0 <= i < p implies lex_less(t[i].address, b) by {
                assert(lex_less(s[i].address, b));
            }
            assert forall|i: int| p <= i < t.len() implies !lex_less(t[i].address, b) by {
                if i < k {
                    assert(!lex_less(s[i].address, b));
                } else {
                    assert(!lex_less(s[i + 1].address, b));
                }
            }
            assert(is_position(t, b, p));
            lemma_position_unique(t, b, p);
            if p == k {
                // s[k] is a, not b; what follows a does not hold b either
                if p < t.len() {
                    assert(t[p] == s[k + 1]);
                    assert(lex_less(s[k].address, s[k + 1].address));
                    if s[k + 1].address == b {
                        lemma_lex_asymmetric(a, b);
                    }
                }
            } else {
                assert(t[p] == s[p]);
            }
        } else {
            assert(k < p) by {
                if p <= k {
                    assert(!lex_less(s[k].address, b));
                }
            }
            assert forall|i: int| 0 <= i < p - 1 implies lex_less(t[i].address, b) by {
                if i < k {
                    assert(lex_less(s[i].address, b));
                } else {
                    assert(lex_less(s[i + 1].address, b));
                }
            }
            assert forall|i: int| p - 1 <= i < t.len() implies !lex_less(t[i].address, b) by {
                assert(!lex_less(s[i + 1].address, b));
            }
            assert(is_position(t, b, p - 1));
            lemma_position_unique(t, b, p - 1);
            if p < s.len() {
                assert(t[p - 1] == s[p]);
            }
        }
    }
}

/// The index of the first record behind a cursor lies within the store.
pub proof fn lemma_cursor_in_range(s: Seq<StakerView>, cursor: Option<Seq<u8>>)
    requires
        sorted(s),
    ensures
        0 <= first_after(s, cursor) <= s.len(),
{
    if cursor is Some {
        lemma_position(s, cursor->0);
    }
}

/// The sum over a store grows by what an appended record holds.
pub proof fn lemma_total_push(s: Seq<StakerView>, e: StakerView, f: spec_fn(StakerView) -> nat)
    ensures
        total(s.push(e), f) == total(s, f) + f(e),
{
    assert(s.push(e).drop_last() =~= s);
}

/// The sum over a store with a record inserted at `i`.
pub proof fn lemma_total_insert(
    s: Seq<StakerView>,
    i: int,
    e: StakerView,
    f: spec_fn(StakerView) -> nat,
)
    requires
        0 <= i <= s.len(),
    ensures
        total(s.insert(i, e), f) == total(s, f) + f(e),
    decreases s.len() - i,
{
    let t = s.insert(i, e);
    if i == s.len() {
        assert(t =~= s.push(e));
        lemma_total_push(s, e, f);
    } else {
        assert(t.drop_last() =~= s.drop_last().insert(i, e));
        assert(t.last() == s.last());
        lemma_total_insert(s.drop_last(), i, e, f);
    }
}

/// The sum over a store with the record at `i` removed.
pub proof fn lemma_total_remove(s: Seq<StakerView>, i: int, f: spec_fn(StakerView) -> nat)
    requires
        0 <= i < s.len(),
    ensures
        total(s.remove(i), f) + f(s[i]) == total(s, f),
    decreases s.len() - i,
{
    let t = s.remove(i);
    if i == s.len() - 1 {
        assert(t =~= s.drop_last());
    } else {
        assert(t.drop_last() =~= s.drop_last().remove(i));
        assert(t.last() == s.last());
        lemma_total_remove(s.drop_last(), i, f);
    }
}

/// The sum over a store with the record at `i` replaced.
pub proof fn lemma_total_update(
    s: Seq<StakerView>,
    i: int,
    e: StakerView,
    f: spec_fn(StakerView) -> nat,
)
    requires
        0 <= i < s.len(),
    ensures
        total(s.update(i, e), f) + f(s[i]) == total(s, f) + f(e),
    decreases s.len() - i,
{
    let t = s.update(i, e);
    if i == s.len() - 1 {
        assert(t.drop_last() =~= s.drop_last());
    } else {
        assert(t.drop_last() =~= s.drop_last().update(i, e));
        assert(t.last() == s.last());
        lemma_total_update(s.drop_last(), i, e, f);
    }
}

/// What `f` holds for the record of `a`; nothing where there is none.
pub open spec fn amount_of(s: Seq<StakerView>, a: Seq<u8>, f: spec_fn(StakerView) -> nat) -> nat {
    match lookup(s, a) {
        Some(r) => f(r),
        None => 0,
    }
}

/// Putting a record in changes the sum by the difference to what stood there.
pub proof fn lemma_total_put(s: Seq<StakerView>, e: StakerView, f: spec_fn(StakerView) -> nat)
    requires
        sorted(s),
    ensures
        total(put(s, e), f) + amount_of(s, e.address, f) == total(s, f) + f(e),
{
    lemma_position(s, e.address);
    let k = position(s, e.address);
    if holds(s, e.address) {
        lemma_total_update(s, k, e, f);
    } else {
        lemma_total_insert(s, k, e, f);
    }
}

/// Taking a record out lowers the sum by what it held.
pub proof fn lemma_total_delete(s: Seq<StakerView>, a: Seq<u8>, f: spec_fn(StakerView) -> nat)
    requires
        sorted(s),
    ensures
        total(delete(s, a), f) + amount_of(s, a, f) == total(s, f),
{
    lemma_position(s, a);
    if holds(s, a) {
        lemma_total_remove(s, position(s, a), f);
    }
}

/// No single record holds more than the sum of all.
pub proof fn lemma_total_bounds(s: Seq<StakerView>, i: int, f: spec_fn(StakerView) -> nat)
    requires
        0 <= i < s.len(),
    ensures
        f(s[i]) <= total(s, f),
    decreases s.len(),
{
    if i < s.len() - 1 {
        lemma_total_bounds(s.drop_last(), i, f);
    }
}

/// The sum over two stores, one behind the other, is the sum of their sums.
pub proof fn lemma_total_concat(
    s: Seq<StakerView>,
    t: Seq<StakerView>,
    f: spec_fn(StakerView) -> nat,
)
    ensures
        total(s + t, f) == total(s, f) + total(t, f),
    decreases t.len(),
{
    if t.len() == 0 {
        assert(s + t =~= s);
    } else {
        assert((s + t).drop_last() =~= s + t.drop_last());
        lemma_total_concat(s, t.drop_last(), f);
    }
}

/// An ordered store with a run of records cut out is an ordered store, and
/// holds for an address what the whole store holds for it.
pub proof fn lemma_cut(s: Seq<StakerView>, from: int, to: int, b: Seq<u8>)
    requires
        sorted(s),
        0 <= from <= to <= s.len(),
    ensures
        sorted(s.take(from) + s.skip(to)),
        lookup(s.take(from) + s.skip(to), b) is Some ==> lookup(s.take(from) + s.skip(to), b)
            == lookup(s, b),
{
    let t = s.take(from) + s.skip(to);
    assert forall|i: int, j: int| 0 <= i < j < t.len() implies lex_less(
        t[i].address,
        t[j].address,
    ) by {
        let i0 = if i < from { i } else { i + (to - from) };
        let j0 = if j < from { j } else { j + (to - from) };
        assert(t[i] == s[i0] && t[j] == s[j0]);
        assert(lex_less(s[i0].address, s[j0].address));
    }
    if lookup(t, b) is Some {
        lemma_position(t, b);
        let p = position(t, b);
        let p0 = if p < from { p } else { p + (to - from) };
        assert(t[p] == s[p0]);
        lemma_lookup_index(s, p0);
    }
}

/// The sum over a store with a run of records cut out is the sum over the
/// store less the sum over the run.
pub proof fn lemma_total_cut(s: Seq<StakerView>, from: int, to: int, f: spec_fn(StakerView) -> nat)
    requires
        0 <= from <= to <= s.len(),
    ensures
        total(s.take(from) + s.skip(to), f) + total(s.subrange(from, to), f) == total(s, f),
{
    lemma_total_concat(s.take(from), s.skip(to), f);
    lemma_total_concat(s.take(from), s.subrange(from, to), f);
    lemma_total_concat(s.take(from) + s.subrange(from, to), s.skip(to), f);
    assert(s.take(from) + s.subrange(from, to) + s.skip(to) =~= s);
}

/// The batch that follows a cursor lies within the store.
pub proof fn lemma_batch_in_range(s: Seq<StakerView>, cursor: Option<Seq<u8>>, limit: Option<u32>)
    requires
        sorted(s),
    ensures
        0 <= first_after(s, cursor) <= batch_end(s, cursor, limit) <= s.len(),
{
    lemma_cursor_in_range(s, cursor);
}

/// A store of no record is in order and holds nothing.
pub proof fn lemma_none(b: Seq<u8>)
    ensures
        sorted(Seq::<StakerView>::empty()),
        lookup(Seq::<StakerView>::empty(), b) is None,
{
    lemma_lookup_member(Seq::<StakerView>::empty(), b);
}

/// A store of one record is in order and holds that record for its address and
/// nothing else.
pub proof fn lemma_single(r: StakerView, b: Seq<u8>)
    ensures
        sorted(seq![r]),
        lookup(seq![r], b) == if b == r.address {
            Some(r)
        } else {
            None
        },
{
    let s = seq![r];
    assert(s[0] == r);
    lemma_lookup_member(s, b);
    if b == r.address {
        lemma_lookup_index(s, 0);
    } else if lookup(s, b) is Some {
        let i = choose|i: int| 0 <= i < s.len() && #[trigger] s[i].address == b;
        assert(s[i] == r);
    }
}

/// A run of records of an ordered store is an ordered store, and holds for an
/// address what the whole store holds for it where the record stands in the
/// run, and nothing where it does not.
pub proof fn lemma_run(s: Seq<StakerView>, from: int, to: int, a: Seq<u8>)
    requires
        sorted(s),
        0 <= from <= to <= s.len(),
    ensures
        sorted(s.subrange(from, to)),
        lookup(s.subrange(from, to), a) == if holds(s, a) && from <= position(s, a) < to {
            lookup(s, a)
        } else {
            None
        },
{
    let t = s.subrange(from, to);
    assert forall|i: int, j: int| 0 <= i < j < t.len() implies lex_less(
        t[i].address,
        t[j].address,
    ) by {
        assert(lex_less(s[from + i].address, s[from + j].address));
    }
    lemma_position(s, a);
    if lookup(t, a) is Some {
        lemma_position(t, a);
        let p = position(t, a);
        assert(t[p] == s[from + p]);
        lemma_lookup_index(s, from + p);
    }
    if holds(s, a) && from <= position(s, a) < to {
        let p = position(s, a);
        assert(t[p - from] == s[p]);
        lemma_lookup_index(t, p - from);
    }
}

/// An ordered store with a run of records cut out holds nothing for the
/// addresses of the run, and for every other address what the store held.
pub proof fn lemma_cut_exact(s: Seq<StakerView>, from: int, to: int, a: Seq<u8>)
    requires
        sorted(s),
        0 <= from <= to <= s.len(),
    ensures
        lookup(s.take(from) + s.skip(to), a) == if lookup(s.subrange(from, to), a) is Some {
            None
        } else {
            lookup(s, a)
        },
{
    let t = s.take(from) + s.skip(to);
    lemma_cut(s, from, to, a);
    lemma_run(s, from, to, a);
    lemma_position(s, a);
    let p = position(s, a);
    if holds(s, a) {
        if from <= p < to {
            if lookup(t, a) is Some {
                lemma_position(t, a);
                let q = position(t, a);
                let q0 = if q < from { q } else { q + (to - from) };
                assert(t[q] == s[q0]);
                lemma_lookup_index(s, q0);
            }
        } else {
            let q = if p < from { p } else { p - (to - from) };
            assert(t[q] == s[p]);
            lemma_lookup_index(t, q);
        }
    }
}

/// The batch behind a cursor, taken for a store of its own, starts with its
/// first record and ends with its last: all of it follows the cursor, and it
/// holds no more records than the limit.
pub proof fn lemma_batch_alone(s: Seq<StakerView>, cursor: Option<Seq<u8>>, limit: Option<u32>)
    requires
        sorted(s),
    ensures
        ({
            let run = s.subrange(first_after(s, cursor), batch_end(s, cursor, limit));
            &&& sorted(run)
            &&& first_after(run, cursor) == 0
            &&& batch_end(run, cursor, limit) == run.len()
            &&& limit is Some ==> run.len() <= limit->0
        }),
{
    lemma_batch_in_range(s, cursor, limit);
    let start = first_after(s, cursor);
    let end = batch_end(s, cursor, limit);
    let run = s.subrange(start, end);
    lemma_run(s, start, end, Seq::<u8>::empty());
    if cursor is Some {
        let c = cursor->0;
        lemma_position(s, c);
        let p = position(s, c);
        assert forall|i: int| 0 <= i < run.len() implies !lex_less(
            (#[trigger] run[i]).address,
            c,
        ) && run[i].address != c by {
            assert(run[i] == s[start + i]);
            assert(!lex_less(s[start + i].address, c));
            if holds(s, c) {
                assert(lex_less(s[p].address, s[start + i].address));
                lemma_lex_irreflexive(c);
            } else if s[start + i].address == c {
                lemma_lookup_index(s, start + i);
            }
        }
        assert(is_position(run, c, 0));
        lemma_position_unique(run, c, 0);
    }
}

/// The store of the participants' records.
#[derive(Debug, PartialEq, Eq)]
pub struct StakerStore {
    entries: Vec<StakerInfo>,
}

impl View for StakerStore {
    type V = Seq<StakerView>;

    closed spec fn view(&self) -> Seq<StakerView> {
        stakers_view(self.entries@)
    }
}

impl Clone for StakerStore {
    fn clone(&self) -> (res: Self)
        ensures
            res@ == self@,
    {
        proof {
            use_type_invariant(self);
        }
        StakerStore { entries: clone_stakers(&self.entries) }
    }
}

impl StakerStore {
    /// What holds of every store: its records are in order, no address twice.
    /// Verified code learns it of a store at hand with `use_type_invariant`.
    #[verifier::type_invariant]
    pub open spec fn wf(&self) -> bool {
        sorted(self@)
    }

    /// The store without records.
    pub fn new() -> (res: Self)
        ensures
            res@ == Seq::<StakerView>::empty(),
    {
        let res = StakerStore { entries: Vec::new() };
        assert(res@ =~= Seq::<StakerView>::empty());
        res
    }

    /// The number of records.
    pub fn len(&self) -> (n: usize)
        ensures
            n == self@.len(),
    {
        self.entries.len()
    }

    /// The position of `address` in the store, and whether a record stands there.
    pub fn locate(&self, address: &Address) -> (res: (usize, bool))
        ensures
            res.0 == position(self@, address@),
            res.1 == holds(self@, address@),
            res.0 <= self@.len(),
    {
        let ghost s = self@;
        let ghost a = address@;
        proof {
            use_type_invariant(self);
        }
        let mut lo: usize = 0;
        let mut hi: usize = self.entries.len();
        while lo < hi
            invariant
                s == self@,
                a == address@,
                sorted(s),
                0 <= lo <= hi <= s.len(),
                s.len() == self.entries.len(),
                forall|i: int| #![trigger s[i]] 0 <= i < lo ==> lex_less(s[i].address, a),
                forall|i: int| #![trigger s[i]] hi <= i < s.len() ==> !lex_less(s[i].address, a),
            decreases hi - lo,
        {
            let mid = lo + (hi - lo) / 2;
            assert(s[mid as int] == self.entries[mid as int]@);
            match self.entries[mid].address.rank(address) {
                Rank::Before => {
                    assert forall|i: int| 0 <= i < mid + 1 implies lex_less(s[i].address, a) by {
                        if i < mid {
                            assert(lex_less(s[i].address, s[mid as int].address));
                            lemma_lex_transitive(s[i].address, s[mid as int].address, a);
                        }
                    }
                    lo = mid + 1;
                },
                _ => {
                    assert forall|i: int| mid <= i < s.len() implies !lex_less(s[i].address, a) by {
                        if i > mid && lex_less(s[i].address, a) {
                            assert(lex_less(s[mid as int].address, s[i].address));
                            lemma_lex_transitive(s[mid as int].address, s[i].address, a);
                        }
                    }
                    hi = mid;
                },
            }
        }
        proof {
            assert(is_position(s, a, lo as int));
            lemma_position_unique(s, a, lo as int);
        }
        if lo < self.entries.len() {
            assert(s[lo as int] == self.entries[lo as int]@);
            let found = self.entries[lo].address.same(address);
            (lo, found)
        } else {
            (lo, false)
        }
    }

    /// A copy of the record for `address`, if there is one.
    pub fn get(&self, address: &Address) -> (res: Option<StakerInfo>)
        ensures
            res is Some == lookup(self@, address@) is Some,
            res is Some ==> lookup(self@, address@) == Some(res->0@),
            res is Some ==> res->0@.address == address@,
    {
        let (k, found) = self.locate(address);
        if found {
            assert(self@[k as int] == self.entries[k as int]@);
            Some(self.entries[k].clone())
        } else {
            None
        }
    }

    /// Makes `entry` the record for its address.
    pub fn put(&mut self, entry: StakerInfo)
        ensures
            final(self)@ == put(old(self)@, entry@),
    {
        let ghost s = self@;
        let ghost e = entry@;
        proof {
            use_type_invariant(&*self);
            lemma_put(s, e);
        }
        let (k, found) = self.locate(&entry.address);
        let mut entries: Vec<StakerInfo> = Vec::new();
        std::mem::swap(&mut entries, &mut self.entries);
        if found {
            entries.set(k, entry);
            assert(stakers_view(entries@) =~= s.update(k as int, e));
        } else {
            entries.insert(k, entry);
            assert(stakers_view(entries@) =~= s.insert(k as int, e));
        }
        self.entries = entries;
    }

    /// Removes the record for `address`, if there is one.
    pub fn delete(&mut self, address: &Address)
        ensures
            final(self)@ == delete(old(self)@, address@),
    {
        let ghost s = self@;
        proof {
            use_type_invariant(&*self);
            lemma_delete(s, address@);
        }
        let (k, found) = self.locate(address);
        if found {
            let mut entries: Vec<StakerInfo> = Vec::new();
            std::mem::swap(&mut entries, &mut self.entries);
            let _ = entries.remove(k);
            assert(stakers_view(entries@) =~= s.remove(k as int));
            self.entries = entries;
        }
    }

    /// Copies of the records that follow the cursor, in order, `limit` at most.
    pub fn page(&self, start_after: &Option<Address>, limit: usize) -> (res: Vec<StakerInfo>)
        ensures
            stakers_view(res@) == page_of(self@, address_opt_view(*start_after), limit as nat),
    {
        let start = self.start_index(start_after);
        let n = self.entries.len();
        let end = if limit < n - start {
            start + limit
        } else {
            n
        };
        let mut res: Vec<StakerInfo> = Vec::new();
        let mut i: usize = start;
        while i < end
            invariant
                start <= i <= end <= n,
                n == self.entries.len(),
                res.len() == i - start,
                forall|j: int| 0 <= j < i - start ==> res[j]@ == self.entries[start + j]@,
            decreases end - i,
        {
            res.push(self.entries[i].clone());
            i = i + 1;
        }
        assert(stakers_view(res@) =~= self@.subrange(start as int, end as int));
        res
    }

    /// Removes the batch that follows the cursor: with a limit, that many records
    /// at most, the first behind the cursor; without, all that follow it.
    pub fn delete_after(&mut self, start_after: &Option<Address>, limit: Option<u32>)
        ensures
            final(self)@ == without_batch(old(self)@, address_opt_view(*start_after), limit),
    {
        let ghost s = self@;
        proof {
            use_type_invariant(&*self);
        }
        let start = self.start_index(start_after);
        let n = self.entries.len();
        let end = match limit {
            Some(k) => if (k as usize) < n - start {
                start + k as usize
            } else {
                n
            },
            None => n,
        };
        let mut entries: Vec<StakerInfo> = Vec::new();
        std::mem::swap(&mut entries, &mut self.entries);
        let mut tail = entries.split_off(end);
        entries.truncate(start);
        entries.append(&mut tail);
        proof {
            assert(stakers_view(entries@) =~= s.take(start as int) + s.skip(end as int));
            lemma_cut(s, start as int, end as int, Seq::<u8>::empty());
        }
        self.entries = entries;
    }

    /// Copies of all records, in order.
    pub fn to_vec(&self) -> (res: Vec<StakerInfo>)
        ensures
            stakers_view(res@) == self@,
    {
        clone_stakers(&self.entries)
    }

    /// The index of the first record that follows the cursor.
    fn start_index(&self, start_after: &Option<Address>) -> (start: usize)
        ensures
            start == first_after(self@, address_opt_view(*start_after)),
            start <= self@.len(),
            self@.len() == self.entries.len(),
    {
        match start_after {
            None => 0,
            Some(c) => {
                let (k, found) = self.locate(c);
                if found {
                    assert(k < self@.len() && self@.len() == self.entries.len());
                    k + 1
                } else {
                    k
                }
            },
        }
    }
}

} // verus!
