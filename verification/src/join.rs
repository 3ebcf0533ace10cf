//! The reference meaning of the join: a single sequential pass over the
//! donation records, adding each donation whose donor the donor map
//! knows to that donor's state. Every component is proved against this
//! one spec, so the chunked, merged computation equals the plain one.

use vstd::prelude::*;

use crate::amount::AMOUNT_LIMIT;

verus! {

/// What one donation record adds to the total of state `s`: its amount
/// when the donor map holds its donor under state `s`, nothing
/// otherwise. A record is a pair of donor id and amount in hundredths.
pub open spec fn share(
    donors: Map<Seq<u8>, Seq<u8>>,
    d: (Seq<u8>, int),
    s: Seq<u8>,
) -> int {
    if donors.dom().contains(d.0) && donors[d.0] == s {
        d.1
    } else {
        0
    }
}

/// The total donated to state `s`: the sum over all donation records of
/// their contribution under the donor map. This is the non-chunked,
/// single-pass reference join.
pub open spec fn join_sum(
    donors: Map<Seq<u8>, Seq<u8>>,
    dons: Seq<(Seq<u8>, int)>,
    s: Seq<u8>,
) -> int
    decreases dons.len(),
{
    if dons.len() == 0 {
        0
    } else {
        join_sum(donors, dons.drop_last(), s) + share(donors, dons.last(), s)
    }
}

/// The states that at least one donation lands in: those of donors the
/// donor map holds that some donation record references. These are
/// exactly the states the final aggregate carries an entry for, even
/// an entry of zero.
pub open spec fn counted_states(
    donors: Map<Seq<u8>, Seq<u8>>,
    dons: Seq<(Seq<u8>, int)>,
) -> Set<Seq<u8>>
    decreases dons.len(),
{
    if dons.len() == 0 {
        Set::empty()
    } else {
        let rest = counted_states(donors, dons.drop_last());
        let d = dons.last();
        if donors.dom().contains(d.0) {
            rest.insert(donors[d.0])
        } else {
            rest
        }
    }
}

/// With no donors at all, no state is counted.
pub proof fn lemma_counted_empty(dons: Seq<(Seq<u8>, int)>)
    ensures
        counted_states(Map::<Seq<u8>, Seq<u8>>::empty(), dons) == Set::<Seq<u8>>::empty(),
    decreases dons.len(),
{
    if dons.len() > 0 {
        lemma_counted_empty(dons.drop_last());
    }
}

/// Splitting the donor map in two with no donor id in common splits
/// the counted states: each donation lands in the part that holds its
/// donor.
pub proof fn lemma_counted_union(
    m1: Map<Seq<u8>, Seq<u8>>,
    m2: Map<Seq<u8>, Seq<u8>>,
    dons: Seq<(Seq<u8>, int)>,
)
    requires
        m1.dom().disjoint(m2.dom()),
    ensures
        counted_states(m1.union_prefer_right(m2), dons) == counted_states(m1, dons).union(
            counted_states(m2, dons),
        ),
    decreases dons.len(),
{
    if dons.len() > 0 {
        lemma_counted_union(m1, m2, dons.drop_last());
        let d = dons.last();
        let u = m1.union_prefer_right(m2);
        let r1 = counted_states(m1, dons.drop_last());
        let r2 = counted_states(m2, dons.drop_last());
        if m1.dom().contains(d.0) {
            assert(!m2.dom().contains(d.0));
            assert(u[d.0] == m1[d.0]);
            assert((r1.union(r2)).insert(m1[d.0]) =~= (r1.insert(m1[d.0])).union(r2));
        } else if m2.dom().contains(d.0) {
            assert(u[d.0] == m2[d.0]);
            assert((r1.union(r2)).insert(m2[d.0]) =~= r1.union(r2.insert(m2[d.0])));
        } else {
            assert(!u.dom().contains(d.0));
        }
    }
}

/// With no donors at all, every state's total is zero.
pub proof fn lemma_join_sum_empty(dons: Seq<(Seq<u8>, int)>, s: Seq<u8>)
    ensures
        join_sum(Map::<Seq<u8>, Seq<u8>>::empty(), dons, s) == 0,
    decreases dons.len(),
{
    if dons.len() > 0 {
        lemma_join_sum_empty(dons.drop_last(), s);
    }
}

/// No donation is counted twice and none is lost when the donor map is
/// split in two with no donor id in common: each donation's donor lies
/// in at most one part, so the per-part sums add up to the whole. This
/// is why merging per-chunk aggregates, in any order, equals the
/// un-chunked join.
pub proof fn lemma_join_sum_union(
    m1: Map<Seq<u8>, Seq<u8>>,
    m2: Map<Seq<u8>, Seq<u8>>,
    dons: Seq<(Seq<u8>, int)>,
    s: Seq<u8>,
)
    requires
        m1.dom().disjoint(m2.dom()),
    ensures
        join_sum(m1.union_prefer_right(m2), dons, s) == join_sum(m1, dons, s) + join_sum(
            m2,
            dons,
            s,
        ),
    decreases dons.len(),
{
    if dons.len() > 0 {
        lemma_join_sum_union(m1, m2, dons.drop_last(), s);
        let d = dons.last();
        let u = m1.union_prefer_right(m2);
        if m1.dom().contains(d.0) {
            assert(!m2.dom().contains(d.0));
            assert(u[d.0] == m1[d.0]);
        } else if m2.dom().contains(d.0) {
            assert(u[d.0] == m2[d.0]);
        } else {
            assert(!u.dom().contains(d.0));
        }
    }
}

/// A donation whose donor id no part of the donor map holds adds
/// nothing, whatever the state.
pub proof fn lemma_unknown_donor_ignored(
    donors: Map<Seq<u8>, Seq<u8>>,
    dons: Seq<(Seq<u8>, int)>,
    d: (Seq<u8>, int),
    s: Seq<u8>,
)
    requires
        !donors.dom().contains(d.0),
    ensures
        join_sum(donors, dons.push(d), s) == join_sum(donors, dons, s),
{
    assert(dons.push(d).drop_last() =~= dons);
    assert(share(donors, d, s) == 0);
}

/// Two aggregates whose sums both equal the reference join agree on
/// every state: the result never depends on how the donor table was cut
/// into chunks or in which order partial aggregates were merged.
pub proof fn lemma_result_determined(
    sums1: spec_fn(Seq<u8>) -> int,
    sums2: spec_fn(Seq<u8>) -> int,
    donors: Map<Seq<u8>, Seq<u8>>,
    dons: Seq<(Seq<u8>, int)>,
)
    requires
        forall|s: Seq<u8>| #[trigger] sums1(s) == join_sum(donors, dons, s),
        forall|s: Seq<u8>| #[trigger] sums2(s) == join_sum(donors, dons, s),
    ensures
        forall|s: Seq<u8>| #[trigger] sums1(s) == #[trigger] sums2(s),
{
}

/// The join total over `n` donations, each below the amount limit, is
/// below `n` times the limit; so every intermediate sum fits its
/// machine integer.
pub proof fn lemma_join_sum_bound(
    donors: Map<Seq<u8>, Seq<u8>>,
    dons: Seq<(Seq<u8>, int)>,
    s: Seq<u8>,
)
    requires
        forall|i: int|
            0 <= i < dons.len() ==> -(AMOUNT_LIMIT as int) < (#[trigger] dons[i]).1 < (
            AMOUNT_LIMIT as int),
    ensures
        -(dons.len() * (AMOUNT_LIMIT as int)) <= join_sum(donors, dons, s) <= dons.len() * (
        AMOUNT_LIMIT as int),
    decreases dons.len(),
{
    if dons.len() > 0 {
        lemma_join_sum_bound(donors, dons.drop_last(), s);
        assert((dons.len() - 1) * (AMOUNT_LIMIT as int) + (AMOUNT_LIMIT as int) == dons.len() * (
        AMOUNT_LIMIT as int)) by {
            vstd::arithmetic::mul::lemma_mul_is_distributive_add_other_way(
                AMOUNT_LIMIT as int,
                dons.len() - 1,
                1,
            );
        }
    }
}

/// A machine-width count of bounded amounts sums to far less than an
/// `i128` holds.
proof fn lemma_count_times_limit_small(n: int)
    requires
        0 <= n <= usize::MAX as int,
    ensures
        n * (AMOUNT_LIMIT as int) <= 1844674407370955161500000000000000000,
        2 * (n * (AMOUNT_LIMIT as int)) + (AMOUNT_LIMIT as int) < i128::MAX as int,
{
    assert(usize::MAX as int <= u64::MAX as int);
    vstd::arithmetic::mul::lemma_mul_inequality(n, u64::MAX as int, AMOUNT_LIMIT as int);
    assert(u64::MAX as int * (AMOUNT_LIMIT as int) == 1844674407370955161500000000000000000)
        by (nonlinear_arith);
}

/// One more bounded amount on top of a running join total still fits a
/// 128-bit signed sum.
pub proof fn lemma_step_fits(
    donors: Map<Seq<u8>, Seq<u8>>,
    dons: Seq<(Seq<u8>, int)>,
    s: Seq<u8>,
    v: int,
)
    requires
        forall|i: int|
            0 <= i < dons.len() ==> -(AMOUNT_LIMIT as int) < (#[trigger] dons[i]).1 < (
            AMOUNT_LIMIT as int),
        dons.len() <= usize::MAX as nat,
        -(AMOUNT_LIMIT as int) < v < AMOUNT_LIMIT as int,
    ensures
        i128::MIN as int <= join_sum(donors, dons, s) + v <= i128::MAX as int,
{
    lemma_join_sum_bound(donors, dons, s);
    lemma_count_times_limit_small(dons.len() as int);
}

/// Two running join totals over the same bounded donations merge
/// within a 128-bit signed sum.
pub proof fn lemma_merge_fits(
    m1: Map<Seq<u8>, Seq<u8>>,
    m2: Map<Seq<u8>, Seq<u8>>,
    dons: Seq<(Seq<u8>, int)>,
    s: Seq<u8>,
)
    requires
        forall|i: int|
            0 <= i < dons.len() ==> -(AMOUNT_LIMIT as int) < (#[trigger] dons[i]).1 < (
            AMOUNT_LIMIT as int),
        dons.len() <= usize::MAX as nat,
    ensures
        i128::MIN as int <= join_sum(m1, dons, s) + join_sum(m2, dons, s) <= i128::MAX as int,
{
    lemma_join_sum_bound(m1, dons, s);
    lemma_join_sum_bound(m2, dons, s);
    lemma_count_times_limit_small(dons.len() as int);
}

} // verus!
