//! The per-state aggregate: a mapping from state to summed donation
//! amount in hundredths, with exact merge ("reduce") semantics.

use vstd::prelude::*;

use crate::assoc::has_key;
use crate::assoc::lemma_map_of_contains;
use crate::assoc::lemma_map_of_first;
use crate::assoc::lemma_map_of_len;
use crate::assoc::lemma_map_of_push;
use crate::assoc::lemma_map_of_update;
use crate::assoc::map_of;
use crate::assoc::unique_keys;
use crate::bytes::bytes_eq;
use crate::bytes::copy_bytes;

verus! {

/// The entries of the aggregate as key and value sequences.
pub open spec fn pair_views(s: Seq<(Vec<u8>, i128)>) -> Seq<(Seq<u8>, int)> {
    s.map_values(|p: (Vec<u8>, i128)| (p.0@, p.1 as int))
}

/// The sum of the values of the entries whose key is `s`.
pub open spec fn asum(es: Seq<(Seq<u8>, int)>, s: Seq<u8>) -> int
    decreases es.len(),
{
    if es.len() == 0 {
        0
    } else {
        asum(es.drop_last(), s) + if es.last().0 == s {
            es.last().1
        } else {
            0
        }
    }
}

/// A key occurring nowhere sums to nothing.
proof fn lemma_asum_absent(es: Seq<(Seq<u8>, int)>, s: Seq<u8>)
    requires
        !has_key(es, s),
    ensures
        asum(es, s) == 0,
    decreases es.len(),
{
    if es.len() > 0 {
        assert(!has_key(es.drop_last(), s)) by {
            if has_key(es.drop_last(), s) {
                let i = choose|i: int|
                    0 <= i < es.drop_last().len() && es.drop_last()[i].0 == s;
                assert(es[i].0 == s);
            }
        }
        lemma_asum_absent(es.drop_last(), s);
        assert(es.last().0 != s) by {
            assert(es[es.len() - 1] == es.last());
        }
    }
}

/// With no key repeated, summing a key gives that key's map value.
proof fn lemma_asum_total(es: Seq<(Seq<u8>, int)>, s: Seq<u8>)
    requires
        unique_keys(es),
    ensures
        asum(es, s) == if map_of(es).dom().contains(s) {
            map_of(es)[s]
        } else {
            0
        },
    decreases es.len(),
{
    if es.len() > 0 {
        let front = es.drop_last();
        let last = es.last();
        assert(es =~= front.push(last));
        assert(!has_key(front, last.0)) by {
            if has_key(front, last.0) {
                let i = choose|i: int| 0 <= i < front.len() && front[i].0 == last.0;
                assert(es[i].0 != es[es.len() - 1].0);
            }
        }
        lemma_map_of_push(front, last.0, last.1);
        lemma_asum_total(front, s);
        lemma_map_of_contains(front, s);
        if s == last.0 {
            lemma_asum_absent(front, s);
        }
    }
}

/// The aggregate of donation amounts by state, in hundredths. This is
/// both one worker's partial result and, after merging, the final one.
#[derive(Debug)]
pub struct DonationsByState {
    data: Vec<(Vec<u8>, i128)>,
}

impl View for DonationsByState {
    type V = Map<Seq<u8>, int>;

    closed spec fn view(&self) -> Map<Seq<u8>, int> {
        map_of(pair_views(self.data@))
    }
}

impl DonationsByState {
    /// No state appears twice.
    pub closed spec fn wf(self) -> bool {
        unique_keys(pair_views(self.data@))
    }

    /// The total recorded for state `s`; a state never seen holds zero.
    pub open spec fn sum_for(self, s: Seq<u8>) -> int {
        if self@.dom().contains(s) {
            self@[s]
        } else {
            0
        }
    }

    /// The empty aggregate: every state sums to zero.
    pub fn new() -> (r: Self)
        ensures
            r.wf(),
            r@ == Map::<Seq<u8>, int>::empty(),
            forall|s: Seq<u8>| r.sum_for(s) == 0,
    {
        let r = DonationsByState { data: Vec::new() };
        proof {
            assert(pair_views(r.data@) =~= Seq::<(Seq<u8>, int)>::empty());
            assert(r@ =~= Map::<Seq<u8>, int>::empty());
        }
        r
    }

    /// Adds `v` to the sum of `state`, first seeing the state as zero.
    pub fn add_amount(&mut self, state: &Vec<u8>, v: i128)
        requires
            old(self).wf(),
            i128::MIN <= old(self).sum_for(state@) + v <= i128::MAX,
        ensures
            final(self).wf(),
            final(self)@.dom() == old(self)@.dom().insert(state@),
            forall|s: Seq<u8>|
                final(self).sum_for(s) == old(self).sum_for(s) + (if s == state@ {
                    v as int
                } else {
                    0
                }),
    {
        let ghost pairs = pair_views(self.data@);
        let mut i: usize = 0;
        while i < self.data.len()
            invariant
                i <= self.data.len(),
                *self == *old(self),
                old(self).wf(),
                i128::MIN <= old(self).sum_for(state@) + v <= i128::MAX,
                pairs == pair_views(self.data@),
                forall|j: int| 0 <= j < i ==> (#[trigger] pairs[j]).0 != state@,
            decreases self.data.len() - i,
        {
            if bytes_eq(&self.data[i].0, state) {
                proof {
                    assert(pairs[i as int].0 == state@);
                    lemma_map_of_first(pairs, i as int);
                }
                let cur = self.data[i].1;
                let entry = &mut self.data[i];
                entry.1 = cur + v;
                proof {
                    lemma_map_of_update(pairs, i as int, cur as int + v as int);
                    assert(pair_views(self.data@) =~= pairs.update(
                        i as int,
                        (state@, cur as int + v as int),
                    ));
                    assert(pairs.update(i as int, (state@, cur as int + v as int))[i as int].0
                        == pairs[i as int].0);
                    assert forall|a: int, b: int|
                        0 <= a < b < pair_views(self.data@).len() implies (#[trigger] pair_views(
                        self.data@,
                    )[a]).0 != (#[trigger] pair_views(self.data@)[b]).0 by {
                        assert(pairs[a].0 != pairs[b].0);
                    }
                }
                return ;
            }
            i += 1;
        }
        proof {
            assert(!has_key(pairs, state@)) by {
                if has_key(pairs, state@) {
                    let j = choose|j: int| 0 <= j < pairs.len() && pairs[j].0 == state@;
                    assert(pairs[j].0 != state@);
                }
            }
            lemma_map_of_contains(pairs, state@);
            lemma_map_of_push(pairs, state@, v as int);
        }
        let key = copy_bytes(state);
        self.data.push((key, v));
        proof {
            assert(pair_views(self.data@) =~= pairs.push((state@, v as int)));
            assert forall|a: int, b: int|
                0 <= a < b < pair_views(self.data@).len() implies (#[trigger] pair_views(
                self.data@,
            )[a]).0 != (#[trigger] pair_views(self.data@)[b]).0 by {
                if b < pairs.len() {
                    assert(pairs[a].0 != pairs[b].0);
                } else {
                    assert(pairs[a].0 != state@);
                }
            }
        }
    }

    /// Merges another aggregate in: every state's sum becomes the sum
    /// of the two, whatever order partial aggregates arrive in.
    pub fn add_assign(&mut self, other: Self)
        requires
            old(self).wf(),
            other.wf(),
            forall|s: Seq<u8>|
                i128::MIN <= #[trigger] old(self).sum_for(s) + other.sum_for(s) <= i128::MAX,
        ensures
            final(self).wf(),
            final(self)@.dom() == old(self)@.dom().union(other@.dom()),
            forall|s: Seq<u8>|
                #[trigger] final(self).sum_for(s) == old(self).sum_for(s) + other.sum_for(s),
    {
        let ghost opairs = pair_views(other.data@);
        let mut k: usize = 0;
        proof {
            assert(opairs.take(0) =~= Seq::<(Seq<u8>, int)>::empty());
            assert(map_of(opairs.take(0)).dom() =~= Set::<Seq<u8>>::empty());
            assert(self@.dom().union(map_of(opairs.take(0)).dom()) =~= self@.dom());
        }
        while k < other.data.len()
            invariant
                k <= other.data.len(),
                other.wf(),
                opairs == pair_views(other.data@),
                self.wf(),
                forall|s: Seq<u8>|
                    i128::MIN <= #[trigger] old(self).sum_for(s) + other.sum_for(s)
                        <= i128::MAX,
                self@.dom() == old(self)@.dom().union(map_of(opairs.take(k as int)).dom()),
                forall|s: Seq<u8>|
                    #[trigger] self.sum_for(s) == old(self).sum_for(s) + asum(
                        opairs.take(k as int),
                        s,
                    ),
            decreases other.data.len() - k,
        {
            let ghost st = opairs[k as int].0;
            let v = other.data[k].1;
            proof {
                assert forall|j: int| 0 <= j < k implies (#[trigger] opairs[j]).0 != st by {
                    assert(opairs[j].0 != opairs[k as int].0);
                }
                lemma_map_of_first(opairs, k as int);
                assert(other.sum_for(st) == v as int);
                assert(!has_key(opairs.take(k as int), st)) by {
                    if has_key(opairs.take(k as int), st) {
                        let j = choose|j: int|
                            0 <= j < opairs.take(k as int).len() && opairs.take(k as int)[j].0
                                == st;
                        assert(opairs[j].0 != st);
                    }
                }
                lemma_asum_absent(opairs.take(k as int), st);
            }
            let ghost predom = self@.dom();
            self.add_amount(&other.data[k].0, v);
            proof {
                assert(opairs.take(k + 1) =~= opairs.take(k as int).push(opairs[k as int]));
                assert(opairs.take(k + 1).drop_last() =~= opairs.take(k as int));
                lemma_map_of_push(opairs.take(k as int), st, opairs[k as int].1);
                assert(map_of(opairs.take(k + 1)) == map_of(opairs.take(k as int)).insert(
                    st,
                    opairs[k as int].1,
                ));
                assert(predom.insert(st) =~= old(self)@.dom().union(
                    map_of(opairs.take(k + 1)).dom(),
                ));
            }
            k += 1;
        }
        proof {
            assert(opairs.take(other.data@.len() as int) =~= opairs);
            assert forall|s: Seq<u8>| #[trigger] other.sum_for(s) == asum(opairs, s) by {
                lemma_asum_total(opairs, s);
            }
        }
    }

    /// The recorded total of one state, in hundredths.
    pub fn amount_for(&self, state: &Vec<u8>) -> (r: i128)
        ensures
            r as int == self.sum_for(state@),
    {
        let ghost pairs = pair_views(self.data@);
        let mut i: usize = 0;
        while i < self.data.len()
            invariant
                i <= self.data.len(),
                pairs == pair_views(self.data@),
                forall|j: int| 0 <= j < i ==> (#[trigger] pairs[j]).0 != state@,
            decreases self.data.len() - i,
        {
            if bytes_eq(&self.data[i].0, state) {
                proof {
                    lemma_map_of_first(pairs, i as int);
                }
                return self.data[i].1;
            }
            i += 1;
        }
        proof {
            assert(!has_key(pairs, state@)) by {
                if has_key(pairs, state@) {
                    let j = choose|j: int| 0 <= j < pairs.len() && pairs[j].0 == state@;
                    assert(pairs[j].0 != state@);
                }
            }
            lemma_map_of_contains(pairs, state@);
        }
        0
    }

    /// The recorded states and their sums, one entry per state.
    pub fn entries(&self) -> (r: &Vec<(Vec<u8>, i128)>)
        ensures
            map_of(pair_views(r@)) == self@,
            self.wf() ==> unique_keys(pair_views(r@)),
    {
        &self.data
    }

    /// How many states hold a recorded sum.
    pub fn len(&self) -> (r: usize)
        requires
            self.wf(),
        ensures
            r as nat == self@.dom().len(),
    {
        proof {
            lemma_map_of_len(pair_views(self.data@));
        }
        self.data.len()
    }
}

} // verus!
