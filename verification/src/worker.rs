//! The map task: one donor chunk joined against the full donation
//! dataset, producing that chunk's partial per-state aggregate. Each
//! task resolves the donation header for itself and shares nothing
//! with other tasks.

use vstd::prelude::*;

use crate::aggregate::DonationsByState;
use crate::amount::AMOUNT_LIMIT;
use crate::amount::amount_of;
use crate::amount::lemma_amount_of_bound;
use crate::bytes::split_fields;
use crate::bytes::views;
use crate::join::counted_states;
use crate::join::join_sum;
use crate::join::lemma_step_fits;
use crate::records::Dataset;
use crate::records::DonationInfo;
use crate::records::DonationLine;
use crate::records::JoinError;
use crate::records::header_cols;
use crate::records::donation_rec_of;
use crate::records::get_indexes;
use crate::records::line_fits;
use crate::table::DonorChunk;

verus! {

/// The donation records that well-shaped data lines denote, in order,
/// without the lines whose amount field is not a number.
pub open spec fn donation_recs_of(
    lines: Seq<Seq<u8>>,
    id_idx: int,
    amount_idx: int,
) -> Seq<(Seq<u8>, int)>
    decreases lines.len(),
{
    if lines.len() == 0 {
        Seq::empty()
    } else {
        let rest = donation_recs_of(lines.drop_last(), id_idx, amount_idx);
        match donation_rec_of(lines.last(), id_idx, amount_idx) {
            Some(rec) => rest.push(rec),
            None => rest,
        }
    }
}

/// There are at most as many donation records as data lines.
pub proof fn lemma_donation_recs_len(lines: Seq<Seq<u8>>, id_idx: int, amount_idx: int)
    ensures
        donation_recs_of(lines, id_idx, amount_idx).len() <= lines.len(),
    decreases lines.len(),
{
    if lines.len() > 0 {
        lemma_donation_recs_len(lines.drop_last(), id_idx, amount_idx);
    }
}

/// Every donation record's amount lies within the amount limit.
pub proof fn lemma_donation_recs_bounded(lines: Seq<Seq<u8>>, id_idx: int, amount_idx: int)
    ensures
        forall|k: int|
            0 <= k < donation_recs_of(lines, id_idx, amount_idx).len() ==> -(AMOUNT_LIMIT as int)
                < (#[trigger] donation_recs_of(lines, id_idx, amount_idx)[k]).1 < (
            AMOUNT_LIMIT as int),
    decreases lines.len(),
{
    if lines.len() > 0 {
        lemma_donation_recs_bounded(lines.drop_last(), id_idx, amount_idx);
        lemma_amount_of_bound(split_fields(lines.last())[amount_idx]);
        let rest = donation_recs_of(lines.drop_last(), id_idx, amount_idx);
        let all = donation_recs_of(lines, id_idx, amount_idx);
        assert forall|k: int| 0 <= k < all.len() implies -(AMOUNT_LIMIT as int) < (
        #[trigger] all[k]).1 < (AMOUNT_LIMIT as int) by {
            match donation_rec_of(lines.last(), id_idx, amount_idx) {
                Some(rec) => {
                    if k < rest.len() {
                        assert(all[k] == rest[k]);
                    } else {
                        assert(all[k] == rec);
                    }
                },
                None => {
                    assert(all[k] == rest[k]);
                },
            }
        }
    }
}

/// A donation line whose amount field is not a number yields no record:
/// it changes no sum and is no error.
pub proof fn lemma_unparsed_amount_skipped(
    lines: Seq<Seq<u8>>,
    line: Seq<u8>,
    id_idx: int,
    amount_idx: int,
)
    requires
        amount_of(split_fields(line)[amount_idx]) is None,
    ensures
        donation_recs_of(lines.push(line), id_idx, amount_idx) == donation_recs_of(
            lines,
            id_idx,
            amount_idx,
        ),
{
    assert(lines.push(line).drop_last() =~= lines);
}

/// Joins one donor chunk against the whole donation dataset: resolves
/// the two required donation columns from the header line, then sums
/// each donation whose donor id the chunk holds into that donor's
/// state. The partial aggregate equals the reference join of the chunk
/// against the donation records; donations of donors outside the chunk
/// add nothing here.
pub fn map_task(
    donor_id_to_state: &DonorChunk,
    donation_donor_id_col: &Vec<u8>,
    donation_amount_col: &Vec<u8>,
    donation_lines: &Vec<Vec<u8>>,
) -> (r: Result<DonationsByState, JoinError>)
    ensures
        ({
            let lines = views(donation_lines@);
            let id_name = donation_donor_id_col@;
            let amt_name = donation_amount_col@;
            match r {
                Ok(p) => {
                    &&& lines.len() >= 1
                    &&& header_cols(lines, id_name, amt_name) is Some
                    &&& {
                        let cols = header_cols(lines, id_name, amt_name).unwrap();
                        &&& forall|j: int|
                            1 <= j < lines.len() ==> line_fits(#[trigger] lines[j], cols.0, cols.1)
                        &&& p.wf()
                        &&& p@.dom() == counted_states(
                            donor_id_to_state@,
                            donation_recs_of(lines.skip(1), cols.0, cols.1),
                        )
                        &&& forall|s: Seq<u8>|
                            #[trigger] p.sum_for(s) == join_sum(
                                donor_id_to_state@,
                                donation_recs_of(lines.skip(1), cols.0, cols.1),
                                s,
                            )
                    }
                },
                Err(JoinError::Schema { dataset }) => dataset == Dataset::Donations && (lines.len()
                    == 0 || header_cols(lines, id_name, amt_name) is None),
                Err(JoinError::LineShape { dataset, line }) => {
                    &&& dataset == Dataset::Donations
                    &&& lines.len() >= 1
                    &&& header_cols(lines, id_name, amt_name) is Some
                    &&& {
                        let cols = header_cols(lines, id_name, amt_name).unwrap();
                        &&& 1 <= line < lines.len()
                        &&& !line_fits(lines[line as int], cols.0, cols.1)
                        &&& forall|j: int|
                            1 <= j < line ==> line_fits(#[trigger] lines[j], cols.0, cols.1)
                    }
                },
            }
        }),
{
    let ghost lines = views(donation_lines@);
    proof {
        assert(forall|k: int| 0 <= k < lines.len() ==> lines[k] == donation_lines@[k]@);
    }
    if donation_lines.len() == 0 {
        return Err(JoinError::Schema { dataset: Dataset::Donations });
    }
    let (ii, ai) = match get_indexes(
        donation_donor_id_col,
        donation_amount_col,
        &donation_lines[0],
        Dataset::Donations,
    ) {
        Ok(t) => t,
        Err(e) => {
            return Err(e);
        },
    };
    proof {
        assert(header_cols(lines, donation_donor_id_col@, donation_amount_col@) == Some(
            (ii as int, ai as int),
        ));
    }
    let mut agg = DonationsByState::new();
    let mut j: usize = 1;
    proof {
        assert(lines.subrange(1, 1) =~= Seq::<Seq<u8>>::empty());
        assert(agg@.dom() =~= counted_states(
            donor_id_to_state@,
            donation_recs_of(lines.subrange(1, 1), ii as int, ai as int),
        ));
    }
    while j < donation_lines.len()
        invariant
            1 <= j <= donation_lines.len(),
            lines == views(donation_lines@),
            forall|k: int| 0 <= k < lines.len() ==> lines[k] == donation_lines@[k]@,
            header_cols(lines, donation_donor_id_col@, donation_amount_col@) == Some(
                (ii as int, ai as int),
            ),
            forall|jj: int| 1 <= jj < j ==> line_fits(#[trigger] lines[jj], ii as int, ai as int),
            agg.wf(),
            agg@.dom() == counted_states(
                donor_id_to_state@,
                donation_recs_of(lines.subrange(1, j as int), ii as int, ai as int),
            ),
            forall|s: Seq<u8>|
                #[trigger] agg.sum_for(s) == join_sum(
                    donor_id_to_state@,
                    donation_recs_of(lines.subrange(1, j as int), ii as int, ai as int),
                    s,
                ),
        decreases donation_lines.len() - j,
    {
        let ghost recs = donation_recs_of(lines.subrange(1, j as int), ii as int, ai as int);
        proof {
            assert(lines.subrange(1, j + 1) =~= lines.subrange(1, j as int).push(lines[j as int]));
            assert(lines.subrange(1, j + 1).drop_last() =~= lines.subrange(1, j as int));
        }
        match DonationInfo::from_line(ii, ai, &donation_lines[j]) {
            DonationLine::Malformed => {
                return Err(JoinError::LineShape { dataset: Dataset::Donations, line: j });
            },
            DonationLine::Skipped => {},
            DonationLine::Record(d) => {
                let ghost rec = (d.donor_id@, d.amount as int);
                proof {
                    assert(donation_recs_of(lines.subrange(1, j + 1), ii as int, ai as int)
                        == recs.push(rec));
                }
                match donor_id_to_state.lookup(&d.donor_id) {
                    Some(state) => {
                        proof {
                            lemma_donation_recs_bounded(
                                lines.subrange(1, j as int),
                                ii as int,
                                ai as int,
                            );
                            lemma_donation_recs_len(
                                lines.subrange(1, j as int),
                                ii as int,
                                ai as int,
                            );
                            lemma_amount_of_bound(split_fields(lines[j as int])[ai as int]);
                            lemma_step_fits(donor_id_to_state@, recs, state@, rec.1);
                        }
                        agg.add_amount(state, d.amount as i128);
                        proof {
                            assert(recs.push(rec).drop_last() =~= recs);
                            assert(counted_states(donor_id_to_state@, recs.push(rec))
                                == counted_states(donor_id_to_state@, recs).insert(state@));
                            assert forall|s: Seq<u8>| #[trigger] agg.sum_for(s) == join_sum(
                                donor_id_to_state@,
                                recs.push(rec),
                                s,
                            ) by {
                                assert(recs.push(rec).drop_last() =~= recs);
                            }
                        }
                    },
                    None => {
                        proof {
                            assert(recs.push(rec).drop_last() =~= recs);
                            assert(counted_states(donor_id_to_state@, recs.push(rec))
                                == counted_states(donor_id_to_state@, recs));
                            assert forall|s: Seq<u8>| #[trigger] agg.sum_for(s) == join_sum(
                                donor_id_to_state@,
                                recs.push(rec),
                                s,
                            ) by {
                                assert(recs.push(rec).drop_last() =~= recs);
                            }
                        }
                    },
                }
            },
        }
        j += 1;
    }
    proof {
        assert(lines.subrange(1, lines.len() as int) =~= lines.skip(1));
    }
    Ok(agg)
}

} // verus!
