//! The join-aggregate engine: resolves both headers, reads the donor
//! stream into records, builds the donor table, cuts it into chunks,
//! runs one map task per chunk, and merges every partial aggregate into
//! the final result. The result equals the plain single-pass reference
//! join whatever the chunk size, and every dispatched chunk's partial
//! aggregate is merged before the engine returns.

use vstd::prelude::*;

use crate::aggregate::DonationsByState;
use crate::assoc::has_key;
use crate::assoc::lemma_map_of_concat;
use crate::assoc::map_of;
use crate::assoc::unique_keys;
use crate::bytes::views;
use crate::bytes::split_fields;
use crate::join::counted_states;
use crate::join::join_sum;
use crate::join::lemma_counted_empty;
use crate::join::lemma_counted_union;
use crate::join::lemma_join_sum_union;
use crate::join::lemma_merge_fits;
use crate::records::Dataset;
use crate::records::DonationInfo;
use crate::records::DonationLine;
use crate::records::DonorInfo;
use crate::records::JoinError;
use crate::records::get_indexes;
use crate::records::header_cols;
use crate::records::line_fits;
use crate::table::DonorChunk;
use crate::table::build_donor_table;
use crate::table::concat_entries;
use crate::table::entry_views;
use crate::table::lemma_concat_entries_split;
use crate::table::lemma_concat_first;
use crate::table::partition;
use crate::worker::donation_recs_of;
use crate::worker::lemma_donation_recs_bounded;
use crate::worker::lemma_donation_recs_len;
use crate::worker::map_task;

verus! {

/// The engine's configuration: the four required column names and the
/// bound on how many donor records one chunk may hold.
pub struct JoinConfig {
    pub donor_id_col: Vec<u8>,
    pub donor_state_col: Vec<u8>,
    pub donation_donor_id_col: Vec<u8>,
    pub donation_amount_col: Vec<u8>,
    pub chunk_size: usize,
}

/// The donor records that well-shaped donor data lines denote: each
/// line's id and state fields, in order.
pub open spec fn donor_recs_of(lines: Seq<Seq<u8>>, id_idx: int, st_idx: int) -> Seq<
    (Seq<u8>, Seq<u8>),
> {
    lines.map_values(|l: Seq<u8>| (split_fields(l)[id_idx], split_fields(l)[st_idx]))
}

/// Computes the total donation amount per state: the inner join of the
/// two datasets on donor id, grouped by the donor's state and summed.
///
/// The donor side is cut into chunks of at most `chunk_size` records
/// and each chunk is joined against the whole donation dataset by its
/// own map task; the partial aggregates are merged into the result.
/// For every state the result carries exactly the reference join's sum,
/// so it does not depend on `chunk_size`. Donations whose donor id no
/// donor record holds add nothing; donation lines whose amount field is
/// not a number are skipped. A dataset without both required columns in
/// its header is refused before any work is dispatched, and a data line
/// with too few fields for the resolved columns aborts the whole run.
pub fn run(
    config: &JoinConfig,
    donor_lines: &Vec<Vec<u8>>,
    donation_lines: &Vec<Vec<u8>>,
) -> (r: Result<DonationsByState, JoinError>)
    requires
        config.chunk_size >= 1,
    ensures
        ({
            let dl = views(donor_lines@);
            let nl = views(donation_lines@);
            let dcols = header_cols(dl, config.donor_id_col@, config.donor_state_col@);
            let ncols = header_cols(nl, config.donation_donor_id_col@, config.donation_amount_col@);
            match r {
                Ok(p) => {
                    &&& dl.len() >= 1 && dcols is Some
                    &&& nl.len() >= 1 && ncols is Some
                    &&& forall|j: int|
                        1 <= j < dl.len() ==> line_fits(
                            #[trigger] dl[j],
                            dcols.unwrap().0,
                            dcols.unwrap().1,
                        )
                    &&& forall|j: int|
                        1 <= j < nl.len() ==> line_fits(
                            #[trigger] nl[j],
                            ncols.unwrap().0,
                            ncols.unwrap().1,
                        )
                    &&& p.wf()
                    &&& p@.dom() == counted_states(
                        map_of(donor_recs_of(dl.skip(1), dcols.unwrap().0, dcols.unwrap().1)),
                        donation_recs_of(nl.skip(1), ncols.unwrap().0, ncols.unwrap().1),
                    )
                    &&& forall|s: Seq<u8>|
                        #[trigger] p.sum_for(s) == join_sum(
                            map_of(donor_recs_of(dl.skip(1), dcols.unwrap().0, dcols.unwrap().1)),
                            donation_recs_of(nl.skip(1), ncols.unwrap().0, ncols.unwrap().1),
                            s,
                        )
                },
                Err(JoinError::Schema { dataset }) => match dataset {
                    Dataset::Donors => dl.len() == 0 || dcols is None,
                    Dataset::Donations => dl.len() >= 1 && dcols is Some && (nl.len() == 0
                        || ncols is None),
                },
                Err(JoinError::LineShape { dataset, line }) => {
                    &&& dl.len() >= 1 && dcols is Some
                    &&& nl.len() >= 1 && ncols is Some
                    &&& match dataset {
                        Dataset::Donors => {
                            &&& 1 <= line < dl.len()
                            &&& !line_fits(dl[line as int], dcols.unwrap().0, dcols.unwrap().1)
                            &&& forall|j: int|
                                1 <= j < line ==> line_fits(
                                    #[trigger] dl[j],
                                    dcols.unwrap().0,
                                    dcols.unwrap().1,
                                )
                        },
                        Dataset::Donations => {
                            &&& forall|j: int|
                                1 <= j < dl.len() ==> line_fits(
                                    #[trigger] dl[j],
                                    dcols.unwrap().0,
                                    dcols.unwrap().1,
                                )
                            &&& 1 <= line < nl.len()
                            &&& !line_fits(nl[line as int], ncols.unwrap().0, ncols.unwrap().1)
                            &&& forall|j: int|
                                1 <= j < line ==> line_fits(
                                    #[trigger] nl[j],
                                    ncols.unwrap().0,
                                    ncols.unwrap().1,
                                )
                        },
                    }
                },
            }
        }),
{
    let ghost dl = views(donor_lines@);
    let ghost nl = views(donation_lines@);
    proof {
        assert(forall|k: int| 0 <= k < dl.len() ==> dl[k] == donor_lines@[k]@);
        assert(forall|k: int| 0 <= k < nl.len() ==> nl[k] == donation_lines@[k]@);
    }

    // Resolve both headers before any work is dispatched.
    if donor_lines.len() == 0 {
        return Err(JoinError::Schema { dataset: Dataset::Donors });
    }
    let (di, si) = match get_indexes(
        &config.donor_id_col,
        &config.donor_state_col,
        &donor_lines[0],
        Dataset::Donors,
    ) {
        Ok(t) => t,
        Err(e) => {
            return Err(e);
        },
    };
    proof {
        assert(header_cols(dl, config.donor_id_col@, config.donor_state_col@) == Some(
            (di as int, si as int),
        ));
    }
    if donation_lines.len() == 0 {
        return Err(JoinError::Schema { dataset: Dataset::Donations });
    }
    let (ni, na) = match get_indexes(
        &config.donation_donor_id_col,
        &config.donation_amount_col,
        &donation_lines[0],
        Dataset::Donations,
    ) {
        Ok(t) => t,
        Err(e) => {
            return Err(e);
        },
    };
    proof {
        assert(header_cols(nl, config.donation_donor_id_col@, config.donation_amount_col@) == Some(
            (ni as int, na as int),
        ));
    }

    // Read the donor stream into records; a short donor line is fatal.
    let mut records: Vec<DonorInfo> = Vec::new();
    let mut j: usize = 1;
    proof {
        assert(entry_views(records@) =~= donor_recs_of(
            dl.subrange(1, 1),
            di as int,
            si as int,
        ));
    }
    while j < donor_lines.len()
        invariant
            1 <= j <= donor_lines.len(),
            dl == views(donor_lines@),
            nl == views(donation_lines@),
            dl.len() >= 1,
            nl.len() >= 1,
            header_cols(dl, config.donor_id_col@, config.donor_state_col@) == Some(
                (di as int, si as int),
            ),
            header_cols(nl, config.donation_donor_id_col@, config.donation_amount_col@) == Some(
                (ni as int, na as int),
            ),
            forall|k: int| 0 <= k < dl.len() ==> dl[k] == donor_lines@[k]@,
            forall|jj: int| 1 <= jj < j ==> line_fits(#[trigger] dl[jj], di as int, si as int),
            entry_views(records@) == donor_recs_of(dl.subrange(1, j as int), di as int, si as int),
        decreases donor_lines.len() - j,
    {
        match DonorInfo::from_line(di, si, &donor_lines[j]) {
            Some(d) => {
                proof {
                    assert(dl.subrange(1, j + 1) =~= dl.subrange(1, j as int).push(dl[j as int]));
                    assert(entry_views(records@.push(d)) =~= entry_views(records@).push(
                        (d.id@, d.state@),
                    ));
                    assert(donor_recs_of(dl.subrange(1, j + 1), di as int, si as int)
                        =~= donor_recs_of(dl.subrange(1, j as int), di as int, si as int).push(
                        (split_fields(dl[j as int])[di as int], split_fields(
                            dl[j as int],
                        )[si as int]),
                    ));
                }
                records.push(d);
            },
            None => {
                return Err(JoinError::LineShape { dataset: Dataset::Donors, line: j });
            },
        }
        j += 1;
    }

    // Check every donation line's shape before dispatching, so a short
    // line is one fatal error rather than one per map task.
    let mut j2: usize = 1;
    while j2 < donation_lines.len()
        invariant
            1 <= j2 <= donation_lines.len(),
            dl == views(donor_lines@),
            nl == views(donation_lines@),
            dl.len() >= 1,
            nl.len() >= 1,
            header_cols(dl, config.donor_id_col@, config.donor_state_col@) == Some(
                (di as int, si as int),
            ),
            header_cols(nl, config.donation_donor_id_col@, config.donation_amount_col@) == Some(
                (ni as int, na as int),
            ),
            forall|jj: int| 1 <= jj < dl.len() ==> line_fits(#[trigger] dl[jj], di as int, si as int),
            forall|k: int| 0 <= k < nl.len() ==> nl[k] == donation_lines@[k]@,
            forall|jj: int| 1 <= jj < j2 ==> line_fits(#[trigger] nl[jj], ni as int, na as int),
        decreases donation_lines.len() - j2,
    {
        match DonationInfo::from_line(ni, na, &donation_lines[j2]) {
            DonationLine::Malformed => {
                return Err(JoinError::LineShape { dataset: Dataset::Donations, line: j2 });
            },
            _ => {},
        }
        j2 += 1;
    }

    // Build the donor table, cut it into chunks, run one map task per
    // chunk, and merge every partial aggregate into the result.
    let table = build_donor_table(&records);
    let chunks = partition(&table, config.chunk_size);
    let ghost tbl = table.entry_seq();
    let ghost recs = donation_recs_of(nl.skip(1), ni as int, na as int);
    let mut result = DonationsByState::new();
    let mut k: usize = 0;
    proof {
        assert(chunks@.take(0) =~= Seq::<DonorChunk>::empty());
        assert(concat_entries(chunks@.take(0)) =~= Seq::<(Seq<u8>, Seq<u8>)>::empty());
        assert(map_of(concat_entries(chunks@.take(0))) =~= Map::<Seq<u8>, Seq<u8>>::empty());
        crate::join::lemma_join_sum_empty(recs, Seq::<u8>::empty());
        assert forall|s: Seq<u8>| #[trigger] result.sum_for(s) == join_sum(
            map_of(concat_entries(chunks@.take(0))),
            recs,
            s,
        ) by {
            crate::join::lemma_join_sum_empty(recs, s);
        }
        lemma_counted_empty(recs);
        assert(result@.dom() =~= counted_states(map_of(concat_entries(chunks@.take(0))), recs));
    }
    while k < chunks.len()
        invariant
            k <= chunks.len(),
            tbl == table.entry_seq(),
            unique_keys(tbl),
            concat_entries(chunks@) == tbl,
            nl == views(donation_lines@),
            nl.len() >= 1,
            forall|kk: int| 0 <= kk < nl.len() ==> nl[kk] == donation_lines@[kk]@,
            header_cols(nl, config.donation_donor_id_col@, config.donation_amount_col@) == Some(
                (ni as int, na as int),
            ),
            forall|jj: int| 1 <= jj < nl.len() ==> line_fits(#[trigger] nl[jj], ni as int, na as int),
            recs == donation_recs_of(nl.skip(1), ni as int, na as int),
            result.wf(),
            result@.dom() == counted_states(map_of(concat_entries(chunks@.take(k as int))), recs),
            forall|s: Seq<u8>|
                #[trigger] result.sum_for(s) == join_sum(
                    map_of(concat_entries(chunks@.take(k as int))),
                    recs,
                    s,
                ),
        decreases chunks.len() - k,
    {
        let chunk = &chunks[k];
        let ghost done = concat_entries(chunks@.take(k as int));
        let ghost cur = chunks@[k as int].entry_seq();
        match map_task(
            chunk,
            &config.donation_donor_id_col,
            &config.donation_amount_col,
            donation_lines,
        ) {
            Ok(partial) => {
                proof {
                    lemma_concat_entries_split(chunks@, k as int);
                    lemma_concat_first(chunks@.skip(k as int));
                    assert(chunks@.skip(k as int)[0] == chunks@[k as int]);
                    assert(chunks@.skip(k as int).drop_first() =~= chunks@.skip(k + 1));
                    let rest = concat_entries(chunks@.skip(k + 1));
                    assert(tbl == done + (cur + rest));
                    assert forall|i: int| 0 <= i < done.len() implies #[trigger] done[i]
                        == tbl[i] by {
                        assert((done + (cur + rest))[i] == done[i]);
                    }
                    assert forall|i: int| 0 <= i < cur.len() implies #[trigger] cur[i] == tbl[
                        done.len() + i
                    ] by {
                        assert((done + (cur + rest))[done.len() + i] == (cur + rest)[i]);
                        assert((cur + rest)[i] == cur[i]);
                    }
                    assert forall|key: Seq<u8>| !(has_key(done, key) && has_key(cur, key)) by {
                        if has_key(done, key) && has_key(cur, key) {
                            let a = choose|i: int| 0 <= i < done.len() && done[i].0 == key;
                            let b = choose|i: int| 0 <= i < cur.len() && cur[i].0 == key;
                            assert(tbl[a].0 == key);
                            assert(tbl[done.len() + b].0 == key);
                            assert(tbl[a].0 != tbl[done.len() + b].0);
                        }
                    }
                    lemma_map_of_concat(done, cur);
                    assert(chunks@.take(k + 1).drop_last() =~= chunks@.take(k as int));
                    assert(chunks@.take(k + 1).last() == chunks@[k as int]);
                    assert(concat_entries(chunks@.take(k + 1)) == done + cur);
                    lemma_donation_recs_bounded(nl.skip(1), ni as int, na as int);
                    lemma_donation_recs_len(nl.skip(1), ni as int, na as int);
                    assert(donation_lines.len() <= usize::MAX);
                    assert(nl.len() == donation_lines@.len());
                    assert(recs.len() <= nl.len() - 1);
                    assert forall|s: Seq<u8>|
                        i128::MIN <= #[trigger] result.sum_for(s) + partial.sum_for(s)
                            <= i128::MAX by {
                        lemma_merge_fits(map_of(done), map_of(cur), recs, s);
                    }
                }
                result.add_assign(partial);
                proof {
                    lemma_counted_union(map_of(done), map_of(cur), recs);
                    assert(result@.dom() == counted_states(
                        map_of(concat_entries(chunks@.take(k + 1))),
                        recs,
                    ));
                    assert forall|s: Seq<u8>| #[trigger] result.sum_for(s) == join_sum(
                        map_of(concat_entries(chunks@.take(k + 1))),
                        recs,
                        s,
                    ) by {
                        lemma_join_sum_union(map_of(done), map_of(cur), recs, s);
                    }
                }
            },
            Err(e) => {
                proof {
                    assert(false);
                }
                return Err(e);
            },
        }
        k += 1;
    }
    proof {
        assert(chunks@.take(chunks@.len() as int) =~= chunks@);
        assert(dl.subrange(1, dl.len() as int) =~= dl.skip(1));
        assert(map_of(tbl) == map_of(
            donor_recs_of(dl.skip(1), di as int, si as int),
        ));
    }
    Ok(result)
}

} // verus!
