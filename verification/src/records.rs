//! Record and header parsing: resolving required column names to their
//! positions in a header line, and turning one data line into a typed
//! donor or donation record.

use vstd::prelude::*;

use crate::amount::amount_of;
use crate::amount::parse_amount;
use crate::bytes::bytes_eq;
use crate::bytes::split_fields;
use crate::bytes::split_line;
use crate::bytes::sub_vec;
use crate::bytes::views;

verus! {

/// Which of the two datasets an error speaks of.
#[derive(Clone, Copy, Debug, PartialEq, Eq, Structural)]
pub enum Dataset {
    Donors,
    Donations,
}

/// A fatal fault of an input dataset. A donation amount that does not
/// parse is no error: that record is skipped.
#[derive(Clone, Copy, Debug, PartialEq, Eq, Structural)]
pub enum JoinError {
    /// A required column name is absent from the dataset's header, or
    /// the dataset has no header line at all.
    Schema { dataset: Dataset },
    /// The data line at this index has too few fields for the resolved
    /// column positions.
    LineShape { dataset: Dataset, line: usize },
}

/// The position of the first field equal to `name`, if any. A repeated
/// column name resolves to its first occurrence.
pub open spec fn col_index(fields: Seq<Seq<u8>>, name: Seq<u8>) -> Option<int>
    decreases fields.len(),
{
    if fields.len() == 0 {
        None
    } else if fields[0] == name {
        Some(0)
    } else {
        match col_index(fields.drop_first(), name) {
            Some(i) => Some(i + 1),
            None => None,
        }
    }
}

/// The positions that a dataset's header line (its first line) resolves
/// two required column names to, or `None` when the dataset is empty or
/// either name is absent from the header.
pub open spec fn header_cols(
    lines: Seq<Seq<u8>>,
    first_name: Seq<u8>,
    second_name: Seq<u8>,
) -> Option<(int, int)> {
    if lines.len() == 0 {
        None
    } else {
        match (
            col_index(split_fields(lines[0]), first_name),
            col_index(split_fields(lines[0]), second_name),
        ) {
            (Some(i), Some(j)) => Some((i, j)),
            _ => None,
        }
    }
}

/// `col_index` is pinned by a witness position and a name-free prefix,
/// or by the name occurring nowhere.
pub proof fn lemma_col_index_is(fields: Seq<Seq<u8>>, name: Seq<u8>, r: Option<int>)
    requires
        match r {
            Some(i) => 0 <= i < fields.len() && fields[i] == name && forall|j: int|
                0 <= j < i ==> fields[j] != name,
            None => forall|j: int| 0 <= j < fields.len() ==> fields[j] != name,
        },
    ensures
        col_index(fields, name) == r,
    decreases fields.len(),
{
    if fields.len() > 0 && fields[0] != name {
        let rest = fields.drop_first();
        match r {
            Some(i) => {
                assert forall|j: int| 0 <= j < i - 1 implies rest[j] != name by {
                    assert(fields[j + 1] != name);
                }
                lemma_col_index_is(rest, name, Some(i - 1));
            },
            None => {
                assert forall|j: int| 0 <= j < rest.len() implies rest[j] != name by {
                    assert(fields[j + 1] != name);
                }
                lemma_col_index_is(rest, name, None);
            },
        }
    }
}

/// Resolves the two required column names of `dataset` against a header
/// line: their zero-based positions, first occurrence winning, or a
/// schema error when either name is absent.
pub fn get_indexes(
    first_col_name: &Vec<u8>,
    second_col_name: &Vec<u8>,
    header: &Vec<u8>,
    dataset: Dataset,
) -> (r: Result<(usize, usize), JoinError>)
    ensures
        ({
            let fields = split_fields(header@);
            match r {
                Ok((i, j)) => col_index(fields, first_col_name@) == Some(i as int) && col_index(
                    fields,
                    second_col_name@,
                ) == Some(j as int),
                Err(e) => e == (JoinError::Schema { dataset }) && (col_index(
                    fields,
                    first_col_name@,
                ) is None || col_index(fields, second_col_name@) is None),
            }
        }),
{
    let fields = split_line(header);
    let ghost fviews = views(fields@);
    let mut first_index: Option<usize> = None;
    let mut second_index: Option<usize> = None;
    let mut i: usize = 0;
    while i < fields.len()
        invariant
            i <= fields.len(),
            fviews == views(fields@),
            fviews == split_fields(header@),
            fviews.len() == fields@.len(),
            forall|k: int| 0 <= k < fields@.len() ==> fviews[k] == fields@[k]@,
            match first_index {
                Some(x) => x < i && fviews[x as int] == first_col_name@ && forall|j: int|
                    0 <= j < x ==> fviews[j] != first_col_name@,
                None => forall|j: int| 0 <= j < i ==> fviews[j] != first_col_name@,
            },
            match second_index {
                Some(x) => x < i && fviews[x as int] == second_col_name@ && forall|j: int|
                    0 <= j < x ==> fviews[j] != second_col_name@,
                None => forall|j: int| 0 <= j < i ==> fviews[j] != second_col_name@,
            },
        decreases fields.len() - i,
    {
        if first_index.is_none() && bytes_eq(&fields[i], first_col_name) {
            first_index = Some(i);
        }
        if second_index.is_none() && bytes_eq(&fields[i], second_col_name) {
            second_index = Some(i);
        }
        i += 1;
    }
    match (first_index, second_index) {
        (Some(a), Some(b)) => {
            proof {
                lemma_col_index_is(fviews, first_col_name@, Some(a as int));
                lemma_col_index_is(fviews, second_col_name@, Some(b as int));
            }
            Ok((a, b))
        },
        _ => {
            proof {
                if first_index is None {
                    lemma_col_index_is(fviews, first_col_name@, None);
                } else {
                    lemma_col_index_is(fviews, second_col_name@, None);
                }
            }
            Err(JoinError::Schema { dataset })
        },
    }
}

/// One donor record: a donor id and that donor's state.
pub struct DonorInfo {
    pub id: Vec<u8>,
    pub state: Vec<u8>,
}

/// True when the line splits into enough fields for both positions.
pub open spec fn line_fits(line: Seq<u8>, a: int, b: int) -> bool {
    split_fields(line).len() > a && split_fields(line).len() > b
}

/// The donor record a line denotes: its id and state fields, or `None`
/// when the line has too few fields.
pub open spec fn donor_of_line(line: Seq<u8>, id_index: int, state_index: int) -> Option<
    (Seq<u8>, Seq<u8>),
> {
    if line_fits(line, id_index, state_index) {
        Some((split_fields(line)[id_index], split_fields(line)[state_index]))
    } else {
        None
    }
}

impl DonorInfo {
    /// Extracts the id and state fields of one donor line; `None` when
    /// the line has too few fields for the resolved positions.
    pub fn from_line(id_index: usize, state_index: usize, line: &Vec<u8>) -> (r: Option<DonorInfo>)
        ensures
            match r {
                Some(d) => donor_of_line(line@, id_index as int, state_index as int) == Some(
                    (d.id@, d.state@),
                ),
                None => donor_of_line(line@, id_index as int, state_index as int) is None,
            },
    {
        let fields = split_line(line);
        proof {
            assert(views(fields@).len() == fields@.len());
            assert(forall|k: int| 0 <= k < fields@.len() ==> views(fields@)[k] == fields@[k]@);
        }
        if id_index < fields.len() && state_index < fields.len() {
            let id = sub_vec(&fields[id_index], 0, fields[id_index].len());
            let state = sub_vec(&fields[state_index], 0, fields[state_index].len());
            proof {
                assert(id@ =~= split_fields(line@)[id_index as int]);
                assert(state@ =~= split_fields(line@)[state_index as int]);
            }
            Some(DonorInfo { id, state })
        } else {
            None
        }
    }
}

/// One donation record: the id of the donor it references and its
/// amount in hundredths.
pub struct DonationInfo {
    pub donor_id: Vec<u8>,
    pub amount: i64,
}

/// What one donation line yields: a record, nothing when its amount
/// does not parse, or a shape fault when fields are missing.
pub enum DonationLine {
    Record(DonationInfo),
    Skipped,
    Malformed,
}

/// The donation record a well-shaped line denotes, or `None` when its
/// amount field is not a well-formed amount.
pub open spec fn donation_rec_of(line: Seq<u8>, id_index: int, amount_index: int) -> Option<
    (Seq<u8>, int),
> {
    match amount_of(split_fields(line)[amount_index]) {
        Some(v) => Some((split_fields(line)[id_index], v)),
        None => None,
    }
}

impl DonationInfo {
    /// Reads one donation line: a record when the amount field parses,
    /// a skip when it does not, a shape fault when the line has too few
    /// fields for the resolved positions.
    pub fn from_line(id_index: usize, amount_index: usize, line: &Vec<u8>) -> (r: DonationLine)
        ensures
            match r {
                DonationLine::Record(d) => line_fits(line@, id_index as int, amount_index as int)
                    && donation_rec_of(line@, id_index as int, amount_index as int) == Some(
                    (d.donor_id@, d.amount as int),
                ),
                DonationLine::Skipped => line_fits(line@, id_index as int, amount_index as int)
                    && donation_rec_of(line@, id_index as int, amount_index as int) is None,
                DonationLine::Malformed => !line_fits(
                    line@,
                    id_index as int,
                    amount_index as int,
                ),
            },
    {
        let fields = split_line(line);
        proof {
            assert(views(fields@).len() == fields@.len());
            assert(forall|k: int| 0 <= k < fields@.len() ==> views(fields@)[k] == fields@[k]@);
        }
        if id_index < fields.len() && amount_index < fields.len() {
            match parse_amount(&fields[amount_index]) {
                Some(amount) => {
                    let donor_id = sub_vec(&fields[id_index], 0, fields[id_index].len());
                    proof {
                        assert(donor_id@ =~= split_fields(line@)[id_index as int]);
                        assert(fields@[amount_index as int]@ == split_fields(
                            line@,
                        )[amount_index as int]);
                    }
                    DonationLine::Record(DonationInfo { donor_id, amount })
                },
                None => DonationLine::Skipped,
            }
        } else {
            DonationLine::Malformed
        }
    }
}

} // verus!
