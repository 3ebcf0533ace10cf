//! The donor side of the join: building the donor lookup table from
//! parsed donor records (the first record with an id wins), and cutting
//! it into bounded chunks, the units of concurrent work. Every donor id
//! lands in exactly one chunk, and a trailing partial chunk is kept.

use vstd::prelude::*;

use crate::assoc::has_key;
use crate::assoc::lemma_map_of_contains;
use crate::assoc::lemma_map_of_first;
use crate::assoc::lemma_map_of_push;
use crate::assoc::map_of;
use crate::assoc::unique_keys;
use crate::bytes::bytes_eq;
use crate::bytes::copy_bytes;
use crate::records::DonorInfo;

verus! {

/// The entries of donor records as key and value sequences.
pub open spec fn entry_views(s: Seq<DonorInfo>) -> Seq<(Seq<u8>, Seq<u8>)> {
    s.map_values(|d: DonorInfo| (d.id@, d.state@))
}

/// A bounded group of donor records, mapping donor id to state; the
/// unit of work one map task joins against the donation dataset. The
/// full donor table is one unbounded chunk before partitioning.
pub struct DonorChunk {
    pub entries: Vec<DonorInfo>,
}

impl View for DonorChunk {
    type V = Map<Seq<u8>, Seq<u8>>;

    open spec fn view(&self) -> Map<Seq<u8>, Seq<u8>> {
        map_of(entry_views(self.entries@))
    }
}

impl DonorChunk {
    /// The chunk's entries as key and value sequences.
    pub open spec fn entry_seq(self) -> Seq<(Seq<u8>, Seq<u8>)> {
        entry_views(self.entries@)
    }

    /// No donor id appears twice.
    pub open spec fn wf(self) -> bool {
        unique_keys(self.entry_seq())
    }

    /// The state of the donor with this id, if the chunk holds it.
    pub fn lookup(&self, id: &Vec<u8>) -> (r: Option<&Vec<u8>>)
        ensures
            match r {
                Some(st) => self@.dom().contains(id@) && self@[id@] == st@,
                None => !self@.dom().contains(id@),
            },
    {
        let ghost es = self.entry_seq();
        let mut i: usize = 0;
        while i < self.entries.len()
            invariant
                i <= self.entries.len(),
                es == self.entry_seq(),
                forall|j: int| 0 <= j < i ==> (#[trigger] es[j]).0 != id@,
            decreases self.entries.len() - i,
        {
            if bytes_eq(&self.entries[i].id, id) {
                proof {
                    assert(es[i as int].0 == id@);
                    lemma_map_of_first(es, i as int);
                }
                return Some(&self.entries[i].state);
            }
            i += 1;
        }
        proof {
            assert(!has_key(es, id@)) by {
                if has_key(es, id@) {
                    let j = choose|j: int| 0 <= j < es.len() && es[j].0 == id@;
                    assert(es[j].0 != id@);
                }
            }
            lemma_map_of_contains(es, id@);
        }
        None
    }
}

/// True when some entry holds this donor id.
fn has_id(entries: &Vec<DonorInfo>, id: &Vec<u8>) -> (r: bool)
    ensures
        r == has_key(entry_views(entries@), id@),
{
    let ghost es = entry_views(entries@);
    let mut i: usize = 0;
    while i < entries.len()
        invariant
            i <= entries.len(),
            es == entry_views(entries@),
            forall|j: int| 0 <= j < i ==> (#[trigger] es[j]).0 != id@,
        decreases entries.len() - i,
    {
        if bytes_eq(&entries[i].id, id) {
            proof {
                assert(es[i as int].0 == id@);
            }
            return true;
        }
        i += 1;
    }
    proof {
        if has_key(es, id@) {
            let j = choose|j: int| 0 <= j < es.len() && es[j].0 == id@;
            assert(es[j].0 != id@);
        }
    }
    false
}

/// Builds the donor lookup table from the donor records in order: the
/// first record with a donor id gives that donor's state, and later
/// records with the same id are ignored, so each id is held once.
pub fn build_donor_table(records: &Vec<DonorInfo>) -> (t: DonorChunk)
    ensures
        t.wf(),
        t@ == map_of(entry_views(records@)),
{
    let ghost full = entry_views(records@);
    let mut entries: Vec<DonorInfo> = Vec::new();
    let mut i: usize = 0;
    proof {
        assert(entry_views(entries@) =~= Seq::<(Seq<u8>, Seq<u8>)>::empty());
        assert(full.take(0) =~= Seq::<(Seq<u8>, Seq<u8>)>::empty());
    }
    while i < records.len()
        invariant
            i <= records.len(),
            full == entry_views(records@),
            unique_keys(entry_views(entries@)),
            map_of(entry_views(entries@)) == map_of(full.take(i as int)),
        decreases records.len() - i,
    {
        let ghost es = entry_views(entries@);
        let rec = &records[i];
        proof {
            assert(full[i as int] == (rec.id@, rec.state@));
            assert(full.take(i + 1) =~= full.take(i as int).push(full[i as int]));
            lemma_map_of_push(full.take(i as int), rec.id@, rec.state@);
            lemma_map_of_contains(full.take(i as int), rec.id@);
            lemma_map_of_contains(es, rec.id@);
        }
        if !has_id(&entries, &rec.id) {
            proof {
                lemma_map_of_push(es, rec.id@, rec.state@);
            }
            entries.push(DonorInfo { id: copy_bytes(&rec.id), state: copy_bytes(&rec.state) });
            proof {
                assert(entry_views(entries@) =~= es.push((rec.id@, rec.state@)));
                assert forall|a: int, b: int|
                    0 <= a < b < entry_views(entries@).len() implies (#[trigger] entry_views(
                    entries@,
                )[a]).0 != (#[trigger] entry_views(entries@)[b]).0 by {
                    if b < es.len() {
                        assert(es[a].0 != es[b].0);
                    } else {
                        assert(es[a].0 != rec.id@);
                    }
                }
            }
        }
        i += 1;
    }
    proof {
        assert(full.take(records@.len() as int) =~= full);
    }
    DonorChunk { entries }
}

/// The entries of a row of chunks, in order.
pub open spec fn concat_entries(cs: Seq<DonorChunk>) -> Seq<(Seq<u8>, Seq<u8>)>
    decreases cs.len(),
{
    if cs.len() == 0 {
        Seq::empty()
    } else {
        concat_entries(cs.drop_last()) + cs.last().entry_seq()
    }
}

/// A row of chunks splits anywhere: the entries of the first `k` chunks
/// followed by those of the rest are the entries of all.
pub proof fn lemma_concat_entries_split(cs: Seq<DonorChunk>, k: int)
    requires
        0 <= k <= cs.len(),
    ensures
        concat_entries(cs) == concat_entries(cs.take(k)) + concat_entries(cs.skip(k)),
    decreases cs.len() - k,
{
    if k == cs.len() {
        assert(cs.take(k) =~= cs);
        assert(concat_entries(cs.skip(k)) =~= Seq::<(Seq<u8>, Seq<u8>)>::empty());
        assert(concat_entries(cs.take(k)) + concat_entries(cs.skip(k)) =~= concat_entries(cs));
    } else {
        lemma_concat_entries_split(cs, k + 1);
        assert(cs.take(k + 1).drop_last() =~= cs.take(k));
        assert(cs.take(k + 1).last() == cs[k]);
        assert(cs.skip(k).drop_first() =~= cs.skip(k + 1));
        assert(cs.skip(k)[0] == cs[k]);
        lemma_concat_first(cs.skip(k));
        assert(concat_entries(cs.take(k)) + (cs[k].entry_seq() + concat_entries(cs.skip(k + 1)))
            =~= (concat_entries(cs.take(k)) + cs[k].entry_seq()) + concat_entries(cs.skip(k + 1)));
    }
}

/// The entries of a nonempty row are its first chunk's entries followed
/// by the rest's.
pub proof fn lemma_concat_first(cs: Seq<DonorChunk>)
    requires
        cs.len() > 0,
    ensures
        concat_entries(cs) == cs[0].entry_seq() + concat_entries(cs.drop_first()),
    decreases cs.len(),
{
    if cs.len() == 1 {
        assert(cs.drop_last() =~= Seq::<DonorChunk>::empty());
        assert(cs.drop_first() =~= Seq::<DonorChunk>::empty());
        assert(cs[0].entry_seq() + concat_entries(cs.drop_first()) =~= cs.last().entry_seq());
        assert(concat_entries(cs) =~= cs.last().entry_seq());
    } else {
        lemma_concat_first(cs.drop_last());
        assert(cs.drop_last()[0] == cs[0]);
        assert(cs.drop_last().drop_first() =~= cs.drop_first().drop_last());
        assert(cs.drop_first().last() == cs.last());
        assert((cs[0].entry_seq() + concat_entries(cs.drop_first().drop_last()))
            + cs.last().entry_seq() =~= cs[0].entry_seq() + (concat_entries(
            cs.drop_first().drop_last(),
        ) + cs.last().entry_seq()));
    }
}

/// Cuts the donor table into chunks of at most `chunk_size` records,
/// in order and losing none: a trailing chunk smaller than the bound is
/// kept as a unit of work of its own.
pub fn partition(table: &DonorChunk, chunk_size: usize) -> (r: Vec<DonorChunk>)
    requires
        chunk_size >= 1,
        table.wf(),
    ensures
        concat_entries(r@) == table.entry_seq(),
        forall|k: int|
            0 <= k < r@.len() ==> 1 <= (#[trigger] r@[k]).entries@.len() <= chunk_size,
        forall|k: int|
            0 <= k < r@.len() - 1 ==> (#[trigger] r@[k]).entries@.len() == chunk_size,
        forall|k: int| 0 <= k < r@.len() ==> (#[trigger] r@[k]).wf(),
{
    let ghost tbl = table.entry_seq();
    let mut r: Vec<DonorChunk> = Vec::new();
    let mut start: usize = 0;
    proof {
        assert(concat_entries(r@) =~= Seq::<(Seq<u8>, Seq<u8>)>::empty());
        assert(tbl.take(0) =~= Seq::<(Seq<u8>, Seq<u8>)>::empty());
    }
    while start < table.entries.len()
        invariant
            start <= table.entries.len(),
            tbl == table.entry_seq(),
            table.wf(),
            chunk_size >= 1,
            concat_entries(r@) == tbl.take(start as int),
            forall|k: int|
                0 <= k < r@.len() ==> 1 <= (#[trigger] r@[k]).entries@.len() <= chunk_size,
            forall|k: int|
                0 <= k < r@.len() - 1 ==> (#[trigger] r@[k]).entries@.len() == chunk_size,
            r@.len() >= 1 ==> (r@[r@.len() - 1].entries@.len() == chunk_size || start
                == table.entries@.len()),
            forall|k: int| 0 <= k < r@.len() ==> (#[trigger] r@[k]).wf(),
        decreases table.entries.len() - start,
    {
        let end = if table.entries.len() - start < chunk_size {
            table.entries.len()
        } else {
            start + chunk_size
        };
        let mut entries: Vec<DonorInfo> = Vec::new();
        let mut i = start;
        proof {
            assert(entry_views(entries@) =~= tbl.subrange(start as int, start as int));
        }
        while i < end
            invariant
                start <= i <= end <= table.entries.len(),
                tbl == table.entry_seq(),
                entry_views(entries@) == tbl.subrange(start as int, i as int),
            decreases end - i,
        {
            let ghost es0 = entry_views(entries@);
            let rec = &table.entries[i];
            entries.push(DonorInfo { id: copy_bytes(&rec.id), state: copy_bytes(&rec.state) });
            proof {
                assert(tbl[i as int] == (rec.id@, rec.state@));
                assert(entry_views(entries@) =~= es0.push((rec.id@, rec.state@)));
                assert(tbl.subrange(start as int, i as int).push(tbl[i as int]) =~= tbl.subrange(
                    start as int,
                    i + 1,
                ));
                assert(entry_views(entries@) =~= tbl.subrange(start as int, i + 1));
            }
            i += 1;
        }
        let chunk = DonorChunk { entries };
        proof {
            assert(chunk.entry_seq() == tbl.subrange(start as int, end as int));
            assert(chunk.wf()) by {
                assert forall|a: int, b: int|
                    0 <= a < b < chunk.entry_seq().len() implies (#[trigger] chunk.entry_seq()[a]).0
                    != (#[trigger] chunk.entry_seq()[b]).0 by {
                    assert(tbl[start + a].0 != tbl[start + b].0);
                }
            }
            assert(r@.push(chunk).drop_last() =~= r@);
            assert(tbl.take(start as int) + tbl.subrange(start as int, end as int) =~= tbl.take(
                end as int,
            ));
        }
        r.push(chunk);
        start = end;
    }
    proof {
        assert(tbl.take(table.entries@.len() as int) =~= tbl);
    }
    r
}

} // verus!
