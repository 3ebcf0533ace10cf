//! Byte-string utilities: equality, subranges, and splitting a line on a
//! delimiter byte, with a spec-level model of the split.

use vstd::prelude::*;

verus! {

/// The field delimiter of both datasets (a comma).
pub const DELIM: u8 = 44;

/// The index of the first occurrence of `b` in `s`, or `s.len()` if `b`
/// does not occur.
pub open spec fn find_byte(s: Seq<u8>, b: u8) -> nat
    decreases s.len(),
{
    if s.len() == 0 {
        0
    } else if s[0] == b {
        0
    } else {
        1 + find_byte(s.drop_first(), b)
    }
}

/// `find_byte` returns the index of the first occurrence, or the length.
pub proof fn lemma_find_byte(s: Seq<u8>, b: u8)
    ensures
        find_byte(s, b) <= s.len(),
        find_byte(s, b) < s.len() ==> s[find_byte(s, b) as int] == b,
        forall|j: int| 0 <= j < find_byte(s, b) ==> s[j] != b,
    decreases s.len(),
{
    if s.len() > 0 && s[0] != b {
        lemma_find_byte(s.drop_first(), b);
        assert forall|j: int| 0 <= j < find_byte(s, b) implies s[j] != b by {
            if j > 0 {
                assert(s.drop_first()[j - 1] != b);
            }
        }
    }
}

/// The first occurrence of `b` is pinned by a prefix free of `b`.
pub proof fn lemma_find_byte_is(s: Seq<u8>, b: u8, k: int)
    requires
        0 <= k <= s.len(),
        forall|j: int| 0 <= j < k ==> s[j] != b,
        k < s.len() ==> s[k] == b,
    ensures
        find_byte(s, b) == k,
    decreases s.len(),
{
    if s.len() > 0 && s[0] != b {
        assert forall|j: int| 0 <= j < k - 1 implies s.drop_first()[j] != b by {
            assert(s[j + 1] != b);
        }
        lemma_find_byte_is(s.drop_first(), b, k - 1);
    }
}

/// The fields of `s`, split on `DELIM`. A line always has at least one
/// field; each delimiter byte separates two fields.
pub open spec fn split_fields(s: Seq<u8>) -> Seq<Seq<u8>>
    decreases s.len(),
{
    let k = find_byte(s, DELIM);
    if k >= s.len() {
        seq![s]
    } else {
        seq![s.take(k as int)] + split_fields(s.skip(k as int + 1))
    }
}

/// True when the two byte strings hold the same bytes.
pub fn bytes_eq(a: &Vec<u8>, b: &Vec<u8>) -> (r: bool)
    ensures
        r == (a@ == b@),
{
    if a.len() != b.len() {
        return false;
    }
    let mut i: usize = 0;
    while i < a.len()
        invariant
            i <= a.len(),
            a.len() == b.len(),
            forall|j: int| 0 <= j < i ==> a@[j] == b@[j],
        decreases a.len() - i,
    {
        if a[i] != b[i] {
            return false;
        }
        i += 1;
    }
    proof {
        assert(a@ =~= b@);
    }
    true
}

/// A copy of `s[from..to]` as a fresh byte string.
pub fn sub_vec(s: &Vec<u8>, from: usize, to: usize) -> (r: Vec<u8>)
    requires
        from <= to <= s@.len(),
    ensures
        r@ == s@.subrange(from as int, to as int),
{
    let mut r: Vec<u8> = Vec::new();
    let mut i: usize = from;
    proof {
        assert(r@ =~= s@.subrange(from as int, from as int));
    }
    while i < to
        invariant
            from <= i <= to <= s@.len(),
            r@ == s@.subrange(from as int, i as int),
        decreases to - i,
    {
        r.push(s[i]);
        proof {
            assert(r@ =~= s@.subrange(from as int, i + 1));
        }
        i += 1;
    }
    r
}

/// A fresh copy of a byte string.
pub fn copy_bytes(s: &Vec<u8>) -> (r: Vec<u8>)
    ensures
        r@ == s@,
{
    let r = sub_vec(s, 0, s.len());
    proof {
        assert(r@ =~= s@);
    }
    r
}

/// The views of a sequence of byte vectors.
pub open spec fn views(v: Seq<Vec<u8>>) -> Seq<Seq<u8>> {
    v.map_values(|x: Vec<u8>| x@)
}

/// Splits `line` on the delimiter into its fields.
pub fn split_line(line: &Vec<u8>) -> (fields: Vec<Vec<u8>>)
    ensures
        views(fields@) == split_fields(line@),
{
    let ghost full = line@;
    let mut fields: Vec<Vec<u8>> = Vec::new();
    let mut start: usize = 0;
    let mut i: usize = 0;
    proof {
        assert(views(fields@) =~= Seq::<Seq<u8>>::empty());
        assert(full.skip(0) =~= full);
        assert(views(fields@) + split_fields(full.skip(0)) =~= split_fields(full));
    }
    while i < line.len()
        invariant
            0 <= start <= i <= line.len(),
            full == line@,
            forall|j: int| start <= j < i ==> full[j] != DELIM,
            split_fields(full) == views(fields@) + split_fields(full.skip(start as int)),
        decreases line.len() - i,
    {
        if line[i] == DELIM {
            let field = sub_vec(line, start, i);
            proof {
                let rest = full.skip(start as int);
                assert forall|j: int| 0 <= j < i - start implies rest[j] != DELIM by {
                    assert(full[start + j] != DELIM);
                }
                lemma_find_byte_is(rest, DELIM, i - start);
                assert(rest.take(i - start) =~= full.subrange(start as int, i as int));
                assert(rest.skip(i - start + 1) =~= full.skip(i + 1));
                assert(split_fields(rest) == seq![field@] + split_fields(full.skip(i + 1)));
                assert(views(fields@.push(field)) =~= views(fields@) + seq![field@]);
                assert((views(fields@) + seq![field@]) + split_fields(full.skip(i + 1)) =~= views(
                    fields@,
                ) + (seq![field@] + split_fields(full.skip(i + 1))));
            }
            fields.push(field);
            start = i + 1;
        }
        i += 1;
    }
    let last = sub_vec(line, start, line.len());
    proof {
        let rest = full.skip(start as int);
        assert forall|j: int| 0 <= j < rest.len() implies rest[j] != DELIM by {
            assert(full[start + j] != DELIM);
        }
        lemma_find_byte_is(rest, DELIM, rest.len() as int);
        assert(rest =~= full.subrange(start as int, full.len() as int));
        assert(split_fields(rest) == seq![last@]);
        assert(views(fields@.push(last)) =~= views(fields@) + seq![last@]);
    }
    fields.push(last);
    fields
}

} // verus!
