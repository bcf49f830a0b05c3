//! The pinyin table: a length-prefixed run of (index, syllable) records and
//! the lookup map built from them, later records overwriting earlier ones.

use vstd::prelude::*;
use crate::utf16::{decode_utf16le, unit_at};

verus! {

/// One record of the pinyin table region: a 16-bit index and the decoded
/// syllable it names.
pub type PyRecord = (u16, Seq<char>);

/// The records of the pinyin table region, in order of occurrence, or None
/// when some record's length field runs past the end of the region.
///
/// Each record is a 2-byte index, a 2-byte byte length, and that many bytes
/// of UTF-16LE syllable text; records follow each other until the region ends
/// exactly.
pub open spec fn py_records(data: Seq<u8>) -> Option<Seq<PyRecord>>
    decreases data.len(),
{
    if data.len() == 0 {
        Some(Seq::<PyRecord>::empty())
    } else if data.len() < 4 {
        None
    } else {
        let index = unit_at(data, 0);
        let len = unit_at(data, 2) as int;
        if 4 + len > data.len() {
            None
        } else {
            match py_records(data.skip(4 + len)) {
                None => None,
                Some(rest) => Some(
                    seq![(index, decode_utf16le(data.subrange(4, 4 + len)))] + rest,
                ),
            }
        }
    }
}

/// The lookup map after inserting `records` in order into `base`: a later
/// record with the same index overwrites an earlier one.
pub open spec fn table_after(records: Seq<PyRecord>, base: Map<u16, Seq<char>>) -> Map<
    u16,
    Seq<char>,
>
    decreases records.len(),
{
    if records.len() == 0 {
        base
    } else {
        table_after(records.drop_first(), base.insert(records.first().0, records.first().1))
    }
}

/// The set of indices that `records` writes.
pub open spec fn record_keys(records: Seq<PyRecord>) -> Set<u16>
    decreases records.len(),
{
    if records.len() == 0 {
        Set::<u16>::empty()
    } else {
        record_keys(records.drop_first()).insert(records.first().0)
    }
}

/// The word-pinyin resolver: each 16-bit value of `units` is looked up in
/// `table` and the found syllables are concatenated in order; an index absent
/// from the table is silently skipped.
pub open spec fn resolve(units: Seq<u16>, table: Map<u16, Seq<char>>) -> Seq<char>
    decreases units.len(),
{
    if units.len() == 0 {
        Seq::<char>::empty()
    } else if table.contains_key(units.last()) {
        resolve(units.drop_last(), table) + table[units.last()]
    } else {
        resolve(units.drop_last(), table)
    }
}

/// Outside the indices that `records` writes, the built table keeps exactly
/// what `base` held.
proof fn lemma_table_after_frame(records: Seq<PyRecord>, base: Map<u16, Seq<char>>)
    ensures
        forall|k: u16|
            !(#[trigger] record_keys(records).contains(k)) ==> (table_after(
                records,
                base,
            ).contains_key(k) <==> base.contains_key(k)) && (base.contains_key(k) ==> table_after(
                records,
                base,
            )[k] == base[k]),
    decreases records.len(),
{
    if records.len() > 0 {
        let k0 = records.first().0;
        let v0 = records.first().1;
        lemma_table_after_frame(records.drop_first(), base.insert(k0, v0));
        assert forall|k: u16| !(#[trigger] record_keys(records).contains(k)) implies (table_after(
            records,
            base,
        ).contains_key(k) <==> base.contains_key(k)) && (base.contains_key(k) ==> table_after(
            records,
            base,
        )[k] == base[k]) by {
            assert(!record_keys(records.drop_first()).contains(k) && k != k0);
            assert(table_after(records, base) == table_after(
                records.drop_first(),
                base.insert(k0, v0),
            ));
        }
    }
}

/// The built table depends on `base` only outside the indices that `records`
/// writes: two bases that agree there build equal tables.
proof fn lemma_table_after_base_irrelevant(
    records: Seq<PyRecord>,
    base1: Map<u16, Seq<char>>,
    base2: Map<u16, Seq<char>>,
)
    requires
        forall|k: u16|
            !(#[trigger] record_keys(records).contains(k)) ==> (base1.contains_key(k)
                <==> base2.contains_key(k)) && (base1.contains_key(k) ==> base1[k] == base2[k]),
    ensures
        table_after(records, base1) =~= table_after(records, base2),
    decreases records.len(),
{
    if records.len() == 0 {
        assert forall|k: u16|
            (#[trigger] base1.dom().contains(k) <==> base2.dom().contains(k)) && (
            base1.dom().contains(k) ==> base1[k] == base2[k]) by {
            assert(!record_keys(records).contains(k));
        }
        assert(base1 =~= base2);
    } else {
        let k0 = records.first().0;
        let v0 = records.first().1;
        let b1 = base1.insert(k0, v0);
        let b2 = base2.insert(k0, v0);
        assert forall|k: u16|
            !(#[trigger] record_keys(records.drop_first()).contains(k)) implies (b1.contains_key(k)
            <==> b2.contains_key(k)) && (b1.contains_key(k) ==> b1[k] == b2[k]) by {
            if k != k0 {
                assert(!record_keys(records).contains(k));
            }
        }
        lemma_table_after_base_irrelevant(records.drop_first(), b1, b2);
    }
}

/// Law: building the table from the same records twice is the same as building
/// it once — re-parsing a well-formed pinyin region leaves the table unchanged.
pub proof fn lemma_py_table_idempotent(data: Seq<u8>, base: Map<u16, Seq<char>>)
    requires
        py_records(data) is Some,
    ensures
        table_after(py_records(data)->Some_0, table_after(py_records(data)->Some_0, base))
            == table_after(py_records(data)->Some_0, base),
{
    let records = py_records(data)->Some_0;
    lemma_table_after_frame(records, base);
    lemma_table_after_base_irrelevant(records, table_after(records, base), base);
}

} // verus!
