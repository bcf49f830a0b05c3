//! The SCEL parser: holds the pinyin lookup table and the accumulated word
//! entries while buffers are decoded one after another.

use std::collections::HashMap;
use vstd::prelude::*;
use vstd::string::StringExecFns;
use crate::entries::{capped, ch_parse, ch_words, group_entries, ChEntry};
use crate::pytable::{py_records, resolve, table_after, PyRecord};
use crate::utf16::{decode_unit, decode_units, decode_utf16le, unit_at, utf16le_units};

verus! {

broadcast use vstd::std_specs::hash::group_hash_axioms;

/// Start of the dictionary-name header field.
pub const NAME_START: usize = 0x130;

/// Start of the category header field, end of the name field.
pub const CATEGORY_START: usize = 0x338;

/// Start of the description header field, end of the category field.
pub const DESCRIPTION_START: usize = 0x540;

/// Start of the sample header field, end of the description field.
pub const SAMPLE_START: usize = 0xd40;

/// Start of the pinyin-table region, end of the sample field.
pub const PY_TABLE_START: usize = 0x1540;

/// Start of the Chinese-entry region, end of the pinyin-table region.
pub const CHINESE_START: usize = 0x2628;

/// The pinyin-table region of a buffer.
pub open spec fn py_region(data: Seq<u8>) -> Seq<u8> {
    data.subrange(PY_TABLE_START as int, CHINESE_START as int)
}

/// The Chinese-entry region of a buffer: everything from 0x2628 on.
pub open spec fn ch_region(data: Seq<u8>) -> Seq<u8> {
    data.skip(CHINESE_START as int)
}

/// The view of a parsed record list: each held string as its text.
pub open spec fn records_view(recs: Seq<(u16, String)>) -> Seq<PyRecord> {
    recs.map_values(|p: (u16, String)| (p.0, p.1@))
}

/// The view of an entry list: each held string as its text.
pub open spec fn entries_of(s: Seq<(u16, String, String)>) -> Seq<ChEntry> {
    s.map_values(|e: (u16, String, String)| (e.0, e.1@, e.2@))
}

/// Reads the 16-bit little-endian value at byte offset `pos`.
fn read_u16(data: &[u8], pos: usize) -> (r: u16)
    requires
        pos + 2 <= data@.len(),
    ensures
        r == unit_at(data@, pos as int),
{
    let n = data.len();
    let lo = *vstd::slice::slice_index_get(data, pos);
    let hi = *vstd::slice::slice_index_get(data, pos + 1);
    lo as u16 + (hi as u16) * 0x100
}

/// Why a buffer was rejected.
#[derive(Clone, Copy, Debug, PartialEq, Eq, Structural)]
pub enum ScelError {
    /// The buffer is shorter than the fixed header and pinyin-table regions.
    TooShort,
    /// A pinyin-table record's length field runs past the end of its region.
    MalformedPinyinTable,
    /// A Chinese-entry read would pass the end of the buffer.
    MalformedEntries,
}

/// The four descriptive header strings of a buffer.
#[derive(Clone, Debug, PartialEq, Eq)]
pub struct ScelHeader {
    /// Dictionary name, bytes 0x130..0x338.
    pub name: String,
    /// Dictionary category, bytes 0x338..0x540.
    pub category: String,
    /// Description, bytes 0x540..0xd40.
    pub description: String,
    /// Word sample, bytes 0xd40..0x1540.
    pub sample: String,
}

/// Decodes SCEL buffers, accumulating the pinyin table and the word entries.
pub struct ScelParser {
    /// The pinyin lookup table: syllable index to syllable text.
    pub py_table: HashMap<u16, String>,
    /// All decoded entries, in decode order: (frequency, pinyin, word).
    pub g_table: Vec<(u16, String, String)>,
}

impl ScelParser {
    /// The pinyin table as a map over mathematical text.
    pub open spec fn table_view(&self) -> Map<u16, Seq<char>> {
        self.py_table@.map_values(|s: String| s@)
    }

    /// The accumulated entries as a sequence over mathematical text.
    pub open spec fn entries_view(&self) -> Seq<ChEntry> {
        entries_of(self.g_table@)
    }

    /// A fresh parser: empty table, no entries.
    pub fn new() -> (p: Self)
        ensures
            p.py_table@ == Map::<u16, String>::empty(),
            p.g_table@ == Seq::<(u16, String, String)>::empty(),
    {
        ScelParser { py_table: HashMap::new(), g_table: Vec::new() }
    }

    /// Decodes a byte run as little-endian UTF-16, skipping zero code units
    /// and substituting `'?'` for lone surrogates.
    pub fn byte_to_str(data: &[u8]) -> (r: String)
        ensures
            r@ == decode_utf16le(data@),
    {
        let n = data.len();
        let mut result = String::new();
        let mut i: usize = 0;
        while i + 1 < n
            invariant
                n == data@.len(),
                i % 2 == 0,
                i <= n,
                result@ == decode_units(utf16le_units(data@).take(i as int / 2)),
            decreases n - i,
        {
            let lo = *vstd::slice::slice_index_get(data, i);
            let hi = *vstd::slice::slice_index_get(data, i + 1);
            let code: u16 = lo as u16 + (hi as u16) * 0x100;
            proof {
                let units = utf16le_units(data@);
                let k = i as int / 2;
                assert(units.take(k + 1).drop_last() =~= units.take(k));
                assert(units.take(k + 1).last() == unit_at(data@, i as int));
            }
            if code != 0 {
                let c = match char::from_u32(code as u32) {
                    Some(c) => c,
                    None => '?',
                };
                assert(c == decode_unit(code));
                result.push(c);
            }
            i = i + 2;
        }
        proof {
            assert(utf16le_units(data@).take(i as int / 2) =~= utf16le_units(data@));
        }
        result
    }

    /// Resolves a run of 16-bit pinyin indices against the table and
    /// concatenates the found syllables; an unknown index is skipped.
    pub fn get_word_py(&self, data: &[u8]) -> (r: String)
        ensures
            r@ == resolve(utf16le_units(data@), self.table_view()),
    {
        let n = data.len();
        let mut result = String::new();
        let mut i: usize = 0;
        while i + 1 < n
            invariant
                n == data@.len(),
                i % 2 == 0,
                i <= n,
                result@ == resolve(utf16le_units(data@).take(i as int / 2), self.table_view()),
            decreases n - i,
        {
            let index = read_u16(data, i);
            proof {
                let units = utf16le_units(data@);
                let k = i as int / 2;
                assert(units.take(k + 1).drop_last() =~= units.take(k));
                assert(units.take(k + 1).last() == unit_at(data@, i as int));
            }
            match self.py_table.get(&index) {
                Some(py) => {
                    assert(self.table_view().contains_key(index) && self.table_view()[index]
                        == py@);
                    result.append(py.as_str());
                },
                None => {
                    assert(!self.table_view().contains_key(index));
                },
            }
            i = i + 2;
        }
        proof {
            assert(utf16le_units(data@).take(i as int / 2) =~= utf16le_units(data@));
        }
        result
    }

    /// Splits the pinyin-table region into its records.
    fn parse_py_records(data: &[u8]) -> (r: Result<Vec<(u16, String)>, ScelError>)
        ensures
            match r {
                Ok(v) => py_records(data@) == Some(records_view(v@)),
                Err(e) => py_records(data@) is None && e == ScelError::MalformedPinyinTable,
            },
    {
        let n = data.len();
        let mut acc: Vec<(u16, String)> = Vec::new();
        let mut pos: usize = 0;
        proof {
            assert(data@.skip(0) =~= data@);
            assert(records_view(acc@) =~= Seq::<PyRecord>::empty());
            if py_records(data@) is Some {
                assert(records_view(acc@) + py_records(data@)->Some_0 =~= py_records(
                    data@,
                )->Some_0);
            }
        }
        while pos < n
            invariant
                n == data@.len(),
                pos <= n,
                py_records(data@) == (match py_records(data@.skip(pos as int)) {
                    None => None::<Seq<PyRecord>>,
                    Some(rest) => Some(records_view(acc@) + rest),
                }),
            decreases n - pos,
        {
            let ghost s = data@.skip(pos as int);
            if n - pos < 4 {
                return Err(ScelError::MalformedPinyinTable);
            }
            let index = read_u16(data, pos);
            let len = read_u16(data, pos + 2) as usize;
            proof {
                assert(unit_at(s, 0) == unit_at(data@, pos as int));
                assert(unit_at(s, 2) == unit_at(data@, pos as int + 2));
            }
            if len > n - (pos + 4) {
                return Err(ScelError::MalformedPinyinTable);
            }
            let py = Self::byte_to_str(vstd::slice::slice_subrange(data, pos + 4, pos + 4 + len));
            let ghost acc0 = acc@;
            acc.push((index, py));
            proof {
                let rec = (index, py@);
                assert(s.skip(4 + len as int) =~= data@.skip(pos as int + 4 + len as int));
                assert(s.subrange(4, 4 + len as int) =~= data@.subrange(
                    pos as int + 4,
                    pos as int + 4 + len as int,
                ));
                assert(records_view(acc@) =~= records_view(acc0).push(rec));
                if py_records(data@.skip(pos as int + 4 + len as int)) is Some {
                    let rest = py_records(data@.skip(pos as int + 4 + len as int))->Some_0;
                    assert(records_view(acc0) + (seq![rec] + rest) =~= records_view(acc@) + rest);
                }
            }
            pos = pos + 4 + len;
        }
        proof {
            assert(data@.skip(pos as int) =~= Seq::<u8>::empty());
            assert(records_view(acc@) + Seq::<PyRecord>::empty() =~= records_view(acc@));
        }
        Ok(acc)
    }

    /// Parses the pinyin-table region and merges its records into the table,
    /// later records overwriting earlier ones.  On a malformed region the
    /// parser is left unchanged.
    pub fn get_py_table(&mut self, data: &[u8]) -> (r: Result<(), ScelError>)
        ensures
            match r {
                Ok(_) => py_records(data@) is Some && final(self).table_view() == table_after(
                    py_records(data@)->Some_0,
                    old(self).table_view(),
                ) && final(self).g_table@ == old(self).g_table@,
                Err(e) => py_records(data@) is None && e == ScelError::MalformedPinyinTable
                    && final(self).py_table@ == old(self).py_table@ && final(self).g_table@
                    == old(self).g_table@,
            },
    {
        let recs = match Self::parse_py_records(data) {
            Ok(v) => v,
            Err(e) => {
                return Err(e);
            },
        };
        let ghost recsv = records_view(recs@);
        let ghost base0 = self.table_view();
        let mut j: usize = 0;
        proof {
            assert(recsv.skip(0) =~= recsv);
        }
        while j < recs.len()
            invariant
                j <= recs@.len(),
                records_view(recs@) == recsv,
                table_after(recsv, base0) == table_after(recsv.skip(j as int), self.table_view()),
                self.g_table@ == old(self).g_table@,
            decreases recs@.len() - j,
        {
            let ghost tv0 = self.table_view();
            let k = recs[j].0;
            let v = recs[j].1.clone();
            self.py_table.insert(k, v);
            proof {
                assert(self.table_view() =~= tv0.insert(k, v@));
                assert(recsv.skip(j as int).drop_first() =~= recsv.skip(j as int + 1));
                assert(recsv.skip(j as int).first() == (k, v@));
            }
            j = j + 1;
        }
        proof {
            assert(recsv.skip(j as int) =~= Seq::<PyRecord>::empty());
        }
        Ok(())
    }

    /// Reads the `same` words of one homophone group starting at byte offset
    /// `start` and appends one entry per word to `out`, each sharing the
    /// group's pinyin string.  Returns the offset after the group, capped at
    /// the end of the buffer when the last extension skip steps past it.
    fn read_group_words(
        data: &[u8],
        start: usize,
        same: u16,
        py: &String,
        out: &mut Vec<(u16, String, String)>,
    ) -> (r: Result<usize, ScelError>)
        requires
            start <= data@.len(),
        ensures
            match r {
                Ok(newpos) => {
                    &&& ch_words(data@, start as int, same as int) is Some
                    &&& newpos == capped(
                        data@.len() as int,
                        start + ch_words(data@, start as int, same as int)->Some_0.1,
                    )
                    &&& entries_of(final(out)@) == entries_of(old(out)@) + group_entries(
                        ch_words(data@, start as int, same as int)->Some_0.0,
                        py@,
                    )
                },
                Err(e) => {
                    &&& ch_words(data@, start as int, same as int) is None
                    &&& e == ScelError::MalformedEntries
                },
            },
    {
        let n = data.len();
        let mut wpos: usize = start;
        let mut i: u16 = 0;
        let ghost mut gused: int = 0;
        let ghost mut gw: Seq<(u16, Seq<char>)> = Seq::empty();
        let ghost out0 = out@;
        proof {
            if ch_words(data@, start as int, same as int) is Some {
                assert(gw + ch_words(data@, start as int, same as int)->Some_0.0 =~= ch_words(
                    data@,
                    start as int,
                    same as int,
                )->Some_0.0);
            }
            assert(entries_of(out@) =~= entries_of(out0) + group_entries(gw, py@));
        }
        while i < same
            invariant
                n == data@.len(),
                start <= wpos <= n,
                i <= same,
                0 <= gused,
                wpos as int == capped(n as int, start + gused),
                ch_words(data@, start as int, same as int) == (match ch_words(
                    data@,
                    start + gused,
                    (same - i) as int,
                ) {
                    None => None::<(Seq<(u16, Seq<char>)>, nat)>,
                    Some((rest, more)) => Some((gw + rest, (gused + more) as nat)),
                }),
                entries_of(out@) == entries_of(out0) + group_entries(gw, py@),
            decreases same - i,
        {
            let ghost p = start + gused;
            if n - wpos < 2 {
                return Err(ScelError::MalformedEntries);
            }
            let wlen = read_u16(data, wpos) as usize;
            if wlen > n - (wpos + 2) {
                return Err(ScelError::MalformedEntries);
            }
            let word = Self::byte_to_str(
                vstd::slice::slice_subrange(data, wpos + 2, wpos + 2 + wlen),
            );
            if n - (wpos + 2 + wlen) < 4 {
                return Err(ScelError::MalformedEntries);
            }
            let elen = read_u16(data, wpos + 2 + wlen) as usize;
            let count = read_u16(data, wpos + 2 + wlen + 2);
            let ghost out1 = out@;
            let ghost gw0 = gw;
            out.push((count, py.clone(), word));
            let after = wpos + 2 + wlen + 2;
            proof {
                let rec = (count, word@);
                gw = gw0.push(rec);
                gused = gused + 2 + wlen + 2 + elen;
                assert(data@.subrange(p + 2, p + 2 + wlen as int) =~= data@.subrange(
                    wpos as int + 2,
                    wpos as int + 2 + wlen as int,
                ));
                assert(entries_of(out@) =~= entries_of(out1).push((count, py@, word@)));
                assert(group_entries(gw, py@) =~= group_entries(gw0, py@).push(
                    (count, py@, word@),
                ));
                assert(entries_of(out@) =~= entries_of(out0) + group_entries(gw, py@));
                if ch_words(data@, start + gused, (same - i - 1) as int) is Some {
                    let (rest2, more2) = ch_words(
                        data@,
                        start + gused,
                        (same - i - 1) as int,
                    )->Some_0;
                    assert(gw0 + (seq![rec] + rest2) =~= gw + rest2);
                }
            }
            if elen > n - after {
                if i < same - 1 {
                    return Err(ScelError::MalformedEntries);
                }
                wpos = n;
                i = i + 1;
            } else {
                wpos = after + elen;
                i = i + 1;
            }
        }
        proof {
            assert(gw + Seq::<(u16, Seq<char>)>::empty() =~= gw);
        }
        Ok(wpos)
    }

    /// Parses the Chinese-entry region and appends its entries, in order of
    /// occurrence, to the accumulated list.  On a malformed region no entry
    /// is appended and the parser is left unchanged.
    pub fn get_chinese(&mut self, data: &[u8]) -> (r: Result<(), ScelError>)
        ensures
            match r {
                Ok(_) => {
                    &&& ch_parse(data@, 0, old(self).table_view()) is Some
                    &&& final(self).entries_view() == old(self).entries_view() + ch_parse(
                        data@,
                        0,
                        old(self).table_view(),
                    )->Some_0
                    &&& final(self).py_table@ == old(self).py_table@
                },
                Err(e) => {
                    &&& ch_parse(data@, 0, old(self).table_view()) is None
                    &&& e == ScelError::MalformedEntries
                    &&& final(self).py_table@ == old(self).py_table@
                    &&& final(self).g_table@ == old(self).g_table@
                },
            },
    {
        let n = data.len();
        let ghost tv = self.table_view();
        let mut out: Vec<(u16, String, String)> = Vec::new();
        let mut pos: usize = 0;
        proof {
            if ch_parse(data@, 0, tv) is Some {
                assert(entries_of(out@) + ch_parse(data@, 0, tv)->Some_0 =~= ch_parse(
                    data@,
                    0,
                    tv,
                )->Some_0);
            }
        }
        while pos < n
            invariant
                n == data@.len(),
                pos <= n,
                self.py_table@ == old(self).py_table@,
                self.g_table@ == old(self).g_table@,
                tv == self.table_view(),
                ch_parse(data@, 0, tv) == (match ch_parse(data@, pos as int, tv) {
                    None => None::<Seq<ChEntry>>,
                    Some(rest) => Some(entries_of(out@) + rest),
                }),
            decreases n - pos,
        {
            if n - pos < 4 {
                return Err(ScelError::MalformedEntries);
            }
            let same = read_u16(data, pos);
            let plen = read_u16(data, pos + 2) as usize;
            if plen > n - (pos + 4) {
                return Err(ScelError::MalformedEntries);
            }
            let py = self.get_word_py(vstd::slice::slice_subrange(data, pos + 4, pos + 4 + plen));
            let wstart = pos + 4 + plen;
            let ghost out_before = out@;
            let newpos = match Self::read_group_words(data, wstart, same, &py, &mut out) {
                Ok(p) => p,
                Err(e) => {
                    return Err(e);
                },
            };
            proof {
                let words = ch_words(data@, wstart as int, same as int)->Some_0.0;
                let pos2 = capped(
                    n as int,
                    wstart + ch_words(data@, wstart as int, same as int)->Some_0.1,
                );
                if ch_parse(data@, pos2, tv) is Some {
                    let rest = ch_parse(data@, pos2, tv)->Some_0;
                    assert((entries_of(out_before) + group_entries(words, py@)) + rest
                        =~= entries_of(out_before) + (group_entries(words, py@) + rest));
                }
            }
            pos = newpos;
        }
        proof {
            assert(entries_of(out@) + Seq::<ChEntry>::empty() =~= entries_of(out@));
        }
        let ghost g0 = self.g_table@;
        let ghost outv = out@;
        self.g_table.append(&mut out);
        proof {
            assert(entries_of(g0 + outv) =~= entries_of(g0) + entries_of(outv));
        }
        Ok(())
    }

    /// Decodes one whole SCEL buffer: reads the four header strings, merges
    /// the pinyin-table records into the table, and appends the buffer's word
    /// entries, in order of occurrence, to the accumulated list.
    ///
    /// A buffer shorter than the fixed regions is rejected before any parsing;
    /// a malformed region is rejected without appending any entry.
    pub fn parse_scel(&mut self, data: &[u8]) -> (r: Result<ScelHeader, ScelError>)
        ensures
            match r {
                Ok(h) => {
                    &&& data@.len() >= CHINESE_START
                    &&& py_records(py_region(data@)) is Some
                    &&& final(self).table_view() == table_after(
                        py_records(py_region(data@))->Some_0,
                        old(self).table_view(),
                    )
                    &&& ch_parse(ch_region(data@), 0, final(self).table_view()) is Some
                    &&& final(self).entries_view() == old(self).entries_view() + ch_parse(
                        ch_region(data@),
                        0,
                        final(self).table_view(),
                    )->Some_0
                    &&& h.name@ == decode_utf16le(
                        data@.subrange(NAME_START as int, CATEGORY_START as int),
                    )
                    &&& h.category@ == decode_utf16le(
                        data@.subrange(CATEGORY_START as int, DESCRIPTION_START as int),
                    )
                    &&& h.description@ == decode_utf16le(
                        data@.subrange(DESCRIPTION_START as int, SAMPLE_START as int),
                    )
                    &&& h.sample@ == decode_utf16le(
                        data@.subrange(SAMPLE_START as int, PY_TABLE_START as int),
                    )
                },
                Err(ScelError::TooShort) => {
                    &&& data@.len() < CHINESE_START
                    &&& final(self).py_table@ == old(self).py_table@
                    &&& final(self).g_table@ == old(self).g_table@
                },
                Err(ScelError::MalformedPinyinTable) => {
                    &&& data@.len() >= CHINESE_START
                    &&& py_records(py_region(data@)) is None
                    &&& final(self).py_table@ == old(self).py_table@
                    &&& final(self).g_table@ == old(self).g_table@
                },
                Err(ScelError::MalformedEntries) => {
                    &&& data@.len() >= CHINESE_START
                    &&& py_records(py_region(data@)) is Some
                    &&& final(self).table_view() == table_after(
                        py_records(py_region(data@))->Some_0,
                        old(self).table_view(),
                    )
                    &&& ch_parse(ch_region(data@), 0, final(self).table_view()) is None
                    &&& final(self).g_table@ == old(self).g_table@
                },
            },
    {
        let n = data.len();
        if n < CHINESE_START {
            return Err(ScelError::TooShort);
        }
        let name = Self::byte_to_str(vstd::slice::slice_subrange(data, NAME_START, CATEGORY_START));
        let category = Self::byte_to_str(
            vstd::slice::slice_subrange(data, CATEGORY_START, DESCRIPTION_START),
        );
        let description = Self::byte_to_str(
            vstd::slice::slice_subrange(data, DESCRIPTION_START, SAMPLE_START),
        );
        let sample = Self::byte_to_str(
            vstd::slice::slice_subrange(data, SAMPLE_START, PY_TABLE_START),
        );
        match self.get_py_table(vstd::slice::slice_subrange(data, PY_TABLE_START, CHINESE_START)) {
            Ok(_) => {},
            Err(e) => {
                return Err(e);
            },
        }
        match self.get_chinese(vstd::slice::slice_subrange(data, CHINESE_START, n)) {
            Ok(_) => {},
            Err(e) => {
                proof {
                    assert(data@.subrange(CHINESE_START as int, n as int) =~= ch_region(data@));
                }
                return Err(e);
            },
        }
        proof {
            assert(data@.subrange(CHINESE_START as int, n as int) =~= ch_region(data@));
        }
        Ok(ScelHeader { name, category, description, sample })
    }
}

} // verus!

