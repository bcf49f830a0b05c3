//! The Chinese-entry region: a run of homophone groups, each a shared pinyin
//! index list followed by `same` words, every word carrying a frequency count
//! inside its extension block.

use vstd::prelude::*;
use crate::pytable::resolve;
use crate::utf16::{decode_utf16le, unit_at, utf16le_units};

verus! {

/// One decoded entry: frequency count, pinyin string, word text.
pub type ChEntry = (u16, Seq<char>, Seq<char>);

/// A position advanced by a length field, capped at the end of the region:
/// the final extension skip of the region may step past the end, and the
/// region then simply ends.
pub open spec fn capped(len: int, p: int) -> int {
    if p > len {
        len
    } else {
        p
    }
}

/// The words of one homophone group, read from byte offset `pos`: `same`
/// repetitions of a 2-byte word length, the word's UTF-16LE text, a 2-byte
/// extension length, and the extension block, whose first two bytes are the
/// frequency count.  Returns the (count, word) pairs and the bytes consumed,
/// or None when a read would pass the end of the region.
pub open spec fn ch_words(data: Seq<u8>, pos: int, same: int) -> Option<(Seq<(u16, Seq<char>)>, nat)>
    decreases same,
{
    if same <= 0 {
        Some((Seq::<(u16, Seq<char>)>::empty(), 0))
    } else if pos + 2 > data.len() {
        None
    } else {
        let wlen = unit_at(data, pos) as int;
        if pos + 2 + wlen + 4 > data.len() {
            None
        } else {
            let word = decode_utf16le(data.subrange(pos + 2, pos + 2 + wlen));
            let elen = unit_at(data, pos + 2 + wlen) as int;
            let count = unit_at(data, pos + 2 + wlen + 2);
            let used: nat = (2 + wlen + 2 + elen) as nat;
            match ch_words(data, pos + used, same - 1) {
                None => None,
                Some((rest, more)) => Some((seq![(count, word)] + rest, (used + more) as nat)),
            }
        }
    }
}

/// The entries of one group: every word of the group shares the group's
/// pinyin string.
pub open spec fn group_entries(words: Seq<(u16, Seq<char>)>, py: Seq<char>) -> Seq<ChEntry> {
    words.map_values(|w: (u16, Seq<char>)| (w.0, py, w.1))
}

/// The entries of the Chinese-entry region from byte offset `pos` on, in
/// order of occurrence, or None when some read would pass the end.
///
/// Each group is a 2-byte word count `same`, a 2-byte pinyin byte length, the
/// pinyin index bytes resolved through `table`, and then the group's words.
pub open spec fn ch_parse(data: Seq<u8>, pos: int, table: Map<u16, Seq<char>>) -> Option<
    Seq<ChEntry>,
>
    decreases data.len() - pos,
{
    if pos >= data.len() {
        Some(Seq::<ChEntry>::empty())
    } else if pos + 4 > data.len() {
        None
    } else {
        let same = unit_at(data, pos) as int;
        let plen = unit_at(data, pos + 2) as int;
        if pos + 4 + plen > data.len() {
            None
        } else {
            let py = resolve(utf16le_units(data.subrange(pos + 4, pos + 4 + plen)), table);
            match ch_words(data, pos + 4 + plen, same) {
                None => None,
                Some((words, used)) => {
                    match ch_parse(data, capped(data.len() as int, pos + 4 + plen + used), table) {
                        None => None,
                        Some(rest) => Some(group_entries(words, py) + rest),
                    }
                },
            }
        }
    }
}

/// The sum of the `same` fields of the groups of the region from `pos` on,
/// or None when the region is malformed.  The walk is the same as in
/// [`ch_parse`]; only the group sizes are kept.
pub open spec fn ch_same_sum(data: Seq<u8>, pos: int) -> Option<int>
    decreases data.len() - pos,
{
    if pos >= data.len() {
        Some(0)
    } else if pos + 4 > data.len() {
        None
    } else {
        let same = unit_at(data, pos) as int;
        let plen = unit_at(data, pos + 2) as int;
        if pos + 4 + plen > data.len() {
            None
        } else {
            match ch_words(data, pos + 4 + plen, same) {
                None => None,
                Some((words, used)) => {
                    match ch_same_sum(data, capped(data.len() as int, pos + 4 + plen + used)) {
                        None => None,
                        Some(s) => Some(same + s),
                    }
                },
            }
        }
    }
}

/// A well-formed group holds exactly `same` words.
proof fn lemma_words_len(data: Seq<u8>, pos: int, same: int)
    requires
        ch_words(data, pos, same) is Some,
    ensures
        ch_words(data, pos, same)->Some_0.0.len() == if same <= 0 {
            0int
        } else {
            same
        },
    decreases same,
{
    if same > 0 {
        let wlen = unit_at(data, pos) as int;
        let elen = unit_at(data, pos + 2 + wlen) as int;
        let used: nat = (2 + wlen + 2 + elen) as nat;
        lemma_words_len(data, pos + used, same - 1);
    }
}

/// Law: a well-formed Chinese-entry region yields exactly as many entries as
/// the sum of its records' `same` fields.
pub proof fn lemma_entry_count(data: Seq<u8>, pos: int, table: Map<u16, Seq<char>>)
    requires
        ch_parse(data, pos, table) is Some,
    ensures
        ch_same_sum(data, pos) is Some,
        ch_parse(data, pos, table)->Some_0.len() == ch_same_sum(data, pos)->Some_0,
    decreases data.len() - pos,
{
    if pos >= data.len() {
    } else {
        let same = unit_at(data, pos) as int;
        let plen = unit_at(data, pos + 2) as int;
        let (words, used) = ch_words(data, pos + 4 + plen, same)->Some_0;
        lemma_words_len(data, pos + 4 + plen, same);
        lemma_entry_count(data, capped(data.len() as int, pos + 4 + plen + used), table);
    }
}

} // verus!
