use vstd::bytes::{
    lemma_auto_spec_u64_to_from_le_bytes, spec_u64_from_le_bytes, spec_u64_to_le_bytes,
    u64_from_le_bytes, u64_to_le_bytes,
};
use vstd::prelude::*;
use vstd::slice::slice_subrange;
use vstd::utf8::valid_utf8;

use crate::error::IndexError;
use crate::key::{entry_view, KeyOffset, KeyOffsetView};
use crate::text::{append_bytes, decode_text};

verus! {

/// Width in bytes of an offset or a length as stored in either file.
pub const WORD_SIZE: usize = 8;

/// Width in bytes of one record of `TopLevelIndex`.
pub const TOP_ENTRY_SIZE: usize = 16;

/// One record of `TopLevelIndex`: the length of a key and the position in
/// `Index` at which the entry for that key starts.
#[derive(Clone, Copy, Debug, PartialEq, Eq, Structural)]
pub struct TopLevelEntry {
    pub key_length: u64,
    pub index_offset: u64,
}

/// The 16 bytes of a directory record: both fields little-endian, the key
/// length first.
pub open spec fn top_entry_bytes(entry: TopLevelEntry) -> Seq<u8> {
    spec_u64_to_le_bytes(entry.key_length) + spec_u64_to_le_bytes(entry.index_offset)
}

/// The directory record that starts at byte `16 * n` of `top`.
pub open spec fn top_entry_at(top: Seq<u8>, n: int) -> TopLevelEntry {
    TopLevelEntry {
        key_length: spec_u64_from_le_bytes(top.subrange(16 * n, 16 * n + 8)),
        index_offset: spec_u64_from_le_bytes(top.subrange(16 * n + 8, 16 * n + 16)),
    }
}

/// The bytes of one entry of `Index`: the key, then the row's offset in the
/// source, little-endian.
pub open spec fn entry_bytes(entry: KeyOffsetView) -> Seq<u8> {
    entry.key + spec_u64_to_le_bytes(entry.offset)
}

/// `Index` for the given entries: their bytes one after the other.
pub open spec fn index_bytes(entries: Seq<KeyOffsetView>) -> Seq<u8>
    decreases entries.len(),
{
    if entries.len() == 0 {
        Seq::empty()
    } else {
        index_bytes(entries.drop_last()) + entry_bytes(entries.last())
    }
}

/// Where entry `i` starts in `Index`: the total length of the entries
/// before it.
pub open spec fn index_offset(entries: Seq<KeyOffsetView>, i: int) -> int {
    index_bytes(entries.take(i)).len() as int
}

/// The directory record of entry `i`.
pub open spec fn top_entry_of(entries: Seq<KeyOffsetView>, i: int) -> TopLevelEntry {
    TopLevelEntry {
        key_length: entries[i].key.len() as u64,
        index_offset: index_offset(entries, i) as u64,
    }
}

/// `TopLevelIndex` for the given entries: one record each, in the same
/// order as `Index`.
pub open spec fn top_index_bytes(entries: Seq<KeyOffsetView>) -> Seq<u8>
    decreases entries.len(),
{
    if entries.len() == 0 {
        Seq::empty()
    } else {
        top_index_bytes(entries.drop_last()) + top_entry_bytes(
            top_entry_of(entries, entries.len() - 1),
        )
    }
}

/// The views of a run of entries.
pub open spec fn views(entries: Seq<KeyOffset>) -> Seq<KeyOffsetView> {
    entries.map_values(|entry: KeyOffset| entry@)
}

impl TopLevelEntry {
    /// Appends the record's 16 bytes to `out`.
    pub fn encode(&self, out: &mut Vec<u8>)
        ensures
            final(out)@ == old(out)@ + top_entry_bytes(*self),
    {
        let length = u64_to_le_bytes(self.key_length);
        let offset = u64_to_le_bytes(self.index_offset);
        append_bytes(out, length.as_slice());
        append_bytes(out, offset.as_slice());
        proof {
            assert(out@ =~= old(out)@ + top_entry_bytes(*self));
        }
    }

    /// Reads a record back from its 16 bytes; `None` for any other length.
    pub fn decode(bytes: &[u8]) -> (entry: Option<TopLevelEntry>)
        ensures
            entry is Some <==> bytes@.len() == TOP_ENTRY_SIZE,
            entry matches Some(e) ==> e == top_entry_at(bytes@, 0),
    {
        if bytes.len() != TOP_ENTRY_SIZE {
            return None;
        }
        let key_length = u64_from_le_bytes(slice_subrange(bytes, 0, WORD_SIZE));
        let index_offset = u64_from_le_bytes(slice_subrange(bytes, WORD_SIZE, TOP_ENTRY_SIZE));
        Some(TopLevelEntry { key_length, index_offset })
    }

    /// Where record `n` starts in `TopLevelIndex`: at byte `16 * n`. `None`
    /// where the record would end past what a 64-bit offset can address.
    pub fn position(n: u64) -> (r: Option<u64>)
        ensures
            r is Some <==> 16 * n + 16 <= u64::MAX,
            r matches Some(p) ==> p == 16 * n,
    {
        if n > (u64::MAX - 16) / 16 {
            None
        } else {
            Some(n * 16)
        }
    }

    /// The stretch of `Index` that the record points at: where the entry
    /// starts, and how many bytes it has, key and offset together. `None`
    /// where that length does not fit in 64 bits.
    pub fn entry_span(&self) -> (r: Option<(u64, u64)>)
        ensures
            r is Some <==> self.key_length + 8 <= u64::MAX,
            r matches Some(s) ==> s.0 == self.index_offset && s.1 == self.key_length + 8,
    {
        match self.key_length.checked_add(8) {
            Some(size) => Some((self.index_offset, size)),
            None => None,
        }
    }
}

/// Appends the entry of `Index` for `entry` to `out`.
pub fn encode_entry(entry: &KeyOffset, out: &mut Vec<u8>)
    ensures
        final(out)@ == old(out)@ + entry_bytes(entry@),
{
    let offset = u64_to_le_bytes(entry.offset);
    append_bytes(out, entry.key.as_str().as_bytes());
    append_bytes(out, offset.as_slice());
    proof {
        assert(out@ =~= old(out)@ + entry_bytes(entry@));
    }
}

/// The entry that the given bytes of `Index` hold: the last 8 bytes are the
/// row's offset, what stands before them is the key. Fewer than 8 bytes are
/// a short read, `Io`; a key that is not UTF-8 is a `Format` error.
pub open spec fn entry_of_bytes(bytes: Seq<u8>) -> Result<KeyOffsetView, IndexError> {
    let split = bytes.len() - 8;
    if split < 0 {
        Err(IndexError::Io)
    } else if !valid_utf8(bytes.subrange(0, split)) {
        Err(IndexError::Format)
    } else {
        Ok(
            KeyOffsetView {
                key: bytes.subrange(0, split),
                offset: spec_u64_from_le_bytes(bytes.subrange(split, split + 8)),
            },
        )
    }
}

/// Reads one entry of `Index` back from its bytes.
pub fn decode_entry(bytes: &[u8]) -> (r: Result<KeyOffset, IndexError>)
    ensures
        entry_view(r) == entry_of_bytes(bytes@),
{
    if bytes.len() < WORD_SIZE {
        return Err(IndexError::Io);
    }
    let split = bytes.len() - WORD_SIZE;
    let key = match decode_text(slice_subrange(bytes, 0, split)) {
        Ok(key) => key,
        Err(e) => {
            return Err(e);
        },
    };
    let offset = u64_from_le_bytes(slice_subrange(bytes, split, bytes.len()));
    Ok(KeyOffset { key, offset })
}

/// An entry whose key is UTF-8 reads back from its bytes as it was written.
pub proof fn lemma_entry_bytes_read_back(entry: KeyOffsetView)
    requires
        valid_utf8(entry.key),
    ensures
        entry_of_bytes(entry_bytes(entry)) == Ok::<KeyOffsetView, IndexError>(entry),
{
    lemma_word_bytes(entry.offset);
    let bytes = entry_bytes(entry);
    let split = bytes.len() - 8;
    assert(bytes.subrange(0, split) =~= entry.key);
    assert(bytes.subrange(split, split + 8) =~= spec_u64_to_le_bytes(entry.offset));
}

/// A stored word is 8 bytes long and reads back as the value written.
pub proof fn lemma_word_bytes(x: u64)
    ensures
        spec_u64_to_le_bytes(x).len() == 8,
        spec_u64_from_le_bytes(spec_u64_to_le_bytes(x)) == x,
{
    lemma_auto_spec_u64_to_from_le_bytes();
}

/// `TopLevelIndex` holds exactly 16 bytes for each entry.
pub proof fn lemma_top_index_len(entries: Seq<KeyOffsetView>)
    ensures
        top_index_bytes(entries).len() == 16 * entries.len(),
    decreases entries.len(),
{
    if entries.len() > 0 {
        lemma_top_index_len(entries.drop_last());
        let last = top_entry_of(entries, entries.len() - 1);
        lemma_word_bytes(last.key_length);
        lemma_word_bytes(last.index_offset);
    }
}

/// Each entry of `Index` starts where the one before it ends: its offset is
/// the offset of its predecessor plus the length of that key plus 8.
pub proof fn lemma_index_step(entries: Seq<KeyOffsetView>, i: int)
    requires
        0 <= i < entries.len(),
    ensures
        index_offset(entries, 0) == 0,
        index_offset(entries, i + 1) == index_offset(entries, i) + entries[i].key.len() + 8,
        index_bytes(entries.take(i + 1)) == index_bytes(entries.take(i)) + entry_bytes(
            entries[i],
        ),
{
    assert(entries.take(i + 1).drop_last() =~= entries.take(i));
    assert(entries.take(i + 1).last() == entries[i]);
    lemma_word_bytes(entries[i].offset);
    assert(entries.take(0).len() == 0);
}

/// `Index` for the first `i` entries is the start of `Index` for all of
/// them.
pub proof fn lemma_index_prefix(entries: Seq<KeyOffsetView>, i: int)
    requires
        0 <= i <= entries.len(),
    ensures
        index_offset(entries, i) <= index_bytes(entries).len(),
        index_bytes(entries).take(index_offset(entries, i)) == index_bytes(
            entries.take(i),
        ),
    decreases entries.len(),
{
    if i == entries.len() {
        assert(entries.take(i) =~= entries);
        assert(index_bytes(entries).take(index_bytes(entries).len() as int) =~= index_bytes(
            entries,
        ));
    } else {
        lemma_index_prefix(entries.drop_last(), i);
        assert(entries.drop_last().take(i) =~= entries.take(i));
        let front = index_bytes(entries.drop_last());
        let k = index_offset(entries, i);
        assert((front + entry_bytes(entries.last())).take(k) =~= front.take(k));
    }
}

/// The offsets of the entries strictly increase.
pub proof fn lemma_index_offsets_increase(entries: Seq<KeyOffsetView>, i: int, j: int)
    requires
        0 <= i < j <= entries.len(),
    ensures
        index_offset(entries, i) < index_offset(entries, j),
    decreases j - i,
{
    lemma_index_step(entries, j - 1);
    if i < j - 1 {
        lemma_index_offsets_increase(entries, i, j - 1);
    }
}

/// Entry `i` lies whole inside `Index`, at its offset: first the key, then
/// the 8 bytes of the row's offset.
pub proof fn lemma_entry_located(entries: Seq<KeyOffsetView>, i: int)
    requires
        0 <= i < entries.len(),
    ensures
        index_offset(entries, i) + entries[i].key.len() + 8 <= index_bytes(entries).len(),
        index_bytes(entries).subrange(
            index_offset(entries, i),
            index_offset(entries, i) + entries[i].key.len(),
        ) == entries[i].key,
        index_bytes(entries).subrange(
            index_offset(entries, i) + entries[i].key.len(),
            index_offset(entries, i) + entries[i].key.len() + 8,
        ) == spec_u64_to_le_bytes(entries[i].offset),
{
    lemma_index_step(entries, i);
    lemma_index_prefix(entries, i);
    lemma_index_prefix(entries, i + 1);
    lemma_word_bytes(entries[i].offset);
    let all = index_bytes(entries);
    let start = index_offset(entries, i);
    let mid = start + entries[i].key.len();
    let end = index_offset(entries, i + 1);
    let upto = index_bytes(entries.take(i)) + entry_bytes(entries[i]);
    assert(all.take(end) == upto);
    assert(all.subrange(start, mid) =~= all.take(end).subrange(start, mid));
    assert(all.subrange(mid, end) =~= all.take(end).subrange(mid, end));
    assert(upto.subrange(start, mid) =~= entries[i].key);
    assert(upto.subrange(mid, end) =~= spec_u64_to_le_bytes(entries[i].offset));
}

/// Record `i` of `TopLevelIndex` holds the length of key `i` and the offset
/// of entry `i` in `Index`.
pub proof fn lemma_top_entry_located(entries: Seq<KeyOffsetView>, i: int)
    requires
        0 <= i < entries.len(),
    ensures
        top_entry_at(top_index_bytes(entries), i) == top_entry_of(entries, i),
    decreases entries.len(),
{
    let n = entries.len() - 1;
    let front = top_index_bytes(entries.drop_last());
    let last = top_entry_of(entries, n);
    let all = top_index_bytes(entries);
    lemma_top_index_len(entries.drop_last());
    lemma_word_bytes(last.key_length);
    lemma_word_bytes(last.index_offset);
    if i < n {
        lemma_top_entry_located(entries.drop_last(), i);
        assert(entries.drop_last().take(i) =~= entries.take(i));
        assert(all.subrange(16 * i, 16 * i + 8) =~= front.subrange(16 * i, 16 * i + 8));
        assert(all.subrange(16 * i + 8, 16 * i + 16) =~= front.subrange(
            16 * i + 8,
            16 * i + 16,
        ));
    } else {
        assert(all.subrange(16 * i, 16 * i + 8) =~= spec_u64_to_le_bytes(last.key_length));
        assert(all.subrange(16 * i + 8, 16 * i + 16) =~= spec_u64_to_le_bytes(
            last.index_offset,
        ));
    }
}

} // verus!
