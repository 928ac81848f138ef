use vstd::arithmetic::power2::{lemma2_to64, lemma_pow2_unfold, pow2};
use vstd::bytes::spec_u64_from_le_bytes;
use vstd::prelude::*;
use vstd::slice::slice_subrange;
use vstd::utf8::{encode_utf8, valid_utf8};

use crate::error::IndexError;
use crate::format::{decode_entry, top_entry_at, TopLevelEntry, TOP_ENTRY_SIZE};
use crate::key::{
    compare_keys, entry_view, key_order, lookup_view, KeyOffset, KeyOffsetView, KeyOrder,
};
use crate::text::decode_text;

verus! {

/// The byte that ends a row of the source file.
pub const ROW_TERMINATOR: u8 = 10;

/// Entry `n` of an index, read as a file reader would: the directory record
/// at byte `16 * n` of `top` gives the place and length of the key in
/// `index`; the row's offset follows the key. A read that runs past the end
/// of either file fails with `Io`, a key that is not UTF-8 with `Format`.
pub open spec fn entry_at(top: Seq<u8>, index: Seq<u8>, n: int) -> Result<KeyOffsetView, IndexError> {
    if n < 0 || 16 * n + 16 > top.len() {
        Err(IndexError::Io)
    } else {
        let record = top_entry_at(top, n);
        let start = record.index_offset as int;
        let mid = start + record.key_length;
        if mid + 8 > index.len() {
            Err(IndexError::Io)
        } else if !valid_utf8(index.subrange(start, mid)) {
            Err(IndexError::Format)
        } else {
            Ok(
                KeyOffsetView {
                    key: index.subrange(start, mid),
                    offset: spec_u64_from_le_bytes(index.subrange(mid, mid + 8)),
                },
            )
        }
    }
}

/// Fetches entry `n` of the index held in `top_index` and `index`.
pub fn get_nth_element(top_index: &[u8], index: &[u8], n: u64) -> (r: Result<KeyOffset, IndexError>)
    ensures
        entry_view(r) == entry_at(top_index@, index@, n as int),
{
    let length = top_index.len() as u64;
    let available = index.len() as u64;
    let position = match TopLevelEntry::position(n) {
        Some(position) => position,
        None => {
            return Err(IndexError::Io);
        },
    };
    if length < TOP_ENTRY_SIZE as u64 || position > length - TOP_ENTRY_SIZE as u64 {
        return Err(IndexError::Io);
    }
    let base = position as usize;
    let record_bytes = slice_subrange(top_index, base, base + TOP_ENTRY_SIZE);
    proof {
        assert(record_bytes@.subrange(0, 8) =~= top_index@.subrange(16 * n, 16 * n + 8));
        assert(record_bytes@.subrange(8, 16) =~= top_index@.subrange(16 * n + 8, 16 * n + 16));
    }
    let record = match TopLevelEntry::decode(record_bytes) {
        Some(record) => record,
        None => {
            return Err(IndexError::Io);
        },
    };
    let (start, size) = match record.entry_span() {
        Some(span) => span,
        None => {
            return Err(IndexError::Io);
        },
    };
    if start > available || size > available - start {
        return Err(IndexError::Io);
    }
    let start = start as usize;
    let end = start + size as usize;
    let entry_bytes = slice_subrange(index, start, end);
    proof {
        let mid = start + record.key_length;
        assert(entry_bytes@.subrange(0, mid - start) =~= index@.subrange(start as int, mid));
        assert(entry_bytes@.subrange(mid - start, mid - start + 8) =~= index@.subrange(
            mid,
            mid + 8,
        ));
    }
    decode_entry(entry_bytes)
}

/// The most entries a bisection of `size` entries can fetch: each fetch
/// leaves at most half of the interval.
pub open spec fn max_probes(size: nat) -> nat
    decreases size,
{
    if size == 0 {
        0
    } else {
        1 + max_probes(size / 2)
    }
}

/// A smaller interval never needs more fetches.
pub proof fn lemma_max_probes_monotonic(a: nat, b: nat)
    requires
        a <= b,
    ensures
        max_probes(a) <= max_probes(b),
    decreases b,
{
    if a > 0 {
        lemma_max_probes_monotonic(a / 2, b / 2);
    }
}

/// The state of one bisection over the entries `0 .. total` of an index:
/// the half-open interval of entries that may still hold the key, and the
/// number of entries fetched so far.
///
/// The caller fetches the entry that `next_probe` names and hands its key to
/// `advance`; the search is over when `advance` reports a match or
/// `next_probe` has nothing left to name.
#[derive(Debug)]
pub struct Locator {
    low: u64,
    high: u64,
    total: u64,
    probes: u64,
}

impl Locator {
    #[verifier::type_invariant]
    spec fn well_formed(&self) -> bool {
        &&& self.low <= self.high <= self.total
        &&& self.probes + max_probes((self.high - self.low) as nat) <= max_probes(
            self.total as nat,
        )
    }

    /// First entry of the interval.
    pub closed spec fn lower(&self) -> int {
        self.low as int
    }

    /// First entry past the interval.
    pub closed spec fn upper(&self) -> int {
        self.high as int
    }

    /// Number of entries in the index.
    pub closed spec fn size(&self) -> int {
        self.total as int
    }

    /// Number of entries fetched so far.
    pub closed spec fn fetched(&self) -> int {
        self.probes as int
    }

    /// The entry that is fetched next: the middle of the interval.
    pub open spec fn midpoint(&self) -> int {
        self.lower() + (self.upper() - self.lower()) / 2
    }

    /// Starts a search over all `total` entries.
    pub fn new(total: u64) -> (locator: Locator)
        ensures
            locator.lower() == 0,
            locator.upper() == total,
            locator.size() == total,
            locator.fetched() == 0,
    {
        Locator { low: 0, high: total, total, probes: 0 }
    }

    /// Starts a search over a `TopLevelIndex` of `length` bytes: over all of
    /// its `length / 16` records, or not at all where the length is not a
    /// multiple of the record size.
    pub fn over(length: u64) -> (r: Result<Locator, IndexError>)
        ensures
            r is Ok <==> length % 16 == 0,
            r matches Ok(locator) ==> {
                &&& locator.lower() == 0
                &&& locator.upper() == length / 16
                &&& locator.size() == length / 16
                &&& locator.fetched() == 0
            },
            r matches Err(e) ==> e == IndexError::Format,
    {
        if length % (TOP_ENTRY_SIZE as u64) != 0 {
            Err(IndexError::Format)
        } else {
            Ok(Locator::new(length / (TOP_ENTRY_SIZE as u64)))
        }
    }

    /// The bounds of the interval, first entry and first entry past it.
    /// The interval never leaves the index.
    pub fn bounds(&self) -> (r: (u64, u64))
        ensures
            r.0 == self.lower(),
            r.1 == self.upper(),
            0 <= self.lower() <= self.upper() <= self.size(),
    {
        proof {
            use_type_invariant(self);
        }
        (self.low, self.high)
    }

    /// The number of entries fetched so far. Together with the fetches that
    /// the rest of the interval can still take it never exceeds what the
    /// whole index allows.
    pub fn probes(&self) -> (n: u64)
        ensures
            n == self.fetched(),
            n + max_probes((self.upper() - self.lower()) as nat) <= max_probes(
                self.size() as nat,
            ),
    {
        proof {
            use_type_invariant(self);
        }
        self.probes
    }

    /// The entry to fetch next, or `None` when the interval is empty: the
    /// key is then not in the index.
    pub fn next_probe(&self) -> (probe: Option<u64>)
        ensures
            probe is Some <==> self.lower() < self.upper(),
            probe matches Some(mid) ==> mid == self.midpoint(),
    {
        proof {
            use_type_invariant(self);
        }
        if self.low < self.high {
            Some(self.low + (self.high - self.low) / 2)
        } else {
            None
        }
    }

    /// Takes the key of the entry that `next_probe` named and compares it
    /// with the key looked for. On a match the search is over: the result is
    /// `true` and the interval is left empty. Otherwise the interval loses
    /// the fetched entry and everything on the wrong side of it. On an empty
    /// interval nothing is fetched and nothing changes.
    pub fn advance(&mut self, fetched: &str, key: &str) -> (found: bool)
        ensures
            final(self).size() == old(self).size(),
            old(self).lower() >= old(self).upper() ==> !found && *final(self) == *old(self),
            old(self).lower() < old(self).upper() ==> {
                &&& final(self).fetched() == old(self).fetched() + 1
                &&& match key_order(encode_utf8(fetched@), encode_utf8(key@)) {
                    KeyOrder::Equal => {
                        &&& found
                        &&& final(self).lower() == old(self).midpoint()
                        &&& final(self).upper() == old(self).midpoint()
                    },
                    KeyOrder::Less => {
                        &&& !found
                        &&& final(self).lower() == old(self).midpoint() + 1
                        &&& final(self).upper() == old(self).upper()
                    },
                    KeyOrder::Greater => {
                        &&& !found
                        &&& final(self).lower() == old(self).lower()
                        &&& final(self).upper() == old(self).midpoint()
                    },
                }
            },
    {
        proof {
            use_type_invariant(&*self);
        }
        if self.low >= self.high {
            return false;
        }
        let mid = self.low + (self.high - self.low) / 2;
        let order = compare_keys(fetched.as_bytes(), key.as_bytes());
        proof {
            let size = (self.high - self.low) as nat;
            lemma_max_probes_monotonic((mid - self.low) as nat, size / 2);
            lemma_max_probes_monotonic((self.high - mid - 1) as nat, size / 2);
            lemma_max_probes_monotonic(size, self.total as nat);
            lemma_max_probes_bound(self.total as nat);
        }
        match order {
            KeyOrder::Equal => {
                *self = Locator { low: mid, high: mid, total: self.total, probes: self.probes + 1 };
                true
            },
            KeyOrder::Less => {
                *self = Locator {
                    low: mid + 1,
                    high: self.high,
                    total: self.total,
                    probes: self.probes + 1,
                };
                false
            },
            KeyOrder::Greater => {
                *self = Locator {
                    low: self.low,
                    high: mid,
                    total: self.total,
                    probes: self.probes + 1,
                };
                false
            },
        }
    }
}

/// An interval of fewer than `2^k` entries takes at most `k` fetches.
pub proof fn lemma_max_probes_pow2(size: nat, k: nat)
    requires
        size < pow2(k),
    ensures
        max_probes(size) <= k,
    decreases k,
{
    lemma2_to64();
    if size > 0 {
        lemma_pow2_unfold(k);
        lemma_max_probes_pow2(size / 2, (k - 1) as nat);
    }
}

/// An interval of `size` entries takes at most `k + 1` fetches, where `k` is
/// any exponent with `size <= 2^k`: the logarithm of `size` to base 2,
/// rounded up, is the least such `k`.
pub proof fn lemma_probes_within_log2(size: nat, k: nat)
    requires
        1 <= size <= pow2(k),
    ensures
        max_probes(size) <= k + 1,
{
    lemma_pow2_unfold(k + 1);
    lemma_max_probes_pow2(size, k + 1);
}

/// No index that a machine can address takes more than 64 fetches.
pub proof fn lemma_max_probes_bound(size: nat)
    requires
        size <= u64::MAX,
    ensures
        max_probes(size) <= 64,
{
    lemma2_to64();
    lemma_max_probes_pow2(size, 64);
}

/// The bisection of the entries `low .. high`: fetch the middle entry; its
/// key decides whether that entry is the answer or which half is searched
/// next. A fetch that fails ends the search with its error. Where several
/// entries hold the key, the answer is the one that is fetched first.
pub open spec fn locate(top: Seq<u8>, index: Seq<u8>, key: Seq<u8>, low: int, high: int) -> Result<
    Option<KeyOffsetView>,
    IndexError,
>
    decreases high - low,
{
    if low >= high {
        Ok(None)
    } else {
        let mid = low + (high - low) / 2;
        match entry_at(top, index, mid) {
            Err(e) => Err(e),
            Ok(entry) => match key_order(entry.key, key) {
                KeyOrder::Equal => Ok(Some(entry)),
                KeyOrder::Less => locate(top, index, key, mid + 1, high),
                KeyOrder::Greater => locate(top, index, key, low, mid),
            },
        }
    }
}

/// The outcome of a lookup of `key`: `Format` where the length of the
/// directory is not a multiple of 16, else the bisection of all entries.
pub open spec fn search_result(top: Seq<u8>, index: Seq<u8>, key: Seq<u8>) -> Result<
    Option<KeyOffsetView>,
    IndexError,
> {
    if top.len() % 16 != 0 {
        Err(IndexError::Format)
    } else {
        locate(top, index, key, 0, top.len() as int / 16)
    }
}

/// The number of entries that the bisection of `low .. high` fetches: one
/// for every round, the one that ends the search included.
pub open spec fn locate_fetches(
    top: Seq<u8>,
    index: Seq<u8>,
    key: Seq<u8>,
    low: int,
    high: int,
) -> nat
    decreases high - low,
{
    if low >= high {
        0
    } else {
        let mid = low + (high - low) / 2;
        1 + match entry_at(top, index, mid) {
            Err(_) => 0nat,
            Ok(entry) => match key_order(entry.key, key) {
                KeyOrder::Equal => 0nat,
                KeyOrder::Less => locate_fetches(top, index, key, mid + 1, high),
                KeyOrder::Greater => locate_fetches(top, index, key, low, mid),
            },
        }
    }
}

/// The number of entries that a lookup of `key` fetches.
pub open spec fn search_fetches(top: Seq<u8>, index: Seq<u8>, key: Seq<u8>) -> nat {
    if top.len() % 16 != 0 {
        0
    } else {
        locate_fetches(top, index, key, 0, top.len() as int / 16)
    }
}

/// Whatever the files hold, the bisection of an interval fetches no more
/// entries than `max_probes` allows for its size.
pub proof fn lemma_fetches_bounded(
    top: Seq<u8>,
    index: Seq<u8>,
    key: Seq<u8>,
    low: int,
    high: int,
)
    requires
        low <= high,
    ensures
        locate_fetches(top, index, key, low, high) <= max_probes((high - low) as nat),
    decreases high - low,
{
    if low < high {
        let mid = low + (high - low) / 2;
        let half = ((high - low) as nat) / 2;
        lemma_max_probes_monotonic((high - mid - 1) as nat, half);
        lemma_max_probes_monotonic((mid - low) as nat, half);
        lemma_fetches_bounded(top, index, key, mid + 1, high);
        lemma_fetches_bounded(top, index, key, low, mid);
    }
}

/// Looks `key` up in the index held in `top_index` and `index`, and counts
/// the entries fetched on the way. The count never exceeds what
/// `max_probes` allows for the number of entries.
pub fn search_counted(top_index: &[u8], index: &[u8], key: &str) -> (r: (
    Result<Option<KeyOffset>, IndexError>,
    u64,
))
    ensures
        lookup_view(r.0) == search_result(top_index@, index@, encode_utf8(key@)),
        r.1 == search_fetches(top_index@, index@, encode_utf8(key@)),
        r.1 <= max_probes(top_index@.len() / 16),
{
    let mut locator = match Locator::over(top_index.len() as u64) {
        Ok(locator) => locator,
        Err(e) => {
            return (Err(e), 0);
        },
    };
    let ghost total = top_index@.len() as int / 16;
    let ghost wanted = encode_utf8(key@);
    let mut fetched: u64 = 0;
    proof {
        lemma_fetches_bounded(top_index@, index@, wanted, 0, total);
        lemma_max_probes_bound(total as nat);
    }
    loop
        invariant
            wanted == encode_utf8(key@),
            total == top_index@.len() as int / 16,
            top_index@.len() % 16 == 0,
            0 <= locator.lower() <= locator.upper() <= total,
            search_result(top_index@, index@, wanted) == locate(
                top_index@,
                index@,
                wanted,
                locator.lower(),
                locator.upper(),
            ),
            fetched + locate_fetches(top_index@, index@, wanted, locator.lower(), locator.upper())
                == locate_fetches(top_index@, index@, wanted, 0, total),
            locate_fetches(top_index@, index@, wanted, 0, total) <= max_probes(total as nat) <= 64,
        decreases locator.upper() - locator.lower(),
    {
        let mid = match locator.next_probe() {
            Some(mid) => mid,
            None => {
                return (Ok(None), fetched);
            },
        };
        fetched += 1;
        let entry = match get_nth_element(top_index, index, mid) {
            Ok(entry) => entry,
            Err(e) => {
                return (Err(e), fetched);
            },
        };
        if locator.advance(entry.key.as_str(), key) {
            return (Ok(Some(entry)), fetched);
        }
    }
}

/// Looks `key` up in the index held in `top_index` and `index`.
pub fn search(top_index: &[u8], index: &[u8], key: &str) -> (r: Result<Option<KeyOffset>, IndexError>)
    ensures
        lookup_view(r) == search_result(top_index@, index@, encode_utf8(key@)),
{
    search_counted(top_index, index, key).0
}

/// Looks `key` up in the index held in `top_index` and `index`.
pub fn find_key(top_index: &[u8], index: &[u8], key: String) -> (r: Result<
    Option<KeyOffset>,
    IndexError,
>)
    ensures
        lookup_view(r) == search_result(top_index@, index@, encode_utf8(key@)),
{
    search(top_index, index, key.as_str())
}

/// Where the row that starts at `from` ends: just past the first terminator
/// at or after `from`, or at the end of the data where there is none.
pub open spec fn row_end(data: Seq<u8>, from: int) -> int
    decreases data.len() - from,
{
    if from < 0 || from >= data.len() {
        data.len() as int
    } else if data[from] == ROW_TERMINATOR {
        from + 1
    } else {
        row_end(data, from + 1)
    }
}

/// The row that starts at `offset`, terminator included. Reading at or past
/// the end of the data fails, and so does reading a row that is not UTF-8.
pub open spec fn row_at(data: Seq<u8>, offset: int) -> Result<Seq<u8>, IndexError> {
    let row = data.subrange(offset, row_end(data, offset));
    if offset < 0 || offset >= data.len() || !valid_utf8(row) {
        Err(IndexError::Io)
    } else {
        Ok(row)
    }
}

/// What the result of reading a row stands for: the bytes of its text.
pub open spec fn row_view(r: Result<String, IndexError>) -> Result<Seq<u8>, IndexError> {
    match r {
        Ok(text) => Ok(encode_utf8(text@)),
        Err(e) => Err(e),
    }
}

/// The row ends after `offset`, inside the data; no byte before its last
/// is a terminator; and its last byte is one unless the data ends there.
pub proof fn lemma_row_end(data: Seq<u8>, offset: int)
    requires
        0 <= offset < data.len(),
    ensures
        offset < row_end(data, offset) <= data.len(),
        forall|i: int| offset <= i < row_end(data, offset) - 1 ==> data[i] != ROW_TERMINATOR,
        data[row_end(data, offset) - 1] == ROW_TERMINATOR || row_end(data, offset) == data.len(),
    decreases data.len() - offset,
{
    if data[offset] != ROW_TERMINATOR {
        if offset + 1 < data.len() {
            lemma_row_end(data, offset + 1);
        } else {
            assert(row_end(data, offset + 1) == data.len());
        }
    }
}

/// Reads the row of `data` that starts at `offset`.
pub fn read_row(data: &[u8], offset: u64) -> (r: Result<String, IndexError>)
    ensures
        row_view(r) == row_at(data@, offset as int),
{
    if offset >= data.len() as u64 {
        return Err(IndexError::Io);
    }
    let start = offset as usize;
    let mut end = start;
    while end < data.len() && data[end] != ROW_TERMINATOR
        invariant
            start <= end <= data.len(),
            row_end(data@, start as int) == row_end(data@, end as int),
        decreases data.len() - end,
    {
        end += 1;
    }
    if end < data.len() {
        end += 1;
    }
    match decode_text(slice_subrange(data, start, end)) {
        Ok(text) => Ok(text),
        Err(_) => Err(IndexError::Io),
    }
}

/// The outcome of looking `key` up and reading its row: the lookup's error
/// or `None` where it has no entry to give, else what reading the row at
/// the entry's offset gives.
pub open spec fn matching_row(data: Seq<u8>, top: Seq<u8>, index: Seq<u8>, key: Seq<u8>) -> Result<
    Option<Seq<u8>>,
    IndexError,
> {
    match search_result(top, index, key) {
        Err(e) => Err(e),
        Ok(None) => Ok(None),
        Ok(Some(entry)) => match row_at(data, entry.offset as int) {
            Err(e) => Err(e),
            Ok(row) => Ok(Some(row)),
        },
    }
}

/// What the result of fetching a row by key stands for.
pub open spec fn matching_row_view(r: Result<Option<String>, IndexError>) -> Result<
    Option<Seq<u8>>,
    IndexError,
> {
    match r {
        Ok(Some(text)) => Ok(Some(encode_utf8(text@))),
        Ok(None) => Ok(None),
        Err(e) => Err(e),
    }
}

/// Looks `key` up in the index and reads its row from `data`.
pub fn get_matching_row(data: &[u8], top_index: &[u8], index: &[u8], key: String) -> (r: Result<
    Option<String>,
    IndexError,
>)
    ensures
        matching_row_view(r) == matching_row(data@, top_index@, index@, encode_utf8(key@)),
{
    match find_key(top_index, index, key) {
        Err(e) => Err(e),
        Ok(None) => Ok(None),
        Ok(Some(entry)) => match read_row(data, entry.offset) {
            Err(e) => Err(e),
            Ok(row) => Ok(Some(row)),
        },
    }
}

} // verus!
