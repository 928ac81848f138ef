use vstd::prelude::*;
use vstd::utf8::encode_utf8;

use crate::error::IndexError;

verus! {

/// Strict byte-wise lexicographic order on keys: at the first position where
/// the two differ the smaller byte decides, and a proper prefix comes first.
pub open spec fn key_lt(a: Seq<u8>, b: Seq<u8>) -> bool
    decreases a.len(),
{
    if b.len() == 0 {
        false
    } else if a.len() == 0 {
        true
    } else if a[0] != b[0] {
        a[0] < b[0]
    } else {
        key_lt(a.drop_first(), b.drop_first())
    }
}

/// `a` comes before `b` or equals it.
pub open spec fn key_le(a: Seq<u8>, b: Seq<u8>) -> bool {
    a == b || key_lt(a, b)
}

/// Outcome of comparing two keys.
#[derive(Clone, Copy, Debug, PartialEq, Eq, Structural)]
pub enum KeyOrder {
    Less,
    Equal,
    Greater,
}

/// The order of `a` relative to `b`.
pub open spec fn key_order(a: Seq<u8>, b: Seq<u8>) -> KeyOrder {
    if a == b {
        KeyOrder::Equal
    } else if key_lt(a, b) {
        KeyOrder::Less
    } else {
        KeyOrder::Greater
    }
}

/// No key comes before itself.
pub proof fn lemma_key_lt_irreflexive(a: Seq<u8>)
    ensures
        !key_lt(a, a),
    decreases a.len(),
{
    if a.len() > 0 {
        lemma_key_lt_irreflexive(a.drop_first());
    }
}

/// Of two distinct keys exactly one comes first.
pub proof fn lemma_key_lt_total(a: Seq<u8>, b: Seq<u8>)
    ensures
        a != b ==> (key_lt(a, b) <==> !key_lt(b, a)),
        a == b ==> !key_lt(a, b) && !key_lt(b, a),
    decreases a.len(),
{
    if a == b {
        lemma_key_lt_irreflexive(a);
    } else if a.len() == 0 || b.len() == 0 {
        assert(a.len() != b.len()) by {
            if a.len() == b.len() {
                assert(a =~= b);
            }
        }
    } else if a[0] == b[0] {
        assert(a.drop_first() != b.drop_first()) by {
            if a.drop_first() == b.drop_first() {
                assert(a =~= seq![a[0]] + a.drop_first());
                assert(b =~= seq![b[0]] + b.drop_first());
            }
        }
        lemma_key_lt_total(a.drop_first(), b.drop_first());
    }
}

/// The order is transitive.
pub proof fn lemma_key_lt_transitive(a: Seq<u8>, b: Seq<u8>, c: Seq<u8>)
    requires
        key_lt(a, b),
        key_lt(b, c),
    ensures
        key_lt(a, c),
    decreases a.len(),
{
    if a.len() > 0 && a[0] == b[0] && b[0] == c[0] {
        lemma_key_lt_transitive(a.drop_first(), b.drop_first(), c.drop_first());
    }
}

/// `key_le` is reflexive, antisymmetric, transitive and total.
pub proof fn lemma_key_le_total_order(a: Seq<u8>, b: Seq<u8>, c: Seq<u8>)
    ensures
        key_le(a, a),
        key_le(a, b) && key_le(b, a) ==> a == b,
        key_le(a, b) && key_le(b, c) ==> key_le(a, c),
        key_le(a, b) || key_le(b, a),
{
    lemma_key_lt_total(a, b);
    if key_lt(a, b) && key_lt(b, c) {
        lemma_key_lt_transitive(a, b, c);
    }
}

/// Compares two keys byte by byte.
pub fn compare_keys(a: &[u8], b: &[u8]) -> (order: KeyOrder)
    ensures
        order == key_order(a@, b@),
{
    let mut i: usize = 0;
    proof {
        assert(a@.skip(0) =~= a@);
        assert(b@.skip(0) =~= b@);
    }
    while i < a.len() && i < b.len()
        invariant
            i <= a.len(),
            i <= b.len(),
            a@.take(i as int) == b@.take(i as int),
            key_lt(a@, b@) == key_lt(a@.skip(i as int), b@.skip(i as int)),
            key_lt(b@, a@) == key_lt(b@.skip(i as int), a@.skip(i as int)),
        decreases a.len() - i,
    {
        let x = a[i];
        let y = b[i];
        proof {
            let ra = a@.skip(i as int);
            let rb = b@.skip(i as int);
            assert(ra[0] == x && rb[0] == y);
            assert(ra.drop_first() =~= a@.skip(i + 1));
            assert(rb.drop_first() =~= b@.skip(i + 1));
        }
        if x < y {
            proof {
                lemma_key_lt_total(a@, b@);
            }
            return KeyOrder::Less;
        }
        if x > y {
            proof {
                lemma_key_lt_total(a@, b@);
            }
            return KeyOrder::Greater;
        }
        proof {
            assert(a@.take(i + 1) =~= a@.take(i as int).push(x));
            assert(b@.take(i + 1) =~= b@.take(i as int).push(y));
        }
        i += 1;
    }
    proof {
        assert(a@.skip(i as int).len() == a@.len() - i);
        assert(b@.skip(i as int).len() == b@.len() - i);
        if a.len() == b.len() {
            assert(a@ =~= a@.take(i as int));
            assert(b@ =~= b@.take(i as int));
        }
    }
    if a.len() == b.len() {
        KeyOrder::Equal
    } else if i == a.len() {
        KeyOrder::Less
    } else {
        KeyOrder::Greater
    }
}

/// A key together with the byte offset at which its row starts in the
/// source file.
#[derive(Debug, PartialEq, Eq)]
pub struct KeyOffset {
    pub key: String,
    pub offset: u64,
}

/// What a `KeyOffset` stands for: the key as the bytes that are written to
/// the index, and the offset.
pub ghost struct KeyOffsetView {
    pub key: Seq<u8>,
    pub offset: u64,
}

impl View for KeyOffset {
    type V = KeyOffsetView;

    open spec fn view(&self) -> KeyOffsetView {
        KeyOffsetView { key: encode_utf8(self.key@), offset: self.offset }
    }
}

impl Clone for KeyOffset {
    fn clone(&self) -> (copy: KeyOffset)
        ensures
            copy == *self,
    {
        KeyOffset { key: self.key.clone(), offset: self.offset }
    }
}

/// What the result of fetching one entry stands for.
pub open spec fn entry_view(r: Result<KeyOffset, IndexError>) -> Result<KeyOffsetView, IndexError> {
    match r {
        Ok(entry) => Ok(entry@),
        Err(e) => Err(e),
    }
}

/// What the result of a lookup stands for.
pub open spec fn lookup_view(r: Result<Option<KeyOffset>, IndexError>) -> Result<
    Option<KeyOffsetView>,
    IndexError,
> {
    match r {
        Ok(Some(entry)) => Ok(Some(entry@)),
        Ok(None) => Ok(None),
        Err(e) => Err(e),
    }
}

} // verus!
