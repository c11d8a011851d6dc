//! Versioned keys: a user key with a sequence number and a kind.

use vstd::prelude::*;

use crate::format::fixed;
use crate::format::fixed::{put_be64, read_be64};
use crate::format::order;

verus! {

/// The largest sequence number: 56 bits, the low eight hold the kind.
pub const SEQUENCE_NUMBER_MAX: u64 = 0xFF_FFFF_FFFF_FFFF;

/// The bytes that follow the user key in a serialized key.
pub const TRAILER_LEN: usize = 8;

/// What a record does with its key.
#[derive(Debug, Clone, Copy, PartialEq, Eq, Structural)]
pub enum InternalKeyKind {
    /// Sets the key to a value.
    Put,
    /// Deletes the key.
    Delete,
    /// Opens an atomic batch in the log; holds no key of its own.
    TxnBatchBegin,
}

/// A kind byte that stands for no kind.
#[derive(Debug, Clone, Copy, PartialEq, Eq, Structural)]
pub struct InvalidKind(pub u8);

/// The byte of a kind: 0 for a put, 1 for a delete, 4 for the start of a batch.
pub open spec fn kind_byte(kind: InternalKeyKind) -> u8 {
    match kind {
        InternalKeyKind::Put => 0,
        InternalKeyKind::Delete => 1,
        InternalKeyKind::TxnBatchBegin => 4,
    }
}

/// The kind of a kind byte.
pub open spec fn kind_of_byte(byte: u8) -> Result<InternalKeyKind, InvalidKind> {
    if byte == 0 {
        Ok(InternalKeyKind::Put)
    } else if byte == 1 {
        Ok(InternalKeyKind::Delete)
    } else if byte == 4 {
        Ok(InternalKeyKind::TxnBatchBegin)
    } else {
        Err(InvalidKind(byte))
    }
}

/// Sequence number and kind in one word: the kind in the low eight bits, above it
/// the low 56 bits of the sequence number.
pub open spec fn encoded_sequence(seq: u64, kind: InternalKeyKind) -> u64 {
    ((seq % 0x100_0000_0000_0000) * 256 + kind_byte(kind)) as u64
}

/// The sequence number in an encoded word.
pub open spec fn sequence_of(encoded: u64) -> u64 {
    encoded / 256
}

/// The kind in an encoded word.
pub open spec fn kind_of(encoded: u64) -> Result<InternalKeyKind, InvalidKind> {
    kind_of_byte((encoded % 256) as u8)
}

/// The trailer of a serialized key: the encoded word with every bit flipped, high
/// byte first, so that of two versions the newer one comes first.
pub open spec fn trailer(encoded: u64) -> Seq<u8> {
    fixed::be_bytes((u64::MAX - encoded) as nat, 8)
}

/// A key as tables store it: the user key, then the trailer.
pub open spec fn serialized(user_key: Seq<u8>, encoded: u64) -> Seq<u8> {
    user_key + trailer(encoded)
}

/// The user key in a serialized key; none where it is shorter than a trailer.
pub open spec fn user_part(raw: Seq<u8>) -> Option<Seq<u8>> {
    if raw.len() >= 8 {
        Some(raw.subrange(0, raw.len() - 8))
    } else {
        None
    }
}

/// The encoded word in a serialized key.
pub open spec fn encoded_part(raw: Seq<u8>) -> u64 {
    (u64::MAX - fixed::be_value(raw.subrange(raw.len() - 8, raw.len() as int))) as u64
}

/// A versioned key, seen as a pair.
#[verifier::ext_equal]
pub struct KeyView {
    /// The user key.
    pub user_key: Seq<u8>,
    /// Sequence number and kind in one word.
    pub encoded: u64,
}

/// The key in a serialized key; none where it is shorter than a trailer.
pub open spec fn parsed(raw: Seq<u8>) -> Option<KeyView> {
    if raw.len() >= 8 {
        Some(KeyView { user_key: raw.subrange(0, raw.len() - 8), encoded: encoded_part(raw) })
    } else {
        None
    }
}

/// A serialized key is read back.
pub proof fn serialize_round_trip(user_key: Seq<u8>, encoded: u64)
    ensures
        parsed(serialized(user_key, encoded)) == Some(KeyView { user_key, encoded }),
        serialized(user_key, encoded).len() == user_key.len() + 8,
{
    fixed::byte_range_values();
    fixed::be_round_trip((u64::MAX - encoded) as nat, 8);
    let raw = serialized(user_key, encoded);
    assert(raw.subrange(0, raw.len() - 8) =~= user_key);
    assert(raw.subrange(raw.len() - 8, raw.len() as int) =~= trailer(encoded));
}

/// Any string of eight bytes or more is the serialization of the key that it holds.
pub proof fn serialize_of_parsed(raw: Seq<u8>)
    requires
        raw.len() >= 8,
    ensures
        serialized(parsed(raw)->Some_0.user_key, parsed(raw)->Some_0.encoded) == raw,
{
    let tail = raw.subrange(raw.len() - 8, raw.len() as int);
    fixed::byte_range_values();
    fixed::be_bytes_of_value(tail);
    assert(raw =~= raw.subrange(0, raw.len() - 8) + tail);
}

/// Sequence number and kind are read back from the encoded word.
pub proof fn encoded_sequence_round_trip(seq: u64, kind: InternalKeyKind)
    requires
        seq <= SEQUENCE_NUMBER_MAX,
    ensures
        sequence_of(encoded_sequence(seq, kind)) == seq,
        kind_of(encoded_sequence(seq, kind)) == Ok::<InternalKeyKind, InvalidKind>(kind),
{
}

/// Three bytes stand for kinds, each for another, and no other byte does: it is reported.
pub proof fn three_bytes_are_kinds(byte: u8)
    ensures
        kind_of_byte(byte) is Ok <==> byte == 0 || byte == 1 || byte == 4,
        kind_of_byte(byte) matches Ok(kind) ==> kind_byte(kind) == byte,
        kind_of_byte(byte) matches Err(e) ==> e == InvalidKind(byte),
        kind_of_byte(0) == Ok::<InternalKeyKind, InvalidKind>(InternalKeyKind::Put),
        kind_of_byte(1) == Ok::<InternalKeyKind, InvalidKind>(InternalKeyKind::Delete),
{
}

/// The larger sequence number gives the larger word, whatever the kinds.
pub proof fn newer_word_is_larger(
    older: u64,
    newer: u64,
    a: InternalKeyKind,
    b: InternalKeyKind,
)
    requires
        older < newer <= SEQUENCE_NUMBER_MAX,
    ensures
        encoded_sequence(older, a) < encoded_sequence(newer, b),
{
}

/// Of two versions of a user key the one with the larger word comes first as tables store them.
pub proof fn newer_version_comes_first(user_key: Seq<u8>, older: u64, newer: u64)
    requires
        older < newer,
    ensures
        order::lex_lt(serialized(user_key, newer), serialized(user_key, older)),
{
    let low = (u64::MAX - newer) as nat;
    let high = (u64::MAX - older) as nat;
    fixed::byte_range_values();
    fixed::be_bytes_ordered(low, high, 8);
    let a = trailer(newer);
    let b = trailer(older);
    let i = choose|i: int| order::less_at(a, b, i);
    fixed::le_bytes_len(low, 8);
    assert(order::less_at(user_key + a, user_key + b, user_key.len() + i));
}

/// Versions of user keys of which neither begins with the other are stored in the order of the
/// user keys, whatever their words.
pub proof fn versions_follow_their_user_keys(a: Seq<u8>, b: Seq<u8>, x: u64, y: u64, i: int)
    requires
        0 <= i < a.len(),
        order::less_at(a, b, i),
    ensures
        order::lex_lt(serialized(a, x), serialized(b, y)),
{
    assert(order::less_at(serialized(a, x), serialized(b, y), i));
}

impl InternalKeyKind {
    /// The kind's byte.
    pub fn as_u8(self) -> (r: u8)
        ensures
            r == kind_byte(self),
    {
        match self {
            InternalKeyKind::Put => 0,
            InternalKeyKind::Delete => 1,
            InternalKeyKind::TxnBatchBegin => 4,
        }
    }

    /// The kind of a byte.
    pub fn from_u8(byte: u8) -> (r: Result<InternalKeyKind, InvalidKind>)
        ensures
            r == kind_of_byte(byte),
    {
        if byte == 0 {
            Ok(InternalKeyKind::Put)
        } else if byte == 1 {
            Ok(InternalKeyKind::Delete)
        } else if byte == 4 {
            Ok(InternalKeyKind::TxnBatchBegin)
        } else {
            Err(InvalidKind(byte))
        }
    }
}

/// A user key with a sequence number and a kind.
#[derive(Debug, PartialEq, Eq, Hash)]
pub struct InternalKey {
    user_key: Vec<u8>,
    encoded: u64,
}

impl View for InternalKey {
    type V = KeyView;

    closed spec fn view(&self) -> KeyView {
        KeyView { user_key: self.user_key@, encoded: self.encoded }
    }
}

impl Clone for InternalKey {
    fn clone(&self) -> (r: Self)
        ensures
            r@ == self@,
    {
        let user_key = self.user_key.clone();
        assert(user_key@ =~= self.user_key@);
        InternalKey { user_key, encoded: self.encoded }
    }
}

impl InternalKey {
    /// A key from its parts. Of the sequence number the low 56 bits count.
    pub fn new(user_key: Vec<u8>, seq: u64, kind: InternalKeyKind) -> (r: InternalKey)
        ensures
            r@ == (KeyView { user_key: user_key@, encoded: encoded_sequence(seq, kind) }),
    {
        let encoded: u64 = (seq % 0x100_0000_0000_0000) * 256 + kind.as_u8() as u64;
        InternalKey { user_key, encoded }
    }

    /// A key from a user key and an encoded word, which is taken as it is.
    pub fn from_encoded(user_key: Vec<u8>, encoded: u64) -> (r: InternalKey)
        ensures
            r@ == (KeyView { user_key: user_key@, encoded }),
    {
        InternalKey { user_key, encoded }
    }

    /// The key that separates a table block that ends at or before `user_key` from
    /// the next one: a probe for `user_key` compares equal to it.
    pub fn new_separator(user_key: Vec<u8>) -> (r: InternalKey)
        ensures
            r@ == (KeyView {
                user_key: user_key@,
                encoded: encoded_sequence(SEQUENCE_NUMBER_MAX, InternalKeyKind::Put),
            }),
    {
        InternalKey::new(user_key, SEQUENCE_NUMBER_MAX, InternalKeyKind::Put)
    }

    /// Reads a serialized key; none where it is shorter than a trailer.
    pub fn parse(raw: &[u8]) -> (r: Option<InternalKey>)
        ensures
            match parsed(raw@) {
                Some(key) => r is Some && r->Some_0@ == key,
                None => r is None,
            },
    {
        if raw.len() < 8 {
            return None;
        }
        let n: usize = raw.len() - 8;
        let user_key = vstd::slice::slice_to_vec(vstd::slice::slice_subrange(raw, 0, n));
        proof {
            fixed::byte_range_values();
            fixed::be_bytes_of_value(raw@.subrange(n as int, n + 8));
        }
        let flipped: u64 = read_be64(raw, n);
        Some(InternalKey { user_key, encoded: u64::MAX - flipped })
    }

    /// The key as tables store it.
    pub fn serialize(&self) -> (r: Vec<u8>)
        ensures
            r@ == serialized(self@.user_key, self@.encoded),
    {
        let mut out: Vec<u8> = self.user_key.clone();
        assert(out@ =~= self.user_key@);
        put_be64(&mut out, u64::MAX - self.encoded);
        out
    }

    /// The number of bytes of [`Self::serialize`]; the maximum where it does not fit.
    pub fn serialized_size(&self) -> (r: usize)
        ensures
            self@.user_key.len() + 8 <= usize::MAX ==> r == serialized(
                self@.user_key,
                self@.encoded,
            ).len(),
            self@.user_key.len() + 8 > usize::MAX ==> r == usize::MAX,
    {
        proof {
            serialize_round_trip(self@.user_key, self@.encoded);
        }
        self.user_key.len().saturating_add(8)
    }

    /// The user key.
    pub fn user_key(&self) -> (r: &[u8])
        ensures
            r@ == self@.user_key,
    {
        self.user_key.as_slice()
    }

    /// Sequence number and kind in one word.
    pub fn encoded_sequence_number(&self) -> (r: u64)
        ensures
            r == self@.encoded,
    {
        self.encoded
    }

    /// The sequence number.
    pub fn sequence_number(&self) -> (r: u64)
        ensures
            r == sequence_of(self@.encoded),
    {
        self.encoded / 256
    }

    /// The kind, or the kind byte where it stands for none.
    pub fn kind(&self) -> (r: Result<InternalKeyKind, InvalidKind>)
        ensures
            r == kind_of(self@.encoded),
    {
        InternalKeyKind::from_u8((self.encoded % 256) as u8)
    }
}

} // verus!
