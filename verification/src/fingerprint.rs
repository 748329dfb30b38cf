//! Encoding of audio fingerprints as little-endian byte blobs, as they are
//! stored in the fingerprint table, and decoding them back.

use vstd::prelude::*;

verus! {

/// Errors of fingerprint decoding and lookup.
#[derive(Debug, Clone, Copy, PartialEq, Eq, Structural)]
pub enum FingerprintError {
    /// The stored blob does not hold a whole number of 32-bit words.
    LengthNotMultipleOfFour,
    /// No fingerprint is stored for the requested file.
    NotFound,
}

/// The message of each error.
pub open spec fn error_text(e: FingerprintError) -> Seq<char> {
    match e {
        FingerprintError::LengthNotMultipleOfFour => "The length of the input byte vector must be a multiple of 4."@,
        FingerprintError::NotFound => "Fingerprint not found"@,
    }
}

impl FingerprintError {
    /// The error's message.
    pub fn to_string(&self) -> (message: String)
        ensures
            message@ == error_text(*self),
    {
        match self {
            FingerprintError::LengthNotMultipleOfFour => "The length of the input byte vector must be a multiple of 4.".to_owned(),
            FingerprintError::NotFound => "Fingerprint not found".to_owned(),
        }
    }
}

/// The 32-bit word whose little-endian bytes are `b[0] .. b[3]`.
pub open spec fn word_from_le(b: Seq<u8>) -> u32 {
    (b[0] + b[1] * 256 + b[2] * 65536 + b[3] * 16777216) as u32
}

/// The four little-endian bytes of `x`, least significant first.
pub open spec fn word_to_le(x: u32) -> Seq<u8> {
    seq![(x % 256) as u8, ((x / 256) % 256) as u8, ((x / 65536) % 256) as u8, (x / 16777216) as u8]
}

/// A word and its four little-endian bytes determine each other.
pub proof fn lemma_word_roundtrip(x: u32, b: Seq<u8>)
    ensures
        word_to_le(x).len() == 4,
        word_from_le(word_to_le(x)) == x,
        b.len() == 4 ==> word_to_le(word_from_le(b)) == b,
        b.len() == 4 ==> word_from_le(b) == b[0] + b[1] * 256 + b[2] * 65536 + b[3] * 16777216,
{
    assert(x == x % 256 + ((x / 256) % 256) * 256 + ((x / 65536) % 256) * 65536 + (x / 16777216)
        * 16777216) by (nonlinear_arith);
    if b.len() == 4 {
        let b0 = b[0];
        let b1 = b[1];
        let b2 = b[2];
        let b3 = b[3];
        let v: int = b0 + b1 * 256 + b2 * 65536 + b3 * 16777216;
        assert(0 <= v <= u32::MAX);
        let w = word_from_le(b);
        assert(w == v);
        assert(v % 256 == b0 && (v / 256) % 256 == b1 && (v / 65536) % 256 == b2 && v / 16777216
            == b3) by (nonlinear_arith)
            requires
                v == b0 + b1 * 256 + b2 * 65536 + b3 * 16777216,
                0 <= b0 < 256,
                0 <= b1 < 256,
                0 <= b2 < 256,
                0 <= b3 < 256,
        ;
        assert(word_to_le(w) =~= b);
    }
}

/// The words that a little-endian blob holds: word `i` is made of bytes
/// `4 * i .. 4 * i + 4`. Trailing bytes that do not fill a word are ignored.
pub open spec fn decode_words(bytes: Seq<u8>) -> Seq<u32> {
    Seq::new(
        bytes.len() / 4,
        |i: int| word_from_le(bytes.subrange(4 * i, 4 * i + 4)),
    )
}

/// The little-endian blob of a sequence of words: each word in turn, least
/// significant byte first.
pub open spec fn encode_words(words: Seq<u32>) -> Seq<u8>
    decreases words.len(),
{
    if words.len() == 0 {
        Seq::empty()
    } else {
        encode_words(words.drop_last()) + word_to_le(words.last())
    }
}

/// Decodes a stored fingerprint blob into its 32-bit words.
///
/// Fails exactly when the blob's length is not a multiple of four.
pub fn bytes_to_u32s(bytes: Vec<u8>) -> (result: Result<Vec<u32>, FingerprintError>)
    ensures
        bytes@.len() % 4 != 0 ==> result == Err::<Vec<u32>, FingerprintError>(
            FingerprintError::LengthNotMultipleOfFour,
        ),
        bytes@.len() % 4 == 0 ==> (result matches Ok(words) && words@ == decode_words(bytes@)),
        bytes@.len() % 4 == 0 ==> (result matches Ok(words) && words@.len() == bytes@.len() / 4
            && forall|i: int|
            0 <= i < words@.len() ==> #[trigger] words@[i] == bytes@[4 * i] + bytes@[4 * i + 1] * 256
                + bytes@[4 * i + 2] * 65536 + bytes@[4 * i + 3] * 16777216),
        result matches Err(e) ==> error_text(e)
            == "The length of the input byte vector must be a multiple of 4."@,
{
    if bytes.len() % 4 != 0 {
        return Err(FingerprintError::LengthNotMultipleOfFour);
    }
    let n: usize = bytes.len() / 4;
    assert(4 * n == bytes@.len()) by (nonlinear_arith)
        requires
            n == bytes@.len() / 4,
            bytes@.len() % 4 == 0,
    ;
    let mut words: Vec<u32> = Vec::new();
    let mut i: usize = 0;
    while i < n
        invariant
            n == bytes@.len() / 4,
            4 * n == bytes@.len(),
            bytes@.len() <= usize::MAX,
            i <= n,
            words@ == decode_words(bytes@).take(i as int),
        decreases n - i,
    {
        let start: usize = 4 * i;
        let word: u32 = (bytes[start] as u32) + (bytes[start + 1] as u32) * 256 + (bytes[start + 2]
            as u32) * 65536 + (bytes[start + 3] as u32) * 16777216;
        proof {
            lemma_word_roundtrip(word, bytes@.subrange(start as int, start + 4));
        }
        words.push(word);
        i = i + 1;
        assert(words@ =~= decode_words(bytes@).take(i as int));
    }
    assert(words@ =~= decode_words(bytes@));
    assert forall|i: int| 0 <= i < words@.len() implies #[trigger] words@[i] == bytes@[4 * i]
        + bytes@[4 * i + 1] * 256 + bytes@[4 * i + 2] * 65536 + bytes@[4 * i + 3] * 16777216 by {
        lemma_word_roundtrip(0, bytes@.subrange(4 * i, 4 * i + 4));
    }
    Ok(words)
}

/// Encodes fingerprint words as the little-endian blob that is stored.
pub fn u32s_to_bytes(words: &[u32]) -> (bytes: Vec<u8>)
    requires
        words@.len() * 4 <= usize::MAX,
    ensures
        bytes@ == encode_words(words@),
{
    let mut bytes: Vec<u8> = Vec::new();
    let mut i: usize = 0;
    while i < words.len()
        invariant
            i <= words@.len(),
            bytes@ == encode_words(words@.take(i as int)),
        decreases words@.len() - i,
    {
        let x: u32 = words[i];
        let ghost before = bytes@;
        bytes.push((x % 256) as u8);
        bytes.push(((x / 256) % 256) as u8);
        bytes.push(((x / 65536) % 256) as u8);
        bytes.push((x / 16777216) as u8);
        assert(bytes@ =~= before + word_to_le(x));
        assert(words@.take(i + 1).drop_last() =~= words@.take(i as int));
        i = i + 1;
    }
    assert(words@.take(words@.len() as int) =~= words@);
    bytes
}

/// A row of the fingerprint table.
pub struct Model {
    pub id: i32,
    pub media_file_id: i32,
    /// The fingerprint's words, as a little-endian blob.
    pub fingerprint: Vec<u8>,
    /// 1 when the file is marked as a duplicate, 0 otherwise.
    pub is_duplicated: i32,
}

/// Reads the fingerprint words of the row found for a file: no row means no
/// fingerprint; a row's blob is decoded as `bytes_to_u32s` does.
pub fn fingerprint_from_row(row: Option<Model>) -> (result: Result<Vec<u32>, FingerprintError>)
    ensures
        row is None ==> result == Err::<Vec<u32>, FingerprintError>(FingerprintError::NotFound),
        row matches Some(m) && m.fingerprint@.len() % 4 != 0 ==> result == Err::<
            Vec<u32>,
            FingerprintError,
        >(FingerprintError::LengthNotMultipleOfFour),
        row matches Some(m) && m.fingerprint@.len() % 4 == 0 ==> (result matches Ok(words)
            && words@ == decode_words(row->0.fingerprint@)),
{
    match row {
        Some(m) => bytes_to_u32s(m.fingerprint),
        None => Err(FingerprintError::NotFound),
    }
}

/// A stored blob reads back as the words that were written: decoding the
/// encoding of any word sequence gives that sequence, and the blob holds four
/// bytes per word.
pub proof fn lemma_decode_encode(words: Seq<u32>)
    ensures
        encode_words(words).len() == 4 * words.len(),
        decode_words(encode_words(words)) == words,
    decreases words.len(),
{
    if words.len() > 0 {
        lemma_word_roundtrip(words.last(), Seq::empty());
        let prev = words.drop_last();
        lemma_decode_encode(prev);
        let bytes = encode_words(words);
        let head = encode_words(prev);
        let tail = word_to_le(words.last());
        assert(bytes == head + tail);
        assert forall|i: int| 0 <= i < words.len() implies #[trigger] decode_words(bytes)[i]
            == words[i] by {
            if i < prev.len() {
                assert(bytes.subrange(4 * i, 4 * i + 4) =~= head.subrange(4 * i, 4 * i + 4));
                assert(decode_words(head)[i] == prev[i]);
            } else {
                assert(bytes.subrange(4 * i, 4 * i + 4) =~= tail);
            }
        }
        assert(decode_words(bytes) =~= words);
    }
}

/// Every blob of whole words is the encoding of what it decodes to, so
/// decoding loses nothing.
pub proof fn lemma_encode_decode(bytes: Seq<u8>)
    requires
        bytes.len() % 4 == 0,
    ensures
        encode_words(decode_words(bytes)) == bytes,
    decreases bytes.len(),
{
    if bytes.len() > 0 {
        let n: int = bytes.len() - 4;
        let head = bytes.subrange(0, n);
        let tail = bytes.subrange(n, n + 4);
        lemma_word_roundtrip(0, tail);
        lemma_encode_decode(head);
        let words = decode_words(bytes);
        assert(words.len() == head.len() / 4 + 1);
        assert(words.drop_last() =~= decode_words(head)) by {
            assert forall|i: int| 0 <= i < head.len() / 4 implies #[trigger] words.drop_last()[i]
                == decode_words(head)[i] by {
                assert(bytes.subrange(4 * i, 4 * i + 4) =~= head.subrange(4 * i, 4 * i + 4));
            }
        }
        assert(bytes.subrange(4 * (words.len() - 1), 4 * (words.len() - 1) + 4) =~= tail);
        assert(bytes =~= head + tail);
    }
}

} // verus!
