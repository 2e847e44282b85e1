//! Hashes and identifiers: their byte layout and the hashing of BCS values.
use crate::bytes::concat_bytes;
use crate::external::{
    bcs_u32, hex_char, hex_decode, hex_decode_spec, hex_digit, hex_encode, hex_encode_spec, le_bytes, sha3_256_digest,
    sha3_256_spec,
};
use vstd::prelude::*;
use vstd::string::StringSliceAdditionalSpecFns;
use vstd::utf8::{encode_utf8, is_ascii_chars, is_ascii_chars_encode_utf8};

verus! {

/// The value of bytes read least significant first.
pub open spec fn from_le(s: Seq<u8>) -> nat
    decreases s.len(),
{
    if s.len() == 0 {
        0
    } else {
        s[0] as nat + 256 * from_le(s.drop_first())
    }
}

/// `256` to the power `n`.
pub open spec fn pow256(n: nat) -> nat
    decreases n,
{
    if n == 0 {
        1
    } else {
        256 * pow256((n - 1) as nat)
    }
}

pub proof fn lemma_from_le_bound(s: Seq<u8>)
    ensures
        from_le(s) < pow256(s.len()),
    decreases s.len(),
{
    if s.len() > 0 {
        let r = s.drop_first();
        lemma_from_le_bound(r);
        let a = s[0] as nat;
        let b = from_le(r);
        let p = pow256(r.len());
        assert(a + 256 * b < 256 * p) by (nonlinear_arith)
            requires
                a < 256,
                b < p,
        ;
    }
}

/// Reading bytes and writing them back gives the same bytes.
pub proof fn lemma_le_bytes_from_le(s: Seq<u8>)
    ensures
        le_bytes(from_le(s), s.len()) == s,
    decreases s.len(),
{
    if s.len() > 0 {
        let r = s.drop_first();
        lemma_le_bytes_from_le(r);
        let a = s[0] as nat;
        let b = from_le(r);
        assert((a + 256 * b) % 256 == a && (a + 256 * b) / 256 == b) by (nonlinear_arith)
            requires
                a < 256,
        ;
        assert(le_bytes(from_le(s), s.len()) =~= seq![s[0]] + r);
        assert(s =~= seq![s[0]] + r);
    }
}

/// Writing a value as bytes and reading them back gives the value.
pub proof fn lemma_from_le_le_bytes(x: nat, n: nat)
    requires
        x < pow256(n),
    ensures
        from_le(le_bytes(x, n)) == x,
        le_bytes(x, n).len() == n,
    decreases n,
{
    if n > 0 {
        let p = pow256((n - 1) as nat);
        assert(x / 256 < p && x % 256 + 256 * (x / 256) == x) by (nonlinear_arith)
            requires
                x < 256 * p,
        ;
        lemma_from_le_le_bytes(x / 256, (n - 1) as nat);
        let s = le_bytes(x, n);
        assert(s.drop_first() =~= le_bytes(x / 256, (n - 1) as nat));
    } else {
        assert(x == 0);
    }
}

/// The bytes of a `u64`, least significant first.
pub fn u64_to_le(x: u64) -> (r: Vec<u8>)
    ensures
        r@ == le_bytes(x as nat, 8),
{
    let mut r: Vec<u8> = Vec::new();
    let mut cur: u64 = x;
    let mut i: usize = 0;
    while i < 8
        invariant
            i <= 8,
            r@ + le_bytes(cur as nat, (8 - i) as nat) == le_bytes(x as nat, 8),
        decreases 8 - i,
    {
        proof {
            let rest = le_bytes(cur as nat, (8 - i) as nat);
            assert(rest == seq![(cur % 256) as u8] + le_bytes((cur / 256) as nat, (8 - i - 1) as nat));
            assert(r@.push((cur % 256) as u8) + le_bytes((cur / 256) as nat, (8 - i - 1) as nat) =~= r@ + rest);
        }
        r.push((cur % 256) as u8);
        cur = cur / 256;
        i += 1;
    }
    assert(le_bytes(cur as nat, 0) =~= Seq::<u8>::empty());
    assert(r@ + Seq::<u8>::empty() =~= r@);
    r
}

/// The `u64` whose bytes, least significant first, are `s[start..start + 8]`.
pub fn u64_from_le(s: &[u8], start: usize) -> (r: u64)
    requires
        start + 8 <= s@.len(),
    ensures
        r as nat == from_le(s@.subrange(start as int, start + 8)),
{
    let ghost w = s@.subrange(start as int, start + 8);
    let n = s.len();
    let mut acc: u64 = 0;
    let mut i: usize = 8;
    proof {
        assert(w.subrange(8, 8) =~= Seq::<u8>::empty());
    }
    while i > 0
        invariant
            i <= 8,
            start + 8 <= s@.len(),
            n == s@.len(),
            w == s@.subrange(start as int, start + 8),
            acc as nat == from_le(w.subrange(i as int, 8)),
        decreases i,
    {
        let ghost tail = w.subrange(i as int, 8);
        let ghost t2 = w.subrange(i - 1, 8);
        proof {
            assert(t2.drop_first() =~= tail);
            assert(t2[0] == s@[start + i - 1]);
            lemma_from_le_bound(tail);
            assert(pow256(tail.len()) <= pow256(7)) by {
                lemma_pow256_monotone(tail.len(), 7);
            }
            assert(pow256(7) == 72057594037927936) by {
                reveal_with_fuel(pow256, 8);
            }
            let a = acc as nat;
            let b = s@[start + i - 1] as nat;
            assert(a * 256 + b < 18446744073709551616) by (nonlinear_arith)
                requires
                    a < 72057594037927936,
                    b < 256,
            ;
        }
        acc = acc * 256 + s[start + (i - 1)] as u64;
        i -= 1;
    }
    assert(w.subrange(0, 8) =~= w);
    acc
}

pub proof fn lemma_pow256_monotone(a: nat, b: nat)
    requires
        a <= b,
    ensures
        pow256(a) <= pow256(b),
    decreases b,
{
    if a < b {
        lemma_pow256_monotone(a, (b - 1) as nat);
    }
}

/// A 32-byte hash, held as four 64-bit words: its bytes are those of the
/// words, each least significant first.
#[derive(PartialEq, Eq, Structural, Clone, Copy, Debug)]
pub struct CryptoHash {
    pub part1: u64,
    pub part2: u64,
    pub part3: u64,
    pub part4: u64,
}

/// Why a text is not a hash.
#[derive(PartialEq, Eq, Structural, Clone, Copy, Debug)]
pub enum CryptoError {
    /// The text is not hexadecimal.
    NonHexDigits,
    /// The text stands for a number of bytes other than 32.
    IncorrectHashSize(usize),
}

/// The hash that a text (given by its UTF-8 bytes) stands for: hexadecimal
/// digits for exactly 32 bytes.
pub open spec fn parse_hash_spec(s: Seq<u8>) -> Result<CryptoHash, CryptoError> {
    match hex_decode_spec(s) {
        None => Err(CryptoError::NonHexDigits),
        Some(b) => if b.len() != 32 {
            Err(CryptoError::IncorrectHashSize(b.len() as usize))
        } else {
            Ok(hash_from_bytes(b))
        },
    }
}

/// The hash whose 32 bytes are `b`.
pub open spec fn hash_from_bytes(b: Seq<u8>) -> CryptoHash {
    CryptoHash {
        part1: from_le(b.subrange(0, 8)) as u64,
        part2: from_le(b.subrange(8, 16)) as u64,
        part3: from_le(b.subrange(16, 24)) as u64,
        part4: from_le(b.subrange(24, 32)) as u64,
    }
}

/// The hash of a value that BCS writes as `bcs`, under the type name `name`:
/// SHA3-256 over the name, `::`, and the BCS bytes.
pub open spec fn bcs_hash_spec(name: Seq<u8>, bcs: Seq<u8>) -> CryptoHash {
    hash_from_bytes(sha3_256_spec(name + bcs))
}

impl CryptoHash {
    /// The 32 bytes of the hash (also what BCS writes for it).
    pub open spec fn bytes(self) -> Seq<u8> {
        le_bytes(self.part1 as nat, 8) + le_bytes(self.part2 as nat, 8) + le_bytes(self.part3 as nat, 8)
            + le_bytes(self.part4 as nat, 8)
    }

    /// The 32 bytes of the hash.
    pub fn as_bytes(&self) -> (r: Vec<u8>)
        ensures
            r@ == self.bytes(),
            r@.len() == 32,
    {
        proof {
            lemma_le_bytes_len(self.part1 as nat, 8);
            lemma_le_bytes_len(self.part2 as nat, 8);
            lemma_le_bytes_len(self.part3 as nat, 8);
            lemma_le_bytes_len(self.part4 as nat, 8);
        }
        let a = concat_bytes(u64_to_le(self.part1).as_slice(), u64_to_le(self.part2).as_slice());
        let b = concat_bytes(a.as_slice(), u64_to_le(self.part3).as_slice());
        concat_bytes(b.as_slice(), u64_to_le(self.part4).as_slice())
    }

    /// The hash whose bytes are `b`, which must be 32 long.
    pub fn from_bytes(b: &[u8]) -> (r: CryptoHash)
        requires
            b@.len() == 32,
        ensures
            r == hash_from_bytes(b@),
            r.bytes() == b@,
    {
        let r = CryptoHash {
            part1: u64_from_le(b, 0),
            part2: u64_from_le(b, 8),
            part3: u64_from_le(b, 16),
            part4: u64_from_le(b, 24),
        };
        proof {
            lemma_le_bytes_from_le(b@.subrange(0, 8));
            lemma_le_bytes_from_le(b@.subrange(8, 16));
            lemma_le_bytes_from_le(b@.subrange(16, 24));
            lemma_le_bytes_from_le(b@.subrange(24, 32));
            assert(b@ =~= b@.subrange(0, 8) + b@.subrange(8, 16) + b@.subrange(16, 24) + b@.subrange(24, 32));
        }
        r
    }

    /// The hash that the hexadecimal text `s` stands for.
    pub fn from_str(s: &str) -> (r: Result<CryptoHash, CryptoError>)
        ensures
            r == parse_hash_spec(s.spec_bytes()),
    {
        match hex_decode(s.as_bytes()) {
            None => Err(CryptoError::NonHexDigits),
            Some(bytes) => {
                if bytes.len() != 32 {
                    Err(CryptoError::IncorrectHashSize(bytes.len()))
                } else {
                    Ok(Self::from_bytes(bytes.as_slice()))
                }
            },
        }
    }

    /// The hash in lower-case hexadecimal.
    pub fn to_hex(&self) -> (r: String)
        ensures
            r@ == hex_encode_spec(self.bytes()),
    {
        let b = self.as_bytes();
        hex_encode(b.as_slice())
    }

    /// Hashes a value given by its type name and its BCS bytes: SHA3-256 over
    /// the name, `::` and the bytes.
    pub fn bcs_hash(name: &str, bcs: &[u8]) -> (r: CryptoHash)
        ensures
            r == bcs_hash_spec(name.spec_bytes(), bcs@),
    {
        let data = concat_bytes(name.as_bytes(), bcs);
        let digest = sha3_256_digest(data.as_slice());
        Self::from_bytes(digest.as_slice())
    }
}

pub proof fn lemma_le_bytes_len(x: nat, n: nat)
    ensures
        le_bytes(x, n).len() == n,
    decreases n,
{
    if n > 0 {
        lemma_le_bytes_len(x / 256, (n - 1) as nat);
    }
}

/// The identifier of a chain: a hash.
#[derive(PartialEq, Eq, Structural, Clone, Copy, Debug)]
pub struct ChainId(pub CryptoHash);

/// The height of a block in its chain.
#[derive(PartialEq, Eq, Structural, Clone, Copy, Debug)]
pub struct BlockHeight(pub u64);

/// The owner of a chain: the hash of its public key.
#[derive(PartialEq, Eq, Structural, Clone, Copy, Debug)]
pub struct Owner(pub CryptoHash);

impl DeepView for CryptoHash {
    type V = CryptoHash;

    open spec fn deep_view(&self) -> CryptoHash {
        *self
    }
}

impl DeepView for BlockHeight {
    type V = BlockHeight;

    open spec fn deep_view(&self) -> BlockHeight {
        *self
    }
}

impl DeepView for ChainId {
    type V = ChainId;

    open spec fn deep_view(&self) -> ChainId {
        *self
    }
}

impl ChainId {
    /// The chain whose identifier the hexadecimal text `s` stands for.
    pub fn from_str(s: &str) -> (r: Result<ChainId, CryptoError>)
        ensures
            r == match parse_hash_spec(s.spec_bytes()) {
                Ok(h) => Ok::<ChainId, CryptoError>(ChainId(h)),
                Err(e) => Err(e),
            },
    {
        match CryptoHash::from_str(s) {
            Ok(h) => Ok(ChainId(h)),
            Err(e) => Err(e),
        }
    }

    /// The identifier of the root chain number `index`: the hash of its
    /// description (`ChainDescription::Root(index)`, whose BCS bytes are the
    /// variant's index, zero, then the four bytes of `index`).
    pub fn root(index: u32) -> (r: ChainId)
        ensures
            r == ChainId(bcs_hash_spec("ChainDescription::".spec_bytes(), seq![0u8] + le_bytes(index as nat, 4))),
    {
        let mut bcs: Vec<u8> = Vec::new();
        bcs.push(0u8);
        let index_bytes = bcs_u32(index);
        let description = concat_bytes(bcs.as_slice(), index_bytes.as_slice());
        assert(description@ =~= seq![0u8] + le_bytes(index as nat, 4));
        ChainId(CryptoHash::bcs_hash("ChainDescription::", description.as_slice()))
    }

    /// The BCS bytes of the identifier: the 32 bytes of its hash.
    pub fn bcs_bytes(&self) -> (r: Vec<u8>)
        ensures
            r@ == self.0.bytes(),
            r@.len() == 32,
    {
        self.0.as_bytes()
    }
}

/// The bytes of a hash give the hash back.
pub proof fn lemma_hash_bytes(h: CryptoHash)
    ensures
        hash_from_bytes(h.bytes()) == h,
        h.bytes().len() == 32,
{
    reveal_with_fuel(pow256, 9);
    assert(pow256(8) == 0x1_0000_0000_0000_0000nat);
    lemma_from_le_le_bytes(h.part1 as nat, 8);
    lemma_from_le_le_bytes(h.part2 as nat, 8);
    lemma_from_le_le_bytes(h.part3 as nat, 8);
    lemma_from_le_le_bytes(h.part4 as nat, 8);
    let b = h.bytes();
    assert(b.subrange(0, 8) =~= le_bytes(h.part1 as nat, 8));
    assert(b.subrange(8, 16) =~= le_bytes(h.part2 as nat, 8));
    assert(b.subrange(16, 24) =~= le_bytes(h.part3 as nat, 8));
    assert(b.subrange(24, 32) =~= le_bytes(h.part4 as nat, 8));
}

/// A hexadecimal digit is an ASCII character that reads back as its value.
pub proof fn lemma_hex_char(n: u8)
    requires
        n < 16,
    ensures
        hex_char(n) <= '\u{7f}',
        hex_digit(hex_char(n) as u8) == Some(n),
{
}

/// Hexadecimal text is ASCII, and reads back as the bytes it was written
/// from.
pub proof fn lemma_hex_roundtrip(b: Seq<u8>)
    ensures
        is_ascii_chars(hex_encode_spec(b)),
        hex_decode_spec(encode_utf8(hex_encode_spec(b))) == Some(b),
{
    let e = hex_encode_spec(b);
    assert forall|i: int| 0 <= i < e.len() implies '\0' <= #[trigger] e[i] <= '\u{7f}' by {
        lemma_hex_char(b[i / 2] / 16);
        lemma_hex_char(b[i / 2] % 16);
    }
    assert(is_ascii_chars(e));
    is_ascii_chars_encode_utf8(e);
    let s = encode_utf8(e);
    assert(s.len() == 2 * b.len());
    assert forall|i: int| 0 <= i < s.len() implies hex_digit(#[trigger] s[i]) is Some by {
        assert(s[i] == e[i] as u8);
        lemma_hex_char(b[i / 2] / 16);
        lemma_hex_char(b[i / 2] % 16);
    }
    let d = Seq::new(s.len() / 2, |i: int| (hex_digit(s[2 * i])->0 * 16 + hex_digit(s[2 * i + 1])->0) as u8);
    assert forall|i: int| 0 <= i < b.len() implies #[trigger] d[i] == b[i] by {
        assert((2 * i) / 2 == i && (2 * i) % 2 == 0);
        assert((2 * i + 1) / 2 == i && (2 * i + 1) % 2 == 1);
        assert(s[2 * i] == e[2 * i] as u8);
        assert(s[2 * i + 1] == e[2 * i + 1] as u8);
        lemma_hex_char(b[i] / 16);
        lemma_hex_char(b[i] % 16);
    }
    assert(d =~= b);
}

/// A hash written in hexadecimal (as `to_hex` writes it) reads back (by
/// `from_str`) as the same hash.
pub proof fn law_hash_text_roundtrip(h: CryptoHash)
    ensures
        parse_hash_spec(encode_utf8(hex_encode_spec(h.bytes()))) == Ok::<CryptoHash, CryptoError>(h),
{
    lemma_hex_roundtrip(h.bytes());
    lemma_hash_bytes(h);
}

} // verus!
