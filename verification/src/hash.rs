//! Content hashes: Blake2b-512 digests of serialized events, with a
//! printable, algorithm-tagged textual form.

use vstd::prelude::*;

use crate::ord::OrderedKey;
use blake2::Digest as _;
use vstd::string::StrSliceExecFns;
use vstd::string::StringExecFns;

verus! {

/// A 512-bit digest split into four 128-bit limbs, most significant limb
/// first and each limb holding its 16 bytes big-endian. Comparing digests
/// limb by limb therefore agrees with comparing the raw digest bytes
/// lexicographically.
#[derive(Clone, Copy, Debug, PartialEq, Eq, Structural, PartialOrd, Ord, Hash)]
pub struct Digest {
    pub w0: u128,
    pub w1: u128,
    pub w2: u128,
    pub w3: u128,
}

impl OrderedKey for Digest {
    /// Lexicographic order on the four limbs.
    open spec fn lt_spec(self, other: Self) -> bool {
        ||| self.w0 < other.w0
        ||| (self.w0 == other.w0 && self.w1 < other.w1)
        ||| (self.w0 == other.w0 && self.w1 == other.w1 && self.w2 < other.w2)
        ||| (self.w0 == other.w0 && self.w1 == other.w1 && self.w2 == other.w2 && self.w3
            < other.w3)
    }

    proof fn lemma_strict_total(a: Self, b: Self, c: Self) {
    }

    fn lt(self, other: Self) -> (r: bool) {
        if self.w0 != other.w0 {
            self.w0 < other.w0
        } else if self.w1 != other.w1 {
            self.w1 < other.w1
        } else if self.w2 != other.w2 {
            self.w2 < other.w2
        } else {
            self.w3 < other.w3
        }
    }

    fn eq_key(self, other: Self) -> (r: bool) {
        self.w0 == other.w0 && self.w1 == other.w1 && self.w2 == other.w2 && self.w3 == other.w3
    }
}

pub open spec fn pow256(n: nat) -> int
    decreases n,
{
    if n == 0 {
        1
    } else {
        256 * pow256((n - 1) as nat)
    }
}

/// The value of a big-endian byte string.
pub open spec fn be_val(s: Seq<u8>) -> int
    decreases s.len(),
{
    if s.len() == 0 {
        0
    } else {
        be_val(s.drop_last()) * 256 + s.last()
    }
}

/// The `len`-byte big-endian representation of `x`.
pub open spec fn be_bytes(x: int, len: nat) -> Seq<u8>
    decreases len,
{
    if len == 0 {
        Seq::empty()
    } else {
        be_bytes(x / 256, (len - 1) as nat).push((x % 256) as u8)
    }
}

pub proof fn lemma_pow256_pos(n: nat)
    ensures
        pow256(n) >= 1,
    decreases n,
{
    if n > 0 {
        lemma_pow256_pos((n - 1) as nat);
    }
}

pub proof fn lemma_pow256_mono(a: nat, b: nat)
    requires
        a <= b,
    ensures
        pow256(a) <= pow256(b),
    decreases b,
{
    if a < b {
        lemma_pow256_mono(a, (b - 1) as nat);
        lemma_pow256_pos((b - 1) as nat);
    }
}

pub proof fn lemma_pow256_16()
    ensures
        pow256(16) == 0x1_0000_0000_0000_0000_0000_0000_0000_0000,
{
    reveal_with_fuel(pow256, 17);
}

pub proof fn lemma_be_bytes_len(x: int, len: nat)
    ensures
        be_bytes(x, len).len() == len,
    decreases len,
{
    if len > 0 {
        lemma_be_bytes_len(x / 256, (len - 1) as nat);
    }
}

pub proof fn lemma_be_val_bound(s: Seq<u8>)
    ensures
        0 <= be_val(s) < pow256(s.len()),
    decreases s.len(),
{
    if s.len() == 0 {
    } else {
        lemma_be_val_bound(s.drop_last());
    }
}

/// Converting a value to bytes and back is the identity.
pub proof fn lemma_be_val_of_be_bytes(x: int, len: nat)
    requires
        0 <= x < pow256(len),
    ensures
        be_bytes(x, len).len() == len,
        be_val(be_bytes(x, len)) == x,
    decreases len,
{
    if len == 0 {
    } else {
        vstd::arithmetic::div_mod::lemma_fundamental_div_mod(x, 256);
        assert(0 <= x / 256 < pow256((len - 1) as nat)) by {
            vstd::arithmetic::div_mod::lemma_div_pos_is_pos(x, 256);
            if x / 256 >= pow256((len - 1) as nat) {
                assert(x == 256 * (x / 256) + x % 256);
            }
        }
        lemma_be_val_of_be_bytes(x / 256, (len - 1) as nat);
        assert(be_bytes(x, len).drop_last() =~= be_bytes(x / 256, (len - 1) as nat));
    }
}

/// Converting bytes to their value and back is the identity.
pub proof fn lemma_be_bytes_of_be_val(s: Seq<u8>)
    ensures
        be_bytes(be_val(s), s.len()) == s,
    decreases s.len(),
{
    if s.len() == 0 {
        assert(be_bytes(be_val(s), s.len()) =~= s);
    } else {
        let v = be_val(s);
        lemma_be_val_bound(s.drop_last());
        assert(v == be_val(s.drop_last()) * 256 + s.last());
        assert(v % 256 == s.last() && v / 256 == be_val(s.drop_last())) by {
            vstd::arithmetic::div_mod::lemma_fundamental_div_mod_converse(
                v,
                256,
                be_val(s.drop_last()),
                s.last() as int,
            );
        }
        lemma_be_bytes_of_be_val(s.drop_last());
        assert(be_bytes(v, s.len()) =~= s);
    }
}

/// Peeling the most significant byte off a big-endian representation.
pub proof fn lemma_be_bytes_prepend(w: int, j: nat)
    requires
        w >= 0,
    ensures
        be_bytes(w, (j + 1) as nat) == seq![((w / pow256(j)) % 256) as u8] + be_bytes(w, j),
    decreases j,
{
    lemma_pow256_pos(j);
    if j == 0 {
        vstd::arithmetic::div_mod::lemma_div_basics(w);
        reveal_with_fuel(be_bytes, 3);
        assert(w / pow256(0) == w);
        assert(be_bytes(w, 1) =~= seq![((w / pow256(0)) % 256) as u8] + be_bytes(w, 0));
    } else {
        lemma_be_bytes_prepend(w / 256, (j - 1) as nat);
        vstd::arithmetic::div_mod::lemma_div_pos_is_pos(w, 256);
        lemma_pow256_pos((j - 1) as nat);
        assert((w / 256) / pow256((j - 1) as nat) == w / pow256(j)) by {
            vstd::arithmetic::div_mod::lemma_div_denominator(w, 256, pow256((j - 1) as nat));
        }
        assert(be_bytes(w, (j + 1) as nat) =~= seq![((w / pow256(j)) % 256) as u8] + be_bytes(
            w,
            j,
        ));
    }
}

/// The digest whose 64-byte big-endian representation is `s`.
pub open spec fn digest_of_bytes(s: Seq<u8>) -> Digest {
    Digest {
        w0: be_val(s.subrange(0, 16)) as u128,
        w1: be_val(s.subrange(16, 32)) as u128,
        w2: be_val(s.subrange(32, 48)) as u128,
        w3: be_val(s.subrange(48, 64)) as u128,
    }
}

/// The 64-byte big-endian representation of a digest.
pub open spec fn digest_bytes(d: Digest) -> Seq<u8> {
    be_bytes(d.w0 as int, 16) + be_bytes(d.w1 as int, 16) + be_bytes(d.w2 as int, 16)
        + be_bytes(d.w3 as int, 16)
}

pub proof fn lemma_digest_of_bytes_roundtrip(d: Digest)
    ensures
        digest_bytes(d).len() == 64,
        digest_of_bytes(digest_bytes(d)) == d,
{
    lemma_pow256_16();
    lemma_be_val_of_be_bytes(d.w0 as int, 16);
    lemma_be_val_of_be_bytes(d.w1 as int, 16);
    lemma_be_val_of_be_bytes(d.w2 as int, 16);
    lemma_be_val_of_be_bytes(d.w3 as int, 16);
    let s = digest_bytes(d);
    assert(s.subrange(0, 16) =~= be_bytes(d.w0 as int, 16));
    assert(s.subrange(16, 32) =~= be_bytes(d.w1 as int, 16));
    assert(s.subrange(32, 48) =~= be_bytes(d.w2 as int, 16));
    assert(s.subrange(48, 64) =~= be_bytes(d.w3 as int, 16));
}

pub proof fn lemma_bytes_of_digest_roundtrip(s: Seq<u8>)
    requires
        s.len() == 64,
    ensures
        digest_bytes(digest_of_bytes(s)) == s,
{
    lemma_pow256_16();
    lemma_be_val_bound(s.subrange(0, 16));
    lemma_be_val_bound(s.subrange(16, 32));
    lemma_be_val_bound(s.subrange(32, 48));
    lemma_be_val_bound(s.subrange(48, 64));
    lemma_be_bytes_of_be_val(s.subrange(0, 16));
    lemma_be_bytes_of_be_val(s.subrange(16, 32));
    lemma_be_bytes_of_be_val(s.subrange(32, 48));
    lemma_be_bytes_of_be_val(s.subrange(48, 64));
    assert(digest_bytes(digest_of_bytes(s)) =~= s);
}

/// Reads the `len` bytes starting at `off` as a big-endian value.
pub fn be_val_n(b: &[u8], off: usize, len: usize) -> (r: u128)
    requires
        off + len <= b@.len(),
        len <= 16,
    ensures
        r as int == be_val(b@.subrange(off as int, off as int + len)),
{
    let n: usize = b.len();
    let mut acc: u128 = 0;
    for j in 0..len
        invariant
            n == b@.len(),
            off + len <= b@.len(),
            len <= 16,
            acc as int == be_val(b@.subrange(off as int, off as int + j)),
            (acc as int) < pow256(j as nat),
    {
        proof {
            lemma_pow256_mono((j + 1) as nat, 16);
            lemma_pow256_16();
            assert(pow256((j + 1) as nat) == 256 * pow256(j as nat));
            assert(acc as int * 256 + 255 < pow256((j + 1) as nat));
            assert(b@.subrange(off as int, off as int + j + 1).drop_last() =~= b@.subrange(
                off as int,
                off as int + j,
            ));
            assert(b@.subrange(off as int, off as int + j + 1).last() == b@[off as int + j]);
        }
        acc = acc * 256 + (b[off + j] as u128);
    }
    acc
}

/// Appends the `len`-byte big-endian representation of `w`.
pub fn push_be(out: &mut Vec<u8>, w: u128, len: usize)
    ensures
        final(out)@ == old(out)@ + be_bytes(w as int, len as nat),
{
    let mut tmp: Vec<u8> = Vec::new();
    let mut t: u128 = w;
    for j in 0..len
        invariant
            tmp@ == be_bytes(w as int, j as nat),
            t as int == (w as int) / pow256(j as nat),
    {
        proof {
            lemma_pow256_pos(j as nat);
            lemma_be_bytes_prepend(w as int, j as nat);
            vstd::arithmetic::div_mod::lemma_div_denominator(w as int, pow256(j as nat), 256);
            assert(pow256(j as nat) * 256 == pow256((j + 1) as nat));
        }
        tmp.insert(0, (t % 256) as u8);
        t = t / 256;
    }
    proof {
        lemma_be_bytes_len(w as int, len as nat);
    }
    let mut j: usize = 0;
    let ghost base = out@;
    while j < len
        invariant
            j <= len,
            tmp@.len() == len,
            tmp@ == be_bytes(w as int, len as nat),
            out@ == base + tmp@.take(j as int),
        decreases len - j,
    {
        out.push(tmp[j]);
        proof {
            assert(base + tmp@.take(j + 1) =~= (base + tmp@.take(j as int)).push(
                tmp@[j as int],
            ));
        }
        j = j + 1;
    }
    proof {
        assert(tmp@.take(len as int) =~= tmp@);
    }
}

/// Reads the 64 bytes at `off` as a digest.
pub fn digest_at(b: &[u8], off: usize) -> (r: Digest)
    requires
        off + 64 <= b@.len(),
    ensures
        r == digest_of_bytes(b@.subrange(off as int, off as int + 64)),
{
    let n: usize = b.len();
    let w0 = be_val_n(b, off, 16);
    let w1 = be_val_n(b, off + 16, 16);
    let w2 = be_val_n(b, off + 32, 16);
    let w3 = be_val_n(b, off + 48, 16);
    proof {
        let s = b@.subrange(off as int, off as int + 64);
        assert(s.subrange(0, 16) =~= b@.subrange(off as int, off as int + 16));
        assert(s.subrange(16, 32) =~= b@.subrange(off as int + 16, off as int + 32));
        assert(s.subrange(32, 48) =~= b@.subrange(off as int + 32, off as int + 48));
        assert(s.subrange(48, 64) =~= b@.subrange(off as int + 48, off as int + 64));
    }
    Digest { w0, w1, w2, w3 }
}

/// Packs 64 bytes, big-endian, into the four limbs of a digest.
pub fn bytes_to_digest(b: &[u8]) -> (r: Digest)
    requires
        b@.len() == 64,
    ensures
        r == digest_of_bytes(b@),
{
    let w0 = be_val_n(b, 0, 16);
    let w1 = be_val_n(b, 16, 16);
    let w2 = be_val_n(b, 32, 16);
    let w3 = be_val_n(b, 48, 16);
    Digest { w0, w1, w2, w3 }
}

/// The digest that Blake2b-512 assigns to a byte string. It is a pure
/// function of the input; nothing further is assumed about its values.
pub uninterp spec fn blake2b512_of(dat: Seq<u8>) -> Seq<u8>;

/// Relies on blake2::Blake2b512 via the digest crate's one-shot interface:
/// a deterministic function of the input bytes, producing 64 bytes.
#[verifier::external_body]
fn blake2b512(dat: &[u8]) -> (r: Vec<u8>)
    ensures
        r@ == blake2b512_of(dat@),
        r@.len() == 64,
{
    blake2::Blake2b512::digest(dat).to_vec()
}

/// The bytes of the URL-safe, unpadded base64 encoding of a byte string.
pub uninterp spec fn b64url_of(b: Seq<u8>) -> Seq<u8>;

/// The URL-safe base64 alphabet: `A`-`Z`, `a`-`z`, `0`-`9`, `-` and `_`.
pub open spec fn is_b64url_byte(c: u8) -> bool {
    (65 <= c <= 90) || (97 <= c <= 122) || (48 <= c <= 57) || c == 45 || c == 95
}

/// Relies on base64::encode_config with the URL-safe character set and no
/// padding: a deterministic encoding over the URL-safe alphabet whose length
/// is ceil(4n/3) for n input bytes.
#[verifier::external_body]
fn b64url_encode(b: &[u8]) -> (r: String)
    ensures
        r@.len() == b64url_of(b@).len(),
        r@.len() == (b@.len() * 4 + 2) / 3,
        forall|j: int| 0 <= j < r@.len() ==> r@[j] == #[trigger] b64url_of(b@)[j] as char,
        forall|j: int| 0 <= j < r@.len() ==> is_b64url_byte(#[trigger] b64url_of(b@)[j]),
{
    base64::encode_config(b, base64::Config::new(base64::CharacterSet::UrlSafe, false))
}

/// A decoding failure, mirroring base64's decode errors. Indices refer to
/// bytes of the decoder's input.
#[derive(Clone, Copy, Debug, PartialEq, Eq, Structural)]
pub enum B64DecodeError {
    InvalidByte(usize, u8),
    InvalidLength,
    InvalidLastSymbol(usize, u8),
}

/// Relies on base64::decode_config with the URL-safe character set: it
/// inverts the encoding exactly (non-zero trailing bits are rejected, so a
/// padding-free input decodes only if it is a canonical encoding); an input
/// whose length is 1 mod 4 is rejected, blaming its last byte when that byte
/// is outside the alphabet and unequal to `=` (61); a reported invalid byte
/// is an input byte outside the alphabet.
#[verifier::external_body]
fn b64url_decode(s: &[u8]) -> (r: Result<Vec<u8>, B64DecodeError>)
    ensures
        (exists|b: Seq<u8>| s@ == #[trigger] b64url_of(b)) ==> r is Ok,
        r matches Ok(v) ==> forall|b: Seq<u8>| s@ == #[trigger] b64url_of(b) ==> v@ == b,
        r matches Ok(v) ==> (!s@.contains(61u8) ==> s@ == b64url_of(v@)),
        r matches Ok(v) ==> forall|j: int|
            0 <= j < s@.len() ==> is_b64url_byte(#[trigger] s@[j]) || s@[j] == 61,
        r matches Err(B64DecodeError::InvalidByte(i, c)) ==> i < s@.len(),
        r matches Err(B64DecodeError::InvalidByte(i, c)) ==> s@[i as int] == c,
        r matches Err(B64DecodeError::InvalidByte(i, c)) ==> !is_b64url_byte(c),
        s@.len() % 4 == 1 ==> r is Err,
        s@.len() % 4 == 1 ==> ((!is_b64url_byte(s@[s@.len() - 1]) && s@[s@.len() - 1] != 61)
            ==> r == Err::<Vec<u8>, B64DecodeError>(
            B64DecodeError::InvalidByte((s@.len() - 1) as usize, s@[s@.len() - 1]),
        )),
        s@.len() % 4 == 1 ==> ((is_b64url_byte(s@[s@.len() - 1]) || s@[s@.len() - 1] == 61)
            ==> r == Err::<Vec<u8>, B64DecodeError>(B64DecodeError::InvalidLength)),
{
    match base64::decode_config(s, base64::Config::new(base64::CharacterSet::UrlSafe, false)) {
        Ok(v) => Ok(v),
        Err(base64::DecodeError::InvalidByte(i, c)) => Err(B64DecodeError::InvalidByte(i, c)),
        Err(base64::DecodeError::InvalidLength) => Err(B64DecodeError::InvalidLength),
        Err(base64::DecodeError::InvalidLastSymbol(i, c)) => Err(
            B64DecodeError::InvalidLastSymbol(i, c),
        ),
    }
}

/// A content hash, tagged with the algorithm that produced it. Events are
/// forever bound to the hash algorithm used at their creation.
#[derive(Clone, Copy, Debug, PartialEq, Eq, Structural, PartialOrd, Ord, Hash)]
pub enum Hash {
    Blake2b512(Digest),
}

/// An error from parsing the textual form of a hash.
#[derive(Clone, Debug, PartialEq, Eq)]
pub enum HashDecodeError {
    Base64(B64DecodeError),
    TooShort { got: usize, expected: usize },
    InvalidPrefix(String),
}

/// The textual form of a hash: the algorithm prefix followed by the
/// URL-safe, unpadded base64 encoding of the digest bytes.
pub open spec fn hash_chars(h: Hash) -> Seq<char> {
    "blake2b512:"@ + b64url_of(digest_bytes(h.spec_digest())).map_values(|x: u8| x as char)
}

pub open spec fn has_hash_prefix(s: Seq<char>) -> bool {
    s.len() >= 11 && s.subrange(0, 11) == "blake2b512:"@
}

/// The characters before the first colon (the whole string if none).
pub open spec fn before_colon(s: Seq<char>) -> Seq<char>
    decreases s.len(),
{
    if s.len() == 0 {
        s
    } else if s[0] == ':' {
        Seq::empty()
    } else {
        seq![s[0]] + before_colon(s.drop_first())
    }
}

/// A 64-byte string whose base64 encoding, read as characters, is the body
/// of `s` after the algorithm prefix. The alphabet condition is restated so
/// that callers holding it can identify the decoded bytes.
pub open spec fn hash_body_encodes(s: Seq<char>, b: Seq<u8>) -> bool {
    &&& b.len() == 64
    &&& s.subrange(11, s.len() as int) == b64url_of(b).map_values(|x: u8| x as char)
    &&& forall|j: int| 0 <= j < b64url_of(b).len() ==> is_b64url_byte(#[trigger] b64url_of(b)[j])
}

impl Hash {
    pub open spec fn spec_digest(self) -> Digest {
        match self {
            Hash::Blake2b512(d) => d,
        }
    }

    pub fn digest(&self) -> (d: Digest)
        ensures
            d == self.spec_digest(),
    {
        match self {
            Hash::Blake2b512(d) => *d,
        }
    }

    pub fn from_digest(d: Digest) -> (h: Hash)
        ensures
            h == Hash::Blake2b512(d),
    {
        Hash::Blake2b512(d)
    }

    /// The printable, algorithm-tagged textual form. The output carries
    /// the prefix and encodes the digest bytes, so `parse` accepts it and
    /// returns this hash back.
    pub fn format(&self) -> (r: String)
        ensures
            r@ == hash_chars(*self),
            has_hash_prefix(r@),
            hash_body_encodes(r@, digest_bytes(self.spec_digest())),
    {
        let d = self.digest();
        let bytes = digest_to_bytes(&d);
        let tail = b64url_encode(bytes.as_slice());
        let mut out = String::from_str("blake2b512:");
        out.append(tail.as_str());
        proof {
            reveal_strlit("blake2b512:");
            let enc = b64url_of(digest_bytes(d));
            assert(tail@ =~= enc.map_values(|x: u8| x as char));
            assert(out@ =~= hash_chars(*self));
            assert(out@.subrange(0, 11) =~= "blake2b512:"@);
            assert(out@.subrange(11, out@.len() as int) =~= tail@);
            lemma_digest_of_bytes_roundtrip(d);
        }
        out
    }

    /// Parses the textual form: the prefix selects the algorithm, the rest
    /// must decode to exactly 64 bytes.
    pub fn parse(s: &str) -> (r: Result<Hash, HashDecodeError>)
        ensures
            !has_hash_prefix(s@) ==> (r matches Err(e) && e matches
                HashDecodeError::InvalidPrefix(p) && p@ == before_colon(s@)),
            forall|b: Seq<u8>|
                hash_body_encodes(s@, b) && has_hash_prefix(s@) ==> r == Ok::<
                    Hash,
                    HashDecodeError,
                >(Hash::Blake2b512(digest_of_bytes(b))),
            r is Ok ==> has_hash_prefix(s@),
            match r {
                Err(HashDecodeError::TooShort { got, expected }) => expected == 64
                    && has_hash_prefix(s@) && (vstd::utf8::is_ascii_chars(s@) ==> got
                    == s@.len() - 11),
                _ => true,
            },
            match r {
                Err(HashDecodeError::Base64(e64)) => has_hash_prefix(s@),
                _ => true,
            },
            match r {
                Err(HashDecodeError::Base64(B64DecodeError::InvalidByte(i, c))) => (
                has_hash_prefix(s@) && vstd::utf8::is_ascii_chars(s@)) ==> (11 <= i < s@.len()
                    && s@[i as int] == c as char && !is_b64url_byte(c)),
                _ => true,
            },
            (vstd::utf8::is_ascii_chars(s@) && (forall|i: int|
                11 <= i < s@.len() ==> s@[i] != '=')) ==> (r is Ok <==> (has_hash_prefix(s@)
                && exists|b: Seq<u8>| #[trigger] hash_body_encodes(s@, b))),
            (has_hash_prefix(s@) && vstd::utf8::is_ascii_chars(s@) && (s@.len() - 11) % 4
                == 1) ==> ({
                let lastc = s@[s@.len() - 1];
                if !is_b64url_byte(lastc as u8) && lastc != '=' {
                    r == Err::<Hash, HashDecodeError>(
                        HashDecodeError::Base64(
                            B64DecodeError::InvalidByte((s@.len() - 1) as usize, lastc as u8),
                        ),
                    )
                } else {
                    r == Err::<Hash, HashDecodeError>(
                        HashDecodeError::Base64(B64DecodeError::InvalidLength),
                    )
                }
            }),
    {
        let n = s.unicode_len();
        proof {
            reveal_strlit("blake2b512:");
        }
        let mut prefix_ok = n >= 11;
        if prefix_ok {
            let p: &str = "blake2b512:";
            let mut i: usize = 0;
            loop
                invariant_except_break
                    prefix_ok,
                invariant
                    i <= 11,
                    n == s@.len(),
                    n >= 11,
                    p@ == "blake2b512:"@,
                    p@.len() == 11,
                    prefix_ok ==> forall|m: int| 0 <= m < i ==> s@[m] == p@[m],
                ensures
                    n == s@.len(),
                    prefix_ok ==> forall|m: int| 0 <= m < 11 ==> s@[m] == p@[m],
                    !prefix_ok ==> exists|m: int| 0 <= m < 11 && s@[m] != p@[m],
                decreases 11 - i,
            {
                if i >= 11 {
                    break ;
                }
                if s.get_char(i) != p.get_char(i) {
                    prefix_ok = false;
                    break ;
                }
                i = i + 1;
            }
        }
        if !prefix_ok {
            // Report everything before the first colon as the bad prefix.
            let mut t: usize = 0;
            loop
                invariant
                    t <= n,
                    n == s@.len(),
                    forall|m: int| 0 <= m < t ==> s@[m] != ':',
                ensures
                    t <= n,
                    n == s@.len(),
                    forall|m: int| 0 <= m < t ==> s@[m] != ':',
                    t < n ==> s@[t as int] == ':',
                decreases n - t,
            {
                if t >= n {
                    break ;
                }
                if s.get_char(t) == ':' {
                    break ;
                }
                t = t + 1;
            }
            let pre = s.substring_char(0, t).to_owned();
            proof {
                lemma_before_colon(s@, t as int);
                assert(!has_hash_prefix(s@)) by {
                    if n >= 11 {
                        let m = choose|m: int| 0 <= m < 11 && s@[m] != "blake2b512:"@[m];
                        assert(s@.subrange(0, 11)[m] == s@[m]);
                    }
                }
            }
            return Err(HashDecodeError::InvalidPrefix(pre));
        }
        let body = s.substring_char(11, n);
        let bytes: &[u8] = body.as_bytes();
        let blen = bytes.len();
        proof {
            assert(has_hash_prefix(s@)) by {
                assert(s@.subrange(0, 11) =~= "blake2b512:"@);
            }
            vstd::string::is_ascii_spec_bytes(body);
            vstd::string::is_ascii_spec_bytes(s);
        }
        match b64url_decode(bytes) {
            Ok(v) => {
                if v.len() != 64 {
                    proof {
                        assert forall|b: Seq<u8>| hash_body_encodes(s@, b) implies false by {
                            lemma_body_bytes_match(s@, body@, bytes@, b);
                        }
                    }
                    return Err(
                        HashDecodeError::TooShort { got: blen, expected: 64 },
                    );
                }
                let d = bytes_to_digest(v.as_slice());
                proof {
                    assert forall|b: Seq<u8>| hash_body_encodes(s@, b) implies d
                        == digest_of_bytes(b) by {
                        lemma_body_bytes_match(s@, body@, bytes@, b);
                    }
                    // For an all-ASCII input without padding characters, the
                    // accepted body is itself the canonical encoding of the
                    // decoded bytes.
                    if vstd::utf8::is_ascii_chars(s@) && (forall|i: int|
                        11 <= i < s@.len() ==> s@[i] != '=') {
                        assert(vstd::utf8::is_ascii_chars(body@)) by {
                            assert(forall|m: int|
                                0 <= m < body@.len() ==> body@[m] == s@[m + 11]);
                        }
                        assert(forall|j: int|
                            0 <= j < bytes@.len() ==> bytes@[j] == (#[trigger] body@[
                                j]) as u8);
                        assert(!bytes@.contains(61u8)) by {
                            if bytes@.contains(61u8) {
                                let j = choose|j: int|
                                    0 <= j < bytes@.len() && bytes@[j] == 61u8;
                                assert(body@[j] == s@[j + 11]);
                                assert(s@[j + 11] != '=');
                                assert((body@[j] as nat) < 128);
                            }
                        }
                        assert(bytes@ == b64url_of(v@));
                        assert(hash_body_encodes(s@, v@)) by {
                            assert(s@.subrange(11, s@.len() as int) =~= b64url_of(
                                v@,
                            ).map_values(|x: u8| x as char)) by {
                                assert forall|m: int|
                                    0 <= m < body@.len() implies body@[m] == (
                                #[trigger] b64url_of(v@)[m]) as char by {
                                    assert(bytes@[m] == body@[m] as u8);
                                    assert(is_b64url_byte(bytes@[m]) || bytes@[m] == 61);
                                    assert((body@[m] as nat) < 128);
                                }
                            }
                            assert forall|j: int|
                                0 <= j < b64url_of(v@).len() implies is_b64url_byte(
                                #[trigger] b64url_of(v@)[j]) by {
                                assert(b64url_of(v@)[j] == bytes@[j]);
                                assert(bytes@[j] != 61);
                            }
                        }
                    }
                }
                Ok(Hash::Blake2b512(d))
            },
            Err(e) => {
                proof {
                    assert forall|b: Seq<u8>| hash_body_encodes(s@, b) implies false by {
                        lemma_body_bytes_match(s@, body@, bytes@, b);
                    }
                }
                let shifted = match e {
                    B64DecodeError::InvalidByte(i, c) => {
                        let j = if i <= usize::MAX - 11 {
                            i + 11
                        } else {
                            i
                        };
                        B64DecodeError::InvalidByte(j, c)
                    },
                    B64DecodeError::InvalidLength => B64DecodeError::InvalidLength,
                    B64DecodeError::InvalidLastSymbol(i, c) => {
                        let j = if i <= usize::MAX - 11 {
                            i + 11
                        } else {
                            i
                        };
                        B64DecodeError::InvalidLastSymbol(j, c)
                    },
                };
                proof {
                    if vstd::utf8::is_ascii_chars(s@) {
                        assert(vstd::utf8::is_ascii_chars(body@)) by {
                            assert(forall|m: int|
                                0 <= m < body@.len() ==> body@[m] == s@[m + 11]);
                        }
                        assert(bytes@.len() == body@.len());
                        // For a body of length 1 mod 4, the decoder's error
                        // is pinned to the last byte, which is the input's
                        // last character.
                        if (s@.len() - 11) % 4 == 1 {
                            let lastc = s@[s@.len() - 1];
                            assert(bytes@.len() == s@.len() - 11);
                            assert(bytes@[bytes@.len() - 1] == body@[body@.len() - 1] as u8);
                            assert(body@[body@.len() - 1] == lastc);
                            assert((lastc as nat) < 128);
                            assert(is_b64url_byte(lastc as u8) == is_b64url_byte(
                                bytes@[bytes@.len() - 1],
                            ));
                            assert((lastc != '=') == (bytes@[bytes@.len() - 1] != 61));
                        }
                    }
                }
                Err(HashDecodeError::Base64(shifted))
            },
        }
    }
}

/// If the body of `s` is the base64 encoding of `b` over the alphabet, then
/// the decoder's input bytes are exactly `b64url_of(b)`.
proof fn lemma_body_bytes_match(s: Seq<char>, body: Seq<char>, bytes: Seq<u8>, b: Seq<u8>)
    requires
        hash_body_encodes(s, b),
        s.len() >= 11,
        body == s.subrange(11, s.len() as int),
        vstd::utf8::is_ascii_chars(body) ==> bytes =~= Seq::new(
            body.len(),
            |i: int| body[i] as u8,
        ),
        bytes == vstd::utf8::encode_utf8(body),
    ensures
        bytes == b64url_of(b),
{
    let enc = b64url_of(b);
    assert(body == enc.map_values(|x: u8| x as char));
    assert(vstd::utf8::is_ascii_chars(body)) by {
        assert forall|m: int| 0 <= m < body.len() implies (body[m] as nat) < 128 by {
            assert(body[m] == enc[m] as char);
            assert(is_b64url_byte(enc[m]));
        }
    }
    assert(bytes =~= enc) by {
        assert forall|m: int| 0 <= m < bytes.len() implies bytes[m] == enc[m] by {
            assert(body[m] == enc[m] as char);
            assert(is_b64url_byte(enc[m]));
        }
    }
}

proof fn lemma_before_colon(s: Seq<char>, t: int)
    requires
        0 <= t <= s.len(),
        forall|m: int| 0 <= m < t ==> s[m] != ':',
        t < s.len() ==> s[t] == ':',
    ensures
        before_colon(s) == s.subrange(0, t),
    decreases s.len(),
{
    if s.len() == 0 {
        assert(before_colon(s) =~= s.subrange(0, t));
    } else if s[0] == ':' {
        assert(t == 0);
        assert(before_colon(s) =~= s.subrange(0, 0));
    } else {
        assert(t >= 1);
        lemma_before_colon(s.drop_first(), t - 1);
        assert(seq![s[0]] + s.drop_first().subrange(0, t - 1) =~= s.subrange(0, t));
    }
}

/// The high-level content hash of a byte string: Blake2b-512, packed into
/// limbs.
pub fn calculate_hash(dat: &[u8]) -> (h: Hash)
    ensures
        h == Hash::Blake2b512(digest_of_bytes(blake2b512_of(dat@))),
{
    let bytes = blake2b512(dat);
    Hash::Blake2b512(bytes_to_digest(bytes.as_slice()))
}

impl core::str::FromStr for Hash {
    type Err = HashDecodeError;

    fn from_str(s: &str) -> Result<Hash, HashDecodeError> {
        Hash::parse(s)
    }
}

/// The 64-byte big-endian representation of a digest.
pub fn digest_to_bytes(d: &Digest) -> (r: Vec<u8>)
    ensures
        r@ == digest_bytes(*d),
        r@.len() == 64,
{
    let mut out: Vec<u8> = Vec::new();
    push_be(&mut out, d.w0, 16);
    push_be(&mut out, d.w1, 16);
    push_be(&mut out, d.w2, 16);
    push_be(&mut out, d.w3, 16);
    proof {
        lemma_be_bytes_len(d.w0 as int, 16);
        lemma_be_bytes_len(d.w1 as int, 16);
        lemma_be_bytes_len(d.w2 as int, 16);
        lemma_be_bytes_len(d.w3 as int, 16);
        assert(out@ =~= digest_bytes(*d));
    }
    out
}

} // verus!
