//! Signature matching against a raw digest.
//!
//! A signature is a hexadecimal string of at most forty characters, matched
//! against the digest's leading (prefix) or trailing (suffix) nibbles.  Hex
//! strings carry two characters per digest byte, so a signature of odd length
//! ends (or, as a suffix, starts) in the middle of a byte: the matcher
//! compiles the even part to bytes once and keeps the leftover nibble
//! separately.

use vstd::prelude::*;
use crate::error::GashError;
use sha1::Digest;

verus! {

/// `c` is a lower-case hexadecimal character.
pub open spec fn is_hex_char(c: char) -> bool {
    (48 <= c as int && c as int <= 57) || (97 <= c as int && c as int <= 102)
}

/// The numeric value of a hexadecimal character.
pub open spec fn hex_char_val(c: char) -> nat {
    if c as int <= 57 {
        (c as int - 48) as nat
    } else {
        (c as int - 87) as nat
    }
}

/// The lower-case hexadecimal character for a nibble value.
pub open spec fn hex_digit(n: int) -> char {
    if n == 0 { '0' } else if n == 1 { '1' } else if n == 2 { '2' } else if n == 3 { '3' }
    else if n == 4 { '4' } else if n == 5 { '5' } else if n == 6 { '6' } else if n == 7 { '7' }
    else if n == 8 { '8' } else if n == 9 { '9' } else if n == 10 { 'a' } else if n == 11 { 'b' }
    else if n == 12 { 'c' } else if n == 13 { 'd' } else if n == 14 { 'e' } else { 'f' }
}

/// The hexadecimal rendering of a byte sequence: two characters per byte,
/// upper nibble first.
pub open spec fn hex_of(h: Seq<u8>) -> Seq<char> {
    Seq::new(2 * h.len(), |i: int| if i % 2 == 0 {
        hex_digit(h[i / 2] as int / 16)
    } else {
        hex_digit(h[i / 2] as int % 16)
    })
}

/// A well-formed signature: at most forty hex characters.
pub open spec fn valid_signature(s: Seq<char>) -> bool {
    s.len() <= 40 && forall|i: int| 0 <= i < s.len() ==> is_hex_char(#[trigger] s[i])
}

/// The bytes of an even-length run of hex characters.
pub open spec fn hex_decode_even(s: Seq<char>) -> Seq<u8> {
    Seq::new(s.len() / 2, |i: int| (16 * hex_char_val(s[2 * i]) + hex_char_val(s[2 * i + 1])) as u8)
}

/// What it means for a digest to carry the signature: re-encoded to hex, the
/// digest starts (prefix) or ends (suffix) with the signature, character for
/// character.
pub open spec fn sig_matches(sig: Seq<char>, as_suffix: bool, h: Seq<u8>) -> bool {
    &&& sig.len() <= 2 * h.len()
    &&& if as_suffix {
        hex_of(h).subrange(2 * h.len() - sig.len(), 2 * h.len() as int) == sig
    } else {
        hex_of(h).subrange(0, sig.len() as int) == sig
    }
}

/// The digest of the canonical object encoding.
pub uninterp spec fn sha1_of(data: Seq<u8>) -> Seq<u8>;

/// Relies on the sha1 crate's `Sha1` through the `Digest` one-shot call:
/// the digest is a function of the input bytes alone and is twenty bytes
/// (160 bits) long.
#[verifier::external_body]
pub(crate) fn sha1_digest(data: &Vec<u8>) -> (r: Vec<u8>)
    ensures
        r@ == sha1_of(data@),
        r@.len() == 20,
{
    sha1::Sha1::digest(data.as_slice()).to_vec()
}

/// A nibble value round-trips through its hex character.
pub proof fn lemma_hex_digit_val(n: int)
    requires
        0 <= n < 16,
    ensures
        is_hex_char(hex_digit(n)),
        hex_char_val(hex_digit(n)) == n,
{
}

/// A hex character round-trips through its nibble value.
pub proof fn lemma_hex_char_roundtrip(c: char)
    requires
        is_hex_char(c),
    ensures
        hex_char_val(c) < 16,
        hex_digit(hex_char_val(c) as int) == c,
{
}

/// A byte splits into its two nibbles.
proof fn lemma_byte_nibbles(b: u8)
    ensures
        b == 16 * (b / 16) + b % 16,
        b / 16 < 16,
        b % 16 < 16,
{
}

/// Comparing a run of digest bytes with the decoded even chunk of a
/// signature is the same as comparing the corresponding hex characters:
/// bytes `[k0, k0 + c.len()/2)` of the digest against hex positions
/// `[2*k0, 2*k0 + c.len())`.
proof fn lemma_chunk_eq(c: Seq<char>, h: Seq<u8>, k0: int)
    requires
        c.len() % 2 == 0,
        forall|i: int| 0 <= i < c.len() ==> is_hex_char(#[trigger] c[i]),
        0 <= k0,
        k0 + c.len() / 2 <= h.len(),
    ensures
        (h.subrange(k0, k0 + c.len() / 2) =~= hex_decode_even(c)) <==> (hex_of(h).subrange(
            2 * k0,
            2 * k0 + c.len(),
        ) =~= c),
{
    let bl = c.len() / 2;
    let hb = h.subrange(k0, k0 + bl);
    let hc = hex_of(h).subrange(2 * k0, 2 * k0 + c.len());
    let db = hex_decode_even(c);
    if hb =~= db {
        assert forall|j: int| 0 <= j < c.len() implies hc[j] == c[j] by {
            let i = j / 2;
            assert(0 <= i < bl);
            let b = h[k0 + i];
            assert(hb[i] == b);
            assert(db[i] == (16 * hex_char_val(c[2 * i]) + hex_char_val(c[2 * i + 1])) as u8);
            lemma_hex_char_roundtrip(c[2 * i]);
            lemma_hex_char_roundtrip(c[2 * i + 1]);
            let v0 = hex_char_val(c[2 * i]);
            let v1 = hex_char_val(c[2 * i + 1]);
            assert(b == 16 * v0 + v1);
            assert(b / 16 == v0 && b % 16 == v1) by (nonlinear_arith)
                requires b == 16 * v0 + v1, 0 <= v1 < 16, 0 <= v0 < 16;
            assert(hc[j] == hex_of(h)[2 * k0 + j]);
            assert(hex_of(h)[2 * k0 + j] == if (2 * k0 + j) % 2 == 0 {
                hex_digit(h[(2 * k0 + j) / 2] as int / 16)
            } else {
                hex_digit(h[(2 * k0 + j) / 2] as int % 16)
            });
            if j % 2 == 0 {
                assert((2 * k0 + j) % 2 == 0 && (2 * k0 + j) / 2 == k0 + i);
                assert(j == 2 * i);
                assert(hc[j] == hex_digit(v0 as int));
            } else {
                assert((2 * k0 + j) % 2 == 1 && (2 * k0 + j) / 2 == k0 + i);
                assert(j == 2 * i + 1);
                assert(hc[j] == hex_digit(v1 as int));
            }
        }
        assert(hc =~= c);
    }
    if hc =~= c {
        assert forall|i: int| 0 <= i < bl implies hb[i] == db[i] by {
            let b = h[k0 + i];
            assert(hc[2 * i] == c[2 * i]);
            assert(hc[2 * i + 1] == c[2 * i + 1]);
            assert((2 * k0 + 2 * i) % 2 == 0 && (2 * k0 + 2 * i) / 2 == k0 + i);
            assert((2 * k0 + 2 * i + 1) % 2 == 1 && (2 * k0 + 2 * i + 1) / 2 == k0 + i);
            assert(hex_digit(b as int / 16) == c[2 * i]);
            assert(hex_digit(b as int % 16) == c[2 * i + 1]);
            lemma_byte_nibbles(b);
            lemma_hex_digit_val(b as int / 16);
            lemma_hex_digit_val(b as int % 16);
            lemma_hex_char_roundtrip(c[2 * i]);
            lemma_hex_char_roundtrip(c[2 * i + 1]);
            assert(hex_char_val(c[2 * i]) == b / 16);
            assert(hex_char_val(c[2 * i + 1]) == b % 16);
        }
        assert(hb =~= db);
    }
}

/// The compiled form of a signature: the even chunk as bytes, plus the
/// leftover nibble of an odd-length signature.
pub struct HashMatcher {
    signature: String,
    as_suffix: bool,
    even_bytes: Vec<u8>,
    odd_nibble: Option<u8>,
}

/// What a matcher stands for: the signature text and its orientation.
pub struct MatcherView {
    pub sig: Seq<char>,
    pub as_suffix: bool,
}

impl View for HashMatcher {
    type V = MatcherView;

    closed spec fn view(&self) -> MatcherView {
        MatcherView { sig: self.signature@, as_suffix: self.as_suffix }
    }
}

impl HashMatcher {
    /// The compiled fields agree with the signature text.
    pub closed spec fn wf(&self) -> bool {
        &&& valid_signature(self.signature@)
        &&& if self.signature@.len() % 2 == 0 {
            &&& self.odd_nibble is None
            &&& self.even_bytes@ == hex_decode_even(self.signature@)
        } else if self.as_suffix {
            &&& self.odd_nibble is Some
            &&& self.odd_nibble->0 as nat == hex_char_val(self.signature@[0])
            &&& self.even_bytes@ == hex_decode_even(self.signature@.skip(1))
        } else {
            &&& self.odd_nibble is Some
            &&& self.odd_nibble->0 as nat == hex_char_val(
                self.signature@[self.signature@.len() - 1],
            )
            &&& self.even_bytes@ == hex_decode_even(
                self.signature@.take(self.signature@.len() - 1),
            )
        }
    }

    /// Decide whether a digest carries the signature.
    ///
    /// An odd-length signature reaches one nibble into the byte after (or,
    /// as a suffix, before) its even chunk, so the digest must extend past
    /// the chunk there.
    pub fn matches(&self, hash: &[u8]) -> (r: bool)
        requires
            self.wf(),
            self@.sig.len() % 2 == 1 ==> (self@.sig.len() - 1) / 2 < hash@.len(),
        ensures
            r == sig_matches(self@.sig, self@.as_suffix, hash@),
    {
        let hl = hash.len();
        let ebl = self.even_bytes.len();
        let sig_len = ebl * 2 + if self.odd_nibble.is_some() { 1 } else { 0 };
        proof {
            assert(self@.sig.len() == sig_len);
        }
        if self.as_suffix {
            if ebl > hl {
                proof {
                    assert(!sig_matches(self@.sig, self@.as_suffix, hash@));
                }
                return false;
            }
            let chunk_ok = bytes_eq_at(hash, hl - ebl, &self.even_bytes);
            proof {
                if self.signature@.len() % 2 == 0 {
                    lemma_chunk_eq(self.signature@, hash@, hl - ebl as int);
                } else {
                    lemma_chunk_eq(self.signature@.skip(1), hash@, hl - ebl as int);
                }
            }
            match self.odd_nibble {
                None => {
                    assert(chunk_ok == sig_matches(self@.sig, true, hash@));
                    chunk_ok
                },
                Some(nib) => {
                    if !chunk_ok {
                        proof {
                            let n = self@.sig.len() as int;
                            if sig_matches(self@.sig, true, hash@) {
                                assert(hex_of(hash@).subrange(2 * hl - n, 2 * hl as int)
                                    =~= self@.sig);
                                assert forall|j: int| 0 <= j < n - 1 implies #[trigger] hex_of(
                                    hash@,
                                ).subrange(2 * hl - (n - 1), 2 * hl as int)[j] == self@.sig.skip(
                                    1,
                                )[j] by {
                                    assert(hex_of(hash@).subrange(2 * hl - n, 2 * hl as int)[j + 1]
                                        == self@.sig[j + 1]);
                                }
                                assert(hex_of(hash@).subrange(2 * hl - (n - 1), 2 * hl as int)
                                    =~= self@.sig.skip(1));
                            }
                        }
                        return false;
                    }
                    let pos = hl - ebl - 1;
                    let w = hash[pos];
                    let r = w % 16 == nib;
                    proof {
                        lemma_odd_suffix_shape(self@.sig, hash@, w, nib, r);
                    }
                    r
                },
            }
        } else {
            if ebl > hl {
                proof {
                    assert(!sig_matches(self@.sig, self@.as_suffix, hash@));
                }
                return false;
            }
            let chunk_ok = bytes_eq_at(hash, 0, &self.even_bytes);
            proof {
                if self.signature@.len() % 2 == 0 {
                    lemma_chunk_eq(self.signature@, hash@, 0);
                } else {
                    lemma_chunk_eq(self.signature@.take(self.signature@.len() - 1), hash@, 0);
                }
            }
            match self.odd_nibble {
                None => {
                    assert(chunk_ok == sig_matches(self@.sig, false, hash@));
                    chunk_ok
                },
                Some(nib) => {
                    if !chunk_ok {
                        proof {
                            let n = self@.sig.len() as int;
                            if sig_matches(self@.sig, false, hash@) {
                                assert(hex_of(hash@).subrange(0, n) =~= self@.sig);
                                assert forall|j: int| 0 <= j < n - 1 implies #[trigger] hex_of(
                                    hash@,
                                ).subrange(0, n - 1)[j] == self@.sig.take(n - 1)[j] by {
                                    assert(hex_of(hash@).subrange(0, n)[j] == self@.sig[j]);
                                }
                                assert(hex_of(hash@).subrange(0, n - 1) =~= self@.sig.take(n - 1));
                            }
                        }
                        return false;
                    }
                    let w = hash[ebl];
                    let r = w / 16 == nib;
                    proof {
                        lemma_odd_prefix_shape(self@.sig, hash@, w, nib, r);
                    }
                    r
                },
            }
        }
    }
}

/// For an odd prefix signature whose even chunk already matches, the whole
/// signature matches exactly when the next byte's upper nibble is the
/// leftover character's value.
proof fn lemma_odd_prefix_shape(sig: Seq<char>, h: Seq<u8>, w: u8, nib: u8, r: bool)
    requires
        sig.len() % 2 == 1,
        forall|i: int| 0 <= i < sig.len() ==> is_hex_char(#[trigger] sig[i]),
        (sig.len() - 1) / 2 < h.len(),
        nib as nat == hex_char_val(sig[sig.len() - 1]),
        w == h[(sig.len() - 1) / 2],
        hex_of(h).subrange(0, sig.len() - 1) =~= sig.take(sig.len() - 1),
        r == (w / 16 == nib),
    ensures
        r == sig_matches(sig, false, h),
{
    let n = sig.len() as int;
    let k = (n - 1) / 2;
    assert(n - 1 == 2 * k);
    assert(n <= 2 * h.len());
    lemma_hex_char_roundtrip(sig[n - 1]);
    assert(hex_of(h)[n - 1] == hex_digit(h[k] as int / 16)) by {
        assert((n - 1) % 2 == 0 && (n - 1) / 2 == k);
    }
    if r {
        assert(hex_of(h)[n - 1] == hex_digit(nib as int));
        assert(hex_digit(hex_char_val(sig[n - 1]) as int) == sig[n - 1]);
        assert(hex_of(h)[n - 1] == sig[n - 1]);
        assert forall|j: int| 0 <= j < n implies hex_of(h).subrange(0, n)[j] == sig[j] by {
            if j < n - 1 {
                assert(hex_of(h).subrange(0, n - 1)[j] == sig.take(n - 1)[j]);
            }
        }
        assert(hex_of(h).subrange(0, n) =~= sig);
    } else {
        if sig_matches(sig, false, h) {
            assert(hex_of(h).subrange(0, n)[n - 1] == sig[n - 1]);
            lemma_byte_nibbles(w);
            lemma_hex_digit_val(w as int / 16);
            assert(hex_char_val(hex_digit(w as int / 16)) == w / 16);
            assert(false);
        }
    }
}

/// For an odd suffix signature whose even chunk already matches, the whole
/// signature matches exactly when the byte before the chunk has the leftover
/// character's value as its lower nibble.
proof fn lemma_odd_suffix_shape(sig: Seq<char>, h: Seq<u8>, w: u8, nib: u8, r: bool)
    requires
        sig.len() % 2 == 1,
        forall|i: int| 0 <= i < sig.len() ==> is_hex_char(#[trigger] sig[i]),
        (sig.len() - 1) / 2 < h.len(),
        nib as nat == hex_char_val(sig[0]),
        w == h[h.len() - (sig.len() - 1) / 2 - 1],
        hex_of(h).subrange(2 * h.len() - (sig.len() - 1), 2 * h.len() as int) =~= sig.skip(1),
        r == (w % 16 == nib),
    ensures
        r == sig_matches(sig, true, h),
{
    let n = sig.len() as int;
    let k = (n - 1) / 2;
    let hl = h.len() as int;
    let pos = hl - k - 1;
    assert(n - 1 == 2 * k);
    assert(n <= 2 * hl);
    lemma_hex_char_roundtrip(sig[0]);
    assert(2 * hl - n == 2 * pos + 1);
    assert(hex_of(h)[2 * pos + 1] == hex_digit(h[pos] as int % 16)) by {
        assert((2 * pos + 1) % 2 == 1 && (2 * pos + 1) / 2 == pos);
    }
    if r {
        assert(hex_of(h)[2 * hl - n] == hex_digit(nib as int));
        assert(hex_digit(hex_char_val(sig[0]) as int) == sig[0]);
        assert forall|j: int| 0 <= j < n implies hex_of(h).subrange(2 * hl - n, 2 * hl)[j]
            == sig[j] by {
            if j == 0 {
                assert(hex_of(h).subrange(2 * hl - n, 2 * hl)[0] == hex_of(h)[2 * hl - n]);
            } else {
                assert(hex_of(h).subrange(2 * hl - (n - 1), 2 * hl)[j - 1] == sig.skip(1)[j - 1]);
            }
        }
        assert(hex_of(h).subrange(2 * hl - n, 2 * hl) =~= sig);
    } else {
        if sig_matches(sig, true, h) {
            assert(hex_of(h).subrange(2 * hl - n, 2 * hl)[0] == sig[0]);
            lemma_byte_nibbles(w);
            lemma_hex_digit_val(w as int % 16);
            assert(false);
        }
    }
}

/// Compare `pat` against the bytes of `hash` starting at `off`.
fn bytes_eq_at(hash: &[u8], off: usize, pat: &Vec<u8>) -> (r: bool)
    requires
        off + pat@.len() <= hash@.len(),
    ensures
        r == (hash@.subrange(off as int, off + pat@.len()) =~= pat@),
{
    let n = pat.len();
    let hash_len = hash.len();
    let mut i: usize = 0;
    while i < n
        invariant
            0 <= i <= n == pat@.len(),
            hash_len == hash@.len(),
            off + n <= hash@.len(),
            forall|k: int| 0 <= k < i ==> hash@[off + k] == pat@[k],
        decreases n - i,
    {
        if hash[off + i] != pat[i] {
            proof {
                assert(hash@.subrange(off as int, off + pat@.len())[i as int] != pat@[i as int]);
            }
            return false;
        }
        i = i + 1;
    }
    proof {
        assert(hash@.subrange(off as int, off + pat@.len()) =~= pat@);
    }
    true
}

/// The numeric value of a hex character.
fn hex_val_char(c: char) -> (v: u8)
    requires
        is_hex_char(c),
    ensures
        v as nat == hex_char_val(c),
        v < 16,
{
    let u = c as u32;
    proof {
        assert(u as int == c as int);
    }
    if u <= 57 {
        (u - 48) as u8
    } else {
        (u - 87) as u8
    }
}

/// Compile a signature into a matcher.
///
/// Fails before any search begins: a signature longer than the digest's
/// forty hex characters, or holding a character outside `[0-9a-f]`, is
/// rejected here.
pub fn create_validator(sig: &str, as_suffix: bool) -> (r: Result<HashMatcher, GashError>)
    ensures
        sig@.len() > 40 ==> r == Err::<HashMatcher, GashError>(GashError::SignatureTooLong),
        sig@.len() <= 40 && !valid_signature(sig@) ==> r == Err::<HashMatcher, GashError>(
            GashError::SignatureNotHex,
        ),
        valid_signature(sig@) ==> r is Ok && r->Ok_0.wf() && r->Ok_0@.sig == sig@
            && r->Ok_0@.as_suffix == as_suffix,
        r is Ok <==> valid_signature(sig@),
{
    let n = sig.unicode_len();
    if n > 40 {
        return Err(GashError::SignatureTooLong);
    }
    let mut i: usize = 0;
    while i < n
        invariant
            0 <= i <= n == sig@.len() <= 40,
            forall|k: int| 0 <= k < i ==> is_hex_char(#[trigger] sig@[k]),
        decreases n - i,
    {
        let c = sig.get_char(i);
        let u = c as u32;
        proof {
            assert(u as int == c as int);
        }
        if !((48 <= u && u <= 57) || (97 <= u && u <= 102)) {
            proof {
                assert(!is_hex_char(sig@[i as int]));
            }
            return Err(GashError::SignatureNotHex);
        }
        i = i + 1;
    }
    assert(valid_signature(sig@));
    let odd = n % 2 == 1;
    let start: usize = if odd && as_suffix { 1 } else { 0 };
    let pairs = n / 2;
    let ghost chunk: Seq<char> = sig@.subrange(start as int, start + 2 * pairs);
    let mut even_bytes: Vec<u8> = Vec::new();
    let mut j: usize = 0;
    while j < pairs
        invariant
            0 <= j <= pairs,
            n == sig@.len() <= 40,
            pairs == n as int / 2,
            start == if n % 2 == 1 && as_suffix { 1int } else { 0int },
            start + 2 * pairs <= n,
            chunk == sig@.subrange(start as int, start + 2 * pairs),
            forall|k: int| 0 <= k < n ==> is_hex_char(#[trigger] sig@[k]),
            even_bytes@.len() == j,
            forall|k: int| 0 <= k < j ==> even_bytes@[k] == hex_decode_even(chunk)[k],
        decreases pairs - j,
    {
        let c0 = sig.get_char(start + 2 * j);
        let c1 = sig.get_char(start + 2 * j + 1);
        let v0 = hex_val_char(c0);
        let v1 = hex_val_char(c1);
        even_bytes.push(16 * v0 + v1);
        proof {
            assert(chunk[2 * j as int] == sig@[start + 2 * j]);
            assert(chunk[2 * j + 1 as int] == sig@[start + 2 * j + 1]);
            assert(hex_decode_even(chunk)[j as int] == (16 * hex_char_val(chunk[2 * j as int])
                + hex_char_val(chunk[2 * j + 1 as int])) as u8);
        }
        j = j + 1;
    }
    proof {
        assert(even_bytes@ =~= hex_decode_even(chunk));
    }
    let odd_nibble: Option<u8> = if odd {
        let oc = sig.get_char(if as_suffix { 0 } else { n - 1 });
        Some(hex_val_char(oc))
    } else {
        None
    };
    let m = HashMatcher { signature: sig.to_owned(), as_suffix, even_bytes, odd_nibble };
    proof {
        if n % 2 == 0 {
            assert(chunk =~= sig@);
        } else if as_suffix {
            assert(chunk =~= sig@.skip(1));
        } else {
            assert(chunk =~= sig@.take(n - 1));
        }
        assert(m.wf());
    }
    Ok(m)
}

/// The one-character string for a nibble value.
pub(crate) fn digit_str(d: u8) -> (r: &'static str)
    requires
        d < 16,
    ensures
        r@ == seq![hex_digit(d as int)],
{
    proof {
        reveal_strlit("0");
        reveal_strlit("1");
        reveal_strlit("2");
        reveal_strlit("3");
        reveal_strlit("4");
        reveal_strlit("5");
        reveal_strlit("6");
        reveal_strlit("7");
        reveal_strlit("8");
        reveal_strlit("9");
        reveal_strlit("a");
        reveal_strlit("b");
        reveal_strlit("c");
        reveal_strlit("d");
        reveal_strlit("e");
        reveal_strlit("f");
    }
    let r: &'static str = if d == 0 { "0" } else if d == 1 { "1" } else if d == 2 { "2" }
    else if d == 3 { "3" } else if d == 4 { "4" } else if d == 5 { "5" } else if d == 6 { "6" }
    else if d == 7 { "7" } else if d == 8 { "8" } else if d == 9 { "9" } else if d == 10 { "a" }
    else if d == 11 { "b" } else if d == 12 { "c" } else if d == 13 { "d" } else if d == 14 {
        "e"
    } else { "f" };
    proof {
        assert(r@ =~= seq![hex_digit(d as int)]);
    }
    r
}

/// The lower-case hexadecimal rendering of a byte sequence.
pub fn hex_string(h: &Vec<u8>) -> (s: String)
    ensures
        s@ == hex_of(h@),
{
    let mut s = String::new();
    let n = h.len();
    let mut i: usize = 0;
    while i < n
        invariant
            0 <= i <= n == h@.len(),
            s@ == hex_of(h@).take(2 * i),
        decreases n - i,
    {
        let b = h[i];
        s.append(digit_str(b / 16));
        s.append(digit_str(b % 16));
        proof {
            assert(hex_of(h@)[2 * i] == hex_digit(b as int / 16)) by {
                assert((2 * i as int) % 2 == 0 && (2 * i as int) / 2 == i as int);
            }
            assert(hex_of(h@)[2 * i + 1] == hex_digit(b as int % 16)) by {
                assert((2 * i as int + 1) % 2 == 1 && (2 * i as int + 1) / 2 == i as int);
            }
            assert(s@ =~= hex_of(h@).take(2 * (i + 1)));
        }
        i = i + 1;
    }
    proof {
        assert(hex_of(h@).take(2 * n as int) =~= hex_of(h@));
    }
    s
}

/// The byte range a hex character covers when it is the first of a pair:
/// the sixteen byte values whose upper nibble is the character's value.
pub fn word_range_for_char(ch: char) -> (r: core::ops::RangeInclusive<u8>)
    requires
        is_hex_char(ch),
    ensures
        r@.start as nat == 16 * hex_char_val(ch),
        r@.end as nat == 16 * hex_char_val(ch) + 15,
        !r@.exhausted,
{
    let v = hex_val_char(ch);
    core::ops::RangeInclusive::new(16 * v, 16 * v + 15)
}

/// `p` is a prefix of `s`, by scanning.
fn str_starts_with(s: &str, p: &str) -> (r: bool)
    ensures
        r == p@.is_prefix_of(s@),
{
    let ns = s.unicode_len();
    let np = p.unicode_len();
    if np > ns {
        return false;
    }
    let mut i: usize = 0;
    while i < np
        invariant
            0 <= i <= np == p@.len(),
            np <= ns == s@.len(),
            forall|k: int| 0 <= k < i ==> s@[k] == p@[k],
        decreases np - i,
    {
        if s.get_char(i) != p.get_char(i) {
            proof {
                assert(s@.subrange(0, p@.len() as int)[i as int] == s@[i as int]);
            }
            return false;
        }
        i = i + 1;
    }
    proof {
        assert(s@.subrange(0, p@.len() as int) =~= p@);
    }
    true
}

/// `p` is a suffix of `s`, by scanning.
fn str_ends_with(s: &str, p: &str) -> (r: bool)
    ensures
        r == p@.is_suffix_of(s@),
{
    let ns = s.unicode_len();
    let np = p.unicode_len();
    if np > ns {
        return false;
    }
    let off = ns - np;
    let mut i: usize = 0;
    while i < np
        invariant
            0 <= i <= np == p@.len(),
            np <= ns == s@.len(),
            off == ns - np,
            forall|k: int| 0 <= k < i ==> s@[off + k] == p@[k],
        decreases np - i,
    {
        if s.get_char(off + i) != p.get_char(i) {
            proof {
                assert(s@.subrange(s@.len() - p@.len(), s@.len() as int)[i as int] == s@[off
                    + i]);
            }
            return false;
        }
        i = i + 1;
    }
    proof {
        assert(s@.subrange(s@.len() - p@.len(), s@.len() as int) =~= p@);
    }
    true
}

/// Whether a search is needed at all: with `force` off, a current digest
/// whose hex form already starts (or, in stealth mode, ends) with the
/// signature short-circuits the search before the engine is ever invoked.
pub fn should_search(curr_hash: &str, signature: &str, stealth: bool, force: bool) -> (r: bool)
    ensures
        r == (force || !(if stealth {
            signature@.is_suffix_of(curr_hash@)
        } else {
            signature@.is_prefix_of(curr_hash@)
        })),
{
    if force {
        return true;
    }
    if stealth {
        !str_ends_with(curr_hash, signature)
    } else {
        !str_starts_with(curr_hash, signature)
    }
}


} // verus!
