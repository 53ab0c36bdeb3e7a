//! Clipboard captures and their encrypted form.
//!
//! An [`Entry`] is one clipboard capture: raw content bytes, a kind tag and
//! a capture timestamp (the bytes of an RFC 3339 string). An
//! [`EncryptedEntry`] is the only form ever written to durable storage:
//! ciphertext, the 12-byte nonce it was sealed under, and the kind tag. The
//! timestamp travels inside the plaintext, framed together with the content
//! by [`frame`], and is recovered on decode.

use chacha20poly1305::aead::{Aead, AeadCore, KeyInit, OsRng};
use chacha20poly1305::{ChaCha20Poly1305, Nonce};
use vstd::prelude::*;

verus! {

use crate::Key;
use vstd::arithmetic::div_mod::lemma_fundamental_div_mod;

/// What a clipboard capture holds; decides only how consumers display it.
#[derive(Clone, Copy, Debug, PartialEq, Eq, Structural)]
pub enum EntryKind {
    Text,
    Image,
}

/// Mathematical model of an [`Entry`].
pub ghost struct EntryModel {
    pub content: Seq<u8>,
    pub kind: EntryKind,
    pub stamp: Seq<u8>,
}

/// One clipboard capture, in the clear.
#[derive(Debug)]
pub struct Entry {
    pub bytes: Vec<u8>,
    pub kind: EntryKind,
    pub datetime: Vec<u8>,
}

impl View for Entry {
    type V = EntryModel;

    open spec fn view(&self) -> EntryModel {
        EntryModel { content: self.bytes@, kind: self.kind, stamp: self.datetime@ }
    }
}

impl DeepView for Entry {
    type V = EntryModel;

    open spec fn deep_view(&self) -> EntryModel {
        self.view()
    }
}

impl PartialEq for Entry {
    fn eq(&self, other: &Entry) -> (r: bool) {
        let b_eq: bool = self.bytes == other.bytes;
        let k_eq: bool = self.kind == other.kind;
        let d_eq: bool = self.datetime == other.datetime;
        proof {
            if b_eq {
                assert(self.bytes@ =~= other.bytes@);
            } else {
                assert(!(self.bytes@ =~= other.bytes@));
            }
            if d_eq {
                assert(self.datetime@ =~= other.datetime@);
            } else {
                assert(!(self.datetime@ =~= other.datetime@));
            }
        }
        b_eq && k_eq && d_eq
    }
}

impl vstd::std_specs::cmp::PartialEqSpecImpl for Entry {
    open spec fn obeys_eq_spec() -> bool {
        true
    }

    open spec fn eq_spec(&self, other: &Entry) -> bool {
        self@ == other@
    }
}

/// Mathematical model of an [`EncryptedEntry`].
pub ghost struct EncRec {
    pub ciphertext: Seq<u8>,
    pub nonce: Seq<u8>,
    pub kind: EntryKind,
}

/// The durable form of a capture: what the store writes to disk.
#[derive(Debug)]
pub struct EncryptedEntry {
    pub ciphertext: Vec<u8>,
    pub nonce: Vec<u8>,
    pub kind: EntryKind,
}

impl View for EncryptedEntry {
    type V = EncRec;

    open spec fn view(&self) -> EncRec {
        EncRec { ciphertext: self.ciphertext@, nonce: self.nonce@, kind: self.kind }
    }
}

impl DeepView for EncryptedEntry {
    type V = EncRec;

    open spec fn deep_view(&self) -> EncRec {
        self.view()
    }
}

/// How the entry codec can fail.
#[derive(Debug)]
pub enum EntryError {
    /// Authentication or decryption failed: wrong key, corrupted or
    /// truncated ciphertext, or a nonce that is not exactly 12 bytes.
    Decode(String),
    /// Encryption failed.
    Encode(String),
    /// Anything else, carrying an opaque cause description.
    Unknown(String),
}

impl Entry {
    /// The raw captured bytes.
    pub fn content(&self) -> (r: &[u8])
        ensures
            r@ == self@.content,
    {
        self.bytes.as_slice()
    }

    /// The kind tag of this capture.
    pub fn kind(&self) -> (r: EntryKind)
        ensures
            r == self@.kind,
    {
        self.kind
    }
}

// ---------------------------------------------------------------------------
// Plaintext framing
//
// The sealed plaintext is `le_bytes(stamp.len(), 8) + stamp + content`: an
// 8-byte little-endian length of the timestamp, the timestamp bytes, then
// the content bytes. Unframing recovers both fields exactly.
// ---------------------------------------------------------------------------

/// `k` little-endian bytes of `n`.
pub open spec fn le_bytes(n: nat, k: nat) -> Seq<u8>
    decreases k,
{
    if k == 0 {
        Seq::empty()
    } else {
        seq![(n % 256) as u8] + le_bytes(n / 256, (k - 1) as nat)
    }
}

/// The value the little-endian bytes `s` stand for.
pub open spec fn le_val(s: Seq<u8>) -> nat
    decreases s.len(),
{
    if s.len() == 0 {
        0
    } else {
        (s[0] + 256 * le_val(s.drop_first())) as nat
    }
}

/// 256 to the power `k`.
pub open spec fn pow256(k: nat) -> nat
    decreases k,
{
    if k == 0 {
        1nat
    } else {
        256 * pow256((k - 1) as nat)
    }
}

/// Reading back `k` little-endian bytes of `n` yields `n` again.
pub proof fn lemma_le_round_trip(n: nat, k: nat)
    requires
        n < pow256(k),
    ensures
        le_bytes(n, k).len() == k,
        le_val(le_bytes(n, k)) == n,
    decreases k,
{
    if k == 0 {
    } else {
        lemma_fundamental_div_mod(n as int, 256);
        lemma_le_round_trip(n / 256, (k - 1) as nat);
        assert(le_bytes(n, k).drop_first() =~= le_bytes(n / 256, (k - 1) as nat));
    }
}

/// The sealed plaintext for a capture with the given timestamp and content.
pub open spec fn frame(stamp: Seq<u8>, content: Seq<u8>) -> Seq<u8> {
    le_bytes(stamp.len(), 8) + stamp + content
}

/// Splits a sealed plaintext back into timestamp and content.
pub open spec fn unframe(p: Seq<u8>) -> Option<(Seq<u8>, Seq<u8>)> {
    if p.len() >= 8 {
        let n = le_val(p.subrange(0, 8));
        if n + 8 <= p.len() {
            Some((p.subrange(8, 8 + n as int), p.subrange(8 + n as int, p.len() as int)))
        } else {
            None
        }
    } else {
        None
    }
}

/// Unframing a framed plaintext recovers the timestamp and the content.
pub proof fn lemma_frame_round_trip(stamp: Seq<u8>, content: Seq<u8>)
    requires
        stamp.len() < pow256(8),
    ensures
        unframe(frame(stamp, content)) == Some((stamp, content)),
{
    let p = frame(stamp, content);
    lemma_le_round_trip(stamp.len(), 8);
    assert(p.subrange(0, 8) =~= le_bytes(stamp.len(), 8));
    let n = le_val(p.subrange(0, 8));
    assert(n == stamp.len());
    assert(p.subrange(8, 8 + n as int) =~= stamp);
    assert(p.subrange(8 + n as int, p.len() as int) =~= content);
}

/// Appending a byte to little-endian digits adds it at the highest place.
proof fn lemma_le_val_push(s: Seq<u8>, b: u8)
    ensures
        le_val(s.push(b)) == le_val(s) + b * pow256(s.len()),
    decreases s.len(),
{
    if s.len() == 0 {
        reveal_with_fuel(le_val, 2);
        assert(s.push(b) =~= seq![b]);
        assert(s.push(b).drop_first() =~= Seq::<u8>::empty());
        assert((s.push(b))[0] == b);
        assert(le_val(s.push(b)) == b);
        assert(le_val(s) == 0);
        assert(pow256(s.len()) == 1);
    } else {
        assert(s.push(b).drop_first() =~= s.drop_first().push(b));
        lemma_le_val_push(s.drop_first(), b);
        assert((s.push(b))[0] == s[0]);
        assert(le_val(s.push(b)) == s[0] + 256 * le_val(s.drop_first().push(b)));
        assert(le_val(s.drop_first().push(b)) == le_val(s.drop_first()) + b * pow256(
            (s.len() - 1) as nat,
        ));
        assert(pow256(s.len()) == 256 * pow256((s.len() - 1) as nat));
        assert(le_val(s) == s[0] + 256 * le_val(s.drop_first()));
        assert(le_val(s.push(b)) == le_val(s) + b * pow256(s.len())) by (nonlinear_arith)
            requires
                le_val(s.push(b)) == s[0] + 256 * le_val(s.drop_first().push(b)),
                le_val(s.drop_first().push(b)) == le_val(s.drop_first()) + b * pow256(
                    (s.len() - 1) as nat,
                ),
                le_val(s) == s[0] + 256 * le_val(s.drop_first()),
                pow256(s.len()) == 256 * pow256((s.len() - 1) as nat),
        ;
    }
}

/// Builds the sealed plaintext for `stamp` and `content`.
pub fn frame_plaintext(stamp: &Vec<u8>, content: &Vec<u8>) -> (r: Vec<u8>)
    ensures
        r@ == frame(stamp@, content@),
{
    let mut out: Vec<u8> = Vec::new();
    let mut n: u64 = stamp.len() as u64;
    let mut k: usize = 0;
    while k < 8
        invariant
            k <= 8,
            out@.len() == k,
            le_bytes(stamp@.len(), 8) == out@ + le_bytes(n as nat, (8 - k) as nat),
        decreases 8 - k,
    {
        let ghost n0 = n as nat;
        let ghost out0 = out@;
        out.push((n % 256) as u8);
        n = n / 256;
        k = k + 1;
        proof {
            assert(le_bytes(n0, (8 - k + 1) as nat) == seq![(n0 % 256) as u8] + le_bytes(
                n0 / 256,
                (8 - k) as nat,
            ));
            assert(out0 + le_bytes(n0, (8 - k + 1) as nat) =~= out@ + le_bytes(
                n as nat,
                (8 - k) as nat,
            ));
        }
    }
    assert(out@ =~= le_bytes(stamp@.len(), 8));
    let mut i: usize = 0;
    while i < stamp.len()
        invariant
            i <= stamp.len(),
            out@ == le_bytes(stamp@.len(), 8) + stamp@.subrange(0, i as int),
        decreases stamp.len() - i,
    {
        out.push(stamp[i]);
        i = i + 1;
        assert(out@ =~= le_bytes(stamp@.len(), 8) + stamp@.subrange(0, i as int));
    }
    let mut j: usize = 0;
    while j < content.len()
        invariant
            j <= content.len(),
            out@ == le_bytes(stamp@.len(), 8) + stamp@ + content@.subrange(0, j as int),
        decreases content.len() - j,
    {
        out.push(content[j]);
        j = j + 1;
        assert(out@ =~= le_bytes(stamp@.len(), 8) + stamp@ + content@.subrange(0, j as int));
    }
    assert(out@ =~= frame(stamp@, content@));
    out
}

/// Splits a sealed plaintext into timestamp and content, exactly as
/// [`unframe`] describes; `None` when the plaintext is malformed.
pub fn unframe_plaintext(p: &Vec<u8>) -> (r: Option<(Vec<u8>, Vec<u8>)>)
    ensures
        match r {
            Some(pair) => unframe(p@) == Some((pair.0@, pair.1@)),
            None => unframe(p@) is None,
        },
{
    if p.len() < 8 {
        return None;
    }
    let mut n: u64 = 0;
    let mut k: usize = 0;
    while k < 8
        invariant
            k <= 8,
            p@.len() >= 8,
            n as nat == le_val(p@.subrange(0, k as int)),
            n < pow256(k as nat),
        decreases 8 - k,
    {
        let mult: u64 = pow256_u64(k as u64);
        let b: u64 = p[k] as u64;
        proof {
            lemma_pow256_bound();
            lemma_pow256_mono((k + 1) as nat, 8);
            assert(n + b * mult < pow256((k + 1) as nat)) by (nonlinear_arith)
                requires
                    b < 256,
                    (n as nat) < pow256(k as nat),
                    mult as nat == pow256(k as nat),
                    pow256((k + 1) as nat) == 256 * pow256(k as nat),
            ;
            lemma_le_val_push(p@.subrange(0, k as int), p@[k as int]);
            assert(p@.subrange(0, (k + 1) as int) =~= p@.subrange(0, k as int).push(
                p@[k as int],
            ));
        }
        n = n + b * mult;
        k = k + 1;
    }
    assert(n as nat == le_val(p@.subrange(0, 8)));
    // hand back the two halves when the length fits
    if n <= (p.len() - 8) as u64 {
        let stamp_len: usize = n as usize;
        assert(8 + stamp_len <= p@.len());
        let stamp_end: usize = 8 + stamp_len;
        let mut stamp: Vec<u8> = Vec::new();
        let mut i: usize = 8;
        while i < stamp_end
            invariant
                8 <= i <= stamp_end,
                stamp_end == 8 + stamp_len,
                stamp_end <= p@.len(),
                stamp@ == p@.subrange(8, i as int),
            decreases stamp_end - i,
        {
            stamp.push(p[i]);
            i = i + 1;
            assert(stamp@ =~= p@.subrange(8, i as int));
        }
        let mut content: Vec<u8> = Vec::new();
        let mut j: usize = stamp_end;
        while j < p.len()
            invariant
                stamp_end == 8 + stamp_len,
                stamp_end <= j <= p@.len(),
                content@ == p@.subrange(stamp_end as int, j as int),
            decreases p@.len() - j,
        {
            content.push(p[j]);
            j = j + 1;
            assert(content@ =~= p@.subrange(stamp_end as int, j as int));
        }
        assert(stamp@ =~= p@.subrange(8, (8 + stamp_len) as int));
        assert(content@ =~= p@.subrange((8 + stamp_len) as int, p@.len() as int));
        Some((stamp, content))
    } else {
        None
    }
}

/// The first nine powers of 256, written out.
proof fn lemma_pow256_bound()
    ensures
        pow256(0) == 1nat,
        pow256(1) == 0x100nat,
        pow256(2) == 0x1_0000nat,
        pow256(3) == 0x100_0000nat,
        pow256(4) == 0x1_0000_0000nat,
        pow256(5) == 0x100_0000_0000nat,
        pow256(6) == 0x1_0000_0000_0000nat,
        pow256(7) == 0x100_0000_0000_0000nat,
        pow256(8) == 0x1_0000_0000_0000_0000nat,
{
    reveal_with_fuel(pow256, 9);
}

/// `256^k` as a `u64`, for `k` below 8.
fn pow256_u64(k: u64) -> (r: u64)
    requires
        k < 8,
    ensures
        r as nat == pow256(k as nat),
{
    proof {
        lemma_pow256_bound();
    }
    let mut r: u64 = 1;
    let mut i: u64 = 0;
    while i < k
        invariant
            i <= k < 8,
            r as nat == pow256(i as nat),
        decreases k - i,
    {
        proof {
            lemma_pow256_bound();
            lemma_pow256_mono(i as nat, 7);
        }
        r = r * 256;
        i = i + 1;
    }
    r
}

/// `pow256` grows with its argument.
proof fn lemma_pow256_mono(a: nat, b: nat)
    requires
        a <= b,
    ensures
        pow256(a) <= pow256(b),
    decreases b,
{
    if a < b {
        lemma_pow256_mono(a, (b - 1) as nat);
        assert(pow256(b) == 256 * pow256((b - 1) as nat));
        assert(pow256((b - 1) as nat) <= 256 * pow256((b - 1) as nat)) by (nonlinear_arith)
            requires
                pow256((b - 1) as nat) >= 0,
        ;
    }
}


// ---------------------------------------------------------------------------
// The AEAD codec
// ---------------------------------------------------------------------------

/// Plaintexts must stay below this many bytes: the cipher refuses longer
/// ones (its 32-bit block counter would overflow).
pub const MAX_PLAINTEXT_BYTES: u64 = 274877906880;

/// Does a plaintext of `len` bytes fit the cipher's limit?
pub open spec fn fits_seal(len: nat) -> bool {
    len < MAX_PLAINTEXT_BYTES
}

/// What sealing a plaintext under a key and nonce yields. Encryption is a
/// pure function of these three arguments.
pub uninterp spec fn chacha_seal(key: Seq<u8>, nonce: Seq<u8>, plaintext: Seq<u8>) -> Seq<u8>;

/// What opening a ciphertext under a key and nonce yields: the plaintext
/// when authentication succeeds, nothing otherwise. Decryption is a pure
/// function of these three arguments.
pub uninterp spec fn chacha_open(key: Seq<u8>, nonce: Seq<u8>, ciphertext: Seq<u8>) -> Option<
    Seq<u8>,
>;

/// Relies on chacha20poly1305's `Aead::encrypt`: deterministic in key,
/// nonce and plaintext; returns ciphertext plus a 16-byte tag; succeeds for
/// every plaintext below the block-counter limit; `Aead::decrypt` with the
/// same key and nonce recovers exactly the plaintext.
#[verifier::external_body]
fn aead_encrypt(key: &Key, nonce: &Vec<u8>, plaintext: &Vec<u8>) -> (r: Vec<u8>)
    requires
        nonce@.len() == 12,
        fits_seal(plaintext@.len()),
    ensures
        r@ == chacha_seal(key@, nonce@, plaintext@),
        r@.len() == plaintext@.len() + 16,
        chacha_open(key@, nonce@, r@) == Some(plaintext@),
{
    let cipher = ChaCha20Poly1305::new(key.into());
    let n = Nonce::clone_from_slice(&nonce[0..12]);
    cipher.encrypt(&n, plaintext.as_slice()).expect("plaintext length was checked")
}

/// Relies on chacha20poly1305's `Aead::decrypt`: deterministic in key,
/// nonce and ciphertext; authenticates and fails on any tampering.
#[verifier::external_body]
fn aead_decrypt(key: &Key, nonce: &Vec<u8>, ciphertext: &Vec<u8>) -> (r: Option<Vec<u8>>)
    requires
        nonce@.len() == 12,
    ensures
        match r {
            Some(pt) => chacha_open(key@, nonce@, ciphertext@) == Some(pt@),
            None => chacha_open(key@, nonce@, ciphertext@) is None,
        },
{
    let cipher = ChaCha20Poly1305::new(key.into());
    let n = Nonce::clone_from_slice(&nonce[0..12]);
    cipher.decrypt(&n, ciphertext.as_slice()).ok()
}

/// Relies on `AeadCore::generate_nonce` with `OsRng`: 12 bytes from the
/// system's secure random source. Nothing can be promised about random
/// bytes beyond their count.
#[verifier::external_body]
fn fresh_nonce() -> (r: Vec<u8>)
    ensures
        r@.len() == 12,
{
    let nonce = ChaCha20Poly1305::generate_nonce(&mut OsRng);
    nonce.as_slice().to_vec()
}

/// Relies on `KeyInit::generate_key` with `OsRng`: a fresh random 32-byte
/// key. Nothing can be promised about random bytes.
#[verifier::external_body]
pub fn generate_encryption_key() -> Key {
    ChaCha20Poly1305::generate_key(&mut OsRng).into()
}

/// Relies on chrono's `Utc::now().to_rfc3339()`: the moment of the call as
/// an RFC 3339 string, whose bytes are printable ASCII without quote or
/// backslash.
#[verifier::external_body]
fn now_rfc3339() -> (r: Vec<u8>)
    ensures
        forall|i: int| 0 <= i < r@.len() ==> 32 <= r@[i] < 127 && r@[i] != 34 && r@[i] != 92,
{
    chrono::Utc::now().to_rfc3339().into_bytes()
}

/// `le_bytes` always yields exactly `k` bytes.
pub proof fn lemma_le_bytes_len(n: nat, k: nat)
    ensures
        le_bytes(n, k).len() == k,
    decreases k,
{
    if k > 0 {
        lemma_le_bytes_len(n / 256, (k - 1) as nat);
    }
}

/// A framed plaintext is 8 bytes longer than timestamp and content
/// together.
pub proof fn lemma_frame_len(stamp: Seq<u8>, content: Seq<u8>)
    ensures
        frame(stamp, content).len() == 8 + stamp.len() + content.len(),
{
    lemma_le_bytes_len(stamp.len(), 8);
}

/// Does an entry of this shape fit the cipher's limit once framed?
pub open spec fn encodable_model(m: EntryModel) -> bool {
    fits_seal((8 + m.stamp.len() + m.content.len()) as nat)
}

/// What decoding a record under a key yields, if anything: open the
/// ciphertext, then split the plaintext into timestamp and content.
pub open spec fn decode_model(rec: EncRec, key: Seq<u8>) -> Option<EntryModel> {
    if rec.nonce.len() == 12 {
        match chacha_open(key, rec.nonce, rec.ciphertext) {
            Some(pt) => match unframe(pt) {
                Some(sc) => Some(EntryModel { content: sc.1, kind: rec.kind, stamp: sc.0 }),
                None => None,
            },
            None => None,
        }
    } else {
        None
    }
}

impl Entry {
    /// A capture of `bytes` with kind `kind`, stamped with the current
    /// time.
    pub fn new(bytes: &Vec<u8>, kind: EntryKind) -> (e: Entry)
        ensures
            e@.content == bytes@,
            e@.kind == kind,
    {
        Entry { bytes: crate::clone_bytes(bytes), kind, datetime: now_rfc3339() }
    }

    /// Does this entry's framed plaintext fit the cipher's limit? Anything
    /// a machine can hold does; the bound is astronomical.
    pub open spec fn encodable(&self) -> bool {
        encodable_model(self@)
    }

    /// Seals this entry under `key` with a fresh random nonce. Succeeds
    /// exactly when the entry fits the cipher's limit; the record it
    /// returns opens, under the same key and its nonce, back to this
    /// entry's timestamp and content.
    pub fn encode(&self, key: &Key) -> (r: Result<EncryptedEntry, EntryError>)
        ensures
            r is Ok <==> self.encodable(),
            match r {
                Ok(ee) => {
                    &&& ee@.kind == self@.kind
                    &&& ee@.nonce.len() == 12
                    &&& ee@.ciphertext == chacha_seal(
                        key@,
                        ee@.nonce,
                        frame(self@.stamp, self@.content),
                    )
                    &&& chacha_open(key@, ee@.nonce, ee@.ciphertext) == Some(
                        frame(self@.stamp, self@.content),
                    )
                    &&& decode_model(ee@, key@) == Some(self@)
                },
                Err(e) => e is Encode,
            },
    {
        let plaintext = frame_plaintext(&self.datetime, &self.bytes);
        proof {
            lemma_frame_len(self@.stamp, self@.content);
        }
        if plaintext.len() as u64 >= MAX_PLAINTEXT_BYTES {
            return Err(EntryError::Encode("entry too large to seal".to_owned()));
        }
        let nonce = fresh_nonce();
        let ciphertext = aead_encrypt(key, &nonce, &plaintext);
        let ee = EncryptedEntry { ciphertext, nonce, kind: self.kind };
        proof {
            broadcast use vstd::std_specs::vec::group_vec_axioms;

            lemma_pow256_bound();
            assert(self@.stamp.len() <= usize::MAX);
            lemma_frame_round_trip(self@.stamp, self@.content);
        }
        Ok(ee)
    }
}

/// Opens a record under `key`, exactly as [`decode_model`] describes:
/// fails with a `Decode` error when the nonce is not 12 bytes,
/// authentication fails, or the sealed plaintext is malformed; otherwise
/// returns the entry that was sealed, timestamp included.
pub fn decode_entry(rec: &EncryptedEntry, key: &Key) -> (r: Result<Entry, EntryError>)
    ensures
        match r {
            Ok(e) => decode_model(rec@, key@) == Some(e@),
            Err(e) => decode_model(rec@, key@) is None && e is Decode,
        },
{
    if rec.nonce.len() != 12 {
        return Err(EntryError::Decode("nonce must be exactly 12 bytes".to_owned()));
    }
    match aead_decrypt(key, &rec.nonce, &rec.ciphertext) {
        None => Err(EntryError::Decode("authentication failed".to_owned())),
        Some(pt) => match unframe_plaintext(&pt) {
            None => Err(EntryError::Decode("malformed sealed plaintext".to_owned())),
            Some(sc) => Ok(Entry { bytes: sc.1, kind: rec.kind, datetime: sc.0 }),
        },
    }
}

impl EncryptedEntry {
    /// Opens this record under `key`; see [`decode_entry`].
    pub fn try_into_entry(self, key: &Key) -> (r: Result<Entry, EntryError>)
        ensures
            match r {
                Ok(e) => decode_model(self@, key@) == Some(e@),
                Err(e) => decode_model(self@, key@) is None && e is Decode,
            },
    {
        decode_entry(&self, key)
    }
}

/// Law: decoding any sealed form of an entry yields the entry back —
/// content, kind and timestamp alike. `encode` guarantees its result
/// satisfies the premises, under the key it was given.
pub proof fn lemma_codec_round_trip(e: EntryModel, key: Seq<u8>, rec: EncRec)
    requires
        rec.nonce.len() == 12,
        rec.kind == e.kind,
        e.stamp.len() < pow256(8),
        chacha_open(key, rec.nonce, rec.ciphertext) == Some(frame(e.stamp, e.content)),
    ensures
        decode_model(rec, key) == Some(e),
{
    lemma_frame_round_trip(e.stamp, e.content);
}

} // verus!

