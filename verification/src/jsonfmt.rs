//! The durable JSON format.
//!
//! The store persists its history as one JSON array of encrypted records,
//! most recent first:
//!
//! ```text
//! [{"ciphertext":[1,2],"nonce":[0,0,0,0,0,0,0,0,0,0,0,0],"kind":"Text"},...]
//! ```
//!
//! Byte strings appear as JSON arrays of decimal numbers. The emitter
//! produces exactly this canonical form, with no whitespace, and the store
//! itself is this file's only writer; the parser therefore accepts the
//! canonical form and rejects everything else. Both directions are specified
//! by spec functions, and [`lemma_json_round_trip`] proves that parsing an
//! emitted image recovers the records exactly.

use vstd::prelude::*;

verus! {

use crate::entry::{EncRec, EncryptedEntry, EntryKind};

// ASCII codes used by the grammar.
pub const LBRACKET: u8 = 91;

pub const RBRACKET: u8 = 93;

pub const RBRACE: u8 = 125;

pub const COMMA: u8 = 44;

/// Is `b` an ASCII decimal digit?
pub open spec fn is_digit(b: u8) -> bool {
    48 <= b <= 57
}

/// The canonical decimal digits of a byte value.
pub open spec fn dec_of_byte(v: u8) -> Seq<u8> {
    if v < 10 {
        seq![(48 + v) as u8]
    } else if v < 100 {
        seq![(48 + v / 10) as u8, (48 + v % 10) as u8]
    } else {
        seq![(48 + v / 100) as u8, (48 + (v / 10) % 10) as u8, (48 + v % 10) as u8]
    }
}

/// The items of a JSON array of numbers, without the brackets, with the
/// closing bracket appended: `1,2,3]`. Empty arrays are handled by the
/// caller.
pub open spec fn json_of_byte_items(bs: Seq<u8>) -> Seq<u8>
    decreases bs.len(),
{
    if bs.len() == 0 {
        Seq::empty()
    } else if bs.len() == 1 {
        dec_of_byte(bs[0]) + seq![RBRACKET]
    } else {
        dec_of_byte(bs[0]) + seq![COMMA] + json_of_byte_items(bs.drop_first())
    }
}

/// A byte string as a JSON array of decimal numbers.
pub open spec fn json_of_bytes(bs: Seq<u8>) -> Seq<u8> {
    if bs.len() == 0 {
        seq![LBRACKET, RBRACKET]
    } else {
        seq![LBRACKET] + json_of_byte_items(bs)
    }
}

/// Parses one decimal number below 256 at position `i`: at most three
/// digits, greedily.
pub open spec fn parse_byte_at(s: Seq<u8>, i: int) -> Option<(u8, int)> {
    if 0 <= i < s.len() && is_digit(s[i]) {
        if i + 1 < s.len() && is_digit(s[i + 1]) {
            if i + 2 < s.len() && is_digit(s[i + 2]) {
                let v = (s[i] - 48) * 100 + (s[i + 1] - 48) * 10 + (s[i + 2] - 48);
                if v <= 255 {
                    Some(((v as u8), i + 3))
                } else {
                    None
                }
            } else {
                Some((((s[i] - 48) * 10 + (s[i + 1] - 48)) as u8, i + 2))
            }
        } else {
            Some(((s[i] - 48) as u8, i + 1))
        }
    } else {
        None
    }
}

/// Parses `num (',' num)* ']'` starting at `i`; yields the bytes and the
/// position after the closing bracket.
pub open spec fn parse_byte_items(s: Seq<u8>, i: int) -> Option<(Seq<u8>, int)>
    decreases s.len() - i,
{
    match parse_byte_at(s, i) {
        None => None,
        Some((v, j)) => {
            if j < s.len() && s[j] == COMMA && i < j + 1 {
                match parse_byte_items(s, j + 1) {
                    None => None,
                    Some((vs, k)) => Some((seq![v] + vs, k)),
                }
            } else if j < s.len() && s[j] == RBRACKET {
                Some((seq![v], j + 1))
            } else {
                None
            }
        },
    }
}

/// Parses a JSON array of numbers at position `i`.
pub open spec fn parse_bytes_at(s: Seq<u8>, i: int) -> Option<(Seq<u8>, int)> {
    if 0 <= i < s.len() && s[i] == LBRACKET {
        if i + 1 < s.len() && s[i + 1] == RBRACKET {
            Some((Seq::empty(), i + 2))
        } else {
            parse_byte_items(s, i + 1)
        }
    } else {
        None
    }
}

/// Emits the canonical decimal digits of `v`.
pub(crate) fn emit_byte(out: &mut Vec<u8>, v: u8)
    ensures
        final(out)@ == old(out)@ + dec_of_byte(v),
{
    if v < 10 {
        out.push(48 + v);
        assert(out@ =~= old(out)@ + dec_of_byte(v));
    } else if v < 100 {
        out.push(48 + v / 10);
        out.push(48 + v % 10);
        assert(out@ =~= old(out)@ + dec_of_byte(v));
    } else {
        out.push(48 + v / 100);
        out.push(48 + (v / 10) % 10);
        out.push(48 + v % 10);
        assert(out@ =~= old(out)@ + dec_of_byte(v));
    }
}

/// Emits a byte string as a JSON array of decimal numbers.
pub(crate) fn emit_bytes(out: &mut Vec<u8>, bs: &Vec<u8>)
    ensures
        final(out)@ == old(out)@ + json_of_bytes(bs@),
{
    out.push(LBRACKET);
    if bs.len() == 0 {
        out.push(RBRACKET);
        assert(out@ =~= old(out)@ + json_of_bytes(bs@));
        return ;
    }
    let mut i: usize = 0;
    proof {
        assert(bs@.skip(0) =~= bs@);
        assert(out@ + json_of_byte_items(bs@) =~= old(out)@ + json_of_bytes(bs@));
    }
    while i + 1 < bs.len()
        invariant
            i < bs.len(),
            old(out)@ + json_of_bytes(bs@) == out@ + json_of_byte_items(bs@.skip(i as int)),
        decreases bs.len() - i,
    {
        let ghost pre = out@;
        let ghost rest = bs@.skip(i as int);
        emit_byte(out, bs[i]);
        out.push(COMMA);
        proof {
            assert(rest[0] == bs@[i as int]);
            assert(rest.len() >= 2);
            assert(json_of_byte_items(rest) == dec_of_byte(rest[0]) + seq![COMMA]
                + json_of_byte_items(rest.drop_first()));
            assert(rest.drop_first() =~= bs@.skip(i + 1));
            assert(out@ =~= pre + (dec_of_byte(bs@[i as int]) + seq![COMMA]));
            assert(pre + json_of_byte_items(rest) =~= out@ + json_of_byte_items(bs@.skip(i + 1)));
        }
        i = i + 1;
    }
    let ghost pre = out@;
    let ghost rest = bs@.skip(i as int);
    emit_byte(out, bs[i]);
    out.push(RBRACKET);
    proof {
        assert(rest.len() == 1);
        assert(rest[0] == bs@[i as int]);
        assert(json_of_byte_items(rest) == dec_of_byte(rest[0]) + seq![RBRACKET]);
        assert(out@ =~= pre + (dec_of_byte(bs@[i as int]) + seq![RBRACKET]));
        assert(out@ =~= old(out)@ + json_of_bytes(bs@));
    }
}

/// Parses one decimal number below 256, exactly as [`parse_byte_at`]
/// describes.
fn parse_byte(s: &Vec<u8>, i: usize) -> (r: Option<(u8, usize)>)
    ensures
        match r {
            Some(p) => parse_byte_at(s@, i as int) == Some((p.0, p.1 as int)) && i < p.1 <= s@.len(),
            None => parse_byte_at(s@, i as int) is None,
        },
{
    if i < s.len() && 48 <= s[i] && s[i] <= 57 {
        let d0: u16 = (s[i] - 48) as u16;
        if i + 1 < s.len() && 48 <= s[i + 1] && s[i + 1] <= 57 {
            let d1: u16 = (s[i + 1] - 48) as u16;
            if i + 2 < s.len() && 48 <= s[i + 2] && s[i + 2] <= 57 {
                let d2: u16 = (s[i + 2] - 48) as u16;
                let v: u16 = d0 * 100 + d1 * 10 + d2;
                if v <= 255 {
                    Some(((v as u8), i + 3))
                } else {
                    None
                }
            } else {
                Some((((d0 * 10 + d1) as u8), i + 2))
            }
        } else {
            Some(((d0 as u8), i + 1))
        }
    } else {
        None
    }
}

/// Parses `num (',' num)* ']'`, exactly as [`parse_byte_items`] describes.
fn parse_byte_list(s: &Vec<u8>, start: usize) -> (r: Option<(Vec<u8>, usize)>)
    ensures
        match r {
            Some(p) => parse_byte_items(s@, start as int) == Some((p.0@, p.1 as int)) && start < p.1
                <= s@.len(),
            None => parse_byte_items(s@, start as int) is None,
        },
{
    if start > s.len() {
        return None;
    }
    let mut acc: Vec<u8> = Vec::new();
    let mut i: usize = start;
    proof {
        match parse_byte_items(s@, start as int) {
            Some((vs, k)) => {
                assert(Seq::<u8>::empty() + vs =~= vs);
            },
            None => {},
        }
    }
    loop
        invariant
            start <= i <= s@.len(),
            match parse_byte_items(s@, i as int) {
                Some(p) => parse_byte_items(s@, start as int) == Some((acc@ + p.0, p.1)),
                None => parse_byte_items(s@, start as int) is None,
            },
        decreases s@.len() - i,
    {
        match parse_byte(s, i) {
            None => {
                return None;
            },
            Some((v, j)) => {
                if j < s.len() && s[j] == COMMA {
                    let ghost acc0 = acc@;
                    acc.push(v);
                    proof {
                        match parse_byte_items(s@, j + 1) {
                            Some((vs, k)) => {
                                assert(parse_byte_items(s@, i as int) == Some((seq![v] + vs, k)));
                                assert(acc0 + (seq![v] + vs) =~= acc@ + vs);
                            },
                            None => {
                                assert(parse_byte_items(s@, i as int) is None);
                            },
                        }
                    }
                    i = j + 1;
                } else if j < s.len() && s[j] == RBRACKET {
                    let ghost acc0 = acc@;
                    acc.push(v);
                    proof {
                        assert(parse_byte_items(s@, i as int) == Some((seq![v], j + 1)));
                        assert(acc0 + seq![v] =~= acc@);
                    }
                    return Some((acc, j + 1));
                } else {
                    proof {
                        assert(parse_byte_items(s@, i as int) is None);
                    }
                    return None;
                }
            },
        }
    }
}

/// Parses a JSON array of numbers, exactly as [`parse_bytes_at`] describes.
fn parse_bytes(s: &Vec<u8>, i: usize) -> (r: Option<(Vec<u8>, usize)>)
    ensures
        match r {
            Some(p) => parse_bytes_at(s@, i as int) == Some((p.0@, p.1 as int)) && i < p.1
                <= s@.len(),
            None => parse_bytes_at(s@, i as int) is None,
        },
{
    if i < s.len() && s[i] == LBRACKET {
        if i + 1 < s.len() && s[i + 1] == RBRACKET {
            let empty: Vec<u8> = Vec::new();
            Some((empty, i + 2))
        } else {
            parse_byte_list(s, i + 1)
        }
    } else {
        None
    }
}


// ---------------------------------------------------------------------------
// Records
// ---------------------------------------------------------------------------

/// The bytes of `{"ciphertext":`.
pub open spec fn lab_open() -> Seq<u8> {
    seq![123u8, 34, 99, 105, 112, 104, 101, 114, 116, 101, 120, 116, 34, 58]
}

/// The bytes of `,"nonce":`.
pub open spec fn lab_nonce() -> Seq<u8> {
    seq![44u8, 34, 110, 111, 110, 99, 101, 34, 58]
}

/// The bytes of `,"kind":`.
pub open spec fn lab_kind() -> Seq<u8> {
    seq![44u8, 34, 107, 105, 110, 100, 34, 58]
}

/// The bytes of `"Text"`.
pub open spec fn lab_text() -> Seq<u8> {
    seq![34u8, 84, 101, 120, 116, 34]
}

/// The bytes of `"Image"`.
pub open spec fn lab_image() -> Seq<u8> {
    seq![34u8, 73, 109, 97, 103, 101, 34]
}

/// Does `p` occur in `s` at position `i`?
pub open spec fn match_at(s: Seq<u8>, i: int, p: Seq<u8>) -> bool {
    0 <= i && i + p.len() <= s.len() && s.subrange(i, i + p.len()) == p
}

/// The kind tag as a JSON string.
pub open spec fn json_of_kind(k: EntryKind) -> Seq<u8> {
    match k {
        EntryKind::Text => lab_text(),
        EntryKind::Image => lab_image(),
    }
}

/// One encrypted record as a JSON object.
pub open spec fn json_of_enc(r: EncRec) -> Seq<u8> {
    lab_open() + json_of_bytes(r.ciphertext) + lab_nonce() + json_of_bytes(r.nonce) + lab_kind()
        + json_of_kind(r.kind) + seq![RBRACE]
}

/// The items of the top-level array, with the closing bracket appended.
pub open spec fn json_of_enc_items(rs: Seq<EncRec>) -> Seq<u8>
    decreases rs.len(),
{
    if rs.len() == 0 {
        Seq::empty()
    } else if rs.len() == 1 {
        json_of_enc(rs[0]) + seq![RBRACKET]
    } else {
        json_of_enc(rs[0]) + seq![COMMA] + json_of_enc_items(rs.drop_first())
    }
}

/// A whole history as one JSON array of encrypted records.
pub open spec fn json_of_encs(rs: Seq<EncRec>) -> Seq<u8> {
    if rs.len() == 0 {
        seq![LBRACKET, RBRACKET]
    } else {
        seq![LBRACKET] + json_of_enc_items(rs)
    }
}

/// Parses a kind tag at position `i`.
pub open spec fn parse_kind_at(s: Seq<u8>, i: int) -> Option<(EntryKind, int)> {
    if match_at(s, i, lab_text()) {
        Some((EntryKind::Text, i + 6))
    } else if match_at(s, i, lab_image()) {
        Some((EntryKind::Image, i + 7))
    } else {
        None
    }
}

/// Parses one encrypted record at position `i`.
pub open spec fn parse_enc_at(s: Seq<u8>, i: int) -> Option<(EncRec, int)> {
    if match_at(s, i, lab_open()) {
        match parse_bytes_at(s, i + 14) {
            None => None,
            Some((ct, j)) => {
                if match_at(s, j, lab_nonce()) {
                    match parse_bytes_at(s, j + 9) {
                        None => None,
                        Some((nc, k)) => {
                            if match_at(s, k, lab_kind()) {
                                match parse_kind_at(s, k + 8) {
                                    None => None,
                                    Some((kd, m)) => {
                                        if m < s.len() && s[m] == RBRACE {
                                            Some(
                                                (
                                                    EncRec {
                                                        ciphertext: ct,
                                                        nonce: nc,
                                                        kind: kd,
                                                    },
                                                    m + 1,
                                                ),
                                            )
                                        } else {
                                            None
                                        }
                                    },
                                }
                            } else {
                                None
                            }
                        },
                    }
                } else {
                    None
                }
            },
        }
    } else {
        None
    }
}

/// Parses `rec (',' rec)* ']'` starting at `i`.
pub open spec fn parse_enc_items(s: Seq<u8>, i: int) -> Option<(Seq<EncRec>, int)>
    decreases s.len() - i,
{
    match parse_enc_at(s, i) {
        None => None,
        Some((r, j)) => {
            if j < s.len() && s[j] == COMMA && i < j + 1 {
                match parse_enc_items(s, j + 1) {
                    None => None,
                    Some((rs, k)) => Some((seq![r] + rs, k)),
                }
            } else if j < s.len() && s[j] == RBRACKET {
                Some((seq![r], j + 1))
            } else {
                None
            }
        },
    }
}

/// Parses a whole history image; the entire input must be one JSON array of
/// encrypted records in canonical form.
pub open spec fn parse_encs(s: Seq<u8>) -> Option<Seq<EncRec>> {
    if s.len() >= 2 && s[0] == LBRACKET {
        if s.len() == 2 && s[1] == RBRACKET {
            Some(Seq::empty())
        } else {
            match parse_enc_items(s, 1) {
                None => None,
                Some((rs, j)) => if j == s.len() {
                    Some(rs)
                } else {
                    None
                },
            }
        }
    } else {
        None
    }
}


// ---------------------------------------------------------------------------
// Executable record emitters and parsers
// ---------------------------------------------------------------------------

/// Emits `{"ciphertext":`.
fn emit_lab_open(out: &mut Vec<u8>)
    ensures
        final(out)@ == old(out)@ + lab_open(),
{
    out.push(123);
    out.push(34);
    out.push(99);
    out.push(105);
    out.push(112);
    out.push(104);
    out.push(101);
    out.push(114);
    out.push(116);
    out.push(101);
    out.push(120);
    out.push(116);
    out.push(34);
    out.push(58);
    assert(out@ =~= old(out)@ + lab_open());
}

/// Emits `,"nonce":`.
fn emit_lab_nonce(out: &mut Vec<u8>)
    ensures
        final(out)@ == old(out)@ + lab_nonce(),
{
    out.push(44);
    out.push(34);
    out.push(110);
    out.push(111);
    out.push(110);
    out.push(99);
    out.push(101);
    out.push(34);
    out.push(58);
    assert(out@ =~= old(out)@ + lab_nonce());
}

/// Emits `,"kind":`.
fn emit_lab_kind(out: &mut Vec<u8>)
    ensures
        final(out)@ == old(out)@ + lab_kind(),
{
    out.push(44);
    out.push(34);
    out.push(107);
    out.push(105);
    out.push(110);
    out.push(100);
    out.push(34);
    out.push(58);
    assert(out@ =~= old(out)@ + lab_kind());
}

/// Emits a kind tag as a JSON string.
pub(crate) fn emit_kind(out: &mut Vec<u8>, k: EntryKind)
    ensures
        final(out)@ == old(out)@ + json_of_kind(k),
{
    match k {
        EntryKind::Text => {
            out.push(34);
            out.push(84);
            out.push(101);
            out.push(120);
            out.push(116);
            out.push(34);
            assert(out@ =~= old(out)@ + json_of_kind(k));
        },
        EntryKind::Image => {
            out.push(34);
            out.push(73);
            out.push(109);
            out.push(97);
            out.push(103);
            out.push(101);
            out.push(34);
            assert(out@ =~= old(out)@ + json_of_kind(k));
        },
    }
}

/// Emits one encrypted record as a JSON object.
fn emit_enc(out: &mut Vec<u8>, r: &EncryptedEntry)
    ensures
        final(out)@ == old(out)@ + json_of_enc(r@),
{
    emit_lab_open(out);
    emit_bytes(out, &r.ciphertext);
    emit_lab_nonce(out);
    emit_bytes(out, &r.nonce);
    emit_lab_kind(out);
    emit_kind(out, r.kind);
    out.push(RBRACE);
    assert(out@ =~= old(out)@ + json_of_enc(r@));
}

/// Serializes a whole history, most recent first, to its canonical JSON
/// image.
pub fn emit_entries(entries: &Vec<EncryptedEntry>) -> (r: Vec<u8>)
    ensures
        r@ == json_of_encs(entries.deep_view()),
{
    let ghost all = entries.deep_view();
    let mut out: Vec<u8> = Vec::new();
    out.push(LBRACKET);
    if entries.len() == 0 {
        out.push(RBRACKET);
        assert(out@ =~= json_of_encs(all));
        return out;
    }
    proof {
        assert(all.len() == entries@.len());
        assert(all.skip(0) =~= all);
        assert(out@ + json_of_enc_items(all) =~= json_of_encs(all));
    }
    let mut i: usize = 0;
    while i + 1 < entries.len()
        invariant
            i < entries.len(),
            all == entries.deep_view(),
            all.len() == entries@.len(),
            json_of_encs(all) == out@ + json_of_enc_items(all.skip(i as int)),
        decreases entries.len() - i,
    {
        let ghost pre = out@;
        let ghost rest = all.skip(i as int);
        emit_enc(&mut out, &entries[i]);
        out.push(COMMA);
        proof {
            assert(rest[0] == entries@[i as int].deep_view());
            assert(rest.len() >= 2);
            assert(json_of_enc_items(rest) == json_of_enc(rest[0]) + seq![COMMA]
                + json_of_enc_items(rest.drop_first()));
            assert(rest.drop_first() =~= all.skip(i + 1));
            assert(out@ =~= pre + (json_of_enc(entries@[i as int]@) + seq![COMMA]));
            assert(pre + json_of_enc_items(rest) =~= out@ + json_of_enc_items(all.skip(i + 1)));
        }
        i = i + 1;
    }
    let ghost pre = out@;
    let ghost rest = all.skip(i as int);
    emit_enc(&mut out, &entries[i]);
    out.push(RBRACKET);
    proof {
        assert(rest.len() == 1);
        assert(rest[0] == entries@[i as int].deep_view());
        assert(json_of_enc_items(rest) == json_of_enc(rest[0]) + seq![RBRACKET]);
        assert(out@ =~= pre + (json_of_enc(entries@[i as int]@) + seq![RBRACKET]));
        assert(out@ =~= json_of_encs(all));
    }
    out
}

/// Does `lab_text()` occur at `i`?
fn match_text(s: &Vec<u8>, i: usize) -> (r: bool)
    ensures
        r == match_at(s@, i as int, lab_text()),
{
    let n = s.len();
    let r = i < n && n - i >= 6 && s[i] == 34 && s[i + 1] == 84 && s[i + 2] == 101 && s[i + 3] == 120
        && s[i + 4] == 116 && s[i + 5] == 34;
    proof {
        if r {
            assert(s@.subrange(i as int, i + 6) =~= lab_text());
        } else {
            if i + 6 <= s@.len() {
                assert(s@.subrange(i as int, i + 6) == lab_text() ==> s@[i as int] == 34
                    && s@[i + 1] == 84 && s@[i + 2] == 101 && s@[i + 3] == 120 && s@[i + 4] == 116
                    && s@[i + 5] == 34);
            }
        }
    }
    r
}

/// Does `lab_image()` occur at `i`?
fn match_image(s: &Vec<u8>, i: usize) -> (r: bool)
    ensures
        r == match_at(s@, i as int, lab_image()),
{
    let n = s.len();
    let r = i < n && n - i >= 7 && s[i] == 34 && s[i + 1] == 73 && s[i + 2] == 109 && s[i + 3] == 97
        && s[i + 4] == 103 && s[i + 5] == 101 && s[i + 6] == 34;
    proof {
        if r {
            assert(s@.subrange(i as int, i + 7) =~= lab_image());
        } else {
            if i + 7 <= s@.len() {
                assert(s@.subrange(i as int, i + 7) == lab_image() ==> s@[i as int] == 34
                    && s@[i + 1] == 73 && s@[i + 2] == 109 && s@[i + 3] == 97 && s@[i + 4] == 103
                    && s@[i + 5] == 101 && s@[i + 6] == 34);
            }
        }
    }
    r
}

/// Does `lab_open()` occur at `i`?
fn match_open(s: &Vec<u8>, i: usize) -> (r: bool)
    ensures
        r == match_at(s@, i as int, lab_open()),
{
    let n = s.len();
    let r = i < n && n - i >= 14 && s[i] == 123 && s[i + 1] == 34 && s[i + 2] == 99 && s[i + 3] == 105
        && s[i + 4] == 112 && s[i + 5] == 104 && s[i + 6] == 101 && s[i + 7] == 114 && s[i + 8]
        == 116 && s[i + 9] == 101 && s[i + 10] == 120 && s[i + 11] == 116 && s[i + 12] == 34 && s[i
        + 13] == 58;
    proof {
        if r {
            assert(s@.subrange(i as int, i + 14) =~= lab_open());
        } else {
            if i + 14 <= s@.len() {
                assert(s@.subrange(i as int, i + 14) == lab_open() ==> s@[i as int] == 123
                    && s@[i + 1] == 34 && s@[i + 2] == 99 && s@[i + 3] == 105 && s@[i + 4] == 112
                    && s@[i + 5] == 104 && s@[i + 6] == 101 && s@[i + 7] == 114 && s@[i + 8] == 116
                    && s@[i + 9] == 101 && s@[i + 10] == 120 && s@[i + 11] == 116 && s@[i + 12]
                    == 34 && s@[i + 13] == 58);
            }
        }
    }
    r
}

/// Does `lab_nonce()` occur at `i`?
fn match_nonce(s: &Vec<u8>, i: usize) -> (r: bool)
    ensures
        r == match_at(s@, i as int, lab_nonce()),
{
    let n = s.len();
    let r = i < n && n - i >= 9 && s[i] == 44 && s[i + 1] == 34 && s[i + 2] == 110 && s[i + 3] == 111
        && s[i + 4] == 110 && s[i + 5] == 99 && s[i + 6] == 101 && s[i + 7] == 34 && s[i + 8] == 58;
    proof {
        if r {
            assert(s@.subrange(i as int, i + 9) =~= lab_nonce());
        } else {
            if i + 9 <= s@.len() {
                assert(s@.subrange(i as int, i + 9) == lab_nonce() ==> s@[i as int] == 44
                    && s@[i + 1] == 34 && s@[i + 2] == 110 && s@[i + 3] == 111 && s@[i + 4] == 110
                    && s@[i + 5] == 99 && s@[i + 6] == 101 && s@[i + 7] == 34 && s@[i + 8] == 58);
            }
        }
    }
    r
}

/// Does `lab_kind()` occur at `i`?
fn match_kind(s: &Vec<u8>, i: usize) -> (r: bool)
    ensures
        r == match_at(s@, i as int, lab_kind()),
{
    let n = s.len();
    let r = i < n && n - i >= 8 && s[i] == 44 && s[i + 1] == 34 && s[i + 2] == 107 && s[i + 3] == 105
        && s[i + 4] == 110 && s[i + 5] == 100 && s[i + 6] == 34 && s[i + 7] == 58;
    proof {
        if r {
            assert(s@.subrange(i as int, i + 8) =~= lab_kind());
        } else {
            if i + 8 <= s@.len() {
                assert(s@.subrange(i as int, i + 8) == lab_kind() ==> s@[i as int] == 44
                    && s@[i + 1] == 34 && s@[i + 2] == 107 && s@[i + 3] == 105 && s@[i + 4] == 110
                    && s@[i + 5] == 100 && s@[i + 6] == 34 && s@[i + 7] == 58);
            }
        }
    }
    r
}

/// Parses a kind tag, exactly as [`parse_kind_at`] describes.
fn parse_kind(s: &Vec<u8>, i: usize) -> (r: Option<(EntryKind, usize)>)
    ensures
        match r {
            Some(p) => parse_kind_at(s@, i as int) == Some((p.0, p.1 as int)) && i < p.1
                <= s@.len(),
            None => parse_kind_at(s@, i as int) is None,
        },
{
    let n = s.len();
    if match_text(s, i) {
        assert(i + 6 <= n);
        Some((EntryKind::Text, i + 6))
    } else if match_image(s, i) {
        assert(i + 7 <= n);
        Some((EntryKind::Image, i + 7))
    } else {
        None
    }
}

/// Parses one encrypted record, exactly as [`parse_enc_at`] describes.
fn parse_enc(s: &Vec<u8>, i: usize) -> (r: Option<(EncryptedEntry, usize)>)
    ensures
        match r {
            Some(p) => parse_enc_at(s@, i as int) == Some((p.0@, p.1 as int)) && i < p.1
                <= s@.len(),
            None => parse_enc_at(s@, i as int) is None,
        },
{
    let n = s.len();
    if !match_open(s, i) {
        return None;
    }
    assert(i + 14 <= n);
    let ct = match parse_bytes(s, i + 14) {
        None => {
            return None;
        },
        Some(p) => p,
    };
    let j = ct.1;
    if !match_nonce(s, j) {
        return None;
    }
    assert(j + 9 <= n);
    let nc = match parse_bytes(s, j + 9) {
        None => {
            return None;
        },
        Some(p) => p,
    };
    let k = nc.1;
    if !match_kind(s, k) {
        return None;
    }
    assert(k + 8 <= n);
    let kd = match parse_kind(s, k + 8) {
        None => {
            return None;
        },
        Some(p) => p,
    };
    let m = kd.1;
    if m < s.len() && s[m] == RBRACE {
        Some((EncryptedEntry { ciphertext: ct.0, nonce: nc.0, kind: kd.0 }, m + 1))
    } else {
        None
    }
}

/// Parses `rec (',' rec)* ']'`, exactly as [`parse_enc_items`] describes.
fn parse_enc_list(s: &Vec<u8>, start: usize) -> (r: Option<(Vec<EncryptedEntry>, usize)>)
    ensures
        match r {
            Some(p) => parse_enc_items(s@, start as int) == Some((p.0.deep_view(), p.1 as int))
                && start < p.1 <= s@.len(),
            None => parse_enc_items(s@, start as int) is None,
        },
{
    if start > s.len() {
        return None;
    }
    let mut acc: Vec<EncryptedEntry> = Vec::new();
    let mut i: usize = start;
    proof {
        assert(acc.deep_view() =~= Seq::<EncRec>::empty());
        match parse_enc_items(s@, start as int) {
            Some((rs, k)) => {
                assert(Seq::<EncRec>::empty() + rs =~= rs);
            },
            None => {},
        }
    }
    loop
        invariant
            start <= i <= s@.len(),
            match parse_enc_items(s@, i as int) {
                Some(p) => parse_enc_items(s@, start as int) == Some((acc.deep_view() + p.0, p.1)),
                None => parse_enc_items(s@, start as int) is None,
            },
        decreases s@.len() - i,
    {
        match parse_enc(s, i) {
            None => {
                return None;
            },
            Some((rec, j)) => {
                if j < s.len() && s[j] == COMMA {
                    let ghost acc0 = acc.deep_view();
                    let ghost rec0 = rec@;
                    acc.push(rec);
                    proof {
                        assert(acc.deep_view() =~= acc0.push(rec0));
                        match parse_enc_items(s@, j + 1) {
                            Some((rs, k)) => {
                                assert(parse_enc_items(s@, i as int) == Some((seq![rec0] + rs, k)));
                                assert(acc0 + (seq![rec0] + rs) =~= acc.deep_view() + rs);
                            },
                            None => {
                                assert(parse_enc_items(s@, i as int) is None);
                            },
                        }
                    }
                    i = j + 1;
                } else if j < s.len() && s[j] == RBRACKET {
                    let ghost acc0 = acc.deep_view();
                    let ghost rec0 = rec@;
                    acc.push(rec);
                    proof {
                        assert(acc.deep_view() =~= acc0.push(rec0));
                        assert(parse_enc_items(s@, i as int) == Some((seq![rec0], j + 1)));
                        assert(acc0 + seq![rec0] =~= acc.deep_view());
                    }
                    return Some((acc, j + 1));
                } else {
                    proof {
                        assert(parse_enc_items(s@, i as int) is None);
                    }
                    return None;
                }
            },
        }
    }
}

/// Parses a whole history image, exactly as [`parse_encs`] describes;
/// `None` when the image is not one canonical JSON array of encrypted
/// records.
pub fn parse_entries(img: &Vec<u8>) -> (r: Option<Vec<EncryptedEntry>>)
    ensures
        match r {
            Some(v) => parse_encs(img@) == Some(v.deep_view()),
            None => parse_encs(img@) is None,
        },
{
    if img.len() >= 2 && img[0] == LBRACKET {
        if img.len() == 2 && img[1] == RBRACKET {
            let empty: Vec<EncryptedEntry> = Vec::new();
            proof {
                assert(empty.deep_view() =~= Seq::<EncRec>::empty());
            }
            Some(empty)
        } else {
            match parse_enc_list(img, 1) {
                None => None,
                Some((v, j)) => {
                    if j == img.len() {
                        Some(v)
                    } else {
                        None
                    }
                },
            }
        }
    } else {
        None
    }
}


// ---------------------------------------------------------------------------
// Round trip: parsing an emitted image recovers the records exactly
// ---------------------------------------------------------------------------

/// One byte of a matched pattern stands in `s` at its offset.
proof fn lemma_match_byte(s: Seq<u8>, i: int, p: Seq<u8>, k: int)
    requires
        match_at(s, i, p),
        0 <= k < p.len(),
    ensures
        s[i + k] == p[k],
{
    assert(s.subrange(i, i + p.len())[k] == p[k]);
}

/// A match of a concatenation splits into matches of the parts.
proof fn lemma_match_split(s: Seq<u8>, i: int, a: Seq<u8>, b: Seq<u8>)
    requires
        match_at(s, i, a + b),
    ensures
        match_at(s, i, a),
        match_at(s, i + a.len(), b),
{
    assert forall|k: int| 0 <= k < a.len() implies s.subrange(i, i + a.len() as int)[k] == a[k] by {
        lemma_match_byte(s, i, a + b, k);
        assert((a + b)[k] == a[k]);
    }
    assert(s.subrange(i, i + a.len() as int) =~= a);
    assert forall|k: int| 0 <= k < b.len() implies s.subrange(
        i + a.len(),
        i + a.len() + b.len(),
    )[k] == b[k] by {
        lemma_match_byte(s, i, a + b, a.len() + k);
        assert((a + b)[a.len() + k] == b[k]);
    }
    assert(s.subrange(i + a.len(), i + a.len() + b.len()) =~= b);
}

/// The canonical digits of a byte parse back to that byte, when a
/// non-digit follows them.
proof fn lemma_parse_dec(s: Seq<u8>, i: int, v: u8)
    requires
        match_at(s, i, dec_of_byte(v)),
        i + dec_of_byte(v).len() < s.len(),
        !is_digit(s[i + dec_of_byte(v).len()]),
    ensures
        parse_byte_at(s, i) == Some((v, i + dec_of_byte(v).len())),
{
    let d = dec_of_byte(v);
    if v < 10 {
        lemma_match_byte(s, i, d, 0);
        assert(s[i] == 48 + v);
    } else if v < 100 {
        lemma_match_byte(s, i, d, 0);
        lemma_match_byte(s, i, d, 1);
        assert(v / 10 <= 9) by (nonlinear_arith)
            requires
                v < 100,
        ;
        assert(v / 10 >= 1) by (nonlinear_arith)
            requires
                v >= 10,
        ;
        assert(s[i] == 48 + v / 10);
        assert(s[i + 1] == 48 + v % 10);
        vstd::arithmetic::div_mod::lemma_fundamental_div_mod(v as int, 10);
    } else {
        lemma_match_byte(s, i, d, 0);
        lemma_match_byte(s, i, d, 1);
        lemma_match_byte(s, i, d, 2);
        assert(v / 100 >= 1 && v / 100 <= 2) by (nonlinear_arith)
            requires
                100 <= v < 256,
        ;
        assert((v / 10) % 10 <= 9);
        assert(s[i] == 48 + v / 100);
        assert(s[i + 1] == 48 + (v / 10) % 10);
        assert(s[i + 2] == 48 + v % 10);
        vstd::arithmetic::div_mod::lemma_fundamental_div_mod(v as int, 10);
        vstd::arithmetic::div_mod::lemma_fundamental_div_mod(v as int / 10, 10);
        vstd::arithmetic::div_mod::lemma_div_denominator(v as int, 10, 10);
        assert((v as int / 10) / 10 == v as int / 100);
        assert((s[i] - 48) * 100 + (s[i + 1] - 48) * 10 + (s[i + 2] - 48) == v);
    }
}

/// The emitted items of a non-empty byte string parse back to it.
proof fn lemma_parse_byte_items_of_json(s: Seq<u8>, i: int, bs: Seq<u8>)
    requires
        bs.len() > 0,
        match_at(s, i, json_of_byte_items(bs)),
    ensures
        parse_byte_items(s, i) == Some((bs, i + json_of_byte_items(bs).len())),
    decreases bs.len(),
{
    let d = dec_of_byte(bs[0]);
    let seg = json_of_byte_items(bs);
    if bs.len() == 1 {
        assert(seg == d + seq![RBRACKET]);
        lemma_match_split(s, i, d, seq![RBRACKET]);
        lemma_match_byte(s, i + d.len(), seq![RBRACKET], 0);
        assert(s[i + d.len()] == RBRACKET);
        lemma_parse_dec(s, i, bs[0]);
        assert(seq![bs[0]] =~= bs);
    } else {
        let tail = bs.drop_first();
        let tail_seg = json_of_byte_items(tail);
        assert(seg == d + seq![COMMA] + tail_seg);
        assert(seg =~= d + (seq![COMMA] + tail_seg));
        lemma_match_split(s, i, d, seq![COMMA] + tail_seg);
        lemma_match_split(s, i + d.len(), seq![COMMA], tail_seg);
        lemma_match_byte(s, i + d.len(), seq![COMMA], 0);
        assert(s[i + d.len()] == COMMA);
        lemma_parse_dec(s, i, bs[0]);
        lemma_parse_byte_items_of_json(s, i + d.len() + 1, tail);
        assert(seq![bs[0]] + tail =~= bs);
    }
}

/// An emitted byte string parses back to itself.
proof fn lemma_parse_bytes_of_json(s: Seq<u8>, i: int, bs: Seq<u8>)
    requires
        match_at(s, i, json_of_bytes(bs)),
    ensures
        parse_bytes_at(s, i) == Some((bs, i + json_of_bytes(bs).len())),
{
    if bs.len() == 0 {
        lemma_match_byte(s, i, json_of_bytes(bs), 0);
        lemma_match_byte(s, i, json_of_bytes(bs), 1);
        assert(s[i] == LBRACKET && s[i + 1] == RBRACKET);
        assert(bs =~= Seq::<u8>::empty());
    } else {
        let seg = json_of_byte_items(bs);
        assert(json_of_bytes(bs) =~= seq![LBRACKET] + seg);
        lemma_match_split(s, i, seq![LBRACKET], seg);
        lemma_match_byte(s, i, seq![LBRACKET], 0);
        assert(s[i] == LBRACKET);
        assert(seg[0] == dec_of_byte(bs[0])[0]);
        assert(is_digit(dec_of_byte(bs[0])[0]));
        lemma_match_byte(s, i + 1, seg, 0);
        assert(s[i + 1] == seg[0]);
        assert(s[i + 1] != RBRACKET);
        lemma_parse_byte_items_of_json(s, i + 1, bs);
    }
}

/// An emitted kind tag parses back to itself.
proof fn lemma_parse_kind_of_json(s: Seq<u8>, i: int, k: EntryKind)
    requires
        match_at(s, i, json_of_kind(k)),
    ensures
        parse_kind_at(s, i) == Some((k, i + json_of_kind(k).len())),
{
    match k {
        EntryKind::Text => {
        },
        EntryKind::Image => {
            lemma_match_byte(s, i, lab_image(), 1);
            assert(s[i + 1] == 73);
            if match_at(s, i, lab_text()) {
                lemma_match_byte(s, i, lab_text(), 1);
                assert(false);
            }
        },
    }
}

/// An emitted record parses back to itself.
#[verifier::spinoff_prover]
#[verifier::rlimit(100)]
proof fn lemma_parse_enc_of_json(s: Seq<u8>, i: int, r: EncRec)
    requires
        match_at(s, i, json_of_enc(r)),
    ensures
        parse_enc_at(s, i) == Some((r, i + json_of_enc(r).len())),
{
    let ct_seg = json_of_bytes(r.ciphertext);
    let nc_seg = json_of_bytes(r.nonce);
    let kd_seg = json_of_kind(r.kind);
    let p1 = i + lab_open().len();
    let p2 = p1 + ct_seg.len();
    let p3 = p2 + lab_nonce().len();
    let p4 = p3 + nc_seg.len();
    let p5 = p4 + lab_kind().len();
    let p6 = p5 + kd_seg.len();
    assert(json_of_enc(r) =~= lab_open() + (ct_seg + (lab_nonce() + (nc_seg + (lab_kind() + (
    kd_seg + seq![RBRACE]))))));
    lemma_match_split(s, i, lab_open(), ct_seg + (lab_nonce() + (nc_seg + (lab_kind() + (kd_seg
        + seq![RBRACE])))));
    lemma_match_split(s, p1, ct_seg, lab_nonce() + (nc_seg + (lab_kind() + (kd_seg
        + seq![RBRACE]))));
    lemma_match_split(s, p2, lab_nonce(), nc_seg + (lab_kind() + (kd_seg + seq![RBRACE])));
    lemma_match_split(s, p3, nc_seg, lab_kind() + (kd_seg + seq![RBRACE]));
    lemma_match_split(s, p4, lab_kind(), kd_seg + seq![RBRACE]);
    lemma_match_split(s, p5, kd_seg, seq![RBRACE]);
    lemma_match_byte(s, p6, seq![RBRACE], 0);
    assert(s[p6] == RBRACE);
    lemma_parse_bytes_of_json(s, p1, r.ciphertext);
    lemma_parse_bytes_of_json(s, p3, r.nonce);
    lemma_parse_kind_of_json(s, p5, r.kind);
    assert(parse_enc_at(s, i) == Some(
        (EncRec { ciphertext: r.ciphertext, nonce: r.nonce, kind: r.kind }, p6 + 1),
    ));
}

/// The emitted items of a non-empty history parse back to it.
#[verifier::spinoff_prover]
#[verifier::rlimit(100)]
proof fn lemma_parse_enc_items_of_json(s: Seq<u8>, i: int, rs: Seq<EncRec>)
    requires
        rs.len() > 0,
        match_at(s, i, json_of_enc_items(rs)),
    ensures
        parse_enc_items(s, i) == Some((rs, i + json_of_enc_items(rs).len())),
    decreases rs.len(),
{
    let d = json_of_enc(rs[0]);
    let seg = json_of_enc_items(rs);
    if rs.len() == 1 {
        assert(seg == d + seq![RBRACKET]);
        lemma_match_split(s, i, d, seq![RBRACKET]);
        lemma_match_byte(s, i + d.len(), seq![RBRACKET], 0);
        assert(s[i + d.len()] == RBRACKET);
        lemma_parse_enc_of_json(s, i, rs[0]);
        assert(seq![rs[0]] =~= rs);
    } else {
        let tail = rs.drop_first();
        let tail_seg = json_of_enc_items(tail);
        assert(seg == d + seq![COMMA] + tail_seg);
        assert(seg =~= d + (seq![COMMA] + tail_seg));
        lemma_match_split(s, i, d, seq![COMMA] + tail_seg);
        lemma_match_split(s, i + d.len(), seq![COMMA], tail_seg);
        lemma_match_byte(s, i + d.len(), seq![COMMA], 0);
        assert(s[i + d.len()] == COMMA);
        lemma_parse_enc_of_json(s, i, rs[0]);
        lemma_parse_enc_items_of_json(s, i + d.len() + 1, tail);
        assert(seq![rs[0]] + tail =~= rs);
    }
}

/// The non-empty case of the round trip, proved in its own prover
/// instance.
#[verifier::spinoff_prover]
#[verifier::rlimit(100)]
proof fn lemma_json_round_trip_nonempty(rs: Seq<EncRec>)
    requires
        rs.len() > 0,
    ensures
        parse_encs(json_of_encs(rs)) == Some(rs),
{
    let s = json_of_encs(rs);
    {
        let seg = json_of_enc_items(rs);
        assert(s == seq![LBRACKET] + seg);
        assert(s[0] == LBRACKET);
        assert(match_at(s, 1, seg)) by {
            assert(s.subrange(1, 1 + seg.len() as int) =~= seg);
        }
        lemma_parse_enc_items_of_json(s, 1, rs);
        assert(seg[0] == json_of_enc(rs[0])[0]);
        assert(json_of_enc(rs[0])[0] == lab_open()[0]);
        assert(s[1] == seg[0]);
        assert(s.len() >= 2);
        if s.len() == 2 && s[1] == RBRACKET {
            assert(false);
        }
        assert(1 + seg.len() == s.len());
    }
}

/// Round trip of the durable image: parsing what [`json_of_encs`] emits
/// recovers the records exactly.
pub proof fn lemma_json_round_trip(rs: Seq<EncRec>)
    ensures
        parse_encs(json_of_encs(rs)) == Some(rs),
{
    if rs.len() == 0 {
        assert(rs =~= Seq::<EncRec>::empty());
    } else {
        lemma_json_round_trip_nonempty(rs);
    }
}

} // verus!



