//! The query boundary: what external callers receive.
//!
//! The transport (a WebSocket RPC layer) lives in the surrounding
//! program; this module computes the payloads. `get_entries` answers with
//! the decrypted history as one JSON array, most recent first, each entry
//! as `{"bytes":[...],"kind":"Text","datetime":[...]}` with byte strings
//! as arrays of decimal numbers.

use vstd::prelude::*;

verus! {

use crate::entry::{Entry, EntryModel};
use crate::jsonfmt::{
    emit_bytes,
    emit_kind,
    json_of_bytes,
    json_of_kind,
    lab_kind,
    COMMA,
    LBRACKET,
    RBRACE,
    RBRACKET,
};

/// The liveness probe's constant answer.
pub fn ping() -> (r: &'static str)
    ensures
        r@ == "pong"@,
{
    "pong"
}

/// Where the query boundary listens by default.
pub fn default_addr() -> (r: &'static str)
    ensures
        r@ == "127.0.0.1:22766"@,
{
    "127.0.0.1:22766"
}

/// The bytes of `{"bytes":`.
pub open spec fn lab_bytes_open() -> Seq<u8> {
    seq![123u8, 34, 98, 121, 116, 101, 115, 34, 58]
}

/// The bytes of `,"datetime":`.
pub open spec fn lab_datetime() -> Seq<u8> {
    seq![44u8, 34, 100, 97, 116, 101, 116, 105, 109, 101, 34, 58]
}

/// One decrypted entry as a JSON object.
pub open spec fn json_of_entry(m: EntryModel) -> Seq<u8> {
    lab_bytes_open() + json_of_bytes(m.content) + lab_kind() + json_of_kind(m.kind)
        + lab_datetime() + json_of_bytes(m.stamp) + seq![RBRACE]
}

/// The items of the answer array, with the closing bracket appended.
pub open spec fn json_of_entry_items(es: Seq<EntryModel>) -> Seq<u8>
    decreases es.len(),
{
    if es.len() == 0 {
        Seq::empty()
    } else if es.len() == 1 {
        json_of_entry(es[0]) + seq![RBRACKET]
    } else {
        json_of_entry(es[0]) + seq![COMMA] + json_of_entry_items(es.drop_first())
    }
}

/// A whole history, decrypted, as one JSON array.
pub open spec fn json_of_entry_list(es: Seq<EntryModel>) -> Seq<u8> {
    if es.len() == 0 {
        seq![LBRACKET, RBRACKET]
    } else {
        seq![LBRACKET] + json_of_entry_items(es)
    }
}

/// Emits `{"bytes":`.
fn emit_lab_bytes_open(out: &mut Vec<u8>)
    ensures
        final(out)@ == old(out)@ + lab_bytes_open(),
{
    out.push(123);
    out.push(34);
    out.push(98);
    out.push(121);
    out.push(116);
    out.push(101);
    out.push(115);
    out.push(34);
    out.push(58);
    assert(out@ =~= old(out)@ + lab_bytes_open());
}

/// Emits `,"kind":`.
fn emit_lab_kind(out: &mut Vec<u8>)
    ensures
        final(out)@ == old(out)@ + lab_kind(),
{
    out.push(44);
    out.push(34);
    out.push(107);
    out.push(105);
    out.push(110);
    out.push(100);
    out.push(34);
    out.push(58);
    assert(out@ =~= old(out)@ + lab_kind());
}

/// Emits `,"datetime":`.
fn emit_lab_datetime(out: &mut Vec<u8>)
    ensures
        final(out)@ == old(out)@ + lab_datetime(),
{
    out.push(44);
    out.push(34);
    out.push(100);
    out.push(97);
    out.push(116);
    out.push(101);
    out.push(116);
    out.push(105);
    out.push(109);
    out.push(101);
    out.push(34);
    out.push(58);
    assert(out@ =~= old(out)@ + lab_datetime());
}

/// Emits one decrypted entry as a JSON object.
fn emit_entry(out: &mut Vec<u8>, e: &Entry)
    ensures
        final(out)@ == old(out)@ + json_of_entry(e@),
{
    emit_lab_bytes_open(out);
    emit_bytes(out, &e.bytes);
    emit_lab_kind(out);
    emit_kind(out, e.kind);
    emit_lab_datetime(out);
    emit_bytes(out, &e.datetime);
    out.push(RBRACE);
    assert(out@ =~= old(out)@ + json_of_entry(e@));
}

/// The `get_entries` answer: the given history, already decrypted, as one
/// JSON array, most recent first.
pub fn get_entries_json(entries: &Vec<Entry>) -> (r: Vec<u8>)
    ensures
        r@ == json_of_entry_list(entries.deep_view()),
{
    let ghost all = entries.deep_view();
    let mut out: Vec<u8> = Vec::new();
    out.push(LBRACKET);
    if entries.len() == 0 {
        out.push(RBRACKET);
        assert(out@ =~= json_of_entry_list(all));
        return out;
    }
    proof {
        assert(all.len() == entries@.len());
        assert(all.skip(0) =~= all);
        assert(out@ + json_of_entry_items(all) =~= json_of_entry_list(all));
    }
    let mut i: usize = 0;
    while i + 1 < entries.len()
        invariant
            i < entries.len(),
            all == entries.deep_view(),
            all.len() == entries@.len(),
            json_of_entry_list(all) == out@ + json_of_entry_items(all.skip(i as int)),
        decreases entries.len() - i,
    {
        let ghost pre = out@;
        let ghost rest = all.skip(i as int);
        emit_entry(&mut out, &entries[i]);
        out.push(COMMA);
        proof {
            assert(rest[0] == entries@[i as int].deep_view());
            assert(rest.len() >= 2);
            assert(json_of_entry_items(rest) == json_of_entry(rest[0]) + seq![COMMA]
                + json_of_entry_items(rest.drop_first()));
            assert(rest.drop_first() =~= all.skip(i + 1));
            assert(out@ =~= pre + (json_of_entry(entries@[i as int]@) + seq![COMMA]));
            assert(pre + json_of_entry_items(rest) =~= out@ + json_of_entry_items(
                all.skip(i + 1),
            ));
        }
        i = i + 1;
    }
    let ghost pre = out@;
    let ghost rest = all.skip(i as int);
    emit_entry(&mut out, &entries[i]);
    out.push(RBRACKET);
    proof {
        assert(rest.len() == 1);
        assert(rest[0] == entries@[i as int].deep_view());
        assert(json_of_entry_items(rest) == json_of_entry(rest[0]) + seq![RBRACKET]);
        assert(out@ =~= pre + (json_of_entry(entries@[i as int]@) + seq![RBRACKET]));
        assert(out@ =~= json_of_entry_list(all));
    }
    out
}

} // verus!
