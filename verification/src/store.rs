//! The history store: a bounded, deduplicated, ordered collection of
//! clipboard captures, most recent first, persisted as one encrypted JSON
//! image.
//!
//! The store owns the durable image as a byte buffer: `save` rewrites the
//! whole buffer from the in-memory entries (sealing each under the store's
//! key with a fresh nonce), `load` rebuilds the entries from the buffer.
//! The surrounding program reads the image from its file into the store at
//! construction and writes [`ClipboardStorage::storage_bytes`] back to the
//! file after every mutating call; the store itself performs no I/O.

use vstd::prelude::*;

verus! {

use crate::entry::{
    decode_entry,
    decode_model,
    encodable_model,
    EncRec,
    EncryptedEntry,
    Entry,
    EntryError,
    EntryModel,
};
use crate::jsonfmt::{emit_entries, parse_encs, parse_entries};
use crate::Key;

/// How many entries a store keeps unless told otherwise.
pub const DEFAULT_MAX_ENTRIES: usize = 5;

/// How the store can fail.
#[derive(Debug)]
pub enum ClipboardStorageError {
    /// An operation the store cannot perform, such as removing an entry at
    /// or past the end.
    InvalidOperation(String),
    /// The durable image cannot be produced or understood: a malformed
    /// history file, a record that fails to open, or an entry the cipher
    /// refuses.
    Serialization(String),
    /// Anything else, carrying an opaque cause description.
    Unknown(String),
}

impl From<EntryError> for ClipboardStorageError {
    /// Codec failures surface as `Serialization`, so a caller can tell a
    /// corrupt record from an I/O fault.
    fn from(value: EntryError) -> (r: ClipboardStorageError) {
        match value {
            EntryError::Decode(s) => ClipboardStorageError::Serialization(s),
            EntryError::Encode(s) => ClipboardStorageError::Serialization(s),
            EntryError::Unknown(s) => ClipboardStorageError::Unknown(s),
        }
    }
}

impl vstd::std_specs::convert::FromSpecImpl<EntryError> for ClipboardStorageError {
    open spec fn obeys_from_spec() -> bool {
        true
    }

    open spec fn from_spec(value: EntryError) -> ClipboardStorageError {
        match value {
            EntryError::Decode(s) => ClipboardStorageError::Serialization(s),
            EntryError::Encode(s) => ClipboardStorageError::Serialization(s),
            EntryError::Unknown(s) => ClipboardStorageError::Unknown(s),
        }
    }
}

// ---------------------------------------------------------------------------
// The mathematical model of the store's operations
// ---------------------------------------------------------------------------

/// Is `c` the content of some entry of `s`?
pub open spec fn has_content(s: Seq<EntryModel>, c: Seq<u8>) -> bool {
    exists|i: int| 0 <= i < s.len() && s[i].content == c
}

/// The least index of `s` whose entry holds content `c`; `s.len()` when
/// none does.
pub open spec fn index_of_content(s: Seq<EntryModel>, c: Seq<u8>) -> int
    decreases s.len(),
{
    if s.len() == 0 {
        0
    } else if s[0].content == c {
        0
    } else {
        1 + index_of_content(s.drop_first(), c)
    }
}

/// `index_of_content` finds the first match, and only misses when there is
/// none.
pub proof fn lemma_index_of_content(s: Seq<EntryModel>, c: Seq<u8>)
    ensures
        0 <= index_of_content(s, c) <= s.len(),
        has_content(s, c) <==> index_of_content(s, c) < s.len(),
        index_of_content(s, c) < s.len() ==> s[index_of_content(s, c)].content == c,
        forall|j: int| 0 <= j < index_of_content(s, c) ==> s[j].content != c,
    decreases s.len(),
{
    if s.len() == 0 {
    } else if s[0].content == c {
    } else {
        let t = s.drop_first();
        lemma_index_of_content(t, c);
        let i = index_of_content(s, c);
        assert forall|j: int| 0 <= j < i implies s[j].content != c by {
            if j > 0 {
                assert(s[j] == t[j - 1]);
            }
        }
        if has_content(s, c) {
            let w = choose|w: int| 0 <= w < s.len() && s[w].content == c;
            assert(t[w - 1].content == c);
            assert(has_content(t, c));
        }
        if has_content(t, c) {
            let w = choose|w: int| 0 <= w < t.len() && t[w].content == c;
            assert(s[w + 1] == t[w]);
            assert(has_content(s, c));
        }
        if i < s.len() {
            assert(s[i] == t[i - 1]);
        }
    }
}

/// The entry at `i` moved to the front; everything else keeps its order.
pub open spec fn move_to_front(s: Seq<EntryModel>, i: int) -> Seq<EntryModel>
    recommends
        0 <= i < s.len(),
{
    seq![s[i]] + s.subrange(0, i) + s.subrange(i + 1, s.len() as int)
}

/// What one `add_entry` does to the history: an entry with known content
/// moves its stored twin to the front; a new one is inserted at the front,
/// and the oldest entries fall off the back until `max` remain.
pub open spec fn add_model(s: Seq<EntryModel>, e: EntryModel, max: nat) -> Seq<EntryModel> {
    if has_content(s, e.content) {
        move_to_front(s, index_of_content(s, e.content))
    } else {
        let grown = seq![e] + s;
        if grown.len() <= max {
            grown
        } else {
            grown.take(max as int)
        }
    }
}

/// Can every entry of `s` be sealed?
pub open spec fn all_encodable(s: Seq<EntryModel>) -> bool {
    forall|i: int| 0 <= i < s.len() ==> encodable_model(#[trigger] s[i])
}

/// Does the durable image `img` hold, under `key`, exactly the entries
/// `es`? It must parse as an encrypted array of the same length whose
/// records open, in order, to exactly `es`.
pub open spec fn image_represents(img: Seq<u8>, key: Seq<u8>, es: Seq<EntryModel>) -> bool {
    match parse_encs(img) {
        Some(recs) => recs.len() == es.len() && forall|i: int|
            0 <= i < es.len() ==> decode_model(#[trigger] recs[i], key) == Some(es[i]),
        None => false,
    }
}

/// What decoding a whole parsed image yields: every record must open.
pub open spec fn load_model(recs: Seq<EncRec>, key: Seq<u8>) -> Option<Seq<EntryModel>>
    decreases recs.len(),
{
    if recs.len() == 0 {
        Some(Seq::empty())
    } else {
        match decode_model(recs[0], key) {
            None => None,
            Some(e) => match load_model(recs.drop_first(), key) {
                None => None,
                Some(es) => Some(seq![e] + es),
            },
        }
    }
}

/// When every record of an image opens to the matching entry, loading the
/// image yields exactly those entries.
pub proof fn lemma_decode_all(recs: Seq<EncRec>, key: Seq<u8>, es: Seq<EntryModel>)
    requires
        recs.len() == es.len(),
        forall|i: int| 0 <= i < es.len() ==> decode_model(#[trigger] recs[i], key) == Some(es[i]),
    ensures
        load_model(recs, key) == Some(es),
    decreases recs.len(),
{
    if recs.len() == 0 {
        assert(es =~= Seq::<EntryModel>::empty());
    } else {
        let rt = recs.drop_first();
        let et = es.drop_first();
        assert forall|i: int| 0 <= i < et.len() implies decode_model(#[trigger] rt[i], key)
            == Some(et[i]) by {
            assert(rt[i] == recs[i + 1]);
            assert(et[i] == es[i + 1]);
        }
        lemma_decode_all(rt, key, et);
        assert(decode_model(recs[0], key) == Some(es[0]));
        assert(seq![es[0]] + et =~= es);
    }
}

/// Law (persistence round trip): an image that represents entries loads
/// back to exactly those entries — order and content preserved.
pub proof fn lemma_persist_round_trip(img: Seq<u8>, key: Seq<u8>, es: Seq<EntryModel>)
    requires
        image_represents(img, key, es),
    ensures
        parse_encs(img) is Some,
        load_model(parse_encs(img).unwrap(), key) == Some(es),
{
    let recs = parse_encs(img).unwrap();
    lemma_decode_all(recs, key, es);
}

// ---------------------------------------------------------------------------
// The store
// ---------------------------------------------------------------------------

/// The bounded, deduplicated, persisted clipboard history.
pub struct ClipboardStorage {
    storage: Vec<u8>,
    entries: Vec<Entry>,
    max_entries: usize,
    key: Key,
}

impl ClipboardStorage {
    /// The in-memory history, most recent first.
    pub closed spec fn entries_view(&self) -> Seq<EntryModel> {
        self.entries.deep_view()
    }

    /// The durable image the surrounding program writes to disk.
    pub closed spec fn storage_view(&self) -> Seq<u8> {
        self.storage@
    }

    /// The bound on the history's length.
    pub closed spec fn max_view(&self) -> nat {
        self.max_entries as nat
    }

    /// The key every entry is sealed under.
    pub closed spec fn key_view(&self) -> Seq<u8> {
        self.key@
    }

    /// A store over a durable image read from the handle — pass the file's
    /// current content, or an empty buffer for a fresh store — and a
    /// 32-byte key.
    pub fn new(storage: Vec<u8>, key: Key) -> (s: ClipboardStorage)
        ensures
            s.entries_view() =~= Seq::<EntryModel>::empty(),
            s.storage_view() == storage@,
            s.max_view() == DEFAULT_MAX_ENTRIES,
            s.key_view() == key@,
    {
        let s = ClipboardStorage { storage, entries: Vec::new(), max_entries: DEFAULT_MAX_ENTRIES, key };
        proof {
            assert(s.entries.deep_view() =~= Seq::<EntryModel>::empty());
        }
        s
    }

    /// Caps the history at `n` entries; anything past the cap is dropped,
    /// oldest first.
    pub fn set_max_entries(&mut self, n: usize)
        ensures
            final(self).max_view() == n,
            final(self).entries_view() == if old(self).entries_view().len() <= n {
                old(self).entries_view()
            } else {
                old(self).entries_view().take(n as int)
            },
            final(self).storage_view() == old(self).storage_view(),
            final(self).key_view() == old(self).key_view(),
    {
        self.max_entries = n;
        if self.entries.len() > n {
            let ghost before = self.entries.deep_view();
            self.entries.truncate(n);
            proof {
                assert(self.entries.deep_view() =~= before.take(n as int));
            }
        }
    }

    /// How many entries the history holds.
    pub fn size(&self) -> (r: usize)
        ensures
            r == self.entries_view().len(),
    {
        self.entries.len()
    }

    /// The history, most recent first.
    pub fn list_entries(&self) -> (r: &Vec<Entry>)
        ensures
            r.deep_view() == self.entries_view(),
    {
        &self.entries
    }

    /// The entry at `idx`, wrapping past the end: the caller must ensure
    /// the store is not empty, as wrapping on an empty store has no
    /// defined answer.
    pub fn get_entry(&self, idx: usize) -> (r: &Entry)
        requires
            self.entries_view().len() > 0,
        ensures
            r.deep_view() == self.entries_view()[(idx as int) % (self.entries_view().len() as int)],
    {
        &self.entries[idx % self.entries.len()]
    }

    /// The bytes the surrounding program writes to the durable handle.
    pub fn storage_bytes(&self) -> (r: &Vec<u8>)
        ensures
            r@ == self.storage_view(),
    {
        &self.storage
    }

    /// Rewrites the whole durable image from the in-memory history: every
    /// entry sealed under the store's key with a fresh nonce, then laid
    /// out as one JSON array, most recent first. Succeeds exactly when
    /// every entry fits the cipher's limit; on failure the image is left
    /// as it was.
    pub fn save(&mut self) -> (r: Result<(), ClipboardStorageError>)
        ensures
            final(self).entries_view() == old(self).entries_view(),
            final(self).max_view() == old(self).max_view(),
            final(self).key_view() == old(self).key_view(),
            r is Ok <==> all_encodable(old(self).entries_view()),
            r is Ok ==> image_represents(
                final(self).storage_view(),
                old(self).key_view(),
                old(self).entries_view(),
            ),
            r matches Err(e) ==> e is Serialization && final(self).storage_view() == old(
                self,
            ).storage_view(),
    {
        let ghost es = self.entries.deep_view();
        let mut recs: Vec<EncryptedEntry> = Vec::new();
        let mut i: usize = 0;
        proof {
            assert(recs.deep_view() =~= Seq::<EncRec>::empty());
        }
        while i < self.entries.len()
            invariant
                i <= self.entries.len(),
                es == self.entries.deep_view(),
                recs.deep_view().len() == i,
                forall|j: int| 0 <= j < i ==> decode_model(
                    #[trigger] recs.deep_view()[j],
                    self.key@,
                ) == Some(es[j]),
                forall|j: int| 0 <= j < i ==> encodable_model(#[trigger] es[j]),
            decreases self.entries.len() - i,
        {
            let ghost recs0 = recs.deep_view();
            match self.entries[i].encode(&self.key) {
                Ok(ee) => {
                    let ghost ee0 = ee@;
                    recs.push(ee);
                    proof {
                        assert(recs.deep_view() =~= recs0.push(ee0));
                    }
                },
                Err(e) => {
                    proof {
                        assert(es[i as int] == self.entries@[i as int].deep_view());
                        assert(!encodable_model(es[i as int]));
                        assert(!all_encodable(es));
                    }
                    return Err(ClipboardStorageError::from(e));
                },
            }
            i = i + 1;
        }
        let img = emit_entries(&recs);
        proof {
            crate::jsonfmt::lemma_json_round_trip(recs.deep_view());
        }
        self.storage = img;
        Ok(())
    }

    /// Rebuilds the in-memory history from the durable image. An empty
    /// image is valid — it stands for a fresh store and is normalized by
    /// writing the current (empty) history back — while a non-empty image
    /// that does not parse, or holds a record that does not open under the
    /// store's key, is a fatal `Serialization` error that leaves the
    /// history untouched; the store is never silently reset.
    pub fn load(&mut self) -> (r: Result<(), ClipboardStorageError>)
        ensures
            final(self).max_view() == old(self).max_view(),
            final(self).key_view() == old(self).key_view(),
            old(self).storage_view().len() > 0 ==> final(self).storage_view() == old(
                self,
            ).storage_view(),
            old(self).storage_view().len() > 0 ==> match parse_encs(old(self).storage_view()) {
                None => r is Err && final(self).entries_view() == old(self).entries_view(),
                Some(recs) => match load_model(recs, old(self).key_view()) {
                    None => r is Err && final(self).entries_view() == old(self).entries_view(),
                    Some(es) => r is Ok && final(self).entries_view() == es,
                },
            },
            old(self).storage_view().len() == 0 ==> final(self).entries_view() == old(
                self,
            ).entries_view(),
            old(self).storage_view().len() == 0 ==> if all_encodable(old(self).entries_view()) {
                r is Ok && image_represents(
                    final(self).storage_view(),
                    old(self).key_view(),
                    old(self).entries_view(),
                )
            } else {
                r is Err && final(self).storage_view() == old(self).storage_view()
            },
            r matches Err(e) ==> e is Serialization,
    {
        if self.storage.len() == 0 {
            return self.save();
        }
        let recs = match parse_entries(&self.storage) {
            None => {
                return Err(
                    ClipboardStorageError::Serialization("malformed history file".to_owned()),
                );
            },
            Some(v) => v,
        };
        let ghost all = recs.deep_view();
        let mut loaded: Vec<Entry> = Vec::new();
        let mut i: usize = 0;
        proof {
            assert(loaded.deep_view() =~= Seq::<EntryModel>::empty());
            assert(all.skip(0) =~= all);
            if load_model(all, self.key@) is Some {
                let es = load_model(all, self.key@).unwrap();
                assert(Seq::<EntryModel>::empty() + es =~= es);
            }
        }
        while i < recs.len()
            invariant
                i <= recs.len(),
                all == recs.deep_view(),
                all.len() == recs@.len(),
                *self == *old(self),
                self.key@ == old(self).key_view(),
                old(self).storage_view().len() > 0,
                parse_encs(old(self).storage_view()) == Some(all),
                loaded.deep_view().len() == i,
                match load_model(all.skip(i as int), self.key@) {
                    Some(es) => load_model(all, self.key@) == Some(loaded.deep_view() + es),
                    None => load_model(all, self.key@) is None,
                },
            decreases recs.len() - i,
        {
            let ghost rest = all.skip(i as int);
            let ghost loaded0 = loaded.deep_view();
            match decode_entry(&recs[i], &self.key) {
                Err(_) => {
                    proof {
                        assert(rest.len() > 0);
                        assert(rest[0] == all[i as int]);
                        assert(all[i as int] == recs@[i as int]@);
                        assert(decode_model(rest[0], self.key@) is None);
                        assert(load_model(rest, self.key@) is None);
                    }
                    return Err(
                        ClipboardStorageError::Serialization(
                            "a stored record does not open under this key".to_owned(),
                        ),
                    );
                },
                Ok(e) => {
                    let ghost e0 = e@;
                    loaded.push(e);
                    proof {
                        assert(loaded.deep_view() =~= loaded0.push(e0));
                        assert(rest[0] == all[i as int]);
                        assert(rest.drop_first() =~= all.skip(i + 1));
                        match load_model(all.skip(i + 1), self.key@) {
                            Some(es) => {
                                assert(load_model(rest, self.key@) == Some(seq![e0] + es));
                                assert(loaded0 + (seq![e0] + es) =~= loaded.deep_view() + es);
                            },
                            None => {
                                assert(load_model(rest, self.key@) is None);
                            },
                        }
                    }
                },
            }
            i = i + 1;
        }
        proof {
            assert(all.skip(i as int) =~= Seq::<EncRec>::empty());
            let es = load_model(all, self.key@).unwrap();
            assert(loaded.deep_view() + Seq::<EntryModel>::empty() =~= loaded.deep_view());
        }
        self.entries = loaded;
        Ok(())
    }

    /// Adds one capture to the history and persists. An entry whose
    /// content is already present moves its stored twin to the front —
    /// the stored kind and timestamp stay as they were — while new content
    /// is inserted at the front, evicting the oldest entries past the
    /// bound. The in-memory change happens in any case; the call succeeds
    /// exactly when the changed history can be sealed, and on failure the
    /// durable image is left as it was.
    pub fn add_entry(&mut self, entry: Entry) -> (r: Result<(), ClipboardStorageError>)
        ensures
            final(self).max_view() == old(self).max_view(),
            final(self).key_view() == old(self).key_view(),
            final(self).entries_view() == add_model(
                old(self).entries_view(),
                entry@,
                old(self).max_view(),
            ),
            r is Ok <==> all_encodable(final(self).entries_view()),
            r is Ok ==> image_represents(
                final(self).storage_view(),
                old(self).key_view(),
                final(self).entries_view(),
            ),
            r matches Err(e) ==> e is Serialization && final(self).storage_view() == old(
                self,
            ).storage_view(),
    {
        let ghost s0 = self.entries.deep_view();
        match find_content(&self.entries, &entry.bytes) {
            Some(i) => {
                proof {
                    lemma_index_of_content(s0, entry@.content);
                    assert(has_content(s0, entry@.content));
                    assert(index_of_content(s0, entry@.content) == i as int);
                }
                let moved = self.entries.remove(i);
                self.entries.insert(0, moved);
                proof {
                    assert(self.entries.deep_view() =~= move_to_front(s0, i as int));
                }
            },
            None => {
                proof {
                    assert(!has_content(s0, entry@.content));
                }
                let ghost e0 = entry@;
                self.entries.insert(0, entry);
                proof {
                    assert(self.entries.deep_view() =~= seq![e0] + s0);
                }
                if self.entries.len() > self.max_entries {
                    let ghost grown = self.entries.deep_view();
                    self.entries.truncate(self.max_entries);
                    proof {
                        assert(self.entries.deep_view() =~= grown.take(
                            self.max_entries as int,
                        ));
                    }
                }
            },
        }
        self.save()
    }

    /// Removes the entry at `idx` (0 is the most recent) and persists.
    /// An index at or past the end is refused with an `InvalidOperation`
    /// error and the store is left unchanged.
    pub fn remove_entry(&mut self, idx: usize) -> (r: Result<(), ClipboardStorageError>)
        ensures
            final(self).max_view() == old(self).max_view(),
            final(self).key_view() == old(self).key_view(),
            idx >= old(self).entries_view().len() ==> *final(self) == *old(self) && (
            r matches Err(e) && e is InvalidOperation),
            idx < old(self).entries_view().len() ==> {
                &&& final(self).entries_view() == old(self).entries_view().remove(idx as int)
                &&& (r is Ok <==> all_encodable(final(self).entries_view()))
                &&& r is Ok ==> image_represents(
                    final(self).storage_view(),
                    old(self).key_view(),
                    final(self).entries_view(),
                )
                &&& r matches Err(e) ==> e is Serialization && final(self).storage_view() == old(
                    self,
                ).storage_view()
            },
    {
        if idx >= self.entries.len() {
            return Err(
                ClipboardStorageError::InvalidOperation(
                    "cannot remove an entry at or past the end".to_owned(),
                ),
            );
        }
        let ghost s0 = self.entries.deep_view();
        self.entries.remove(idx);
        proof {
            assert(self.entries.deep_view() =~= s0.remove(idx as int));
        }
        self.save()
    }
}

/// The first entry whose content equals `c`, if any.
fn find_content(entries: &Vec<Entry>, c: &Vec<u8>) -> (r: Option<usize>)
    ensures
        match r {
            Some(i) => {
                &&& (i as int) < entries.deep_view().len()
                &&& entries.deep_view()[i as int].content == c@
                &&& forall|j: int| 0 <= j < i ==> entries.deep_view()[j].content != c@
            },
            None => !has_content(entries.deep_view(), c@),
        },
{
    let mut i: usize = 0;
    while i < entries.len()
        invariant
            i <= entries@.len(),
            forall|j: int| 0 <= j < i ==> entries.deep_view()[j].content != c@,
        decreases entries@.len() - i,
    {
        let eq: bool = entries[i].bytes == *c;
        proof {
            if eq {
                assert(entries@[i as int].bytes@ =~= c@);
                assert(entries.deep_view()[i as int].content == c@);
            } else {
                assert(!(entries@[i as int].bytes@ =~= c@));
                assert(entries.deep_view()[i as int].content != c@);
            }
        }
        if eq {
            return Some(i);
        }
        i = i + 1;
    }
    proof {
        assert(!has_content(entries.deep_view(), c@));
    }
    None
}


// ---------------------------------------------------------------------------
// Laws of the history
// ---------------------------------------------------------------------------

/// After any add the front entry holds the added content.
pub proof fn lemma_add_front(s: Seq<EntryModel>, e: EntryModel, max: nat)
    requires
        max >= 1,
    ensures
        add_model(s, e, max).len() >= 1,
        add_model(s, e, max)[0].content == e.content,
{
    if has_content(s, e.content) {
        lemma_index_of_content(s, e.content);
    }
}

/// Law (dedup): adding content that is already present never grows the
/// history; the matching entry — kind and timestamp as stored — moves to
/// the front, and the entries before it shift back by one.
pub proof fn lemma_add_dedup(s: Seq<EntryModel>, e: EntryModel, max: nat)
    requires
        has_content(s, e.content),
    ensures
        add_model(s, e, max).len() == s.len(),
        add_model(s, e, max)[0] == s[index_of_content(s, e.content)],
        add_model(s, e, max)[0].content == e.content,
        forall|k: int| 1 <= k <= index_of_content(s, e.content) ==> add_model(s, e, max)[k] == s[k
            - 1],
        forall|k: int| index_of_content(s, e.content) < k < s.len() ==> add_model(s, e, max)[k]
            == s[k],
{
    lemma_index_of_content(s, e.content);
}

/// Law (bounded size): if the history respects its bound, it still does
/// after any add; at capacity, genuinely new content evicts exactly the
/// oldest entry.
pub proof fn lemma_add_bounded(s: Seq<EntryModel>, e: EntryModel, max: nat)
    requires
        s.len() <= max,
    ensures
        add_model(s, e, max).len() <= max,
        (s.len() == max && max >= 1 && !has_content(s, e.content)) ==> add_model(s, e, max)
            =~= seq![e] + s.take(max as int - 1),
{
    if has_content(s, e.content) {
        lemma_index_of_content(s, e.content);
    }
}

/// Law (recency): after adding `e1` and then `e2` with distinct content,
/// the most recent entry holds `e2`'s content and the one after it holds
/// `e1`'s.
pub proof fn lemma_add_recency(s: Seq<EntryModel>, e1: EntryModel, e2: EntryModel, max: nat)
    requires
        e1.content != e2.content,
        max >= 2,
    ensures
        add_model(add_model(s, e1, max), e2, max).len() >= 2,
        add_model(add_model(s, e1, max), e2, max)[0].content == e2.content,
        add_model(add_model(s, e1, max), e2, max)[1].content == e1.content,
{
    let s1 = add_model(s, e1, max);
    let s2 = add_model(s1, e2, max);
    lemma_add_front(s, e1, max);
    assert(s1[0].content == e1.content);
    if has_content(s1, e2.content) {
        lemma_index_of_content(s1, e2.content);
        let i = index_of_content(s1, e2.content);
        assert(s1[0].content != e2.content);
        assert(i >= 1);
        assert(s2 == move_to_front(s1, i));
        assert(s2[1] == s1.subrange(0, i)[0]);
        assert(s2[1] == s1[0]);
    } else {
        let grown = seq![e2] + s1;
        assert(grown[1] == s1[0]);
        if grown.len() <= max {
            assert(s2 == grown);
        } else {
            assert(s2 == grown.take(max as int));
            assert(s2[1] == grown[1]);
        }
    }
    lemma_add_front(s1, e2, max);
}

} // verus!


