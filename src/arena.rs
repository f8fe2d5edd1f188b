//! Documents owned by the process, each under a generated identifier: the
//! operations an editor integration calls, addressed by the identifier's text.
//! An identifier that does not parse or names no document changes nothing and
//! reads as empty.

use vstd::prelude::*;
use vstd::utf8::*;
use crate::document::{Document, edited, edit_on_boundaries};
use crate::delta::{compose, event_json, TextDeltaEvent};
use crate::crdt::{base64_of, import_ok, merged_text, updates_since, all_updates_of};
use crate::ids::{self, parsed_id};

verus! {

/// Documents keyed by identifier.
pub struct DocArena {
    ids: Vec<u128>,
    docs: Vec<Document>,
}

proof fn lemma_replaced(ids: Seq<u128>, before: Seq<Document>, after: Seq<Document>, i: int)
    requires
        ids.no_duplicates(),
        ids.len() == before.len(),
        0 <= i < ids.len(),
        after == before.update(i, after[i]),
    ensures
        ids.index_of(ids[i]) == i,
        forall|id: u128|
            ids.contains(id) && id != ids[i] ==> after[ids.index_of(id)] == before[ids.index_of(
                id,
            )],
{
    assert(ids.contains(ids[i]));
    let j = ids.index_of(ids[i]);
    assert(ids[j] == ids[i]);
    assert forall|id: u128| ids.contains(id) && id != ids[i] implies after[ids.index_of(id)]
        == before[ids.index_of(id)] by {
        let k = ids.index_of(id);
        assert(ids[k] == id);
    }
}

proof fn lemma_arena_replaced(a: DocArena, b: DocArena, i: int)
    requires
        a.wf(),
        0 <= i < a.ids@.len(),
        b.ids@ == a.ids@,
        b.docs@ == a.docs@.update(i, b.docs@[i]),
        b.docs@[i].wf(),
    ensures
        b.wf(),
        a.doc(a.ids@[i]).wf(),
        b.contains(a.ids@[i]),
        b.doc(a.ids@[i]) == b.docs@[i],
        a.doc(a.ids@[i]) == a.docs@[i],
        b.others_kept(&a, a.ids@[i]),
{
    lemma_replaced(a.ids@, a.docs@, b.docs@, i);
    assert(a.ids@.contains(a.ids@[i]));
    assert(a.docs@[i].wf());
    assert forall|j: int| 0 <= j < b.docs@.len() implies #[trigger] b.docs@[j].wf() by {
        if j != i {
            assert(a.docs@[j].wf());
        }
    }
}

impl DocArena {
    /// The identifiers in use.
    pub closed spec fn ids(&self) -> Seq<u128> {
        self.ids@
    }

    /// Whether a document has this identifier.
    pub open spec fn contains(&self, id: u128) -> bool {
        self.ids().contains(id)
    }

    /// The document with this identifier, where there is one.
    pub closed spec fn doc(&self, id: u128) -> Document {
        self.docs@[self.ids@.index_of(id)]
    }

    /// The document that the text `doc_id` addresses, if any.
    pub open spec fn target(&self, doc_id: Seq<char>) -> Option<u128> {
        match parsed_id(doc_id) {
            Some(id) => if self.contains(id) { Some(id) } else { None },
            None => None,
        }
    }

    /// One document per identifier, each accepting local edits.
    pub closed spec fn wf(&self) -> bool {
        &&& self.ids@.len() == self.docs@.len()
        &&& self.ids@.no_duplicates()
        &&& forall|i: int| 0 <= i < self.docs@.len() ==> #[trigger] self.docs@[i].wf()
    }

    /// The documents other than `id` are those of `other`.
    pub open spec fn others_kept(&self, other: &DocArena, id: u128) -> bool {
        &&& forall|k: u128| k != id ==> (self.contains(k) <==> other.contains(k))
        &&& forall|k: u128| k != id && other.contains(k) ==> self.doc(k) == other.doc(k)
    }

    /// An arena without documents.
    pub fn new() -> (r: DocArena)
        ensures
            r.wf(),
            forall|id: u128| !r.contains(id),
    {
        DocArena { ids: Vec::new(), docs: Vec::new() }
    }

    fn find(&self, id: u128) -> (r: Option<usize>)
        requires
            self.wf(),
        ensures
            r matches Some(i) ==> i < self.ids@.len() && self.ids@[i as int] == id
                && self.ids@.index_of(id) == i && self.contains(id),
            r is None ==> !self.contains(id),
    {
        let mut i: usize = 0;
        while i < self.ids.len()
            invariant
                i <= self.ids@.len(),
                self.wf(),
                forall|k: int| 0 <= k < i ==> self.ids@[k] != id,
            decreases self.ids@.len() - i,
        {
            if self.ids[i] == id {
                proof {
                    assert(self.ids@.contains(id));
                    let j = self.ids@.index_of(id);
                    assert(self.ids@[j] == id);
                }
                return Some(i);
            }
            i = i + 1;
        }
        None
    }

    fn lookup(&self, doc_id: &str) -> (r: Option<usize>)
        requires
            self.wf(),
        ensures
            r matches Some(i) ==> i < self.ids@.len() && parsed_id(doc_id@) == Some(self.ids@[i as int])
                && self.ids@.index_of(self.ids@[i as int]) == i && self.contains(self.ids@[i as int])
                && self.target(doc_id@) == Some(self.ids@[i as int]) && self.docs@[i as int].wf()
                && self.doc(self.ids@[i as int]) == self.docs@[i as int],
            r is None ==> self.target(doc_id@) is None,
            r is None ==> parsed_id(doc_id@) is None || !self.contains(parsed_id(doc_id@)->0),
    {
        match ids::parse_id(doc_id) {
            Some(id) => self.find(id),
            None => None,
        }
    }

    /// Creates an empty document under `id` and returns the identifier's
    /// text; `None`, with nothing changed, when `id` is taken.
    pub fn doc_create_with(&mut self, id: u128) -> (r: Option<String>)
        requires
            old(self).wf(),
        ensures
            final(self).wf(),
            r is Some <==> !old(self).contains(id),
            r matches Some(s) ==> parsed_id(s@) == Some(id) && s@.len() > 0
                && final(self).contains(id) && final(self).doc(id).text() == Seq::<char>::empty()
                && final(self).doc(id).pending() == Seq::<TextDeltaEvent>::empty()
                && final(self).others_kept(old(self), id),
            r is None ==> *final(self) == *old(self),
    {
        if self.find(id).is_some() {
            return None;
        }
        let text = ids::id_text(id);
        let ghost ids_before = self.ids@;
        let ghost docs_before = self.docs@;
        self.ids.push(id);
        self.docs.push(Document::new());
        proof {
            let n = ids_before.len() as int;
            assert(self.ids@.no_duplicates()) by {
                assert forall|a: int, b: int| 0 <= a < b < self.ids@.len() implies self.ids@[a]
                    != self.ids@[b] by {
                    if b == n {
                        assert(ids_before.contains(ids_before[a]));
                    }
                }
            }
            assert(self.ids@[n] == id);
            assert(self.ids@.contains(id));
            let j = self.ids@.index_of(id);
            assert(self.ids@[j] == id);
            assert forall|k: u128| k != id implies (self.contains(k) <==> ids_before.contains(k)) by {
                if self.contains(k) {
                    let x = self.ids@.index_of(k);
                    assert(self.ids@[x] == k);
                    assert(ids_before[x] == k);
                }
                if ids_before.contains(k) {
                    let x = ids_before.index_of(k);
                    assert(self.ids@[x] == k);
                }
            }
            assert forall|j: int| 0 <= j < self.docs@.len() implies #[trigger] self.docs@[j].wf() by {
                if j < n {
                    assert(self.docs@[j] == docs_before[j]);
                    assert(old(self).docs@[j].wf());
                }
            }
            assert forall|k: u128| k != id && ids_before.contains(k) implies self.doc(k)
                == docs_before[ids_before.index_of(k)] by {
                let x = ids_before.index_of(k);
                assert(ids_before[x] == k);
                assert(self.ids@[x] == k);
                let y = self.ids@.index_of(k);
                assert(self.ids@[y] == k);
            }
        }
        Some(text)
    }

    /// Creates an empty document under a freshly drawn identifier and returns
    /// the identifier's text; empty text in the unlikely case that the drawn
    /// identifier is already taken.
    pub fn doc_create(&mut self) -> (r: String)
        requires
            old(self).wf(),
        ensures
            final(self).wf(),
            r@.len() > 0 ==> (parsed_id(r@) matches Some(id) && !old(self).contains(id)
                && final(self).contains(id) && final(self).doc(id).text() == Seq::<char>::empty()
                && final(self).doc(id).pending() == Seq::<TextDeltaEvent>::empty()
                && final(self).others_kept(old(self), id)),
            r@.len() == 0 ==> *final(self) == *old(self),
    {
        match self.doc_create_with(ids::fresh_id()) {
            Some(text) => text,
            None => String::new(),
        }
    }


    /// Drops the document with this identifier.
    pub fn doc_destroy(&mut self, doc_id: &str)
        requires
            old(self).wf(),
        ensures
            final(self).wf(),
            parsed_id(doc_id@) matches Some(id) ==> !final(self).contains(id) && final(self).others_kept(old(self), id),
            parsed_id(doc_id@) is None ==> *final(self) == *old(self),
    {
        let i = match self.lookup(doc_id) {
            Some(i) => i,
            None => {
                return;
            },
        };
        let ghost ids_before = self.ids@;
        let ghost docs_before = self.docs@;
        let ghost id = ids_before[i as int];
        self.ids.remove(i);
        self.docs.remove(i);
        proof {
            let t = self.ids@;
            assert(t =~= ids_before.remove(i as int));
            assert(self.docs@ =~= docs_before.remove(i as int));
            assert(t.no_duplicates()) by {
                assert forall|a: int, b: int| 0 <= a < b < t.len() implies t[a] != t[b] by {
                    let sa = if a < i { a } else { a + 1 };
                    let sb = if b < i { b } else { b + 1 };
                    assert(t[a] == ids_before[sa] && t[b] == ids_before[sb]);
                }
            }
            assert(!t.contains(id)) by {
                if t.contains(id) {
                    let k = t.index_of(id);
                    let sk = if k < i { k } else { k + 1 };
                    assert(ids_before[sk] == id);
                }
            }
            assert forall|k: u128| k != id implies (t.contains(k) <==> ids_before.contains(k)) by {
                if t.contains(k) {
                    let x = t.index_of(k);
                    let sx = if x < i { x } else { x + 1 };
                    assert(ids_before[sx] == k);
                }
                if ids_before.contains(k) {
                    let x = ids_before.index_of(k);
                    assert(ids_before[x] == k);
                    let tx = if x < i { x } else { x - 1 };
                    assert(t[tx] == k);
                }
            }
            assert forall|k: u128| k != id && ids_before.contains(k) implies self.doc(k)
                == docs_before[ids_before.index_of(k)] by {
                let x = ids_before.index_of(k);
                assert(ids_before[x] == k);
                let tx = if x < i { x } else { x - 1 };
                assert(t[tx] == k);
                assert(t.contains(k));
                let y = t.index_of(k);
                assert(t[y] == k);
                assert(y == tx);
            }
        }
    }

    /// Replaces the text of the document in one transaction; `false` when
    /// there is no such document or the text library refused the edit.
    pub fn doc_set_text(&mut self, doc_id: &str, content: &str) -> (r: bool)
        requires
            old(self).wf(),
        ensures
            final(self).wf(),
            old(self).target(doc_id@) is None ==> !r && *final(self) == *old(self),
            old(self).target(doc_id@) matches Some(id) ==> final(self).contains(id) && final(self).others_kept(old(self), id)
                && r && final(self).doc(id).text() == content@
                && final(self).doc(id).pending() == old(self).doc(id).pending(),
    {
        let i = match self.lookup(doc_id) {
            Some(i) => i,
            None => {
                return false;
            },
        };
        let ghost before = *self;
        let mut d = self.docs.remove(i);
        let r = d.set_text(content);
        self.docs.insert(i, d);
        proof {
            assert(self.docs@ =~= before.docs@.update(i as int, d));
            lemma_arena_replaced(before, *self, i as int);
        }
        r
    }

    /// Replaces the bytes `[start, end)` of the document, clamped into its
    /// length, with `new_text`; `false` when there is no such document or the
    /// text library refused the edit.
    pub fn doc_apply_edit(&mut self, doc_id: &str, start: usize, end: usize, new_text: &str) -> (r: bool)
        requires
            old(self).wf(),
        ensures
            final(self).wf(),
            old(self).target(doc_id@) is None ==> !r && *final(self) == *old(self),
            old(self).target(doc_id@) matches Some(id) ==> final(self).contains(id) && final(self).others_kept(old(self), id)
                && r == edit_on_boundaries(old(self).doc(id).bytes(), start as nat, end as nat)
                && (r ==> final(self).doc(id).bytes() == edited(old(self).doc(id).bytes(), start as nat, end as nat, encode_utf8(new_text@)))
                && (!r ==> final(self).doc(id).text() == old(self).doc(id).text())
                && final(self).doc(id).pending() == old(self).doc(id).pending(),
    {
        let i = match self.lookup(doc_id) {
            Some(i) => i,
            None => {
                return false;
            },
        };
        let ghost before = *self;
        let mut d = self.docs.remove(i);
        let r = d.apply_edit(start, end, new_text);
        self.docs.insert(i, d);
        proof {
            assert(self.docs@ =~= before.docs@.update(i as int, d));
            lemma_arena_replaced(before, *self, i as int);
        }
        r
    }

    /// Imports a base64 update into the document and queues the delta it
    /// makes; `false` when there is no such document or the import failed.
    pub fn doc_apply_update(&mut self, doc_id: &str, update_b64: &str) -> (r: bool)
        requires
            old(self).wf(),
        ensures
            final(self).wf(),
            old(self).target(doc_id@) is None ==> !r && *final(self) == *old(self),
            old(self).target(doc_id@) matches Some(id) ==> (forall|v: Seq<u8>| base64_of(v) != update_b64@)
                ==> !r && final(self).doc(id) == old(self).doc(id),
            old(self).target(doc_id@) matches Some(id) ==> forall|v: Seq<u8>|
                base64_of(v) == update_b64@ ==> r == import_ok(old(self).doc(id).crdt(), v) && (r
                    ==> final(self).doc(id).text() == merged_text(old(self).doc(id).crdt(), v)),
            old(self).target(doc_id@) matches Some(id) ==> final(self).contains(id) && final(self).others_kept(old(self), id)
                && final(self).doc(id).pending().take(old(self).doc(id).pending().len() as int)
                == old(self).doc(id).pending() && final(self).doc(id).pending().len() >= old(self).doc(id).pending().len()
                && compose(
                old(self).doc(id).text(),
                final(self).doc(id).pending().skip(old(self).doc(id).pending().len() as int),
            ) == Some(final(self).doc(id).text()),
    {
        let i = match self.lookup(doc_id) {
            Some(i) => i,
            None => {
                return false;
            },
        };
        let ghost before = *self;
        let mut d = self.docs.remove(i);
        let r = d.apply_update_b64(update_b64);
        self.docs.insert(i, d);
        proof {
            assert(self.docs@ =~= before.docs@.update(i as int, d));
            lemma_arena_replaced(before, *self, i as int);
        }
        r
    }

    /// Takes the queued deltas of the document as JSON objects, oldest first.
    pub fn doc_poll_deltas(&mut self, doc_id: &str) -> (r: Vec<String>)
        requires
            old(self).wf(),
        ensures
            final(self).wf(),
            old(self).target(doc_id@) is None ==> r@.len() == 0 && *final(self) == *old(self),
            old(self).target(doc_id@) matches Some(id) ==> final(self).contains(id) && final(self).others_kept(old(self), id)
                && r@.len() == old(self).doc(id).pending().len()
                && (forall|k: int| 0 <= k < r@.len() ==> #[trigger] r@[k]@ == event_json(old(self).doc(id).pending()[k]))
                && final(self).doc(id).pending() == Seq::<TextDeltaEvent>::empty()
                && final(self).doc(id).text() == old(self).doc(id).text(),
    {
        let i = match self.lookup(doc_id) {
            Some(i) => i,
            None => {
                return Vec::new();
            },
        };
        let ghost before = *self;
        let mut d = self.docs.remove(i);
        let r = d.poll_deltas_json();
        self.docs.insert(i, d);
        proof {
            assert(self.docs@ =~= before.docs@.update(i as int, d));
            lemma_arena_replaced(before, *self, i as int);
        }
        r
    }

    /// Discards the queued deltas of the document.
    pub fn doc_clear_deltas(&mut self, doc_id: &str)
        requires
            old(self).wf(),
        ensures
            final(self).wf(),
            old(self).target(doc_id@) is None ==> *final(self) == *old(self),
            old(self).target(doc_id@) matches Some(id) ==> final(self).contains(id) && final(self).others_kept(old(self), id)
                && final(self).doc(id).pending() == Seq::<TextDeltaEvent>::empty()
                && final(self).doc(id).text() == old(self).doc(id).text(),
    {
        let i = match self.lookup(doc_id) {
            Some(i) => i,
            None => {
                return;
            },
        };
        let ghost before = *self;
        let mut d = self.docs.remove(i);
        d.clear_pending_deltas();
        self.docs.insert(i, d);
        proof {
            assert(self.docs@ =~= before.docs@.update(i as int, d));
            lemma_arena_replaced(before, *self, i as int);
        }
    }

    /// The text of the document (empty when there is none).
    pub fn doc_get_text(&self, doc_id: &str) -> (r: String)
        requires
            self.wf(),
        ensures
            self.target(doc_id@) matches Some(id) ==> r@ == self.doc(id).text(),
            self.target(doc_id@) is None ==> r@.len() == 0,
    {
        match self.lookup(doc_id) {
            Some(i) => self.docs[i].get_text(),
            None => String::new(),
        }
    }

    /// The document's encoded frontier in base64 (empty when there is none).
    pub fn doc_state_vector(&self, doc_id: &str) -> (r: String)
        requires
            self.wf(),
        ensures
            self.target(doc_id@) matches Some(id) ==> r@ == base64_of(
                self.doc(id).version(),
            ),
            self.target(doc_id@) is None ==> r@.len() == 0,
    {
        match self.lookup(doc_id) {
            Some(i) => self.docs[i].version_vector_b64(),
            None => String::new(),
        }
    }

    /// The operations a peer at the base64 frontier lacks, in base64.
    pub fn doc_encode_update(&self, doc_id: &str, remote_version_b64: &str) -> (r: String)
        requires
            self.wf(),
        ensures
            self.target(doc_id@) is None ==> r@.len() == 0,
            self.target(doc_id@) matches Some(id) ==> (forall|v: Seq<u8>| base64_of(v) != remote_version_b64@)
                ==> r@.len() == 0,
            self.target(doc_id@) matches Some(id) ==> forall|v: Seq<u8>|
                base64_of(v) == remote_version_b64@ ==> match updates_since(self.doc(id).crdt(), v) {
                    Some(u) => r@ == base64_of(u),
                    None => r@.len() == 0,
                },
    {
        match self.lookup(doc_id) {
            Some(i) => self.docs[i].encode_update_b64(remote_version_b64),
            None => String::new(),
        }
    }

    /// The document's whole history as one base64 update.
    pub fn doc_encode_full_state(&self, doc_id: &str) -> (r: String)
        requires
            self.wf(),
        ensures
            self.target(doc_id@) is None ==> r@.len() == 0,
            self.target(doc_id@) matches Some(id) ==> match all_updates_of(self.doc(id).crdt()) {
                Some(u) => r@ == base64_of(u),
                None => r@.len() == 0,
            },
    {
        match self.lookup(doc_id) {
            Some(i) => self.docs[i].encode_full_state_b64(),
            None => String::new(),
        }
    }
}

} // verus!
