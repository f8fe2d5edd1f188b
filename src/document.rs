//! Replicated document wrapper (client side): local edits as single
//! transactions, remote imports, and the queue of deltas that imports produce.

use vstd::prelude::*;
use vstd::utf8::*;
use loro::LoroDoc;
use crate::crdt::{self, doc_bytes, doc_text, version_of, base64_of, attached, import_ok, merged_text, all_updates_of, updates_since};
use crate::delta::{TextDeltaEvent, compose, event_json, text_delta};

verus! {

broadcast use vstd::string::group_string_axioms;

/// The byte range `[start, end)` that an edit replaces once both offsets are
/// clamped into `[0, len]`; an end before the start replaces nothing.
pub open spec fn edit_range(len: nat, start: nat, end: nat) -> (int, int) {
    let s = if start <= len { start as int } else { len as int };
    let e = if end <= len { end as int } else { len as int };
    (s, if e > s { e } else { s })
}

/// `bytes` with the range `[s, e)` replaced by `ins`.
pub open spec fn splice(bytes: Seq<u8>, s: int, e: int, ins: Seq<u8>) -> Seq<u8> {
    bytes.take(s) + ins + bytes.skip(e)
}

/// A replicated text document together with the deltas that remote imports
/// have produced and no consumer has taken yet.
pub struct Document {
    doc: LoroDoc,
    pending: Vec<TextDeltaEvent>,
}

proof fn lemma_encode_injective(a: Seq<char>, b: Seq<char>)
    requires
        encode_utf8(a) == encode_utf8(b),
    ensures
        a == b,
{
    encode_utf8_decode_utf8(a);
    encode_utf8_decode_utf8(b);
}

/// Cutting `[s, e)` out of valid UTF-8 at two character boundaries leaves
/// `s` a character boundary of the result.
proof fn lemma_boundary_after_cut(b: Seq<u8>, s: int, e: int)
    requires
        valid_utf8(b),
        0 <= s <= e <= b.len(),
        is_char_boundary(b, s),
        is_char_boundary(b, e),
    ensures
        is_char_boundary(b.take(s) + b.skip(e), s),
{
    valid_utf8_split(b, s);
    valid_utf8_split(b, e);
    assert(b.take(s) =~= b.subrange(0, s));
    assert(b.skip(e) =~= b.subrange(e, b.len() as int));
    valid_utf8_concat(b.take(s), b.skip(e));
    let m = b.take(s) + b.skip(e);
    if s == m.len() {
        is_char_boundary_start_end_of_seq(m);
    } else {
        assert(m[s] == b[e]);
        is_char_boundary_iff_not_is_continuation_byte(m, s);
        is_char_boundary_iff_not_is_continuation_byte(b, e);
    }
}

/// What an edit of `[start, end)` does to `bytes` when it succeeds.
pub open spec fn edited(bytes: Seq<u8>, start: nat, end: nat, ins: Seq<u8>) -> Seq<u8> {
    let (s, e) = edit_range(bytes.len(), start, end);
    splice(bytes, s, e, ins)
}

/// Whether both clamped offsets of an edit fall on character boundaries.
pub open spec fn edit_on_boundaries(bytes: Seq<u8>, start: nat, end: nat) -> bool {
    let (s, e) = edit_range(bytes.len(), start, end);
    is_char_boundary(bytes, s) && is_char_boundary(bytes, e)
}

/// An edit whose end offset is at or past the current length succeeds or
/// fails, and changes the text, exactly as the same edit with an end offset
/// equal to the length.
pub proof fn lemma_end_clamped(bytes: Seq<u8>, start: nat, end: nat, ins: Seq<u8>)
    requires
        end >= bytes.len(),
    ensures
        edit_range(bytes.len(), start, end) == edit_range(bytes.len(), start, bytes.len()),
        edit_on_boundaries(bytes, start, end) == edit_on_boundaries(bytes, start, bytes.len()),
        edited(bytes, start, end, ins) == edited(bytes, start, bytes.len(), ins),
{
}

impl Document {
    /// The replicated state.
    pub closed spec fn crdt(&self) -> LoroDoc {
        self.doc
    }

    /// The current text.
    pub open spec fn text(&self) -> Seq<char> {
        doc_text(self.crdt())
    }

    /// The current text in UTF-8 bytes.
    pub open spec fn bytes(&self) -> Seq<u8> {
        encode_utf8(self.text())
    }

    /// The encoded causal frontier.
    pub open spec fn version(&self) -> Seq<u8> {
        version_of(self.crdt())
    }

    /// The deltas queued since the last drain, oldest first.
    pub closed spec fn pending(&self) -> Seq<TextDeltaEvent> {
        self.pending@
    }

    /// The document accepts local edits.
    pub open spec fn wf(&self) -> bool {
        attached(self.crdt())
    }

    /// An empty document; its text container is not written until the first edit.
    pub fn new() -> (r: Document)
        ensures
            r.wf(),
            r.text() == Seq::<char>::empty(),
            r.pending() == Seq::<TextDeltaEvent>::empty(),
    {
        Document { doc: crdt::new_doc(), pending: Vec::new() }
    }

    /// The text content (empty for a document nobody has written).
    pub fn get_text(&self) -> (r: String)
        ensures
            r@ == self.text(),
    {
        crdt::read_text(&self.doc)
    }

    /// Replaces the whole text in one transaction.
    pub fn set_text(&mut self, content: &str) -> (r: bool)
        requires
            old(self).wf(),
        ensures
            final(self).wf(),
            r,
            final(self).text() == content@,
            final(self).pending() == old(self).pending(),
    {
        let len = crdt::text_len_utf8(&self.doc);
        proof {
            encode_utf8_valid_utf8(doc_text(self.doc));
            is_char_boundary_start_end_of_seq(doc_bytes(self.doc));
        }
        if len > 0 {
            match crdt::delete_utf8(&mut self.doc, 0, len) {
                Ok(()) => {},
                Err(_) => {
                    return false;
                },
            }
        }
        assert(doc_bytes(self.doc) =~= Seq::<u8>::empty());
        if !content.is_empty() {
            proof {
                is_char_boundary_start_end_of_seq(doc_bytes(self.doc));
            }
            match crdt::insert_utf8(&mut self.doc, 0, content) {
                Ok(()) => {},
                Err(_) => {
                    return false;
                },
            }
        }
        assert(doc_bytes(self.doc) =~= encode_utf8(content@)) by {
            if content@.len() == 0 {
                assert(content@ =~= Seq::<char>::empty());
            }
        }
        crdt::commit(&mut self.doc);
        proof {
            lemma_encode_injective(doc_text(self.doc), content@);
        }
        true
    }

    /// Replaces the bytes `[start, end)` with `new_text` in one transaction,
    /// clamping both offsets into the current length first. It succeeds exactly
    /// when both clamped offsets fall on character boundaries; otherwise the
    /// text is left as it was.
    pub fn apply_edit(&mut self, start: usize, end: usize, new_text: &str) -> (r: bool)
        requires
            old(self).wf(),
        ensures
            final(self).wf(),
            r == edit_on_boundaries(old(self).bytes(), start as nat, end as nat),
            r ==> final(self).bytes() == edited(old(self).bytes(), start as nat, end as nat, encode_utf8(new_text@)),
            !r ==> final(self).text() == old(self).text(),
            final(self).pending() == old(self).pending(),
    {
        let ghost b = doc_bytes(self.doc);
        proof {
            encode_utf8_valid_utf8(doc_text(self.doc));
        }
        let len = crdt::text_len_utf8(&self.doc);
        let s = if start < len { start } else { len };
        let e = if end < len { end } else { len };
        let e = if e > s { e } else { s };
        assert(edit_range(b.len(), start as nat, end as nat) == (s as int, e as int));
        if e > s {
            match crdt::delete_utf8(&mut self.doc, s, e - s) {
                Ok(()) => {},
                Err(_) => {
                    return false;
                },
            }
            proof {
                lemma_boundary_after_cut(b, s as int, e as int);
            }
        }
        assert(doc_bytes(self.doc) =~= b.take(s as int) + b.skip(e as int));
        let ghost mid = doc_bytes(self.doc);
        assert(mid.take(s as int) =~= b.take(s as int));
        assert(mid.skip(s as int) =~= b.skip(e as int));
        match crdt::insert_utf8(&mut self.doc, s, new_text) {
            Ok(()) => {},
            Err(_) => {
                proof {
                    if e == s {
                        assert(mid =~= b);
                    }
                }
                return false;
            },
        }
        assert(doc_bytes(self.doc) =~= splice(b, s as int, e as int, encode_utf8(new_text@)));
        crdt::commit(&mut self.doc);
        true
    }

    /// The encoded causal frontier, for an incremental sync request.
    pub fn version_vector(&self) -> (r: Vec<u8>)
        ensures
            r@ == self.version(),
    {
        crdt::version_bytes(&self.doc)
    }

    /// The encoded causal frontier in base64.
    pub fn version_vector_b64(&self) -> (r: String)
        ensures
            r@ == base64_of(self.version()),
    {
        let v = crdt::version_bytes(&self.doc);
        crdt::base64_encode(v.as_slice())
    }

    /// Imports a remote update and queues the delta from the text before the
    /// import to the text after it. `false` when the text library refused the
    /// update.
    pub fn apply_remote_update(&mut self, update: &[u8]) -> (r: bool)
        requires
            old(self).wf(),
        ensures
            final(self).wf(),
            r == import_ok(old(self).crdt(), update@),
            r ==> final(self).text() == merged_text(old(self).crdt(), update@),
            final(self).pending().take(old(self).pending().len() as int) == old(self).pending(),
            final(self).pending().len() >= old(self).pending().len(),
            compose(
                old(self).text(),
                final(self).pending().skip(old(self).pending().len() as int),
            ) == Some(final(self).text()),
    {
        let before = crdt::read_text(&self.doc);
        let imported = crdt::import(&mut self.doc, update);
        let after = crdt::read_text(&self.doc);
        let mut batch = text_delta(before.as_str(), after.as_str());
        let ghost b = batch@;
        let ghost p = self.pending@;
        self.pending.append(&mut batch);
        assert(self.pending@.take(p.len() as int) =~= p);
        assert(self.pending@.skip(p.len() as int) =~= b);
        match imported {
            Ok(_) => true,
            Err(_) => false,
        }
    }

    /// Imports a base64-encoded remote update. Text that is not canonical
    /// base64 leaves the document as it was and gives `false`.
    pub fn apply_update_b64(&mut self, update_b64: &str) -> (r: bool)
        requires
            old(self).wf(),
        ensures
            final(self).wf(),
            (forall|v: Seq<u8>| base64_of(v) != update_b64@) ==> !r && *final(self) == *old(self),
            forall|v: Seq<u8>|
                base64_of(v) == update_b64@ ==> r == import_ok(old(self).crdt(), v) && (r
                    ==> final(self).text() == merged_text(old(self).crdt(), v)),
            final(self).pending().take(old(self).pending().len() as int) == old(self).pending(),
            final(self).pending().len() >= old(self).pending().len(),
            compose(
                old(self).text(),
                final(self).pending().skip(old(self).pending().len() as int),
            ) == Some(final(self).text()),
    {
        match crdt::base64_decode(update_b64) {
            Some(bytes) => self.apply_remote_update(bytes.as_slice()),
            None => {
                assert(self.pending@.take(self.pending@.len() as int) =~= self.pending@);
                assert(self.pending@.skip(self.pending@.len() as int) =~= Seq::<
                    TextDeltaEvent,
                >::empty());
                false
            },
        }
    }

    /// The operations that a peer at the encoded frontier `remote_version`
    /// lacks; `None` when the frontier does not decode or the export fails.
    pub fn encode_update_for(&self, remote_version: &[u8]) -> (r: Option<Vec<u8>>)
        ensures
            r matches Some(u) ==> updates_since(self.crdt(), remote_version@) == Some(u@),
            r is None ==> updates_since(self.crdt(), remote_version@) is None,
    {
        crdt::export_updates_since(&self.doc, remote_version)
    }

    /// `encode_update_for` over base64 text: empty text when the frontier is
    /// not canonical base64 or the export fails.
    pub fn encode_update_b64(&self, remote_version_b64: &str) -> (r: String)
        ensures
            (forall|v: Seq<u8>| base64_of(v) != remote_version_b64@) ==> r@.len() == 0,
            forall|v: Seq<u8>|
                base64_of(v) == remote_version_b64@ ==> match updates_since(self.crdt(), v) {
                    Some(u) => r@ == base64_of(u),
                    None => r@.len() == 0,
                },
    {
        match crdt::base64_decode(remote_version_b64) {
            Some(v) => match crdt::export_updates_since(&self.doc, v.as_slice()) {
                Some(u) => crdt::base64_encode(u.as_slice()),
                None => String::new(),
            },
            None => String::new(),
        }
    }

    /// The whole history as one update; `None` when the export fails.
    pub fn encode_full_state(&self) -> (r: Option<Vec<u8>>)
        ensures
            r matches Some(u) ==> all_updates_of(self.crdt()) == Some(u@),
            r is None ==> all_updates_of(self.crdt()) is None,
    {
        match crdt::export_all_updates(&self.doc) {
            Ok(u) => Some(u),
            Err(_) => None,
        }
    }

    /// `encode_full_state` in base64: empty text when the export fails.
    pub fn encode_full_state_b64(&self) -> (r: String)
        ensures
            match all_updates_of(self.crdt()) {
                Some(u) => r@ == base64_of(u),
                None => r@.len() == 0,
            },
    {
        match crdt::export_all_updates(&self.doc) {
            Ok(u) => crdt::base64_encode(u.as_slice()),
            Err(_) => String::new(),
        }
    }

    /// Takes every queued delta, oldest first, leaving the queue empty.
    pub fn poll_deltas(&mut self) -> (r: Vec<TextDeltaEvent>)
        ensures
            r@ == old(self).pending(),
            final(self).pending() == Seq::<TextDeltaEvent>::empty(),
            final(self).crdt() == old(self).crdt(),
    {
        let mut out: Vec<TextDeltaEvent> = Vec::new();
        std::mem::swap(&mut out, &mut self.pending);
        out
    }

    /// Takes every queued delta as its JSON object, oldest first.
    pub fn poll_deltas_json(&mut self) -> (r: Vec<String>)
        ensures
            r@.len() == old(self).pending().len(),
            forall|i: int| 0 <= i < r@.len() ==> #[trigger] r@[i]@ == event_json(
                old(self).pending()[i],
            ),
            final(self).pending() == Seq::<TextDeltaEvent>::empty(),
            final(self).crdt() == old(self).crdt(),
    {
        let events = self.poll_deltas();
        let mut out: Vec<String> = Vec::new();
        for i in 0..events.len()
            invariant
                out@.len() == i,
                forall|j: int| 0 <= j < i ==> #[trigger] out@[j]@ == event_json(events@[j]),
        {
            out.push(events[i].to_json());
        }
        out
    }

    /// Discards every queued delta without delivering it.
    pub fn clear_pending_deltas(&mut self)
        ensures
            final(self).pending() == Seq::<TextDeltaEvent>::empty(),
            final(self).crdt() == old(self).crdt(),
    {
        self.pending.clear();
    }
}

} // verus!
