//! The replicated text library at the boundary: its document type, names for
//! what it computes, and one trusted wrapper per call that the library makes.
//! The text of a document is that of its root text container `content`.

use vstd::prelude::*;
use vstd::utf8::*;
use loro::{ExportMode, LoroDoc, LoroEncodeError, LoroError, VersionVector};
use base64::Engine;

verus! {

#[verifier::external_type_specification]
#[verifier::external_body]
pub struct ExLoroDoc(LoroDoc);

#[verifier::external_type_specification]
#[verifier::external_body]
pub struct ExLoroError(LoroError);

#[verifier::external_type_specification]
#[verifier::external_body]
pub struct ExLoroEncodeError(LoroEncodeError);

/// The characters of the document's `content` text container.
pub uninterp spec fn doc_text(d: LoroDoc) -> Seq<char>;

/// Whether the document accepts local edits: it has not been detached by a
/// checkout to an earlier version.
pub uninterp spec fn attached(d: LoroDoc) -> bool;

/// The compacted full-state encoding of the document (empty when it cannot be exported).
pub uninterp spec fn snapshot_of(d: LoroDoc) -> Seq<u8>;

/// The encoded version vector of the document's operation log.
pub uninterp spec fn version_of(d: LoroDoc) -> Seq<u8>;

/// Whether the text library accepts `b` as an update or snapshot for the document.
pub uninterp spec fn import_ok(d: LoroDoc, b: Seq<u8>) -> bool;

/// Whether part of `b` waits, after its import, for operations that the
/// document does not have yet.
pub uninterp spec fn import_pending(d: LoroDoc, b: Seq<u8>) -> bool;

/// The text of the document after it has imported `b`.
pub uninterp spec fn merged_text(d: LoroDoc, b: Seq<u8>) -> Seq<char>;

/// The whole history of the document as one update, where it can be exported.
pub uninterp spec fn all_updates_of(d: LoroDoc) -> Option<Seq<u8>>;

/// The operations that a peer at the encoded version vector `v` lacks, where
/// `v` decodes and the export succeeds.
pub uninterp spec fn updates_since(d: LoroDoc, v: Seq<u8>) -> Option<Seq<u8>>;

/// The standard (padded) base64 text of `b`.
pub uninterp spec fn base64_of(b: Seq<u8>) -> Seq<char>;

/// The UTF-8 bytes of the document's text.
pub open spec fn doc_bytes(d: LoroDoc) -> Seq<u8> {
    encode_utf8(doc_text(d))
}

/// Relies on `LoroDoc::new`: an attached document without operations, whose text is empty.
#[verifier::external_body]
pub(crate) fn new_doc() -> (r: LoroDoc)
    ensures
        doc_text(r) == Seq::<char>::empty(),
        attached(r),
{
    LoroDoc::new()
}

/// Relies on `LoroText::to_string` of the root container `content`. A root
/// container always exists, so reading it records no operation.
#[verifier::external_body]
pub(crate) fn read_text(doc: &LoroDoc) -> (r: String)
    ensures
        r@ == doc_text(*doc),
{
    doc.get_text("content").to_string()
}

/// Relies on `LoroText::len_utf8`: the length of the text in UTF-8 bytes.
#[verifier::external_body]
pub(crate) fn text_len_utf8(doc: &LoroDoc) -> (r: usize)
    ensures
        r == doc_bytes(*doc).len(),
{
    doc.get_text("content").len_utf8()
}

/// Relies on `LoroText::insert_utf8`: inserts `s` at byte offset `pos`. An
/// offset past the end or inside a character is refused; on an attached
/// document nothing else is. A refusal comes before any change.
#[verifier::external_body]
pub(crate) fn insert_utf8(doc: &mut LoroDoc, pos: usize, s: &str) -> (r: Result<(), LoroError>)
    ensures
        r is Ok ==> doc_bytes(*final(doc)) == doc_bytes(*old(doc)).take(pos as int)
            + encode_utf8(s@) + doc_bytes(*old(doc)).skip(pos as int),
        pos > doc_bytes(*old(doc)).len() || !is_char_boundary(doc_bytes(*old(doc)), pos as int)
            ==> r is Err,
        attached(*old(doc)) && pos <= doc_bytes(*old(doc)).len() && is_char_boundary(
            doc_bytes(*old(doc)),
            pos as int,
        ) ==> r is Ok,
        r is Err ==> doc_text(*final(doc)) == doc_text(*old(doc)),
        attached(*final(doc)) == attached(*old(doc)),
{
    doc.get_text("content").insert_utf8(pos, s)
}

/// Relies on `LoroText::delete_utf8`: removes `len` bytes at byte offset `pos`.
/// An empty range always succeeds; a range past the end or with an end inside
/// a character is refused; on an attached document nothing else is. A
/// refusal comes before any change.
#[verifier::external_body]
pub(crate) fn delete_utf8(doc: &mut LoroDoc, pos: usize, len: usize) -> (r: Result<(), LoroError>)
    ensures
        r is Ok ==> doc_bytes(*final(doc)) == doc_bytes(*old(doc)).take(pos as int)
            + doc_bytes(*old(doc)).skip(pos + len),
        len > 0 && (pos + len > doc_bytes(*old(doc)).len() || !is_char_boundary(
            doc_bytes(*old(doc)),
            pos as int,
        ) || !is_char_boundary(doc_bytes(*old(doc)), pos + len)) ==> r is Err,
        len == 0 ==> r is Ok,
        attached(*old(doc)) && pos + len <= doc_bytes(*old(doc)).len() && is_char_boundary(
            doc_bytes(*old(doc)),
            pos as int,
        ) && is_char_boundary(doc_bytes(*old(doc)), pos + len) ==> r is Ok,
        r is Err ==> doc_text(*final(doc)) == doc_text(*old(doc)),
        attached(*final(doc)) == attached(*old(doc)),
{
    doc.get_text("content").delete_utf8(pos, len)
}

/// Relies on `LoroDoc::commit`: closes the pending transaction; the text stays.
#[verifier::external_body]
pub(crate) fn commit(doc: &mut LoroDoc)
    ensures
        doc_text(*final(doc)) == doc_text(*old(doc)),
        attached(*final(doc)) == attached(*old(doc)),
{
    doc.commit()
}

/// Relies on `LoroDoc::import`: merges an encoded update or snapshot. On
/// success it tells whether part of the update waits for operations the
/// document does not have yet (`ImportStatus::pending` is set).
#[verifier::external_body]
pub(crate) fn import(doc: &mut LoroDoc, bytes: &[u8]) -> (r: Result<bool, LoroError>)
    ensures
        (r is Ok) == import_ok(*old(doc), bytes@),
        r matches Ok(p) ==> p == import_pending(*old(doc), bytes@),
        r is Ok ==> doc_text(*final(doc)) == merged_text(*old(doc), bytes@),
        attached(*final(doc)) == attached(*old(doc)),
{
    doc.import(bytes).map(|status| status.pending.is_some())
}

/// Relies on `LoroDoc::export` in snapshot mode.
#[verifier::external_body]
pub(crate) fn export_snapshot(doc: &LoroDoc) -> (r: Vec<u8>)
    ensures
        r@ == snapshot_of(*doc),
{
    doc.export(ExportMode::Snapshot).unwrap_or_default()
}

/// Relies on `LoroDoc::export` of all updates.
#[verifier::external_body]
pub(crate) fn export_all_updates(doc: &LoroDoc) -> (r: Result<Vec<u8>, LoroEncodeError>)
    ensures
        r matches Ok(v) ==> all_updates_of(*doc) == Some(v@),
        r is Err ==> all_updates_of(*doc) is None,
{
    doc.export(ExportMode::all_updates())
}

/// Relies on `VersionVector::decode` and on `LoroDoc::export` of the updates that
/// the decoded version vector lacks; `None` when either fails. (The version
/// vector type cannot cross into verified code, so both calls stand here.)
#[verifier::external_body]
pub(crate) fn export_updates_since(doc: &LoroDoc, since: &[u8]) -> (r: Option<Vec<u8>>)
    ensures
        r matches Some(v) ==> updates_since(*doc, since@) == Some(v@),
        r is None ==> updates_since(*doc, since@) is None,
{
    let vv = VersionVector::decode(since).ok()?;
    doc.export(ExportMode::updates(&vv)).ok()
}

/// Relies on `LoroDoc::oplog_vv` and `VersionVector::encode`.
#[verifier::external_body]
pub(crate) fn version_bytes(doc: &LoroDoc) -> (r: Vec<u8>)
    ensures
        r@ == version_of(*doc),
{
    doc.oplog_vv().encode()
}

/// Relies on the standard base64 engine's `encode`.
#[verifier::external_body]
pub(crate) fn base64_encode(b: &[u8]) -> (r: String)
    ensures
        r@ == base64_of(b@),
{
    base64::engine::general_purpose::STANDARD.encode(b)
}

/// Relies on the standard base64 engine's `decode`, which accepts canonical
/// padded text only: it succeeds exactly on the text that `encode` writes,
/// the bytes encode back to the same text, and no other bytes encode to it.
#[verifier::external_body]
pub(crate) fn base64_decode(s: &str) -> (r: Option<Vec<u8>>)
    ensures
        r matches Some(v) ==> base64_of(v@) == s@,
        r matches Some(v) ==> forall|w: Seq<u8>| base64_of(w) == s@ ==> w == v@,
        r is None ==> forall|v: Seq<u8>| base64_of(v) != s@,
{
    base64::engine::general_purpose::STANDARD.decode(s).ok()
}

} // verus!
