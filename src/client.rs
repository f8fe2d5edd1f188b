//! Client side of the connection protocol: what each frame from the server
//! means to the embedding editor.

use vstd::prelude::*;
use vstd::utf8::*;
use crate::crdt::{self, base64_of};
use crate::wire::{ServerMsg, server_frame, server_encodable, head_with_payload, bin_value, error_body, TAG_SYNC, TAG_UPDATE, TAG_AWARENESS, TAG_ERROR};

verus! {

/// Events of a client connection, as the editor integration receives them.
#[derive(Debug, Clone)]
pub enum WsEvent {
    Connected,
    Disconnected,
    /// The room's compacted snapshot, base64-encoded.
    SyncResponse(String),
    /// An update from another peer, base64-encoded.
    Update(String),
    /// Presence metadata from another peer, as JSON (empty when the value
    /// cannot be written as JSON).
    Awareness(String),
    /// The server rejected an update.
    ServerError { code: String, message: String },
    /// A connection or transport failure.
    Error(String),
}

/// The JSON text that serde_json writes for the first MessagePack value in
/// `v`, where that value decodes and serialises.
pub uninterp spec fn awareness_json(v: Seq<u8>) -> Option<Seq<char>>;

/// Relies on `rmpv::decode::read_value` to decode the first MessagePack value
/// of `v` and on `serde_json::to_string` to write that value as JSON; `None`
/// when either fails.
#[verifier::external_body]
fn awareness_to_json(v: &[u8]) -> (r: Option<String>)
    ensures
        r matches Some(s) ==> awareness_json(v@) == Some(s@),
        r is None ==> awareness_json(v@) is None,
{
    let value = rmpv::decode::read_value(&mut &v[..]).ok()?;
    serde_json::to_string(&value).ok()
}

/// The event that a frame from the server gives; `None` for a frame that
/// does not decode, which is dropped.
pub fn client_event(frame: &[u8]) -> (r: Option<WsEvent>)
    ensures
        r is None <==> forall|m: ServerMsg| server_encodable(m) ==> server_frame(m) != frame@,
        r matches Some(WsEvent::SyncResponse(s)) ==> exists|d: Seq<u8>|
            frame@ == head_with_payload(TAG_SYNC) + bin_value(d) && s@ == base64_of(d),
        r matches Some(WsEvent::Update(s)) ==> exists|d: Seq<u8>|
            frame@ == head_with_payload(TAG_UPDATE) + bin_value(d) && s@ == base64_of(d),
        r matches Some(WsEvent::Awareness(s)) ==> exists|v: Seq<u8>|
            #![trigger head_with_payload(TAG_AWARENESS) + v]
            frame@ == head_with_payload(TAG_AWARENESS) + v && match awareness_json(v) {
                Some(j) => s@ == j,
                None => s@.len() == 0,
            },
        r matches Some(WsEvent::ServerError { code, message }) ==> frame@ == head_with_payload(TAG_ERROR)
            + error_body(encode_utf8(code@), encode_utf8(message@)),
        r matches Some(e) ==> (e is SyncResponse || e is Update || e is Awareness || e is ServerError),
{
    match ServerMsg::parse(frame) {
        None => None,
        Some(ServerMsg::SyncResponse(d)) => Some(WsEvent::SyncResponse(crdt::base64_encode(d.as_slice()))),
        Some(ServerMsg::Update(d)) => Some(WsEvent::Update(crdt::base64_encode(d.as_slice()))),
        Some(ServerMsg::Awareness(v)) => {
            assert(frame@ == head_with_payload(TAG_AWARENESS) + v@);
            match awareness_to_json(v.as_slice()) {
                Some(json) => Some(WsEvent::Awareness(json)),
                None => Some(WsEvent::Awareness(String::new())),
            }
        },
        Some(ServerMsg::Error { code, message }) => Some(WsEvent::ServerError { code, message }),
    }
}

} // verus!
