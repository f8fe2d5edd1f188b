//! The binary message envelope: a MessagePack map `{t: tag, d: payload}` in the
//! canonical form that both ends of a connection write. Update and snapshot
//! payloads are binary values; an awareness payload is one encoded MessagePack
//! value, carried without inspection.

use vstd::prelude::*;
use vstd::utf8::*;

verus! {

broadcast use vstd::string::group_string_axioms;

/// Client to server messages.
#[derive(Debug)]
pub enum ClientMsg {
    /// Ask for the room's current snapshot.
    SyncRequest,
    /// An encoded update of the replicated document.
    Update(Vec<u8>),
    /// Presence metadata: one encoded MessagePack value.
    Awareness(Vec<u8>),
}

/// Server to client messages.
#[derive(Debug)]
pub enum ServerMsg {
    /// The room's compacted snapshot.
    SyncResponse(Vec<u8>),
    /// An update accepted from another peer.
    Update(Vec<u8>),
    /// Presence metadata from another peer: one encoded MessagePack value.
    Awareness(Vec<u8>),
    /// A rejected update.
    Error { code: String, message: String },
}

/// The largest length that a MessagePack header can state.
pub const MAX_LEN: usize = 0xffff_ffff;

/// The big-endian bytes of `n`, which is below 2^32.
pub open spec fn be32(n: nat) -> Seq<u8> {
    seq![(n / 0x100_0000) as u8, ((n / 0x1_0000) % 0x100) as u8, ((n / 0x100) % 0x100) as u8, (n % 0x100) as u8]
}

/// The shortest MessagePack string header for a string of `n` bytes.
pub open spec fn str_head(n: nat) -> Seq<u8> {
    if n < 32 {
        seq![(0xa0 + n) as u8]
    } else if n < 0x100 {
        seq![0xd9u8, n as u8]
    } else if n < 0x1_0000 {
        seq![0xdau8, (n / 0x100) as u8, (n % 0x100) as u8]
    } else {
        seq![0xdbu8] + be32(n)
    }
}

/// The shortest MessagePack binary header for `n` bytes.
pub open spec fn bin_head(n: nat) -> Seq<u8> {
    if n < 0x100 {
        seq![0xc4u8, n as u8]
    } else if n < 0x1_0000 {
        seq![0xc5u8, (n / 0x100) as u8, (n % 0x100) as u8]
    } else {
        seq![0xc6u8] + be32(n)
    }
}

/// A MessagePack string holding the UTF-8 bytes `b`.
pub open spec fn str_value(b: Seq<u8>) -> Seq<u8> {
    str_head(b.len()) + b
}

/// A MessagePack binary value holding `b`.
pub open spec fn bin_value(b: Seq<u8>) -> Seq<u8> {
    bin_head(b.len()) + b
}

/// The start of every envelope with a payload: a two-entry map, key `t`, the
/// one-letter tag `tag`, key `d`.
pub open spec fn head_with_payload(tag: u8) -> Seq<u8> {
    seq![0x82u8, 0xa1u8, 0x74u8, 0xa1u8, tag, 0xa1u8, 0x64u8]
}

/// The map that a rejected update carries: `{code, message}`.
pub open spec fn error_body(code: Seq<u8>, message: Seq<u8>) -> Seq<u8> {
    seq![0x82u8, 0xa4u8, 0x63u8, 0x6fu8, 0x64u8, 0x65u8] + str_value(code)
        + seq![0xa7u8, 0x6du8, 0x65u8, 0x73u8, 0x73u8, 0x61u8, 0x67u8, 0x65u8]
        + str_value(message)
}

/// The tag letters.
pub const TAG_SYNC: u8 = 0x73;
pub const TAG_UPDATE: u8 = 0x75;
pub const TAG_AWARENESS: u8 = 0x61;
pub const TAG_ERROR: u8 = 0x65;

/// The encoding of a client message.
pub open spec fn client_frame(m: ClientMsg) -> Seq<u8> {
    match m {
        ClientMsg::SyncRequest => seq![0x81u8, 0xa1u8, 0x74u8, 0xa1u8, TAG_SYNC],
        ClientMsg::Update(d) => head_with_payload(TAG_UPDATE) + bin_value(d@),
        ClientMsg::Awareness(v) => head_with_payload(TAG_AWARENESS) + v@,
    }
}

/// The encoding of a server message.
pub open spec fn server_frame(m: ServerMsg) -> Seq<u8> {
    match m {
        ServerMsg::SyncResponse(d) => head_with_payload(TAG_SYNC) + bin_value(d@),
        ServerMsg::Update(d) => head_with_payload(TAG_UPDATE) + bin_value(d@),
        ServerMsg::Awareness(v) => head_with_payload(TAG_AWARENESS) + v@,
        ServerMsg::Error { code, message } => head_with_payload(TAG_ERROR) + error_body(
            encode_utf8(code@),
            encode_utf8(message@),
        ),
    }
}

/// Whether every length in the message fits a MessagePack header.
pub open spec fn client_encodable(m: ClientMsg) -> bool {
    match m {
        ClientMsg::Update(d) => d@.len() <= MAX_LEN,
        _ => true,
    }
}

/// Whether every length in the message fits a MessagePack header.
pub open spec fn server_encodable(m: ServerMsg) -> bool {
    match m {
        ServerMsg::SyncResponse(d) => d@.len() <= MAX_LEN,
        ServerMsg::Update(d) => d@.len() <= MAX_LEN,
        ServerMsg::Awareness(_) => true,
        ServerMsg::Error { code, message } => encode_utf8(code@).len() <= MAX_LEN
            && encode_utf8(message@).len() <= MAX_LEN,
    }
}

fn push_be32(out: &mut Vec<u8>, n: usize)
    requires
        n <= MAX_LEN,
    ensures
        final(out)@ == old(out)@ + be32(n as nat),
{
    out.push((n / 0x100_0000) as u8);
    out.push(((n / 0x1_0000) % 0x100) as u8);
    out.push(((n / 0x100) % 0x100) as u8);
    out.push((n % 0x100) as u8);
    assert(final(out)@ =~= old(out)@ + be32(n as nat));
}

fn push_str_head(out: &mut Vec<u8>, n: usize)
    requires
        n <= MAX_LEN,
    ensures
        final(out)@ == old(out)@ + str_head(n as nat),
{
    if n < 32 {
        out.push((0xa0 + n) as u8);
    } else if n < 0x100 {
        out.push(0xd9);
        out.push(n as u8);
    } else if n < 0x1_0000 {
        out.push(0xda);
        out.push((n / 0x100) as u8);
        out.push((n % 0x100) as u8);
    } else {
        out.push(0xdb);
        push_be32(out, n);
    }
    assert(final(out)@ =~= old(out)@ + str_head(n as nat));
}

fn push_bin_head(out: &mut Vec<u8>, n: usize)
    requires
        n <= MAX_LEN,
    ensures
        final(out)@ == old(out)@ + bin_head(n as nat),
{
    if n < 0x100 {
        out.push(0xc4);
        out.push(n as u8);
    } else if n < 0x1_0000 {
        out.push(0xc5);
        out.push((n / 0x100) as u8);
        out.push((n % 0x100) as u8);
    } else {
        out.push(0xc6);
        push_be32(out, n);
    }
    assert(final(out)@ =~= old(out)@ + bin_head(n as nat));
}

fn push_all(out: &mut Vec<u8>, b: &[u8])
    ensures
        final(out)@ == old(out)@ + b@,
{
    let mut i: usize = 0;
    while i < b.len()
        invariant
            i <= b@.len(),
            out@ == old(out)@ + b@.take(i as int),
        decreases b@.len() - i,
    {
        out.push(b[i]);
        i = i + 1;
        assert(out@ =~= old(out)@ + b@.take(i as int));
    }
    assert(b@.take(i as int) =~= b@);
}

fn push_str_value(out: &mut Vec<u8>, b: &[u8])
    requires
        b@.len() <= MAX_LEN,
    ensures
        final(out)@ == old(out)@ + str_value(b@),
{
    push_str_head(out, b.len());
    push_all(out, b);
    assert(final(out)@ =~= old(out)@ + str_value(b@));
}

fn head_for(tag: u8) -> (r: Vec<u8>)
    ensures
        r@ == head_with_payload(tag),
{
    let r = vec![0x82u8, 0xa1, 0x74, 0xa1, tag, 0xa1, 0x64];
    assert(r@ =~= head_with_payload(tag));
    r
}

fn framed_bin(tag: u8, data: &[u8]) -> (r: Vec<u8>)
    ensures
        data@.len() <= MAX_LEN ==> r@ == head_with_payload(tag) + bin_value(data@),
        data@.len() > MAX_LEN ==> r@.len() == 0,
{
    if data.len() > MAX_LEN {
        return Vec::new();
    }
    let mut out = head_for(tag);
    push_bin_head(&mut out, data.len());
    push_all(&mut out, data);
    assert(out@ =~= head_with_payload(tag) + bin_value(data@));
    out
}

fn framed_value(tag: u8, value: &[u8]) -> (r: Vec<u8>)
    ensures
        r@ == head_with_payload(tag) + value@,
{
    let mut out = head_for(tag);
    push_all(&mut out, value);
    out
}

impl ClientMsg {
    /// The encoded sync request.
    pub fn sync_request() -> (r: Vec<u8>)
        ensures
            r@ == client_frame(ClientMsg::SyncRequest),
    {
        let r = vec![0x81u8, 0xa1, 0x74, 0xa1, TAG_SYNC];
        assert(r@ =~= client_frame(ClientMsg::SyncRequest));
        r
    }

    /// The encoded update message; empty when `data` is too long for a header.
    pub fn update(data: Vec<u8>) -> (r: Vec<u8>)
        ensures
            data@.len() <= MAX_LEN ==> r@ == client_frame(ClientMsg::Update(data)),
            data@.len() > MAX_LEN ==> r@.len() == 0,
    {
        framed_bin(TAG_UPDATE, data.as_slice())
    }

    /// The encoded awareness message around one encoded MessagePack value.
    pub fn awareness(value: Vec<u8>) -> (r: Vec<u8>)
        ensures
            r@ == client_frame(ClientMsg::Awareness(value)),
    {
        framed_value(TAG_AWARENESS, value.as_slice())
    }
}

/// The encoded sync response carrying `snapshot`; empty when it is too long.
pub fn build_sync_response(snapshot: Vec<u8>) -> (r: Vec<u8>)
    ensures
        snapshot@.len() <= MAX_LEN ==> r@ == server_frame(ServerMsg::SyncResponse(snapshot)),
        snapshot@.len() > MAX_LEN ==> r@.len() == 0,
{
    framed_bin(TAG_SYNC, snapshot.as_slice())
}

/// The encoded update broadcast; empty when `data` is too long.
pub fn build_update(data: &[u8]) -> (r: Vec<u8>)
    ensures
        data@.len() <= MAX_LEN ==> r@ == head_with_payload(TAG_UPDATE) + bin_value(data@),
        data@.len() > MAX_LEN ==> r@.len() == 0,
{
    framed_bin(TAG_UPDATE, data)
}

/// The encoded awareness broadcast around one encoded MessagePack value.
pub fn build_awareness(value: &[u8]) -> (r: Vec<u8>)
    ensures
        r@ == head_with_payload(TAG_AWARENESS) + value@,
{
    framed_value(TAG_AWARENESS, value)
}

/// The encoded error message; empty when a string is too long.
pub fn build_error(code: &str, message: &str) -> (r: Vec<u8>)
    ensures
        encode_utf8(code@).len() <= MAX_LEN && encode_utf8(message@).len() <= MAX_LEN ==> r@
            == head_with_payload(TAG_ERROR) + error_body(encode_utf8(code@), encode_utf8(message@)),
        encode_utf8(code@).len() > MAX_LEN || encode_utf8(message@).len() > MAX_LEN ==> r@.len()
            == 0,
{
    let cb = code.as_bytes();
    let mb = message.as_bytes();
    if cb.len() > MAX_LEN || mb.len() > MAX_LEN {
        return Vec::new();
    }
    let mut out = head_for(TAG_ERROR);
    let ghost h = out@;
    let code_key = vec![0x82u8, 0xa4, 0x63, 0x6f, 0x64, 0x65];
    let message_key = vec![0xa7u8, 0x6d, 0x65, 0x73, 0x73, 0x61, 0x67, 0x65];
    push_all(&mut out, code_key.as_slice());
    push_str_value(&mut out, cb);
    push_all(&mut out, message_key.as_slice());
    push_str_value(&mut out, mb);
    assert(code_key@ =~= seq![0x82u8, 0xa4u8, 0x63u8, 0x6fu8, 0x64u8, 0x65u8]);
    assert(message_key@ =~= seq![0xa7u8, 0x6du8, 0x65u8, 0x73u8, 0x73u8, 0x61u8, 0x67u8, 0x65u8]);
    assert(out@ =~= h + error_body(cb@, mb@));
    out
}

/// Whether `data` holds `expected` at `pos`.
fn has_at(data: &[u8], pos: usize, expected: &[u8]) -> (r: bool)
    ensures
        r == (pos + expected@.len() <= data@.len() && data@.subrange(
            pos as int,
            pos + expected@.len(),
        ) == expected@),
{
    if expected.len() > data.len() || pos > data.len() - expected.len() {
        return false;
    }
    let mut i: usize = 0;
    while i < expected.len()
        invariant
            i <= expected@.len(),
            pos + expected@.len() <= data@.len(),
            data@.len() == data.len(),
            forall|k: int| 0 <= k < i ==> data@[pos + k] == expected@[k],
        decreases expected@.len() - i,
    {
        if data[pos + i] != expected[i] {
            assert(data@.subrange(pos as int, pos + expected@.len())[i as int] != expected@[i as int]);
            return false;
        }
        i = i + 1;
    }
    assert(data@.subrange(pos as int, pos + expected@.len()) =~= expected@);
    true
}

/// The bytes of `data` in `[from, to)`.
fn copy_range(data: &[u8], from: usize, to: usize) -> (r: Vec<u8>)
    requires
        from <= to <= data@.len(),
    ensures
        r@ == data@.subrange(from as int, to as int),
{
    let mut out: Vec<u8> = Vec::new();
    let mut i: usize = from;
    while i < to
        invariant
            from <= i <= to <= data@.len(),
            out@ == data@.subrange(from as int, i as int),
        decreases to - i,
    {
        out.push(data[i]);
        i = i + 1;
        assert(out@ =~= data@.subrange(from as int, i as int));
    }
    out
}

proof fn lemma_be32(n: nat)
    requires
        n <= MAX_LEN,
    ensures
        ({
            let b = be32(n);
            n == b[0] as nat * 0x100_0000 + b[1] as nat * 0x1_0000 + b[2] as nat * 0x100
                + b[3] as nat
        }),
{
    let b = be32(n);
    assert(b[0] as nat == n / 0x100_0000);
    assert(b[1] as nat == (n / 0x1_0000) % 0x100);
    assert(b[2] as nat == (n / 0x100) % 0x100);
    assert(b[3] as nat == n % 0x100);
    assert(n == (n / 0x100_0000) * 0x100_0000 + ((n / 0x1_0000) % 0x100) * 0x1_0000 + ((n / 0x100)
        % 0x100) * 0x100 + n % 0x100) by (nonlinear_arith)
        requires
            n <= 0xffff_ffff,
    {
        assert(n / 0x1_0000 == (n / 0x100_0000) * 0x100 + (n / 0x1_0000) % 0x100);
        assert(n / 0x100 == (n / 0x1_0000) * 0x100 + (n / 0x100) % 0x100);
        assert(n == (n / 0x100) * 0x100 + n % 0x100);
    }
}

proof fn lemma_str_head_shape(k: nat)
    requires
        k <= MAX_LEN,
    ensures
        k < 32 ==> str_head(k).len() == 1 && 0xa0 <= str_head(k)[0] <= 0xbf,
        32 <= k < 0x100 ==> str_head(k).len() == 2 && str_head(k)[0] == 0xd9,
        0x100 <= k < 0x1_0000 ==> str_head(k).len() == 3 && str_head(k)[0] == 0xda,
        0x1_0000 <= k ==> str_head(k).len() == 5 && str_head(k)[0] == 0xdb,
{
}

/// The length that a canonical MessagePack string header at `pos` states, and
/// the header's own length.
fn read_str_head(data: &[u8], pos: usize) -> (r: Option<(usize, usize)>)
    ensures
        r matches Some((n, h)) ==> n <= MAX_LEN && pos + h <= data@.len() && h == str_head(
            n as nat,
        ).len() && data@.subrange(pos as int, pos + h) == str_head(n as nat),
        forall|n: nat|
            #![trigger str_head(n)]
            n <= MAX_LEN && pos + str_head(n).len() <= data@.len() && data@.subrange(
                pos as int,
                pos + str_head(n).len(),
            ) == str_head(n) ==> r == Some((n as usize, str_head(n).len() as usize)),
{
    if pos >= data.len() {
        proof {
            assert forall|k: nat|
                #![trigger str_head(k)]
                k <= MAX_LEN && pos + str_head(k).len() <= data@.len() implies false by {
                lemma_str_head_shape(k);
            }
        }
        return None;
    }
    let m = data[pos];
    let rem = data.len() - pos;
    let n: usize;
    if 0xa0 <= m && m <= 0xbf {
        n = (m - 0xa0) as usize;
    } else if m == 0xd9 && rem >= 2 {
        n = data[pos + 1] as usize;
    } else if m == 0xda && rem >= 3 {
        n = data[pos + 1] as usize * 0x100 + data[pos + 2] as usize;
    } else if m == 0xdb && rem >= 5 {
        n = data[pos + 1] as usize * 0x100_0000 + data[pos + 2] as usize * 0x1_0000
            + data[pos + 3] as usize * 0x100 + data[pos + 4] as usize;
    } else {
        proof {
            assert forall|k: nat|
                #![trigger str_head(k)]
                k <= MAX_LEN && pos + str_head(k).len() <= data@.len() && data@.subrange(
                    pos as int,
                    pos + str_head(k).len(),
                ) == str_head(k) implies false by {
                lemma_str_head_shape(k);
                assert(data@[pos as int] == str_head(k)[0]);
            }
        }
        return None;
    }
    let mut head: Vec<u8> = Vec::new();
    push_str_head(&mut head, n);
    assert(head@ =~= str_head(n as nat));
    let ok = has_at(data, pos, head.as_slice());
    proof {
        assert forall|k: nat|
            #![trigger str_head(k)]
            k <= MAX_LEN && pos + str_head(k).len() <= data@.len() && data@.subrange(
                pos as int,
                pos + str_head(k).len(),
            ) == str_head(k) implies k == n && ok by {
            let hk = str_head(k);
            assert(data@[pos as int] == hk[0]);
            if k >= 32 && k < 0x100 {
                assert(data@[pos + 1] == hk[1]);
            } else if k >= 0x100 && k < 0x1_0000 {
                assert(data@[pos + 1] == hk[1]);
                assert(data@[pos + 2] == hk[2]);
                assert(k == (k / 0x100) * 0x100 + k % 0x100);
            } else if k >= 0x1_0000 {
                assert(data@[pos + 1] == hk[1]);
                assert(data@[pos + 2] == hk[2]);
                assert(data@[pos + 3] == hk[3]);
                assert(data@[pos + 4] == hk[4]);
                lemma_be32(k);
            }
        }
    }
    if ok {
        Some((n, head.len()))
    } else {
        None
    }
}

/// The header of a string (`text`) or binary value of `n` bytes.
pub open spec fn value_head(text: bool, n: nat) -> Seq<u8> {
    if text { str_head(n) } else { bin_head(n) }
}

proof fn lemma_bin_head_shape(k: nat)
    requires
        k <= MAX_LEN,
    ensures
        k < 0x100 ==> bin_head(k).len() == 2 && bin_head(k)[0] == 0xc4,
        0x100 <= k < 0x1_0000 ==> bin_head(k).len() == 3 && bin_head(k)[0] == 0xc5,
        0x1_0000 <= k ==> bin_head(k).len() == 5 && bin_head(k)[0] == 0xc6,
{
}

/// The length of the header that starts with marker `m`, for a string or a
/// binary value.
fn head_len(text: bool, m: u8) -> (r: Option<usize>)
    ensures
        forall|k: nat|
            #![trigger value_head(text, k)]
            k <= MAX_LEN && value_head(text, k)[0] == m ==> r == Some(
                value_head(text, k).len() as usize,
            ),
{
    proof {
        assert forall|k: nat| #![trigger value_head(text, k)] k <= MAX_LEN implies value_head(text, k).len() >= 1 by {
            lemma_str_head_shape(k);
            lemma_bin_head_shape(k);
        }
    }
    if text {
        if 0xa0 <= m && m <= 0xbf {
            Some(1)
        } else if m == 0xd9 {
            Some(2)
        } else if m == 0xda {
            Some(3)
        } else if m == 0xdb {
            Some(5)
        } else {
            proof {
                assert forall|k: nat| #![trigger value_head(text, k)] k <= MAX_LEN implies value_head(text, k)[0] != m by {
                    lemma_str_head_shape(k);
                }
            }
            None
        }
    } else {
        if m == 0xc4 {
            Some(2)
        } else if m == 0xc5 {
            Some(3)
        } else if m == 0xc6 {
            Some(5)
        } else {
            proof {
                assert forall|k: nat| #![trigger value_head(text, k)] k <= MAX_LEN implies value_head(text, k)[0] != m by {
                    lemma_bin_head_shape(k);
                }
            }
            None
        }
    }
}

/// The payload of the string or binary value that fills `data` from `pos` to
/// its end.
fn read_to_end(data: &[u8], pos: usize, text: bool) -> (r: Option<Vec<u8>>)
    ensures
        r matches Some(v) ==> pos <= data@.len() && v@.len() <= MAX_LEN && data@.skip(pos as int)
            == value_head(text, v@.len()) + v@,
        forall|v: Seq<u8>|
            #![trigger value_head(text, v.len()) + v]
            v.len() <= MAX_LEN && pos <= data@.len() && data@.skip(pos as int) == value_head(
                text,
                v.len(),
            ) + v ==> (r matches Some(w) && w@ == v),
{
    if pos >= data.len() {
        proof {
            assert forall|v: Seq<u8>|
                #![trigger value_head(text, v.len()) + v]
                v.len() <= MAX_LEN && pos <= data@.len() && data@.skip(pos as int) == value_head(
                    text,
                    v.len(),
                ) + v implies false by {
                lemma_str_head_shape(v.len());
                lemma_bin_head_shape(v.len());
                assert(data@.skip(pos as int).len() == 0);
                assert((value_head(text, v.len()) + v).len() >= 1);
            }
        }
        return None;
    }
    let rem = data.len() - pos;
    let h = match head_len(text, data[pos]) {
        Some(h) => h,
        None => {
            proof {
                assert forall|v: Seq<u8>|
                    #![trigger value_head(text, v.len()) + v]
                    v.len() <= MAX_LEN && pos <= data@.len() && data@.skip(pos as int)
                        == value_head(text, v.len()) + v implies false by {
                    lemma_str_head_shape(v.len());
                    lemma_bin_head_shape(v.len());
                    assert(data@[pos as int] == data@.skip(pos as int)[0]);
                }
            }
            return None;
        },
    };
    proof {
        assert forall|v: Seq<u8>|
            #![trigger value_head(text, v.len()) + v]
            v.len() <= MAX_LEN && pos <= data@.len() && data@.skip(pos as int) == value_head(
                text,
                v.len(),
            ) + v implies h == value_head(text, v.len()).len() && rem == h + v.len() by {
            lemma_str_head_shape(v.len());
            lemma_bin_head_shape(v.len());
            let vh = value_head(text, v.len());
            assert(vh.len() >= 1);
            assert(data@[pos as int] == data@.skip(pos as int)[0]);
            assert((vh + v)[0] == vh[0]);
            assert(data@.skip(pos as int).len() == rem);
        }
    }
    if h > rem || rem - h > MAX_LEN {
        return None;
    }
    let n = rem - h;
    let mut head: Vec<u8> = Vec::new();
    if text {
        push_str_head(&mut head, n);
    } else {
        push_bin_head(&mut head, n);
    }
    assert(head@ =~= value_head(text, n as nat));
    if head.len() != h || !has_at(data, pos, head.as_slice()) {
        proof {
            assert forall|v: Seq<u8>|
                #![trigger value_head(text, v.len()) + v]
                v.len() <= MAX_LEN && pos <= data@.len() && data@.skip(pos as int) == value_head(
                    text,
                    v.len(),
                ) + v implies false by {
                assert(data@.subrange(pos as int, pos + h) =~= data@.skip(pos as int).take(
                    h as int,
                ));
                assert((value_head(text, v.len()) + v).take(h as int) =~= value_head(
                    text,
                    v.len(),
                ));
            }
        }
        return None;
    }
    let payload = copy_range(data, pos + h, data.len());
    assert(data@.skip(pos as int) =~= value_head(text, n as nat) + payload@);
    proof {
        assert forall|v: Seq<u8>|
            #![trigger value_head(text, v.len()) + v]
            v.len() <= MAX_LEN && pos <= data@.len() && data@.skip(pos as int) == value_head(
                text,
                v.len(),
            ) + v implies payload@ == v by {
            assert(payload@ =~= data@.skip(pos as int).skip(h as int));
            assert((value_head(text, v.len()) + v).skip(h as int) =~= v);
        }
    }
    Some(payload)
}

/// Relies on `String::from_utf8`: it succeeds exactly on valid UTF-8 and keeps the bytes.
#[verifier::external_body]
fn utf8_string(bytes: Vec<u8>) -> (r: Option<String>)
    ensures
        r matches Some(s) ==> encode_utf8(s@) == bytes@,
        valid_utf8(bytes@) ==> r is Some,
{
    String::from_utf8(bytes).ok()
}

proof fn lemma_take_of_concat(a: Seq<u8>, b: Seq<u8>)
    ensures
        (a + b).subrange(0, a.len() as int) == a,
        (a + b).skip(a.len() as int) == b,
{
    assert((a + b).subrange(0, a.len() as int) =~= a);
    assert((a + b).skip(a.len() as int) =~= b);
}

/// Parses a client message in the canonical envelope; anything else is
/// undecodable.
pub fn parse_message(data: &[u8]) -> (r: Option<ClientMsg>)
    ensures
        r matches Some(m) ==> client_frame(m) == data@ && client_encodable(m),
        r is None ==> forall|m: ClientMsg| client_encodable(m) ==> client_frame(m) != data@,
{
    let sync = ClientMsg::sync_request();
    if data.len() == sync.len() && has_at(data, 0, sync.as_slice()) {
        assert(data@ =~= data@.subrange(0, 5));
        return Some(ClientMsg::SyncRequest);
    }
    let update_head = head_for(TAG_UPDATE);
    if has_at(data, 0, update_head.as_slice()) {
        let r = read_to_end(data, 7, false);
        proof {
            assert(data@ =~= update_head@ + data@.skip(7));
            assert forall|m: ClientMsg| client_encodable(m) && client_frame(m) == data@ implies r is Some by {
                match m {
                    ClientMsg::SyncRequest => {
                        assert(data@.subrange(0, 5) =~= data@);
                    },
                    ClientMsg::Update(d) => {
                        lemma_take_of_concat(update_head@, bin_value(d@));
                        assert(data@.skip(7) == value_head(false, d@.len()) + d@);
                    },
                    ClientMsg::Awareness(v) => {
                        assert(client_frame(m)[4] == TAG_AWARENESS);
                        assert(data@.subrange(0, 7)[4] == data@[4]);
                    },
                }
            }
        }
        return match r {
            Some(v) => Some(ClientMsg::Update(v)),
            None => None,
        };
    }
    let awareness_head = head_for(TAG_AWARENESS);
    if has_at(data, 0, awareness_head.as_slice()) {
        let v = copy_range(data, 7, data.len());
        assert(data@ =~= awareness_head@ + v@);
        return Some(ClientMsg::Awareness(v));
    }
    proof {
        assert forall|m: ClientMsg| client_encodable(m) implies client_frame(m) != data@ by {
            if client_frame(m) == data@ {
                match m {
                    ClientMsg::SyncRequest => {
                        assert(data@.subrange(0, 5) =~= data@);
                    },
                    ClientMsg::Update(d) => {
                        lemma_take_of_concat(update_head@, bin_value(d@));
                    },
                    ClientMsg::Awareness(v) => {
                        lemma_take_of_concat(awareness_head@, v@);
                    },
                }
            }
        }
    }
    None
}

/// Whether `data` from offset 7 on is the error body for the strings `c` and `t`.
pub open spec fn error_body_at(data: Seq<u8>, c: Seq<char>, t: Seq<char>) -> bool {
    &&& encode_utf8(c).len() <= MAX_LEN
    &&& encode_utf8(t).len() <= MAX_LEN
    &&& data.len() >= 7
    &&& data.skip(7) == error_body(encode_utf8(c), encode_utf8(t))
}

spec fn code_key_bytes() -> Seq<u8> {
    seq![0x82u8, 0xa4u8, 0x63u8, 0x6fu8, 0x64u8, 0x65u8]
}

spec fn message_key_bytes() -> Seq<u8> {
    seq![0xa7u8, 0x6du8, 0x65u8, 0x73u8, 0x73u8, 0x61u8, 0x67u8, 0x65u8]
}

proof fn lemma_error_body_layout(data: Seq<u8>, c: Seq<char>, t: Seq<char>)
    requires
        error_body_at(data, c, t),
    ensures
        ({
            let cb = encode_utf8(c);
            let tb = encode_utf8(t);
            let h = str_head(cb.len()).len() as int;
            let msg_at = 13 + h + cb.len();
            &&& data.subrange(7, 13) == code_key_bytes()
            &&& 13 + h <= data.len()
            &&& data.subrange(13, 13 + h) == str_head(cb.len())
            &&& msg_at + 8 <= data.len()
            &&& data.subrange(13 + h, msg_at) == cb
            &&& data.subrange(msg_at, msg_at + 8) == message_key_bytes()
            &&& data.skip(msg_at + 8) == value_head(true, tb.len()) + tb
            &&& valid_utf8(cb)
            &&& valid_utf8(tb)
        }),
{
    let cb = encode_utf8(c);
    let tb = encode_utf8(t);
    let sh = str_head(cb.len());
    let h = sh.len() as int;
    let msg_at = 13 + h + cb.len();
    let body = data.skip(7);
    assert(data =~= data.take(7) + body);
    assert(body =~= code_key_bytes() + sh + cb + message_key_bytes() + (str_head(tb.len()) + tb));
    assert(data.subrange(7, 13) =~= code_key_bytes());
    assert(data.subrange(13, 13 + h) =~= sh);
    assert(data.subrange(13 + h, msg_at) =~= cb);
    assert(data.subrange(msg_at, msg_at + 8) =~= message_key_bytes());
    assert(data.skip(msg_at + 8) =~= str_head(tb.len()) + tb);
    encode_utf8_valid_utf8(c);
    encode_utf8_valid_utf8(t);
}

/// Parses the `{code, message}` body of an error message that fills `data`
/// from offset 7 to its end.
#[verifier::rlimit(30)]
fn parse_error_body(data: &[u8]) -> (r: Option<ServerMsg>)
    requires
        data@.len() >= 7,
    ensures
        r matches Some(m) ==> m is Error && server_frame(m).skip(7) == data@.skip(7)
            && server_encodable(m),
        forall|c: Seq<char>, t: Seq<char>|
            #![trigger error_body_at(data@, c, t)]
            error_body_at(data@, c, t) ==> r is Some,
{
    let code_key = vec![0x82u8, 0xa4, 0x63, 0x6f, 0x64, 0x65];
    let message_key = vec![0xa7u8, 0x6d, 0x65, 0x73, 0x73, 0x61, 0x67, 0x65];
    assert(code_key@ =~= code_key_bytes());
    assert(message_key@ =~= message_key_bytes());
    let ghost d = data@;
    if !has_at(data, 7, code_key.as_slice()) {
        proof {
            assert forall|c: Seq<char>, t: Seq<char>| #![trigger error_body_at(d, c, t)] error_body_at(d, c, t) implies false by {
                lemma_error_body_layout(d, c, t);
            }
        }
        return None;
    }
    let (n, h) = match read_str_head(data, 13) {
        Some(x) => x,
        None => {
            proof {
                assert forall|c: Seq<char>, t: Seq<char>| #![trigger error_body_at(d, c, t)] error_body_at(d, c, t) implies false by {
                    lemma_error_body_layout(d, c, t);
                    let k = encode_utf8(c).len();
                    assert(str_head(k) == str_head(k));
                }
            }
            return None;
        },
    };
    proof {
        assert forall|c: Seq<char>, t: Seq<char>| #![trigger error_body_at(d, c, t)] error_body_at(d, c, t) implies n == encode_utf8(c).len() && h == str_head(n as nat).len() by {
            lemma_error_body_layout(d, c, t);
            let k = encode_utf8(c).len();
            assert(str_head(k) == str_head(k));
        }
    }
    if n > data.len() - 13 - h || data.len() - 13 - h - n < 8 {
        proof {
            assert forall|c: Seq<char>, t: Seq<char>| #![trigger error_body_at(d, c, t)] error_body_at(d, c, t) implies false by {
                lemma_error_body_layout(d, c, t);
            }
        }
        return None;
    }
    let msg_at = 13 + h + n;
    let code_bytes = copy_range(data, 13 + h, msg_at);
    if !has_at(data, msg_at, message_key.as_slice()) {
        proof {
            assert forall|c: Seq<char>, t: Seq<char>| #![trigger error_body_at(d, c, t)] error_body_at(d, c, t) implies false by {
                lemma_error_body_layout(d, c, t);
            }
        }
        return None;
    }
    let message_bytes = match read_to_end(data, msg_at + 8, true) {
        Some(v) => v,
        None => {
            proof {
                assert forall|c: Seq<char>, t: Seq<char>| #![trigger error_body_at(d, c, t)] error_body_at(d, c, t) implies false by {
                    lemma_error_body_layout(d, c, t);
                    let tb = encode_utf8(t);
                    assert(value_head(true, tb.len()) + tb == value_head(true, tb.len()) + tb);
                }
            }
            return None;
        },
    };
    let ghost cbv = code_bytes@;
    let ghost mbv = message_bytes@;
    proof {
        assert forall|c: Seq<char>, t: Seq<char>| #![trigger error_body_at(d, c, t)] error_body_at(d, c, t) implies valid_utf8(cbv) && valid_utf8(mbv) by {
            lemma_error_body_layout(d, c, t);
            let tb = encode_utf8(t);
            assert(value_head(true, tb.len()) + tb == value_head(true, tb.len()) + tb);
        }
    }
    let code = match utf8_string(code_bytes) {
        Some(x) => x,
        None => {
            return None;
        },
    };
    let message = match utf8_string(message_bytes) {
        Some(x) => x,
        None => {
            return None;
        },
    };
    let m = ServerMsg::Error { code, message };
    proof {
        assert(d.skip(7) =~= code_key_bytes() + str_head(n as nat) + cbv + message_key_bytes() + (str_head(
            mbv.len(),
        ) + mbv)) by {
            assert(d =~= d.take(7) + d.subrange(7, 13) + d.subrange(13, 13 + h) + d.subrange(
                13 + h,
                msg_at as int,
            ) + d.subrange(msg_at as int, msg_at + 8) + d.skip(msg_at + 8));
        }
        assert(server_frame(m).skip(7) =~= error_body(cbv, mbv));
    }
    Some(m)
}

impl ServerMsg {
    /// Parses a server message in the canonical envelope; anything else is
    /// undecodable.
    pub fn parse(data: &[u8]) -> (r: Option<ServerMsg>)
        ensures
            r matches Some(m) ==> server_frame(m) == data@ && server_encodable(m),
            r is None ==> forall|m: ServerMsg| server_encodable(m) ==> server_frame(m) != data@,
    {
        let sync_head = head_for(TAG_SYNC);
        let update_head = head_for(TAG_UPDATE);
        let awareness_head = head_for(TAG_AWARENESS);
        let error_head = head_for(TAG_ERROR);
        let ghost d = data@;
        if has_at(data, 0, sync_head.as_slice()) {
            let r = read_to_end(data, 7, false);
            proof {
                assert(d =~= sync_head@ + d.skip(7));
                assert forall|m: ServerMsg| server_encodable(m) && server_frame(m) == d implies r is Some by {
                    assert(d.subrange(0, 7)[4] == d[4]);
                    match m {
                        ServerMsg::SyncResponse(x) => {
                            lemma_take_of_concat(sync_head@, bin_value(x@));
                            assert(d.skip(7) == value_head(false, x@.len()) + x@);
                        },
                        _ => {
                            assert(server_frame(m)[4] != TAG_SYNC);
                        },
                    }
                }
            }
            return match r {
                Some(v) => Some(ServerMsg::SyncResponse(v)),
                None => None,
            };
        }
        if has_at(data, 0, update_head.as_slice()) {
            let r = read_to_end(data, 7, false);
            proof {
                assert(d =~= update_head@ + d.skip(7));
                assert forall|m: ServerMsg| server_encodable(m) && server_frame(m) == d implies r is Some by {
                    assert(d.subrange(0, 7)[4] == d[4]);
                    match m {
                        ServerMsg::Update(x) => {
                            lemma_take_of_concat(update_head@, bin_value(x@));
                            assert(d.skip(7) == value_head(false, x@.len()) + x@);
                        },
                        _ => {
                            assert(server_frame(m)[4] != TAG_UPDATE);
                        },
                    }
                }
            }
            return match r {
                Some(v) => Some(ServerMsg::Update(v)),
                None => None,
            };
        }
        if has_at(data, 0, awareness_head.as_slice()) {
            let v = copy_range(data, 7, data.len());
            assert(d =~= awareness_head@ + v@);
            return Some(ServerMsg::Awareness(v));
        }
        if has_at(data, 0, error_head.as_slice()) {
            let r = parse_error_body(data);
            proof {
                assert forall|m: ServerMsg| server_encodable(m) && server_frame(m) == d implies r is Some by {
                    assert(d.subrange(0, 7)[4] == d[4]);
                    match m {
                        ServerMsg::Error { code, message } => {
                            let body = error_body(encode_utf8(code@), encode_utf8(message@));
                            lemma_take_of_concat(error_head@, body);
                            assert(error_body_at(d, code@, message@));
                        },
                        _ => {
                            assert(server_frame(m)[4] != TAG_ERROR);
                        },
                    }
                }
                if r is Some {
                    let m = r->0;
                    assert(server_frame(m) =~= error_head@ + server_frame(m).skip(7));
                    assert(d =~= error_head@ + d.skip(7));
                }
            }
            return r;
        }
        proof {
            assert forall|m: ServerMsg| server_encodable(m) implies server_frame(m) != d by {
                if server_frame(m) == d {
                    match m {
                        ServerMsg::SyncResponse(x) => {
                            lemma_take_of_concat(sync_head@, bin_value(x@));
                        },
                        ServerMsg::Update(x) => {
                            lemma_take_of_concat(update_head@, bin_value(x@));
                        },
                        ServerMsg::Awareness(v) => {
                            lemma_take_of_concat(awareness_head@, v@);
                        },
                        ServerMsg::Error { code, message } => {
                            let body = error_body(encode_utf8(code@), encode_utf8(message@));
                            lemma_take_of_concat(error_head@, body);
                        },
                    }
                }
            }
        }
        None
    }
}

} // verus!
