//! Delta bridge: ordered Retain / Insert / Delete operations that an
//! editor replays over its plain-text mirror, and their JSON form.

use vstd::prelude::*;

verus! {

broadcast use vstd::string::group_string_axioms;

/// One operation of a text delta, counted in characters.
#[derive(Debug, Clone)]
pub enum TextDeltaEvent {
    /// Skip forward by `len` characters, keeping them.
    Retain { len: usize },
    /// Insert `text` at the current position.
    Insert { text: String },
    /// Remove `len` characters at the current position.
    Delete { len: usize },
}

/// The text obtained by replaying `ops` left to right over `prior`; characters
/// after the last operation are kept. `None` when an operation runs past the end.
pub open spec fn compose(prior: Seq<char>, ops: Seq<TextDeltaEvent>) -> Option<Seq<char>>
    decreases ops.len(),
{
    if ops.len() == 0 {
        Some(prior)
    } else {
        match ops[0] {
            TextDeltaEvent::Retain { len } => {
                if len <= prior.len() {
                    match compose(prior.skip(len as int), ops.skip(1)) {
                        Some(rest) => Some(prior.take(len as int) + rest),
                        None => None,
                    }
                } else {
                    None
                }
            },
            TextDeltaEvent::Insert { text } => {
                match compose(prior, ops.skip(1)) {
                    Some(rest) => Some(text@ + rest),
                    None => None,
                }
            },
            TextDeltaEvent::Delete { len } => {
                if len <= prior.len() {
                    compose(prior.skip(len as int), ops.skip(1))
                } else {
                    None
                }
            },
        }
    }
}

/// Replaying operations one at a time: the output so far followed by the
/// replay of the remaining operations over the remaining text.
proof fn lemma_compose_step(done: Seq<char>, prior: Seq<char>, ops: Seq<TextDeltaEvent>)
    requires
        ops.len() > 0,
    ensures
        ({
            let rest = ops.skip(1);
            match ops[0] {
                TextDeltaEvent::Retain { len } => len <= prior.len() ==> prefixed(
                    done,
                    compose(prior, ops),
                ) == prefixed(
                    done + prior.take(len as int),
                    compose(prior.skip(len as int), rest),
                ),
                TextDeltaEvent::Insert { text } => prefixed(done, compose(prior, ops)) == prefixed(
                    done + text@,
                    compose(prior, rest),
                ),
                TextDeltaEvent::Delete { len } => len <= prior.len() ==> prefixed(
                    done,
                    compose(prior, ops),
                ) == prefixed(done, compose(prior.skip(len as int), rest)),
            }
        }),
{
    let rest = ops.skip(1);
    match ops[0] {
        TextDeltaEvent::Retain { len } => {
            if len <= prior.len() {
                match compose(prior.skip(len as int), rest) {
                    Some(r) => {
                        assert(done + (prior.take(len as int) + r) =~= (done + prior.take(
                            len as int,
                        )) + r);
                    },
                    None => {},
                }
            }
        },
        TextDeltaEvent::Insert { text } => {
            match compose(prior, rest) {
                Some(r) => {
                    assert(done + (text@ + r) =~= (done + text@) + r);
                },
                None => {},
            }
        },
        TextDeltaEvent::Delete { len } => {},
    }
}

/// `body` with `head` put in front of it.
pub open spec fn prefixed(head: Seq<char>, body: Option<Seq<char>>) -> Option<Seq<char>> {
    match body {
        Some(b) => Some(head + b),
        None => None,
    }
}

/// Replays `ops` over `prior`, as an editor applies a delta to its buffer.
pub fn apply_deltas(prior: &str, ops: &Vec<TextDeltaEvent>) -> (r: Option<String>)
    ensures
        r matches Some(s) ==> compose(prior@, ops@) == Some(s@),
        r is None ==> compose(prior@, ops@) is None,
{
    let n = prior.unicode_len();
    let mut out = String::new();
    let mut pos: usize = 0;
    let mut i: usize = 0;
    assert(prior@.skip(0) =~= prior@);
    assert(ops@.skip(0) =~= ops@);
    while i < ops.len()
        invariant
            pos <= n == prior@.len(),
            i <= ops.len(),
            prefixed(Seq::empty(), compose(prior@, ops@)) == prefixed(
                out@,
                compose(prior@.skip(pos as int), ops@.skip(i as int)),
            ),
        decreases ops.len() - i,
    {
        let ghost rest = prior@.skip(pos as int);
        proof {
            lemma_compose_step(out@, rest, ops@.skip(i as int));
            assert(ops@.skip(i as int).skip(1) =~= ops@.skip(i + 1));
        }
        match &ops[i] {
            TextDeltaEvent::Retain { len } => {
                if *len > n - pos {
                    return None;
                }
                let piece = prior.substring_char(pos, pos + *len);
                out.append(piece);
                proof {
                    assert(piece@ =~= rest.take(*len as int));
                    assert(rest.skip(*len as int) =~= prior@.skip(pos + *len));
                }
                pos = pos + *len;
            },
            TextDeltaEvent::Insert { text } => {
                out.append(text.as_str());
            },
            TextDeltaEvent::Delete { len } => {
                if *len > n - pos {
                    return None;
                }
                proof {
                    assert(rest.skip(*len as int) =~= prior@.skip(pos + *len));
                }
                pos = pos + *len;
            },
        }
        i = i + 1;
    }
    let tail = prior.substring_char(pos, n);
    out.append(tail);
    proof {
        assert(ops@.skip(i as int).len() == 0);
        assert(tail@ =~= prior@.skip(pos as int));
        assert(out@ =~= Seq::<char>::empty() + compose(prior@, ops@)->0) by {
            assert(compose(prior@, ops@) is Some);
        }
    }
    Some(out)
}

/// A delta that turns `old` into `new`: the common prefix is retained, the
/// differing middle of `old` deleted and the differing middle of `new` inserted;
/// the common suffix is kept implicitly. Equal texts give no operation.
pub fn text_delta(old: &str, new: &str) -> (r: Vec<TextDeltaEvent>)
    ensures
        compose(old@, r@) == Some(new@),
{
    let a = crate::text::chars_of(old);
    let b = crate::text::chars_of(new);
    let n = a.len();
    let m = b.len();
    let mut p: usize = 0;
    while p < n && p < m && a[p] == b[p]
        invariant
            p <= n == a@.len(),
            p <= m == b@.len(),
            forall|k: int| 0 <= k < p ==> a@[k] == b@[k],
        decreases n - p,
    {
        p = p + 1;
    }
    let mut s: usize = 0;
    while s < n - p && s < m - p && a[n - 1 - s] == b[m - 1 - s]
        invariant
            p <= n == a@.len(),
            p <= m == b@.len(),
            s <= n - p,
            s <= m - p,
            forall|k: int| n - s <= k < n ==> #[trigger] a@[k] == b@[k + m - n],
        decreases n - s,
    {
        s = s + 1;
    }
    let d = n - p - s;
    let ins = new.substring_char(p, m - s).to_owned();
    let ghost head = old@.take(p as int);
    let ghost tail = old@.skip((p + d) as int);
    proof {
        assert(head =~= new@.take(p as int));
        assert(tail =~= new@.skip((m - s) as int)) by {
            assert forall|k: int| 0 <= k < s implies tail[k] == new@.skip((m - s) as int)[k] by {
                assert(a@[n - s + k] == b@[n - s + k + m - n]);
            }
        }
        assert(new@ =~= head + ins@ + tail);
    }
    let mut ops: Vec<TextDeltaEvent> = Vec::new();
    if d == 0 && m - p - s == 0 {
        assert(old@ =~= head + tail);
        assert(ins@ =~= Seq::<char>::empty());
        assert(new@ =~= old@);
        return ops;
    }
    let ghost after_head = old@.skip(p as int);
    if p > 0 {
        ops.push(TextDeltaEvent::Retain { len: p });
    }
    let ghost k1 = ops@.len();
    if d > 0 {
        ops.push(TextDeltaEvent::Delete { len: d });
    }
    let ghost k2 = ops@.len();
    if m - p - s > 0 {
        ops.push(TextDeltaEvent::Insert { text: ins });
    }
    proof {
        let o = ops@;
        let t2 = o.skip(k2 as int);
        assert(compose(tail, t2) == Some(ins@ + tail)) by {
            if m - p - s > 0 {
                assert(t2.len() == 1);
                assert(t2[0] == TextDeltaEvent::Insert { text: ins });
                assert(t2.skip(1) =~= Seq::<TextDeltaEvent>::empty());
                assert(compose(tail, t2.skip(1)) == Some(tail));
            } else {
                assert(ins@.len() == 0);
                assert(ins@ + tail =~= tail);
                assert(t2.len() == 0);
            }
        }
        let t1 = o.skip(k1 as int);
        assert(compose(after_head, t1) == Some(ins@ + tail)) by {
            if d > 0 {
                assert(t1[0] == TextDeltaEvent::Delete { len: d });
                assert(t1.skip(1) =~= t2);
                assert(after_head.skip(d as int) =~= tail);
            } else {
                assert(t1 =~= t2);
                assert(after_head =~= tail);
            }
        }
        assert(compose(old@, o) == Some(head + (ins@ + tail))) by {
            if p > 0 {
                assert(o[0] == TextDeltaEvent::Retain { len: p });
                assert(o.skip(1) =~= t1);
            } else {
                assert(o =~= t1);
                assert(after_head =~= old@);
                assert(head + (ins@ + tail) =~= ins@ + tail);
            }
        }
        assert(head + (ins@ + tail) =~= new@);
    }
    ops
}

/// The decimal digit for `d`, which is below ten.
pub open spec fn digit_char(d: nat) -> char {
    if d == 0 { '0' }
    else if d == 1 { '1' }
    else if d == 2 { '2' }
    else if d == 3 { '3' }
    else if d == 4 { '4' }
    else if d == 5 { '5' }
    else if d == 6 { '6' }
    else if d == 7 { '7' }
    else if d == 8 { '8' }
    else { '9' }
}

/// The decimal notation of `n`, without sign or leading zeros.
pub open spec fn decimal(n: nat) -> Seq<char>
    decreases n,
{
    if n < 10 {
        seq![digit_char(n)]
    } else {
        decimal(n / 10).push(digit_char(n % 10))
    }
}

/// Relies on `ToString` for `usize` (through `Display`): decimal notation.
#[verifier::external_body]
fn decimal_string(n: usize) -> (r: String)
    ensures
        r@ == decimal(n as nat),
{
    n.to_string()
}

/// The JSON string literal that serde_json writes for the characters `s`.
pub uninterp spec fn json_string(s: Seq<char>) -> Seq<char>;

/// Relies on `serde_json::to_string` on a `str`: a quoted, escaped JSON string.
/// Serialising a string has no failing case.
#[verifier::external_body]
fn json_quote(s: &str) -> (r: String)
    ensures
        r@ == json_string(s@),
{
    serde_json::to_string(s).unwrap_or_default()
}

/// The JSON object that represents one delta operation.
pub open spec fn event_json(e: TextDeltaEvent) -> Seq<char> {
    match e {
        TextDeltaEvent::Retain { len } => "{\"type\":\"retain\",\"len\":"@ + decimal(len as nat)
            + "}"@,
        TextDeltaEvent::Insert { text } => "{\"type\":\"insert\",\"text\":"@ + json_string(text@)
            + "}"@,
        TextDeltaEvent::Delete { len } => "{\"type\":\"delete\",\"len\":"@ + decimal(len as nat)
            + "}"@,
    }
}

impl TextDeltaEvent {
    /// Serialises the operation as a JSON object.
    pub fn to_json(&self) -> (r: String)
        ensures
            r@ == event_json(*self),
    {
        match self {
            TextDeltaEvent::Retain { len } => {
                let r = String::from_str("{\"type\":\"retain\",\"len\":");
                let r = r.concat(decimal_string(*len).as_str());
                r.concat("}")
            },
            TextDeltaEvent::Insert { text } => {
                let r = String::from_str("{\"type\":\"insert\",\"text\":");
                let r = r.concat(json_quote(text.as_str()).as_str());
                r.concat("}")
            },
            TextDeltaEvent::Delete { len } => {
                let r = String::from_str("{\"type\":\"delete\",\"len\":");
                let r = r.concat(decimal_string(*len).as_str());
                r.concat("}")
            },
        }
    }
}

} // verus!
