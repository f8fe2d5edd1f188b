//! Room authority: the canonical document of one collaboration session, the
//! size guard in front of every commit, and the room's peer set.

use vstd::prelude::*;
use loro::LoroDoc;
use crate::crdt::{self, doc_text, snapshot_of, version_of, import_ok, import_pending, merged_text};

verus! {

/// Why an update was not committed.
#[derive(Debug, Clone, Copy, PartialEq, Eq, Structural)]
pub enum RejectReason {
    /// The projected document size is over the configured maximum.
    SizeLimit,
    /// The replicated text library could not import the payload.
    Merge,
}

/// What became of an update.
#[derive(Debug, Clone, Copy, PartialEq, Eq, Structural)]
pub enum ApplyOutcome {
    /// Merged, or held until its dependencies arrive; it is to be relayed
    /// to the other peers.
    Applied,
    /// Already incorporated: the version did not move and nothing waits.
    /// Nothing to relay and nothing to report.
    Duplicate,
    /// Not committed; the sender is told why.
    Rejected(RejectReason),
}

/// The description of a rejection that the peer is sent.
pub open spec fn reject_text(reason: RejectReason) -> Seq<char> {
    match reason {
        RejectReason::SizeLimit => "Document size limit exceeded"@,
        RejectReason::Merge => "Failed to import update"@,
    }
}

impl RejectReason {
    /// A human-readable description for the error message sent to the peer.
    pub fn message(&self) -> (r: String)
        ensures
            r@ == reject_text(*self),
            r@.len() > 0,
    {
        match self {
            RejectReason::SizeLimit => {
                let r = String::from_str("Document size limit exceeded");
                proof {
                    reveal_strlit("Document size limit exceeded");
                }
                r
            },
            RejectReason::Merge => {
                let r = String::from_str("Failed to import update");
                proof {
                    reveal_strlit("Failed to import update");
                }
                r
            },
        }
    }
}

/// Whether `a` and `b` hold the same bytes.
pub fn bytes_equal(a: &[u8], b: &[u8]) -> (r: bool)
    ensures
        r == (a@ == b@),
{
    if a.len() != b.len() {
        return false;
    }
    let mut i: usize = 0;
    while i < a.len()
        invariant
            i <= a@.len() == b@.len(),
            a@.take(i as int) == b@.take(i as int),
        decreases a@.len() - i,
    {
        if a[i] != b[i] {
            assert(a@[i as int] != b@[i as int]);
            return false;
        }
        i = i + 1;
        assert(a@.take(i as int) =~= a@.take(i - 1).push(a@[i - 1]));
        assert(b@.take(i as int) =~= b@.take(i - 1).push(b@[i - 1]));
    }
    assert(a@ =~= a@.take(i as int));
    assert(b@ =~= b@.take(i as int));
    true
}

proof fn lemma_remove_at(s: Seq<u128>, i: int)
    requires
        0 <= i < s.len(),
        s.no_duplicates(),
    ensures
        s.remove(i).no_duplicates(),
        !s.remove(i).contains(s[i]),
        forall|p: u128| p != s[i] ==> (s.remove(i).contains(p) <==> s.contains(p)),
        s.remove(i).len() == s.len() - 1,
{
    let t = s.remove(i);
    assert forall|a: int, b: int| 0 <= a < b < t.len() implies t[a] != t[b] by {
        let sa = if a < i { a } else { a + 1 };
        let sb = if b < i { b } else { b + 1 };
        assert(t[a] == s[sa] && t[b] == s[sb]);
    }
    assert forall|p: u128| p != s[i] implies (t.contains(p) <==> s.contains(p)) by {
        if s.contains(p) {
            let k = s.index_of(p);
            if k < i {
                assert(t[k] == p);
            } else {
                assert(t[k - 1] == p);
            }
        }
        if t.contains(p) {
            let k = t.index_of(p);
            if k < i {
                assert(s[k] == p);
            } else {
                assert(s[k + 1] == p);
            }
        }
    }
    if t.contains(s[i]) {
        let k = t.index_of(s[i]);
        if k < i {
            assert(s[k] == s[i]);
        } else {
            assert(s[k + 1] == s[i]);
        }
    }
}

/// Holds of every peer but `sender`.
pub open spec fn not_sender(sender: u128) -> spec_fn(u128) -> bool {
    |p: u128| p != sender
}

/// Nobody receives their own message back; every other peer of the room does.
pub proof fn lemma_no_echo(peers: Seq<u128>, sender: u128)
    ensures
        !peers.filter(not_sender(sender)).contains(sender),
        forall|p: u128| p != sender && peers.contains(p) ==> peers.filter(not_sender(sender)).contains(p),
{
    broadcast use vstd::seq_lib::group_filter_ensures;
    let f = peers.filter(not_sender(sender));
    if f.contains(sender) {
        let k = f.index_of(sender);
        assert(f[k] != sender);
    }
    assert forall|p: u128| p != sender && peers.contains(p) implies peers.filter(not_sender(sender)).contains(p) by {
        let k = peers.index_of(p);
        peers.lemma_filter_contains(not_sender(sender), k);
    }
}

/// One collaboration session: its canonical document and its peers.
pub struct Room {
    doc: LoroDoc,
    peers: Vec<u128>,
}

impl Room {
    /// The canonical document.
    pub closed spec fn doc(&self) -> LoroDoc {
        self.doc
    }

    /// The compacted snapshot of the canonical document.
    pub open spec fn snapshot(&self) -> Seq<u8> {
        snapshot_of(self.doc())
    }

    /// The text of the canonical document.
    pub open spec fn text(&self) -> Seq<char> {
        doc_text(self.doc())
    }

    /// The encoded causal frontier of the canonical document.
    pub open spec fn version(&self) -> Seq<u8> {
        version_of(self.doc())
    }

    /// The connected peers, in order of arrival.
    pub closed spec fn peers(&self) -> Seq<u128> {
        self.peers@
    }

    /// No peer is listed twice.
    pub open spec fn wf(&self) -> bool {
        self.peers().no_duplicates()
    }

    /// A room with an empty document and no peers.
    pub fn new() -> (r: Room)
        ensures
            r.wf(),
            r.peers() == Seq::<u128>::empty(),
            r.text() == Seq::<char>::empty(),
    {
        Room { doc: crdt::new_doc(), peers: Vec::new() }
    }

    /// The number of connected peers.
    pub fn peer_count(&self) -> (r: usize)
        ensures
            r == self.peers().len(),
    {
        self.peers.len()
    }

    /// Whether `peer` is connected to this room.
    pub fn has_peer(&self, peer: u128) -> (r: bool)
        ensures
            r == self.peers().contains(peer),
    {
        let mut i: usize = 0;
        while i < self.peers.len()
            invariant
                i <= self.peers@.len(),
                forall|k: int| 0 <= k < i ==> self.peers@[k] != peer,
            decreases self.peers@.len() - i,
        {
            if self.peers[i] == peer {
                return true;
            }
            i = i + 1;
        }
        false
    }

    /// Registers `peer`; a peer that is already registered stays once.
    /// Returns the new peer count.
    pub fn add_peer(&mut self, peer: u128) -> (r: usize)
        requires
            old(self).wf(),
            old(self).peers().len() < usize::MAX,
        ensures
            final(self).wf(),
            final(self).peers() == if old(self).peers().contains(peer) {
                old(self).peers()
            } else {
                old(self).peers().push(peer)
            },
            final(self).doc() == old(self).doc(),
            r == final(self).peers().len(),
    {
        if !self.has_peer(peer) {
            self.peers.push(peer);
        }
        self.peers.len()
    }

    /// Deregisters `peer`. Returns the new peer count.
    pub fn remove_peer(&mut self, peer: u128) -> (r: usize)
        requires
            old(self).wf(),
        ensures
            final(self).wf(),
            !final(self).peers().contains(peer),
            forall|p: u128| p != peer ==> (final(self).peers().contains(p) <==> old(self).peers().contains(p)),
            final(self).peers().len() == if old(self).peers().contains(peer) {
                old(self).peers().len() - 1
            } else {
                old(self).peers().len() as int
            },
            final(self).doc() == old(self).doc(),
            r == final(self).peers().len(),
    {
        let mut i: usize = 0;
        while i < self.peers.len()
            invariant
                i <= self.peers@.len(),
                self.peers@ == old(self).peers@,
                self.doc == old(self).doc,
                self.peers@.no_duplicates(),
                forall|k: int| 0 <= k < i ==> self.peers@[k] != peer,
            decreases self.peers@.len() - i,
        {
            if self.peers[i] == peer {
                let ghost before = self.peers@;
                self.peers.remove(i);
                proof {
                    lemma_remove_at(before, i as int);
                }
                return self.peers.len();
            }
            i = i + 1;
        }
        self.peers.len()
    }

    /// The peers that a message from `sender` is relayed to: every connected
    /// peer but the sender, in order of arrival.
    pub fn recipients(&self, sender: u128) -> (r: Vec<u128>)
        ensures
            r@ == self.peers().filter(not_sender(sender)),
    {
        let ghost pred = not_sender(sender);
        let mut out: Vec<u128> = Vec::new();
        let mut i: usize = 0;
        while i < self.peers.len()
            invariant
                i <= self.peers@.len(),
                pred == not_sender(sender),
                out@ == self.peers@.take(i as int).filter(pred),
            decreases self.peers@.len() - i,
        {
            let p = self.peers[i];
            let ghost prev = out@;
            if p != sender {
                out.push(p);
            }
            proof {
                assert(pred(p) == (p != sender));
                let t = self.peers@.take(i + 1);
                assert(t.drop_last() =~= self.peers@.take(i as int));
                assert(t.last() == p);
                reveal(Seq::filter);
                assert(t.filter(pred) == if pred(p) {
                    t.drop_last().filter(pred).push(p)
                } else {
                    t.drop_last().filter(pred)
                });
                assert(out@ == t.filter(pred));
            }
            i = i + 1;
        }
        assert(self.peers@.take(i as int) =~= self.peers@);
        out
    }

    /// Commits `update` to the canonical document unless the projected size,
    /// current snapshot size plus update length, is over `max_doc_size`.
    /// The check and the import happen under one exclusive borrow.
    pub fn apply_update(&mut self, update: &[u8], max_doc_size: usize) -> (r: ApplyOutcome)
        ensures
            old(self).snapshot().len() + update@.len() > max_doc_size ==> r
                == ApplyOutcome::Rejected(RejectReason::SizeLimit) && *final(self) == *old(self),
            old(self).snapshot().len() + update@.len() > max_doc_size ==> final(self).snapshot()
                == old(self).snapshot(),
            old(self).snapshot().len() + update@.len() <= max_doc_size ==> r
                != ApplyOutcome::Rejected(RejectReason::SizeLimit),
            old(self).snapshot().len() + update@.len() <= max_doc_size ==> {
                &&& r == ApplyOutcome::Rejected(RejectReason::Merge) <==> !import_ok(old(self).doc(), update@)
                &&& r == ApplyOutcome::Applied <==> import_ok(old(self).doc(), update@)
                    && (final(self).version() != old(self).version() || import_pending(old(self).doc(), update@))
                &&& r == ApplyOutcome::Duplicate <==> import_ok(old(self).doc(), update@)
                    && final(self).version() == old(self).version() && !import_pending(old(self).doc(), update@)
                &&& import_ok(old(self).doc(), update@) ==> final(self).text() == merged_text(old(self).doc(), update@)
            },
            r == ApplyOutcome::Duplicate ==> final(self).version() == old(self).version(),
            r == ApplyOutcome::Rejected(RejectReason::SizeLimit) ==> *final(self) == *old(self),
            final(self).peers() == old(self).peers(),
    {
        let snapshot = crdt::export_snapshot(&self.doc);
        let current = snapshot.len();
        if update.len() > max_doc_size || current > max_doc_size - update.len() {
            return ApplyOutcome::Rejected(RejectReason::SizeLimit);
        }
        let before = crdt::version_bytes(&self.doc);
        match crdt::import(&mut self.doc, update) {
            Ok(pending) => {
                let after = crdt::version_bytes(&self.doc);
                if !pending && bytes_equal(before.as_slice(), after.as_slice()) {
                    ApplyOutcome::Duplicate
                } else {
                    ApplyOutcome::Applied
                }
            },
            Err(_) => ApplyOutcome::Rejected(RejectReason::Merge),
        }
    }

    /// The compacted snapshot that a late joiner receives.
    pub fn export_snapshot(&self) -> (r: Vec<u8>)
        ensures
            r@ == self.snapshot(),
    {
        crdt::export_snapshot(&self.doc)
    }
}

} // verus!
