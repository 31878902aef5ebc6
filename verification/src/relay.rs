//! The broadcast relay's fan-out state.
//!
//! The relay accepts peer connections and forwards every published
//! grant or revoke to each peer connected at that moment.  This module
//! is the relay's decision core: who is connected, and what each peer
//! is owed.  Publication appends one frame to every connected peer's
//! outbox — exactly one, to each, in publication order — and a peer
//! connecting later starts with an empty outbox: there is no replay.
//! Each outbox is bounded: a peer that falls `OUTBOX_BOUND` frames
//! behind loses its oldest undelivered frame first, and only that
//! peer's — a slow peer never holds anyone else's delivery.  The
//! surrounding program moves each outbox onto its peer's socket.
use vstd::prelude::*;
use crate::wire::{Frame, FrameV, GrantMessage, RevokeMessage};

verus! {

/// One connected peer: its handle and the frames published since it
/// connected that have not yet been taken for sending.
pub struct Peer {
    pub id: u64,
    pub outbox: Vec<Frame>,
}

/// Mathematical model of a peer.
#[verifier::ext_equal]
pub ghost struct PeerV {
    pub id: int,
    pub outbox: Seq<FrameV>,
}

impl View for Peer {
    type V = PeerV;

    open spec fn view(&self) -> PeerV {
        PeerV {
            id: self.id as int,
            outbox: Seq::new(
                self.outbox@.len(),
                |i: int|
                    if 0 <= i < self.outbox@.len() {
                        self.outbox@[i]@
                    } else {
                        self.outbox@[0]@
                    },
            ),
        }
    }
}

/// Mathematical model of the relay: the connected peers, in connection
/// order, and the next fresh handle.
#[verifier::ext_equal]
pub ghost struct RelayV {
    pub peers: Seq<PeerV>,
    pub next_id: int,
}

/// The broadcast relay's fan-out state.
pub struct BroadcastRelay {
    peers: Vec<Peer>,
    next_id: u64,
}

impl View for BroadcastRelay {
    type V = RelayV;

    closed spec fn view(&self) -> RelayV {
        RelayV {
            peers: Seq::new(
                self.peers@.len(),
                |i: int|
                    if 0 <= i < self.peers@.len() {
                        self.peers@[i]@
                    } else {
                        PeerV { id: 0, outbox: Seq::empty() }
                    },
            ),
            next_id: self.next_id as int,
        }
    }
}

/// The most frames a peer may fall behind; past this, its oldest
/// undelivered frame is dropped to make room.
pub const OUTBOX_BOUND: usize = 16;

/// A publication as one peer's outbox sees it: the frame goes on the
/// end, and — only at the bound — the oldest owed frame leaves.
pub open spec fn bounded_push(q: Seq<FrameV>, f: FrameV) -> Seq<FrameV> {
    if q.len() < OUTBOX_BOUND {
        q.push(f)
    } else {
        q.drop_first().push(f)
    }
}


/// What a peer's outbox owes after a run of publications, starting
/// from what it owed before: each publication is one `bounded_push`.
pub open spec fn outbox_after(q: Seq<FrameV>, published: Seq<FrameV>) -> Seq<FrameV>
    decreases published.len(),
{
    if published.len() == 0 {
        q
    } else {
        bounded_push(outbox_after(q, published.drop_last()), published.last())
    }
}

/// No replay, in general: a peer connects with an empty outbox, so
/// after any run of publications it is owed exactly those publications
/// — the newest `OUTBOX_BOUND` of them, in order — and never a frame
/// published before it connected.
pub proof fn lemma_no_replay(published: Seq<FrameV>)
    ensures
        outbox_after(Seq::<FrameV>::empty(), published) == if published.len() <= OUTBOX_BOUND {
            published
        } else {
            published.skip(published.len() - OUTBOX_BOUND as int)
        },
    decreases published.len(),
{
    if published.len() > 0 {
        let t = published.drop_last();
        lemma_no_replay(t);
        let prev = outbox_after(Seq::<FrameV>::empty(), t);
        if published.len() <= OUTBOX_BOUND {
            assert(prev == t);
            assert(bounded_push(prev, published.last()) =~= published);
        } else if published.len() == OUTBOX_BOUND + 1 {
            assert(prev == t);
            assert(prev.len() == OUTBOX_BOUND);
            assert(bounded_push(prev, published.last()) =~= published.skip(1));
        } else {
            assert(prev == t.skip(t.len() - OUTBOX_BOUND as int));
            assert(prev.len() == OUTBOX_BOUND);
            assert(bounded_push(prev, published.last()) =~= published.skip(
                published.len() - OUTBOX_BOUND as int,
            ));
        }
    }
}

/// Every peer's handle was issued before the next one, so handles never
/// collide.
pub open spec fn relay_wf(r: RelayV) -> bool {
    &&& forall|i: int| 0 <= i < r.peers.len() ==> (#[trigger] r.peers[i]).id < r.next_id
    &&& forall|i: int, j: int| 0 <= i < j < r.peers.len() ==> r.peers[i].id != r.peers[j].id
}

/// The position of the peer with handle `id`, if it is connected.
pub open spec fn spec_find_peer(peers: Seq<PeerV>, id: int) -> Option<int>
    decreases peers.len(),
{
    if peers.len() == 0 {
        None
    } else if peers.last().id == id {
        Some(peers.len() - 1)
    } else {
        spec_find_peer(peers.drop_last(), id)
    }
}


/// Publication hands each connected peer exactly one new frame — the
/// published one, on the end of what that peer was owed (less, at the
/// bound, its oldest owed frame) — and publication to no peers hands
/// out nothing at all.
pub proof fn lemma_fanout_exactly_once(before: Seq<PeerV>, after: Seq<PeerV>, f: FrameV)
    requires
        after.len() == before.len(),
        forall|i: int| 0 <= i < before.len()
            ==> (#[trigger] after[i]).outbox == bounded_push(before[i].outbox, f),
    ensures
        forall|i: int| 0 <= i < before.len()
            ==> (#[trigger] after[i]).outbox.len() as int == if before[i].outbox.len()
                < OUTBOX_BOUND {
                before[i].outbox.len() as int + 1
            } else {
                before[i].outbox.len() as int
            },
        forall|i: int| 0 <= i < before.len() ==> (#[trigger] after[i]).outbox.last() == f,
        forall|i: int| 0 <= i < before.len()
            ==> (#[trigger] after[i]).outbox.drop_last() == if before[i].outbox.len()
                < OUTBOX_BOUND {
                before[i].outbox
            } else {
                before[i].outbox.drop_first()
            },
{
    assert forall|i: int| 0 <= i < before.len()
        implies (#[trigger] after[i]).outbox.drop_last() == if before[i].outbox.len()
            < OUTBOX_BOUND {
            before[i].outbox
        } else {
            before[i].outbox.drop_first()
        } by {
        if before[i].outbox.len() < OUTBOX_BOUND {
            assert(after[i].outbox.drop_last() =~= before[i].outbox);
        } else {
            assert(after[i].outbox.drop_last() =~= before[i].outbox.drop_first());
        }
    }
}

impl BroadcastRelay {
    /// A relay with no peers connected; handles are issued from zero.
    pub fn new() -> (r: BroadcastRelay)
        ensures
            r@.peers == Seq::<PeerV>::empty(),
            r@.next_id == 0,
            relay_wf(r@),
    {
        let r = BroadcastRelay { peers: Vec::new(), next_id: 0 };
        proof {
            assert(r@.peers =~= Seq::<PeerV>::empty());
        }
        r
    }

    /// How many peers are connected.
    pub fn peer_count(&self) -> (n: usize)
        ensures
            n == self@.peers.len(),
    {
        self.peers.len()
    }

    /// A peer connects: it is added with an empty outbox — frames
    /// published before it arrived are not replayed to it — and every
    /// other peer is untouched.
    pub fn connect(&mut self) -> (id: u64)
        requires
            old(self)@.next_id < u64::MAX,
            relay_wf(old(self)@),
        ensures
            relay_wf(final(self)@),
            id as int == old(self)@.next_id,
            final(self)@.next_id == old(self)@.next_id + 1,
            final(self)@.peers.len() == old(self)@.peers.len() + 1,
            final(self)@.peers.last() == (PeerV { id: id as int, outbox: Seq::empty() }),
            forall|i: int| 0 <= i < old(self)@.peers.len()
                ==> final(self)@.peers[i] == old(self)@.peers[i],
    {
        let ghost pv = self@.peers;
        let id = self.next_id;
        let peer = Peer { id, outbox: Vec::new() };
        proof {
            assert(peer@.outbox =~= Seq::<FrameV>::empty());
        }
        let ghost peerv = peer@;
        self.peers.push(peer);
        self.next_id = id + 1;
        proof {
            let newv = self@.peers;
            assert(newv.len() == pv.len() + 1);
            assert(forall|k: int| 0 <= k < pv.len() ==> #[trigger] newv[k] == pv[k]);
            assert(newv.last() == peerv);
            assert(peerv =~= (PeerV { id: id as int, outbox: Seq::empty() }));
            assert forall|a: int, b: int| 0 <= a < b < newv.len()
                implies newv[a].id != newv[b].id by {
                if b < pv.len() {
                    assert(pv[a].id != pv[b].id);
                } else {
                    assert(pv[a].id < id as int);
                }
            }
            assert(relay_wf(self@));
        }
        id
    }


    /// The position of the connected peer with handle `id`, to address
    /// its outbox.
    pub fn find_peer(&self, id: u64) -> (r: Option<usize>)
        ensures
            match spec_find_peer(self@.peers, id as int) {
                Some(j) => r matches Some(u) && u as int == j,
                Option::None => r is None,
            },
    {
        let ghost pv = self@.peers;
        proof {
            assert(pv.take(pv.len() as int) =~= pv);
        }
        let mut i: usize = self.peers.len();
        while i > 0
            invariant
                0 <= i <= self.peers.len(),
                pv == self@.peers,
                pv.len() == self.peers@.len(),
                forall|k: int| 0 <= k < pv.len() ==> #[trigger] pv[k] == self.peers@[k]@,
                spec_find_peer(pv, id as int) == spec_find_peer(pv.take(i as int), id as int),
            decreases i,
        {
            i = i - 1;
            proof {
                let w = pv.take(i as int + 1);
                assert(w.drop_last() =~= pv.take(i as int));
                assert(w.last() == pv[i as int]);
            }
            if self.peers[i].id == id {
                proof {
                    assert(spec_find_peer(pv, id as int) == Some(i as int));
                }
                return Some(i);
            }
        }
        proof {
            assert(pv.take(0) =~= Seq::<PeerV>::empty());
        }
        None
    }

    /// A peer disconnects: its entry leaves, every other peer is
    /// untouched, and no other peer's delivery is affected.
    pub fn disconnect(&mut self, id: u64)
        requires
            relay_wf(old(self)@),
        ensures
            relay_wf(final(self)@),
            final(self)@.next_id == old(self)@.next_id,
            match spec_find_peer(old(self)@.peers, id as int) {
                Some(j) => final(self)@.peers == old(self)@.peers.remove(j),
                Option::None => final(self)@.peers == old(self)@.peers,
            },
    {
        let ghost pv = self@.peers;
        proof {
            assert(pv.take(pv.len() as int) =~= pv);
        }
        let mut i: usize = self.peers.len();
        while i > 0
            invariant
                0 <= i <= self.peers.len(),
                pv == self@.peers,
                pv == old(self)@.peers,
                self@.next_id == old(self)@.next_id,
                relay_wf(self@),
                pv.len() == self.peers@.len(),
                forall|k: int| 0 <= k < pv.len() ==> #[trigger] pv[k] == self.peers@[k]@,
                spec_find_peer(pv, id as int) == spec_find_peer(pv.take(i as int), id as int),
            decreases i,
        {
            i = i - 1;
            proof {
                let w = pv.take(i as int + 1);
                assert(w.drop_last() =~= pv.take(i as int));
                assert(w.last() == pv[i as int]);
            }
            if self.peers[i].id == id {
                proof {
                    assert(spec_find_peer(pv, id as int) == Some(i as int));
                }
                self.peers.remove(i);
                proof {
                    let newv = self@.peers;
                    assert(newv =~= pv.remove(i as int));
                    assert(forall|k: int| 0 <= k < i
                        ==> #[trigger] pv.remove(i as int)[k] == pv[k]);
                    assert(forall|k: int| i <= k < pv.remove(i as int).len()
                        ==> #[trigger] pv.remove(i as int)[k] == pv[k + 1]);
                    assert forall|a: int, b: int| 0 <= a < b < newv.len()
                        implies newv[a].id != newv[b].id by {
                        if a < i && b < i {
                            assert(pv[a].id != pv[b].id);
                        } else if a < i {
                            assert(pv[a].id != pv[b + 1].id);
                        } else {
                            assert(pv[a + 1].id != pv[b + 1].id);
                        }
                    }
                    assert forall|a: int| 0 <= a < newv.len()
                        implies newv[a].id < self@.next_id by {
                        if a < i {
                            assert(pv[a].id < self@.next_id);
                        } else {
                            assert(pv[a + 1].id < self@.next_id);
                        }
                    }
                    assert(relay_wf(self@));
                }
                return;
            }
        }
        proof {
            assert(pv.take(0) =~= Seq::<PeerV>::empty());
            assert(self@.peers =~= pv);
        }
    }

    /// Publish a grant: every connected peer — and only the connected
    /// peers — is owed exactly one more frame, this grant, after all
    /// frames published before it.  With no peers connected, nothing is
    /// owed and nothing fails.
    pub fn publish_grant(&mut self, g: &GrantMessage)
        requires
            relay_wf(old(self)@),
        ensures
            relay_wf(final(self)@),
            final(self)@.next_id == old(self)@.next_id,
            final(self)@.peers.len() == old(self)@.peers.len(),
            forall|i: int| 0 <= i < old(self)@.peers.len()
                ==> (#[trigger] final(self)@.peers[i]).id == old(self)@.peers[i].id,
            forall|i: int| 0 <= i < old(self)@.peers.len()
                ==> (#[trigger] final(self)@.peers[i]).outbox
                    == bounded_push(old(self)@.peers[i].outbox, FrameV::Grant(g@)),
    {
        let ghost pv = self@.peers;
        let ghost fv = FrameV::Grant(g@);
        let mut i: usize = 0;
        while i < self.peers.len()
            invariant
                0 <= i <= self.peers.len(),
                self@.next_id == old(self)@.next_id,
                pv == old(self)@.peers,
                pv.len() == self.peers@.len(),
                fv == FrameV::Grant(g@),
                forall|k: int| i <= k < pv.len() ==> #[trigger] self.peers@[k]@ == pv[k],
                forall|k: int| 0 <= k < i ==> (#[trigger] self.peers@[k]@).id == pv[k].id,
                forall|k: int| 0 <= k < i
                    ==> (#[trigger] self.peers@[k]@).outbox == bounded_push(pv[k].outbox, fv),
            decreases self.peers.len() - i,
        {
            let f = Frame::Grant(g.deep_clone());
            proof {
                assert(f@ == fv);
            }
            if self.peers[i].outbox.len() >= OUTBOX_BOUND {
                let ghost q = self.peers@[i as int]@.outbox;
                self.peers[i].outbox.remove(0);
                proof {
                    assert(self.peers@[i as int]@.outbox =~= q.drop_first());
                }
            }
            let ghost prev = self.peers@[i as int]@;
            self.peers[i].outbox.push(f);
            proof {
                assert(self.peers@[i as int]@.outbox =~= prev.outbox.push(fv));
                assert(self.peers@[i as int]@.outbox =~= bounded_push(pv[i as int].outbox, fv));
            }
            i = i + 1;
        }
        proof {
            assert forall|a: int, b: int| 0 <= a < b < self@.peers.len()
                implies self@.peers[a].id != self@.peers[b].id by {
                assert(pv[a].id != pv[b].id);
            }
            assert(relay_wf(self@));
        }
    }

    /// Publish a revoke: as for a grant, one frame to every connected
    /// peer.
    pub fn publish_revoke(&mut self, m: &RevokeMessage)
        requires
            relay_wf(old(self)@),
        ensures
            relay_wf(final(self)@),
            final(self)@.next_id == old(self)@.next_id,
            final(self)@.peers.len() == old(self)@.peers.len(),
            forall|i: int| 0 <= i < old(self)@.peers.len()
                ==> (#[trigger] final(self)@.peers[i]).id == old(self)@.peers[i].id,
            forall|i: int| 0 <= i < old(self)@.peers.len()
                ==> (#[trigger] final(self)@.peers[i]).outbox
                    == bounded_push(old(self)@.peers[i].outbox, FrameV::Revoke(m@)),
    {
        let ghost pv = self@.peers;
        let ghost fv = FrameV::Revoke(m@);
        let mut i: usize = 0;
        while i < self.peers.len()
            invariant
                0 <= i <= self.peers.len(),
                self@.next_id == old(self)@.next_id,
                pv == old(self)@.peers,
                pv.len() == self.peers@.len(),
                fv == FrameV::Revoke(m@),
                forall|k: int| i <= k < pv.len() ==> #[trigger] self.peers@[k]@ == pv[k],
                forall|k: int| 0 <= k < i ==> (#[trigger] self.peers@[k]@).id == pv[k].id,
                forall|k: int| 0 <= k < i
                    ==> (#[trigger] self.peers@[k]@).outbox == bounded_push(pv[k].outbox, fv),
            decreases self.peers.len() - i,
        {
            let f = Frame::Revoke(m.deep_clone());
            proof {
                assert(f@ == fv);
            }
            if self.peers[i].outbox.len() >= OUTBOX_BOUND {
                let ghost q = self.peers@[i as int]@.outbox;
                self.peers[i].outbox.remove(0);
                proof {
                    assert(self.peers@[i as int]@.outbox =~= q.drop_first());
                }
            }
            let ghost prev = self.peers@[i as int]@;
            self.peers[i].outbox.push(f);
            proof {
                assert(self.peers@[i as int]@.outbox =~= prev.outbox.push(fv));
                assert(self.peers@[i as int]@.outbox =~= bounded_push(pv[i as int].outbox, fv));
            }
            i = i + 1;
        }
        proof {
            assert forall|a: int, b: int| 0 <= a < b < self@.peers.len()
                implies self@.peers[a].id != self@.peers[b].id by {
                assert(pv[a].id != pv[b].id);
            }
            assert(relay_wf(self@));
        }
    }

    /// Take what peer `i` is owed, for sending on its socket: the
    /// frames in publication order; the peer then owes-nothing until
    /// the next publication.  Peers are addressed by position here;
    /// other peers are untouched.
    pub fn take_outbox(&mut self, i: usize) -> (r: Vec<Frame>)
        requires
            i < old(self)@.peers.len(),
            relay_wf(old(self)@),
        ensures
            relay_wf(final(self)@),
            final(self)@.next_id == old(self)@.next_id,
            final(self)@.peers.len() == old(self)@.peers.len(),
            Seq::new(r@.len(), |k: int| if 0 <= k < r@.len() { r@[k]@ } else { r@[0]@ })
                == old(self)@.peers[i as int].outbox,
            final(self)@.peers[i as int].id == old(self)@.peers[i as int].id,
            final(self)@.peers[i as int].outbox == Seq::<FrameV>::empty(),
            forall|k: int| 0 <= k < old(self)@.peers.len() && k != i
                ==> (#[trigger] final(self)@.peers[k]) == old(self)@.peers[k],
    {
        let ghost pv = self@.peers;
        let mut taken: Vec<Frame> = Vec::new();
        core::mem::swap(&mut taken, &mut self.peers[i].outbox);
        proof {
            assert(Seq::new(
                taken@.len(),
                |k: int| if 0 <= k < taken@.len() { taken@[k]@ } else { taken@[0]@ },
            ) =~= pv[i as int].outbox);
            let newv = self@.peers;
            assert(newv.len() == pv.len());
            assert(forall|k: int| 0 <= k < pv.len() && k != i ==> #[trigger] newv[k] == pv[k]);
            assert(newv[i as int].id == pv[i as int].id);
            assert(newv[i as int].outbox =~= Seq::<FrameV>::empty());
            assert forall|a: int, b: int| 0 <= a < b < newv.len()
                implies newv[a].id != newv[b].id by {
                assert(pv[a].id != pv[b].id);
            }
            assert(relay_wf(self@));
        }
        taken
    }
}

} // verus!
