//! The sender's orchestration of one batch of packets: which to transmit,
//! which acks arrived, and what a timeout does to the window.
use std::collections::BTreeSet;
use vstd::prelude::*;

use crate::codec::models;
use crate::error::JapError;
use crate::order::lemma_btree_set_listing;
use crate::packet::{Packet, PacketModel};
use crate::sender::{covered_by_acks, lemma_covered_step};
use crate::value::PacketValue;
use crate::wire::{lemma_sorted_elems, sorted_elems};
use crate::SeqNum;

verus! {

broadcast use {vstd::std_specs::btree::group_btree_axioms, vstd::laws_cmp::group_laws_cmp};

/// The largest `std::time::Duration`, in nanoseconds.
pub const MAX_DURATION_NANOS: u128 = 18_446_744_073_709_551_615_999_999_999;

/// Window a batch starts with.
pub const INITIAL_WINDOW: SeqNum = 4;

/// Struct that is given a designated set of packets to transmit, and the
/// timeout for waiting for responses from the receiver (in nanoseconds).
pub struct Orchestrator {
    packets: Vec<Packet>,
    received_acks: BTreeSet<SeqNum>,
    timeout: u128,
    window: SeqNum,
    send_window: BTreeSet<SeqNum>,
}

/// The abstract state of an [`Orchestrator`].
pub struct OrchestratorModel {
    pub packets: Seq<PacketModel>,
    pub received_acks: Set<SeqNum>,
    pub timeout: nat,
    pub window: SeqNum,
    pub send_window: Set<SeqNum>,
}

impl View for Orchestrator {
    type V = OrchestratorModel;

    closed spec fn view(&self) -> OrchestratorModel {
        OrchestratorModel {
            packets: models(self.packets@),
            received_acks: self.received_acks@,
            timeout: self.timeout as nat,
            window: self.window,
            send_window: self.send_window@,
        }
    }
}

/// Not among `acks`.
pub open spec fn not_in(acks: Set<SeqNum>) -> spec_fn(SeqNum) -> bool {
    |s: SeqNum| !acks.contains(s)
}

/// A packet whose sequence number is among `seqs`.
pub open spec fn numbered_in(seqs: Set<SeqNum>) -> spec_fn(PacketModel) -> bool {
    |p: PacketModel| seqs.contains(p.seq)
}

/// The sequence numbers of packets, in order.
pub open spec fn seq_numbers(packets: Seq<PacketModel>) -> Seq<SeqNum> {
    packets.map_values(|p: PacketModel| p.seq)
}

/// The sequence numbers of `packets` not yet acknowledged, in the packets' order.
pub open spec fn unacked_seqs(packets: Seq<PacketModel>, acks: Set<SeqNum>) -> Seq<SeqNum> {
    seq_numbers(packets).filter(not_in(acks))
}

/// The packets to transmit: the first `window` unacknowledged sequence numbers.
pub open spec fn send_window_spec(m: OrchestratorModel) -> Set<SeqNum> {
    let u = unacked_seqs(m.packets, m.received_acks);
    u.take(if m.window < u.len() {
        m.window as int
    } else {
        u.len() as int
    }).to_set()
}

/// The window after a timeout: one less for each acknowledged sequence number
/// outside the send window, but never below one.
pub open spec fn shrunk_window(window: SeqNum, acks: Set<SeqNum>, send_window: Set<SeqNum>) -> SeqNum {
    let n = acks.difference(send_window).len();
    if window > n + 1 {
        (window - n) as SeqNum
    } else {
        1
    }
}

/// After a timeout the window is `window - n`, but at least one, where `n`
/// counts the acknowledged sequence numbers outside the send window: so as
/// many such numbers as the window held, or more, leave a window of one.
pub proof fn lemma_shrunk_window(window: SeqNum, acks: Set<SeqNum>, send_window: Set<SeqNum>)
    ensures
        shrunk_window(window, acks, send_window) as int == vstd::math::max(
            1,
            window - acks.difference(send_window).len(),
        ),
        acks.difference(send_window).len() >= window ==> shrunk_window(window, acks, send_window) == 1,
{
}

/// More acknowledged numbers never leave a larger window after a timeout.
pub proof fn lemma_shrunk_window_monotone(
    window: SeqNum,
    fewer: Set<SeqNum>,
    more: Set<SeqNum>,
    send_window: Set<SeqNum>,
)
    requires
        more.finite(),
        fewer.subset_of(more),
    ensures
        shrunk_window(window, more, send_window) <= shrunk_window(window, fewer, send_window),
{
    vstd::set_lib::lemma_len_subset(fewer.difference(send_window), more.difference(send_window));
}

/// The number of elements of `q` outside `s`.
pub open spec fn count_outside(q: Seq<SeqNum>, s: Set<SeqNum>) -> nat
    decreases q.len(),
{
    if q.len() == 0 {
        0
    } else {
        count_outside(q.drop_last(), s) + if s.contains(q.last()) {
            0nat
        } else {
            1nat
        }
    }
}

/// Counting along a sequence without repeats counts the set difference.
proof fn lemma_count_outside(q: Seq<SeqNum>, s: Set<SeqNum>)
    requires
        q.no_duplicates(),
    ensures
        count_outside(q, s) == q.to_set().difference(s).len(),
    decreases q.len(),
{
    broadcast use vstd::set::group_set_axioms;

    if q.len() == 0 {
        assert(q.to_set().difference(s) =~= Set::empty());
    } else {
        let p = q.drop_last();
        let x = q.last();
        assert(p.no_duplicates());
        lemma_count_outside(p, s);
        assert(q =~= p.push(x));
        p.lemma_push_to_set_commute(x);
        assert(!p.to_set().contains(x)) by {
            if p.contains(x) {
                let k = choose|k: int| 0 <= k < p.len() && p[k] == x;
                assert(q[k] == q[q.len() - 1]);
            }
        }
        if s.contains(x) {
            assert(q.to_set().difference(s) =~= p.to_set().difference(s));
        } else {
            assert(q.to_set().difference(s) =~= p.to_set().difference(s).insert(x));
        }
    }
}

impl Orchestrator {
    /// Well formed: the window is at least one and the timeout a `Duration`.
    pub open spec fn wf(&self) -> bool {
        &&& self@.window >= 1
        &&& self@.timeout <= MAX_DURATION_NANOS
    }

    /// An orchestrator with nothing to send yet.
    pub fn new(timeout: u128) -> (o: Self)
        requires
            timeout <= MAX_DURATION_NANOS,
        ensures
            o@ == (OrchestratorModel {
                packets: Seq::empty(),
                received_acks: Set::empty(),
                timeout: timeout as nat,
                window: INITIAL_WINDOW,
                send_window: Set::empty(),
            }),
            o.wf(),
    {
        let o = Self {
            packets: Vec::new(),
            received_acks: BTreeSet::new(),
            timeout,
            window: INITIAL_WINDOW,
            send_window: BTreeSet::new(),
        };
        assert(models(o.packets@) =~= Seq::<PacketModel>::empty());
        o
    }

    /// Whether every packet has been acknowledged.
    pub fn success(&self) -> (all: bool)
        ensures
            all == forall|i: int|
                0 <= i < self@.packets.len() ==> self@.received_acks.contains(
                    #[trigger] self@.packets[i].seq,
                ),
    {
        for i in 0..self.packets.len()
            invariant
                forall|j: int|
                    0 <= j < i ==> self@.received_acks.contains(#[trigger] self@.packets[j].seq),
        {
            if !self.received_acks.contains(&self.packets[i].seq) {
                assert(self@.packets[i as int].seq == self.packets@[i as int].seq);
                return false;
            }
        }
        true
    }

    /// Starts a new batch: `list` with no acks, the initial window and `timeout`.
    pub fn change_packets(&mut self, list: Vec<Packet>, timeout: u128)
        requires
            timeout <= MAX_DURATION_NANOS,
        ensures
            final(self)@ == (OrchestratorModel {
                packets: models(list@),
                received_acks: Set::empty(),
                timeout: timeout as nat,
                window: INITIAL_WINDOW,
                send_window: Set::empty(),
            }),
            final(self).wf(),
    {
        self.packets = list;
        self.received_acks.clear();
        self.send_window.clear();
        self.window = INITIAL_WINDOW;
        self.timeout = timeout;
    }

    /// Records the acks among `received`: each packet of the batch at or below
    /// an ack's cumulative number counts as acknowledged and leaves the send
    /// window. Returns the sequence numbers acknowledged for the first time.
    pub fn process_acks(&mut self, received: &Vec<Packet>) -> (acks_got: BTreeSet<SeqNum>)
        ensures
            final(self)@.received_acks == old(self)@.received_acks.union(
                covered_by_acks(seq_numbers(old(self)@.packets).to_set(), received@),
            ),
            acks_got@ == final(self)@.received_acks.difference(old(self)@.received_acks),
            final(self)@.send_window == old(self)@.send_window.difference(acks_got@),
            final(self)@.packets == old(self)@.packets,
            final(self)@.window == old(self)@.window,
            final(self)@.timeout == old(self)@.timeout,
    {
        let ghost dom = seq_numbers(self@.packets).to_set();
        let ghost acks0 = self.received_acks@;
        let ghost sw0 = self.send_window@;
        let ghost seqs = seq_numbers(self@.packets);
        let n = self.packets.len();
        let mut acks_got: BTreeSet<SeqNum> = BTreeSet::new();
        for i in 0..received.len()
            invariant
                n == self.packets@.len(),
                seqs == seq_numbers(self@.packets),
                dom == seqs.to_set(),
                self.received_acks@ == acks0.union(covered_by_acks(dom, received@.take(i as int))),
                acks_got@ == self.received_acks@.difference(acks0),
                self.send_window@ == sw0.difference(acks_got@),
                self@.packets == old(self)@.packets,
                self@.window == old(self)@.window,
                self@.timeout == old(self)@.timeout,
        {
            let ghost before = self.received_acks@;
            if let PacketValue::Ack(a) = &received[i].value {
                let cum = a.cum;
                for j in 0..n
                    invariant
                        n == self.packets@.len(),
                        seqs == seq_numbers(self@.packets),
                        dom == seqs.to_set(),
                        self.received_acks@ == before.union(
                            seqs.take(j as int).to_set().filter(|k: SeqNum| k <= cum),
                        ),
                        before == acks0.union(covered_by_acks(dom, received@.take(i as int))),
                        acks_got@ == self.received_acks@.difference(acks0),
                        self.send_window@ == sw0.difference(acks_got@),
                        self@.packets == old(self)@.packets,
                        self@.window == old(self)@.window,
                        self@.timeout == old(self)@.timeout,
                {
                    let seq = self.packets[j].seq;
                    proof {
                        assert(seqs[j as int] == seq);
                        assert(seqs.take(j + 1) =~= seqs.take(j as int).push(seq));
                        seqs.take(j as int).lemma_push_to_set_commute(seq);
                    }
                    if seq <= cum {
                        if self.received_acks.insert(seq) {
                            self.send_window.remove(&seq);
                            acks_got.insert(seq);
                        }
                    }
                    proof {
                        assert(self.received_acks@ =~= before.union(
                            seqs.take(j + 1).to_set().filter(|k: SeqNum| k <= cum),
                        ));
                        assert(acks_got@ =~= self.received_acks@.difference(acks0));
                        assert(self.send_window@ =~= sw0.difference(acks_got@));
                    }
                }
                proof {
                    assert(seqs.take(seqs.len() as int) =~= seqs);
                    lemma_covered_step(dom, received@, i as int);
                    assert(self.received_acks@ =~= acks0.union(covered_by_acks(dom, received@.take(i + 1))));
                }
            } else {
                proof {
                    lemma_covered_step(dom, received@, i as int);
                    assert(self.received_acks@ =~= acks0.union(covered_by_acks(dom, received@.take(i + 1))));
                }
            }
        }
        proof {
            assert(received@.take(received@.len() as int) =~= received@);
        }
        acks_got
    }

    /// Checks whether the orchestrator either has not sent anything or has
    /// timed out, `elapsed` nanoseconds after the last transmission. On a
    /// timeout the window shrinks by one for each acknowledged sequence number
    /// outside the send window (never below one) and the timeout doubles.
    pub fn timed_out(&mut self, elapsed: u128) -> (expired: bool)
        requires
            old(self).wf(),
            !old(self)@.send_window.is_empty() && elapsed > old(self)@.timeout ==> 2 * old(self)@.timeout
                <= MAX_DURATION_NANOS,
        ensures
            final(self).wf(),
            final(self)@.packets == old(self)@.packets,
            final(self)@.received_acks == old(self)@.received_acks,
            final(self)@.send_window == old(self)@.send_window,
            old(self)@.send_window.is_empty() ==> expired && final(self)@ == old(self)@,
            !old(self)@.send_window.is_empty() && elapsed > old(self)@.timeout ==> {
                &&& expired
                &&& final(self)@.window == shrunk_window(
                    old(self)@.window,
                    old(self)@.received_acks,
                    old(self)@.send_window,
                )
                &&& final(self)@.window as int == vstd::math::max(
                    1,
                    old(self)@.window - old(self)@.received_acks.difference(old(self)@.send_window).len(),
                )
                &&& final(self)@.timeout == 2 * old(self)@.timeout
            },
            !old(self)@.send_window.is_empty() && elapsed <= old(self)@.timeout ==> !expired
                && final(self)@ == old(self)@,
    {
        if self.send_window.is_empty() {
            true
        } else if elapsed > self.timeout {
            proof {
                lemma_btree_set_listing(&self.received_acks);
                lemma_sorted_elems(self.received_acks@);
            }
            let ghost all = sorted_elems(self.received_acks@);
            let ghost w0 = self.window;
            for recseq in it: self.received_acks.iter()
                invariant
                    it.seq().unref() == all,
                    self.timeout == old(self).timeout,
                    self.packets@ == old(self).packets@,
                    self.received_acks@ == old(self).received_acks@,
                    self.send_window@ == old(self).send_window@,
                    self.window >= 1,
                    self.window == if w0 > count_outside(all.take(it.index()), self.send_window@) + 1 {
                        w0 - count_outside(all.take(it.index()), self.send_window@)
                    } else {
                        1
                    },
            {
                proof {
                    let i = it.index();
                    assert(all.take(i + 1).drop_last() =~= all.take(i));
                    assert(all.take(i + 1).last() == *recseq);
                }
                if !self.send_window.contains(recseq) {
                    let smaller = self.window - 1;
                    self.window = if smaller > 1 {
                        smaller
                    } else {
                        1
                    };
                }
            }
            proof {
                assert(all.take(all.len() as int) =~= all);
                assert(all.no_duplicates()) by {
                    assert forall|a: int, b: int| 0 <= a < all.len() && 0 <= b < all.len() && a != b implies all[a]
                        != all[b] by {
                        if a < b {
                            assert(all[a] < all[b]);
                        } else {
                            assert(all[b] < all[a]);
                        }
                    }
                }
                lemma_count_outside(all, self.send_window@);
                lemma_shrunk_window(w0, self.received_acks@, self.send_window@);
            }
            self.timeout = self.timeout * 2;
            true
        } else {
            false
        }
    }

    /// Chooses the packets to transmit: the send window becomes the first
    /// `window` unacknowledged sequence numbers, and the packets with those
    /// numbers come back in the batch's order. An error where nothing is left
    /// to send.
    pub fn select_send_window(&mut self) -> (res: Result<Vec<Packet>, JapError>)
        ensures
            final(self)@.send_window == send_window_spec(old(self)@),
            final(self)@.packets == old(self)@.packets,
            final(self)@.received_acks == old(self)@.received_acks,
            final(self)@.window == old(self)@.window,
            final(self)@.timeout == old(self)@.timeout,
            send_window_spec(old(self)@).is_empty() ==> res == Err::<Vec<Packet>, JapError>(
                JapError::NothingToSend,
            ),
            !send_window_spec(old(self)@).is_empty() ==> (res matches Ok(v) && models(v@)
                == old(self)@.packets.filter(numbered_in(final(self)@.send_window))),
    {
        let ghost m = self@;
        let ghost seqs = seq_numbers(m.packets);
        let ghost pred = not_in(m.received_acks);
        let ghost u = unacked_seqs(m.packets, m.received_acks);
        let mut sw: BTreeSet<SeqNum> = BTreeSet::new();
        let mut taken: usize = 0;
        let mut i: usize = 0;
        let limit = self.window as usize;
        while i < self.packets.len() && taken < limit
            invariant
                self@ == m,
                seqs == seq_numbers(m.packets),
                pred == not_in(m.received_acks),
                u == seqs.filter(pred),
                limit == m.window,
                i <= self.packets@.len(),
                self.packets@.len() == m.packets.len(),
                taken == seqs.take(i as int).filter(pred).len(),
                taken <= limit,
                sw@ == seqs.take(i as int).filter(pred).to_set(),
            decreases self.packets@.len() - i,
        {
            let s = self.packets[i].seq;
            proof {
                assert(seqs[i as int] == s);
                assert(seqs.take(i + 1) =~= seqs.take(i as int).push(s));
                seqs.take(i as int).lemma_filter_push(s, pred);
                seqs.take(i as int).filter(pred).lemma_push_to_set_commute(s);
            }
            if !self.received_acks.contains(&s) {
                sw.insert(s);
                taken = taken + 1;
            }
            i = i + 1;
        }
        proof {
            let pre = seqs.take(i as int).filter(pred);
            assert(seqs =~= seqs.take(i as int) + seqs.skip(i as int));
            Seq::filter_distributes_over_add(seqs.take(i as int), seqs.skip(i as int), pred);
            assert(u == pre + seqs.skip(i as int).filter(pred));
            if i == self.packets@.len() {
                assert(seqs.skip(i as int) =~= Seq::<SeqNum>::empty());
                assert(Seq::<SeqNum>::empty().filter(pred) =~= Seq::<SeqNum>::empty());
                assert(u =~= pre);
                assert(u.take(u.len() as int) =~= u);
            } else {
                assert(u.take(taken as int) =~= pre);
            }
        }
        self.send_window = sw;
        if self.send_window.is_empty() {
            return Err(JapError::NothingToSend);
        }
        let mut out: Vec<Packet> = Vec::new();
        let ghost target = self@.send_window;
        let ghost keep = numbered_in(target);
        let n = self.packets.len();
        for j in 0..n
            invariant
                n == self.packets@.len(),
                self@.packets == m.packets,
                self.packets@.len() == m.packets.len(),
                self@.send_window == target,
                keep == numbered_in(target),
                models(out@) == m.packets.take(j as int).filter(keep),
        {
            proof {
                assert(m.packets.take(j + 1) =~= m.packets.take(j as int).push(m.packets[j as int]));
                assert(m.packets[j as int] == self.packets@[j as int]@);
                m.packets.take(j as int).lemma_filter_push(m.packets[j as int], keep);
            }
            if self.send_window.contains(&self.packets[j].seq) {
                let p = self.packets[j].clone();
                proof {
                    assert(models(out@.push(p)) =~= models(out@).push(p@));
                }
                out.push(p);
            }
        }
        proof {
            assert(m.packets.take(m.packets.len() as int) =~= m.packets);
        }
        Ok(out)
    }

    /// The window.
    pub fn window(&self) -> (w: SeqNum)
        ensures
            w == self@.window,
    {
        self.window
    }

    /// The timeout, in nanoseconds.
    pub fn timeout(&self) -> (t: u128)
        ensures
            t == self@.timeout,
    {
        self.timeout
    }

    /// Whether nothing is waiting for an ack.
    pub fn send_window_is_empty(&self) -> (b: bool)
        ensures
            b == self@.send_window.is_empty(),
    {
        self.send_window.is_empty()
    }
}

} // verus!
