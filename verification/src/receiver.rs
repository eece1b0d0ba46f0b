//! The receiver's reordering: packets that arrive ahead of the cumulative
//! ack wait until the gap before them is filled, then go out in order.
use std::collections::BTreeMap;
use vstd::prelude::*;

use crate::packet::Packet;
use crate::value::{Ack, PacketValue};
use crate::SeqNum;

verus! {

broadcast use {vstd::std_specs::btree::group_btree_axioms, vstd::laws_cmp::group_laws_cmp};

/// What the receiver keeps between packets.
pub struct Reassembler {
    /// Highest sequence number up to which every packet was handed on.
    pub ack_cum: SeqNum,
    /// Packets that arrived ahead of `ack_cum + 1`, by sequence number.
    pub pending: BTreeMap<SeqNum, PacketValue>,
}

/// Hands on the packets that wait right after `c`, one after the other:
/// the packets, the new cumulative ack and what still waits.
pub open spec fn drain(c: SeqNum, m: Map<SeqNum, PacketValue>) -> (
    Seq<Packet>,
    SeqNum,
    Map<SeqNum, PacketValue>,
)
    decreases m.dom().len(),
    when m.dom().finite()
{
    if c < SeqNum::MAX && m.contains_key((c + 1) as SeqNum) {
        let n = (c + 1) as SeqNum;
        let (d, c2, m2) = drain(n, m.remove(n));
        (seq![Packet { seq: n, value: m[n] }] + d, c2, m2)
    } else {
        (Seq::empty(), c, m)
    }
}

/// What the receiver does with one packet: hands it on, with those waiting
/// behind it, where it is the next one expected; ignores a start message or
/// a duplicate; keeps one that is ahead.
pub open spec fn accept_spec(c: SeqNum, m: Map<SeqNum, PacketValue>, p: Packet) -> (
    Seq<Packet>,
    SeqNum,
    Map<SeqNum, PacketValue>,
) {
    if p.seq == c + 1 {
        let (d, c2, m2) = drain(p.seq, m);
        (seq![p] + d, c2, m2)
    } else if p.value is Start {
        (Seq::empty(), c, m)
    } else if p.seq > c + 1 {
        (Seq::empty(), c, m.insert(p.seq, p.value))
    } else {
        (Seq::empty(), c, m)
    }
}

/// What is handed on runs without a gap from `c + 1` up to the new
/// cumulative ack, and what still waits lies beyond the one after it.
pub proof fn lemma_drain(c: SeqNum, m: Map<SeqNum, PacketValue>)
    requires
        m.dom().finite(),
    ensures
        ({
            let (d, c2, m2) = drain(c, m);
            &&& c2 == c + d.len()
            &&& forall|i: int| 0 <= i < d.len() ==> #[trigger] d[i].seq == c + 1 + i
            &&& (forall|k: SeqNum| #[trigger] m.contains_key(k) ==> k > c) ==> (forall|k: SeqNum|
                #[trigger] m2.contains_key(k) ==> k > c2 + 1)
            &&& m2.dom().len() + d.len() == m.dom().len()
            &&& m2.dom().finite()
        }),
    decreases m.dom().len(),
{
    if c < SeqNum::MAX && m.contains_key((c + 1) as SeqNum) {
        let n = (c + 1) as SeqNum;
        lemma_drain(n, m.remove(n));
        let (d, c2, m2) = drain(n, m.remove(n));
        assert forall|i: int| 0 <= i < d.len() + 1 implies #[trigger] (seq![
            Packet { seq: n, value: m[n] },
        ] + d)[i].seq == c + 1 + i by {
            if i > 0 {
                assert(d[i - 1].seq == n + 1 + (i - 1));
            }
        }
    } else {
        if forall|k: SeqNum| #[trigger] m.contains_key(k) ==> k > c {
            assert forall|k: SeqNum| #[trigger] m.contains_key(k) implies k > c + 1 by {
                if k == c + 1 {
                    assert(m.contains_key((c + 1) as SeqNum));
                }
            }
        }
    }
}

/// Every packet handed on carries the value that waited under its sequence
/// number.
pub proof fn lemma_drain_values(c: SeqNum, m: Map<SeqNum, PacketValue>)
    requires
        m.dom().finite(),
    ensures
        forall|i: int|
            #![trigger drain(c, m).0[i]]
            0 <= i < drain(c, m).0.len() ==> m.contains_key(drain(c, m).0[i].seq)
                && drain(c, m).0[i].value == m[drain(c, m).0[i].seq],
    decreases m.dom().len(),
{
    if c < SeqNum::MAX && m.contains_key((c + 1) as SeqNum) {
        let n = (c + 1) as SeqNum;
        lemma_drain_values(n, m.remove(n));
        lemma_drain(n, m.remove(n));
        let d = drain(n, m.remove(n)).0;
        assert forall|i: int| 0 <= i < drain(c, m).0.len() implies m.contains_key(drain(c, m).0[i].seq)
            && #[trigger] drain(c, m).0[i].value == m[drain(c, m).0[i].seq] by {
            if i > 0 {
                assert(drain(c, m).0[i] == d[i - 1]);
                assert(d[i - 1].seq == n + 1 + (i - 1));
            }
        }
    }
}

/// What the receiver hands on is what it was given: the packet taken in goes
/// out first and unchanged, each one after it carries the value that waited
/// under its sequence number, and a packet kept for later waits with its value.
pub proof fn lemma_accept_values(c: SeqNum, m: Map<SeqNum, PacketValue>, p: Packet)
    requires
        m.dom().finite(),
    ensures
        ({
            let (d, c2, m2) = accept_spec(c, m, p);
            &&& d.len() > 0 ==> d[0] == p
            &&& forall|i: int|
                0 < i < d.len() ==> m.contains_key(#[trigger] d[i].seq) && d[i].value == m[d[i].seq]
            &&& (p.seq > c + 1 && !(p.value is Start)) ==> m2.contains_key(p.seq) && m2[p.seq] == p.value
        }),
{
    if p.seq == c + 1 {
        lemma_drain_values(p.seq, m);
        let (d, c2, m2) = accept_spec(c, m, p);
        assert forall|i: int| 0 < i < d.len() implies m.contains_key(#[trigger] d[i].seq) && d[i].value
            == m[d[i].seq] by {
            assert(d[i] == drain(p.seq, m).0[i - 1]);
        }
    }
}

/// The sequence numbers a receiver holds: those handed on (`1..=c`) and those waiting.
pub open spec fn held(c: SeqNum, m: Map<SeqNum, PacketValue>) -> Set<SeqNum> {
    Set::new(|s: SeqNum| 1 <= s <= c).union(m.dom())
}

/// Handing on waiting packets loses none: what was held is still held.
pub proof fn lemma_drain_keeps_held(c: SeqNum, m: Map<SeqNum, PacketValue>)
    requires
        m.dom().finite(),
    ensures
        held(drain(c, m).1, drain(c, m).2) == held(c, m),
    decreases m.dom().len(),
{
    if c < SeqNum::MAX && m.contains_key((c + 1) as SeqNum) {
        let n = (c + 1) as SeqNum;
        lemma_drain_keeps_held(n, m.remove(n));
        assert(held(n, m.remove(n)) =~= held(c, m));
    }
}

/// Where the cumulative ack ends up does not depend on a waiting packet at or
/// below it.
pub proof fn lemma_drain_end_ignores(c: SeqNum, m: Map<SeqNum, PacketValue>, k: SeqNum)
    requires
        m.dom().finite(),
        k <= c,
    ensures
        drain(c, m.remove(k)).1 == drain(c, m).1,
    decreases m.dom().len(),
{
    if c < SeqNum::MAX && m.contains_key((c + 1) as SeqNum) {
        let n = (c + 1) as SeqNum;
        assert(m.remove(k).contains_key(n));
        assert(m.remove(k).remove(n) =~= m.remove(n).remove(k));
        lemma_drain_end_ignores(n, m.remove(n), k);
    }
}

impl Reassembler {
    /// Nothing received yet.
    pub fn new() -> (r: Self)
        ensures
            r.ack_cum == 0,
            r.pending@ == Map::<SeqNum, PacketValue>::empty(),
    {
        Reassembler { ack_cum: 0, pending: BTreeMap::new() }
    }

    /// Every waiting packet lies beyond the one after the cumulative ack.
    pub open spec fn wf(&self) -> bool {
        forall|k: SeqNum| #[trigger] self.pending@.contains_key(k) ==> k > self.ack_cum + 1
    }

    /// Whether taking in `packet` keeps every sequence number it computes
    /// within range: the cumulative ack has a successor, and where the packet
    /// is the next one expected, the run of waiting packets behind it stops
    /// short of the last sequence number.
    pub open spec fn has_room(&self, packet: Packet) -> bool {
        &&& self.ack_cum < SeqNum::MAX
        &&& packet.seq == self.ack_cum + 1 ==> drain(packet.seq, self.pending@).1 < SeqNum::MAX
    }

    /// Whether [`Reassembler::accept`] may be called with `packet`.
    pub fn can_accept(&self, packet: &Packet) -> (b: bool)
        ensures
            b == self.has_room(*packet),
    {
        if self.ack_cum == SeqNum::MAX {
            return false;
        }
        if packet.seq != self.ack_cum + 1 {
            return true;
        }
        let mut c = packet.seq;
        let ghost m = self.pending@;
        proof {
            lemma_drain(c, m);
        }
        while c < SeqNum::MAX && self.pending.contains_key(&(c + 1))
            invariant
                m == self.pending@,
                m.dom().finite(),
                packet.seq <= c,
                drain(c, m).1 == drain(packet.seq, m).1,
                drain(c, m).1 >= c,
            decreases SeqNum::MAX - c,
        {
            proof {
                let n = (c + 1) as SeqNum;
                lemma_drain_end_ignores(n, m, n);
                lemma_drain(n, m);
            }
            c = c + 1;
        }
        c < SeqNum::MAX
    }

    /// Takes in one packet from the sender; returns the packets now handed on,
    /// in sequence order.
    pub fn accept(&mut self, packet: Packet) -> (delivered: Vec<Packet>)
        requires
            old(self).has_room(packet),
        ensures
            (delivered@, final(self).ack_cum, final(self).pending@) == accept_spec(
                old(self).ack_cum,
                old(self).pending@,
                packet,
            ),
            final(self).ack_cum == old(self).ack_cum + delivered@.len(),
            forall|i: int|
                0 <= i < delivered@.len() ==> #[trigger] delivered@[i].seq == old(self).ack_cum + 1 + i,
            delivered@.len() > 0 ==> delivered@[0] == packet,
            forall|i: int|
                0 < i < delivered@.len() ==> old(self).pending@.contains_key(#[trigger] delivered@[i].seq)
                    && delivered@[i].value == old(self).pending@[delivered@[i].seq],
            old(self).wf() ==> final(self).wf(),
            held(final(self).ack_cum, final(self).pending@) == if packet.seq == 0 || (packet.value is Start
                && packet.seq != old(self).ack_cum + 1) {
                held(old(self).ack_cum, old(self).pending@)
            } else {
                held(old(self).ack_cum, old(self).pending@).insert(packet.seq)
            },
    {
        let mut delivered: Vec<Packet> = Vec::new();
        let ghost c0 = self.ack_cum;
        if packet.seq == self.ack_cum + 1 {
            let ghost m0 = self.pending@;
            let ghost p = packet;
            self.ack_cum = self.ack_cum + 1;
            delivered.push(packet);
            proof {
                assert(delivered@.drop_first() + drain(self.ack_cum, self.pending@).0 =~= drain(
                    self.ack_cum,
                    self.pending@,
                ).0);
            }
            loop
                invariant
                    m0.dom().finite(),
                    self.pending@.dom().finite(),
                    drain(self.ack_cum, self.pending@).1 < SeqNum::MAX,
                    drain(p.seq, m0) == (
                        delivered@.drop_first() + drain(self.ack_cum, self.pending@).0,
                        drain(self.ack_cum, self.pending@).1,
                        drain(self.ack_cum, self.pending@).2,
                    ),
                    delivered@.len() >= 1,
                    delivered@[0] == p,
                ensures
                    drain(p.seq, m0) == (delivered@.drop_first(), self.ack_cum, self.pending@),
                    delivered@.len() >= 1,
                    delivered@[0] == p,
                decreases self.pending@.dom().len(),
            {
                let next = self.ack_cum + 1;
                let ghost before = delivered@;
                let ghost m = self.pending@;
                match self.pending.remove(&next) {
                    Some(value) => {
                        delivered.push(Packet { seq: next, value });
                        self.ack_cum = next;
                        proof {
                            assert(m.contains_key(next));
                            assert(self.pending@ == m.remove(next));
                            assert(drain((next - 1) as SeqNum, m).0 =~= seq![Packet { seq: next, value }] + drain(
                                next,
                                m.remove(next),
                            ).0);
                            assert(delivered@.drop_first() =~= before.drop_first().push(
                                Packet { seq: next, value },
                            ));
                            assert(before.drop_first() + drain((next - 1) as SeqNum, m).0 =~= delivered@.drop_first()
                                + drain(self.ack_cum, self.pending@).0);
                        }
                    },
                    None => {
                        proof {
                            assert(!m.contains_key(next));
                            assert(delivered@.drop_first() + drain(self.ack_cum, self.pending@).0
                                =~= delivered@.drop_first());
                        }
                        break ;
                    },
                }
            }
            proof {
                lemma_drain_keeps_held(p.seq, m0);
                assert(held(p.seq, m0) =~= held(c0, m0).insert(p.seq));
                lemma_drain(p.seq, m0);
                lemma_drain_values(p.seq, m0);
                assert(delivered@ =~= seq![p] + delivered@.drop_first());
                assert forall|i: int| 0 <= i < delivered@.len() implies #[trigger] delivered@[i].seq
                    == c0 + 1 + i by {
                    if i > 0 {
                        assert(delivered@[i] == drain(p.seq, m0).0[i - 1]);
                    }
                }
                assert forall|i: int| 0 < i < delivered@.len() implies m0.contains_key(
                    #[trigger] delivered@[i].seq,
                ) && delivered@[i].value == m0[delivered@[i].seq] by {
                    assert(delivered@[i] == drain(p.seq, m0).0[i - 1]);
                }
            }
        } else if let PacketValue::Start = packet.value {
        } else if packet.seq > self.ack_cum + 1 {
            let ghost s = packet.seq;
            self.pending.insert(packet.seq, packet.value);
            proof {
                assert(held(c0, self.pending@) =~= held(c0, old(self).pending@).insert(s));
            }
        } else {
            proof {
                if packet.seq != 0 {
                    assert(held(c0, self.pending@) =~= held(c0, self.pending@).insert(packet.seq));
                }
            }
        }
        delivered
    }

    /// The ack for what was handed on so far, numbered `*seq`; advances `*seq`.
    pub fn ack(&self, seq: &mut SeqNum, adv_win: SeqNum) -> (p: Packet)
        requires
            *old(seq) < SeqNum::MAX,
        ensures
            *final(seq) == *old(seq) + 1,
            p.seq == *old(seq),
            p.value matches PacketValue::Ack(a) && a.cum == self.ack_cum && a.sel@.is_empty()
                && a.adv_win == adv_win,
    {
        let p = Packet {
            seq: *seq,
            value: PacketValue::Ack(Ack { cum: self.ack_cum, sel: std::collections::BTreeSet::new(), adv_win }),
        };
        *seq += 1;
        p
    }
}

} // verus!
