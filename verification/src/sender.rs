//! The sender's sliding window: which packets go out next, which are
//! acknowledged, and how the window grows and shrinks.
use std::collections::{BTreeMap, BTreeSet};
use vstd::prelude::*;

use crate::order::{lemma_btree_map_keys_listing, lemma_btree_set_listing};
use crate::packet::Packet;
use crate::value::PacketValue;
use crate::wire::{lemma_sorted_elems, sorted_elems};
use crate::SeqNum;

verus! {

broadcast use {vstd::std_specs::btree::group_btree_axioms, vstd::laws_cmp::group_laws_cmp};

/// The keys of `map`, in increasing order.
fn keys_of<V>(map: &BTreeMap<SeqNum, V>) -> (keys: Vec<SeqNum>)
    ensures
        keys@ == sorted_elems(map@.dom()),
        map@.dom().finite(),
{
    proof {
        lemma_btree_map_keys_listing(map);
    }
    let mut keys: Vec<SeqNum> = Vec::new();
    let ghost all = sorted_elems(map@.dom());
    for k in it: map.keys()
        invariant
            it.seq().unref() == all,
            keys@ == all.take(it.index()),
    {
        proof {
            assert(all.take(it.index() + 1) =~= all.take(it.index()).push(*k));
        }
        keys.push(*k);
    }
    proof {
        assert(all.take(all.len() as int) =~= all);
    }
    keys
}

/// The smaller of two lengths.
pub open spec fn min_len(a: int, b: int) -> int {
    if a < b {
        a
    } else {
        b
    }
}

/// `window` holds the `window_size` packets of `packets` with the lowest
/// sequence numbers (all of them where there are fewer), with their values.
pub open spec fn is_window_of(
    window: Map<SeqNum, PacketValue>,
    packets: Map<SeqNum, PacketValue>,
    window_size: SeqNum,
) -> bool {
    &&& window.dom() == sorted_elems(packets.dom()).take(
        min_len(window_size as int, packets.dom().len() as int),
    ).to_set()
    &&& forall|k: SeqNum| #[trigger] window.contains_key(k) ==> window[k]@ == packets[k]@
}

/// Removes from `packets` every packet whose sequence number is in `acks`.
fn retain_unacked(packets: &mut BTreeMap<SeqNum, PacketValue>, acks: &BTreeSet<SeqNum>)
    ensures
        final(packets)@ == old(packets)@.remove_keys(acks@),
{
    let keys = keys_of(packets);
    let ghost old_map = packets@;
    proof {
        lemma_sorted_elems(old_map.dom());
    }
    for i in 0..keys.len()
        invariant
            keys@.to_set() == old_map.dom(),
            packets@ == old_map.remove_keys(acks@.intersect(keys@.take(i as int).to_set())),
    {
        let k = keys[i];
        proof {
            assert(keys@.take(i + 1) =~= keys@.take(i as int).push(k));
            keys@.take(i as int).lemma_push_to_set_commute(k);
        }
        if acks.contains(&k) {
            packets.remove(&k);
            proof {
                assert(packets@ =~= old_map.remove_keys(acks@.intersect(keys@.take(i + 1).to_set())));
            }
        } else {
            proof {
                assert(packets@ =~= old_map.remove_keys(acks@.intersect(keys@.take(i + 1).to_set())));
            }
        }
    }
    proof {
        assert(keys@.take(keys@.len() as int) =~= keys@);
        assert(packets@ =~= old_map.remove_keys(acks@));
    }
}

/// Using the sender's window size this function eliminates acked packets from
/// the list and creates an ordered map of the packets to send: the
/// `window_size` unacknowledged packets with the lowest sequence numbers.
pub fn make_window(
    packets: &mut BTreeMap<SeqNum, PacketValue>,
    window_size: SeqNum,
    received_acks: &BTreeSet<SeqNum>,
) -> (window: BTreeMap<SeqNum, PacketValue>)
    ensures
        final(packets)@ == old(packets)@.remove_keys(received_acks@),
        is_window_of(window@, final(packets)@, window_size),
{
    retain_unacked(packets, received_acks);
    let keys = keys_of(packets);
    proof {
        lemma_sorted_elems(packets@.dom());
    }
    let n = if (window_size as usize) < keys.len() {
        window_size as usize
    } else {
        keys.len()
    };
    let mut window: BTreeMap<SeqNum, PacketValue> = BTreeMap::new();
    for i in 0..n
        invariant
            n <= keys@.len(),
            keys@ == sorted_elems(packets@.dom()),
            keys@.to_set() == packets@.dom(),
            window@.dom() == keys@.take(i as int).to_set(),
            forall|k: SeqNum| #[trigger] window@.contains_key(k) ==> window@[k]@ == packets@[k]@,
    {
        let k = keys[i];
        proof {
            assert(keys@.take(i + 1) =~= keys@.take(i as int).push(k));
            keys@.take(i as int).lemma_push_to_set_commute(k);
            assert(keys@.to_set().contains(k));
        }
        let value = match packets.get(&k) {
            Some(v) => v.clone(),
            None => PacketValue::Start,
        };
        window.insert(k, value);
    }
    window
}

/// Checks a list of packets against received acks and returns true if all
/// packets have been acknowledged.
pub fn got_all_acks(packets: &BTreeMap<SeqNum, PacketValue>, received_acks: &BTreeSet<SeqNum>) -> (all: bool)
    ensures
        all == packets@.dom().subset_of(received_acks@),
{
    let keys = keys_of(packets);
    proof {
        lemma_sorted_elems(packets@.dom());
    }
    for i in 0..keys.len()
        invariant
            keys@ == sorted_elems(packets@.dom()),
            keys@.to_set() == packets@.dom(),
            forall|j: int| 0 <= j < i ==> received_acks@.contains(#[trigger] keys@[j]),
    {
        if !received_acks.contains(&keys[i]) {
            proof {
                assert(keys@.to_set().contains(keys@[i as int]));
            }
            return false;
        }
    }
    proof {
        assert forall|k: SeqNum| packets@.dom().contains(k) implies received_acks@.contains(k) by {
            assert(keys@.to_set().contains(k));
        }
    }
    true
}

/// The sequence numbers among `dom` that some ack among `received` covers:
/// those at or below its cumulative ack.
pub open spec fn covered_by_acks(dom: Set<SeqNum>, received: Seq<Packet>) -> Set<SeqNum> {
    dom.filter(
        |k: SeqNum|
            exists|i: int|
                0 <= i < received.len() && (#[trigger] received[i].value matches PacketValue::Ack(
                    a,
                ) && k <= a.cum),
    )
}

/// Taking in one more received packet adds what its ack covers, if it is one.
pub proof fn lemma_covered_step(dom: Set<SeqNum>, received: Seq<Packet>, i: int)
    requires
        0 <= i < received.len(),
    ensures
        covered_by_acks(dom, received.take(i + 1)) == match received[i].value {
            PacketValue::Ack(a) => covered_by_acks(dom, received.take(i)).union(
                dom.filter(|k: SeqNum| k <= a.cum),
            ),
            _ => covered_by_acks(dom, received.take(i)),
        },
{
    let t = received.take(i);
    let t1 = received.take(i + 1);
    assert forall|x: SeqNum| covered_by_acks(dom, t1).contains(x) <==> (covered_by_acks(dom, t).contains(x)
        || (dom.contains(x) && (received[i].value matches PacketValue::Ack(a) && x <= a.cum))) by {
        if covered_by_acks(dom, t1).contains(x) {
            let w = choose|w: int|
                0 <= w < t1.len() && (#[trigger] t1[w].value matches PacketValue::Ack(b) && x <= b.cum);
            if w < i {
                assert(t[w] == t1[w]);
            }
        }
        if covered_by_acks(dom, t).contains(x) {
            let w = choose|w: int|
                0 <= w < t.len() && (#[trigger] t[w].value matches PacketValue::Ack(b) && x <= b.cum);
            assert(t1[w] == t[w]);
        }
        if dom.contains(x) && (received[i].value matches PacketValue::Ack(a) && x <= a.cum) {
            assert(t1[i] == received[i]);
        }
    }
    match received[i].value {
        PacketValue::Ack(a) => {
            assert(covered_by_acks(dom, t1) =~= covered_by_acks(dom, t).union(
                dom.filter(|k: SeqNum| k <= a.cum),
            ));
        },
        _ => {
            assert(covered_by_acks(dom, t1) =~= covered_by_acks(dom, t));
        },
    }
}

/// Marks as acknowledged each of `packets` that an ack among `received`
/// covers; returns how many were not marked before.
fn mark_acks(
    packets: &BTreeMap<SeqNum, PacketValue>,
    received_acks: &mut BTreeSet<SeqNum>,
    received: &Vec<Packet>,
) -> (count: usize)
    ensures
        final(received_acks)@ == old(received_acks)@.union(covered_by_acks(packets@.dom(), received@)),
        final(received_acks)@.finite(),
        count == final(received_acks)@.len() - old(received_acks)@.len(),
{
    let keys = keys_of(packets);
    proof {
        lemma_sorted_elems(packets@.dom());
        lemma_btree_set_listing(received_acks);
    }
    let ghost dom = packets@.dom();
    let ghost acks0 = received_acks@;
    let mut count: usize = 0;
    assert(keys@.len() == keys.len());
    for i in 0..received.len()
        invariant
            keys@.to_set() == dom,
            keys@.len() == dom.len(),
            dom.finite(),
            acks0.finite(),
            dom.len() <= usize::MAX,
            received_acks@ == acks0.union(covered_by_acks(dom, received@.take(i as int))),
            count == received_acks@.len() - acks0.len(),
    {
        let ghost before = received_acks@;
        if let PacketValue::Ack(a) = &received[i].value {
            let cum = a.cum;
            for j in 0..keys.len()
                invariant
                    keys@.to_set() == dom,
                    keys@.len() == dom.len(),
                    dom.finite(),
                    acks0.finite(),
                    dom.len() <= usize::MAX,
                    received_acks@ == before.union(
                        keys@.take(j as int).to_set().filter(|k: SeqNum| k <= cum),
                    ),
                    before == acks0.union(covered_by_acks(dom, received@.take(i as int))),
                    count == received_acks@.len() - acks0.len(),
            {
                let k = keys[j];
                proof {
                    assert(keys@.take(j + 1) =~= keys@.take(j as int).push(k));
                    keys@.take(j as int).lemma_push_to_set_commute(k);
                    assert(keys@.to_set().contains(k));
                }
                if k <= cum {
                    let ghost pre = received_acks@;
                    proof {
                        assert(acks0.union(dom).finite());
                        assert(pre.subset_of(acks0.union(dom))) by {
                            assert forall|x: SeqNum| pre.contains(x) implies acks0.union(dom).contains(x) by {
                                if !acks0.contains(x) && !keys@.take(j as int).to_set().filter(
                                    |k: SeqNum| k <= cum,
                                ).contains(x) {
                                    assert(covered_by_acks(dom, received@.take(i as int)).contains(x));
                                }
                            }
                        }
                        vstd::set_lib::lemma_len_subset(pre.insert(k), acks0.union(dom));
                        vstd::set_lib::lemma_len_union(acks0, dom);
                    }
                    if received_acks.insert(k) {
                        count += 1;
                    }
                }
                proof {
                    assert(received_acks@ =~= before.union(
                        keys@.take(j + 1).to_set().filter(|k: SeqNum| k <= cum),
                    ));
                }
            }
            proof {
                assert(keys@.take(keys@.len() as int) =~= keys@);
                lemma_covered_step(dom, received@, i as int);
                assert(received_acks@ =~= acks0.union(covered_by_acks(dom, received@.take(i + 1))));
            }
        } else {
            proof {
                lemma_covered_step(dom, received@, i as int);
                assert(received_acks@ =~= acks0.union(covered_by_acks(dom, received@.take(i + 1))));
            }
        }
    }
    proof {
        assert(received@.take(received@.len() as int) =~= received@);
    }
    count
}

/// The number of `packets` that the acks among `received` cover and that are
/// not yet among `received_acks`.
pub fn new_ack_count(
    packets: &BTreeMap<SeqNum, PacketValue>,
    received_acks: &BTreeSet<SeqNum>,
    received: &Vec<Packet>,
) -> (n: usize)
    ensures
        n == received_acks@.union(covered_by_acks(packets@.dom(), received@)).len()
            - received_acks@.len(),
{
    let mut copy = received_acks.clone();
    mark_acks(packets, &mut copy, received)
}

/// Marks as acknowledged each of `packets` that an ack among `received`
/// covers, and counts in `acks_got` those not marked before.
pub fn record_acks(
    packets: &BTreeMap<SeqNum, PacketValue>,
    received_acks: &mut BTreeSet<SeqNum>,
    acks_got: &mut SeqNum,
    received: &Vec<Packet>,
)
    requires
        *old(acks_got) + (old(received_acks)@.union(covered_by_acks(packets@.dom(), received@)).len()
            - old(received_acks)@.len()) <= SeqNum::MAX,
    ensures
        final(received_acks)@ == old(received_acks)@.union(covered_by_acks(packets@.dom(), received@)),
        *final(acks_got) == *old(acks_got) + (final(received_acks)@.len() - old(received_acks)@.len()),
{
    let n = mark_acks(packets, received_acks, received);
    *acks_got = *acks_got + n as SeqNum;
}

/// The window size for the next round: one less (but at least one) where
/// fewer acks came back than the window held, one more otherwise.
pub open spec fn next_window_size_spec(window_size: SeqNum, acks_got: SeqNum) -> SeqNum {
    if acks_got < window_size {
        if window_size - 1 > 1 {
            (window_size - 1) as SeqNum
        } else {
            1
        }
    } else {
        (window_size + 1) as SeqNum
    }
}

/// A round that got fewer acks than its window held, however few (none at
/// all too), shrinks the window by exactly one, never below one; a round that
/// got at least as many grows it by one.
pub proof fn lemma_next_window_size(window_size: SeqNum, acks_got: SeqNum)
    requires
        acks_got >= window_size ==> window_size < SeqNum::MAX,
    ensures
        acks_got < window_size ==> next_window_size_spec(window_size, acks_got) as int == vstd::math::max(
            1,
            window_size - 1,
        ),
        acks_got < window_size ==> forall|other: SeqNum|
            other < window_size ==> #[trigger] next_window_size_spec(window_size, other)
                == next_window_size_spec(window_size, acks_got),
        acks_got >= window_size ==> next_window_size_spec(window_size, acks_got) as int == window_size
            + 1,
{
}

/// The window size for the next round: one less (but at least one) where
/// fewer acks came back than the window held, one more otherwise.
pub fn next_window_size(window_size: SeqNum, acks_got: SeqNum) -> (next: SeqNum)
    requires
        acks_got >= window_size ==> window_size < SeqNum::MAX,
    ensures
        next == next_window_size_spec(window_size, acks_got),
        acks_got < window_size ==> next as int == vstd::math::max(1, window_size - 1),
        acks_got >= window_size ==> next as int == window_size + 1,
{
    if acks_got < window_size {
        let smaller = window_size - 1;
        if smaller > 1 {
            smaller
        } else {
            1
        }
    } else {
        window_size + 1
    }
}

/// Whether a sending round is over: the timeout passed, or every packet of
/// the window is acknowledged.
pub open spec fn round_over(
    window: Map<SeqNum, PacketValue>,
    received_acks: Set<SeqNum>,
    timed_out: bool,
) -> bool {
    timed_out || window.dom().subset_of(received_acks)
}

/// The sender's decision after taking in what arrived. Where the round is
/// over, the window size is adjusted to the acks the round got, the count of
/// acks starts again from zero, acknowledged packets are dropped and the
/// window is made anew. Returns whether there is a new window to send; where
/// the round goes on, nothing changes.
pub fn close_round(
    packets: &mut BTreeMap<SeqNum, PacketValue>,
    window: &mut BTreeMap<SeqNum, PacketValue>,
    window_size: &mut SeqNum,
    acks_got: &mut SeqNum,
    received_acks: &BTreeSet<SeqNum>,
    timed_out: bool,
) -> (send: bool)
    requires
        round_over(old(window)@, received_acks@, timed_out) && *old(acks_got) >= *old(window_size)
            ==> *old(window_size) < SeqNum::MAX,
    ensures
        !round_over(old(window)@, received_acks@, timed_out) ==> {
            &&& !send
            &&& final(packets)@ == old(packets)@
            &&& final(window)@ == old(window)@
            &&& *final(window_size) == *old(window_size)
            &&& *final(acks_got) == *old(acks_got)
        },
        round_over(old(window)@, received_acks@, timed_out) ==> {
            &&& *final(window_size) == next_window_size_spec(*old(window_size), *old(acks_got))
            &&& *old(acks_got) < *old(window_size) ==> *final(window_size) as int == vstd::math::max(
                1,
                *old(window_size) - 1,
            )
            &&& *old(acks_got) >= *old(window_size) ==> *final(window_size) as int == *old(window_size)
                + 1
            &&& *final(acks_got) == 0
            &&& final(packets)@ == old(packets)@.remove_keys(received_acks@)
            &&& is_window_of(final(window)@, final(packets)@, *final(window_size))
            &&& send == !final(window)@.is_empty()
        },
{
    if timed_out || got_all_acks(window, received_acks) {
        *window_size = next_window_size(*window_size, *acks_got);
        *acks_got = 0;
        *window = make_window(packets, *window_size, received_acks);
        !window.is_empty()
    } else {
        false
    }
}

} // verus!
