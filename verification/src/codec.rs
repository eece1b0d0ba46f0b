//! The wire format of a packet: postcard's encoding of the packet's fields,
//! one after the other, with the variant of its value as a varint tag.
use std::collections::BTreeSet;
use vstd::prelude::*;

use crate::order::lemma_btree_set_listing;
use crate::packet::{Packet, PacketModel};
use crate::value::{Ack, AckModel, FileData, PacketValue, ValueModel};
use crate::wire::{
    extend_bytes, extend_len, extend_u32, lemma_len_varint_roundtrip, lemma_sorted_elems,
    lemma_takes_consume, lemma_u32_varint_roundtrip, lemma_u32s_bytes_prefix_len,
    lemma_u32s_roundtrip, sorted_elems, take_bytes, take_bytes_spec, take_u32, take_u32_spec,
    take_u32_vec, take_u32_vec_spec, u32s_bytes, varint,
};
use crate::SeqNum;

verus! {

broadcast use {vstd::std_specs::btree::group_btree_axioms, vstd::laws_cmp::group_laws_cmp};

/// The index of a value's variant in the declaration of [`PacketValue`]:
/// `Start`, `Data`, `Ack`, `Fin`. Postcard tags an enum value with it.
pub open spec fn variant_index(v: ValueModel) -> nat {
    match v {
        ValueModel::Start => 0,
        ValueModel::Data { .. } => 1,
        ValueModel::Ack(_) => 2,
        ValueModel::Fin => 3,
    }
}

/// The bytes of a packet value: its variant's tag, then its fields.
pub open spec fn encode_value(v: ValueModel) -> Seq<u8> {
    match v {
        ValueModel::Start => varint(0),
        ValueModel::Data { data, window } => varint(1) + varint(data.len()) + data + varint(
            window as nat,
        ),
        ValueModel::Ack(a) => varint(2) + varint(a.cum as nat) + varint(a.sel.len()) + u32s_bytes(
            sorted_elems(a.sel),
        ) + varint(a.adv_win as nat),
        ValueModel::Fin => varint(3),
    }
}

/// The bytes of a packet: its sequence number, then its value.
pub open spec fn encode_packet(p: PacketModel) -> Seq<u8> {
    varint(p.seq as nat) + encode_value(p.value)
}

/// Reads a packet value from the front of `bytes`, with what follows it.
pub open spec fn decode_value(bytes: Seq<u8>) -> Option<(ValueModel, Seq<u8>)> {
    match take_u32_spec(bytes) {
        None => None,
        Some((tag, rest)) => if tag == 0 {
            Some((ValueModel::Start, rest))
        } else if tag == 1 {
            match take_bytes_spec(rest) {
                Some((data, r1)) => match take_u32_spec(r1) {
                    Some((window, r2)) => Some((ValueModel::Data { data, window }, r2)),
                    None => None,
                },
                None => None,
            }
        } else if tag == 2 {
            match take_u32_spec(rest) {
                Some((cum, r1)) => match take_u32_vec_spec(r1) {
                    Some((sel, r2)) => match take_u32_spec(r2) {
                        Some((adv_win, r3)) => Some(
                            (ValueModel::Ack(AckModel { cum, sel: sel.to_set(), adv_win }), r3),
                        ),
                        None => None,
                    },
                    None => None,
                },
                None => None,
            }
        } else if tag == 3 {
            Some((ValueModel::Fin, rest))
        } else {
            None
        },
    }
}

/// Reads a packet from the front of `bytes`, with what follows it.
pub open spec fn decode_packet(bytes: Seq<u8>) -> Option<(PacketModel, Seq<u8>)> {
    match take_u32_spec(bytes) {
        None => None,
        Some((seq, rest)) => match decode_value(rest) {
            Some((value, r)) => Some((PacketModel { seq, value }, r)),
            None => None,
        },
    }
}

/// A value that the wire format can hold: a length fits a `usize` and the
/// set of selective acks is finite.
pub open spec fn value_encodable(v: ValueModel) -> bool {
    match v {
        ValueModel::Data { data, .. } => data.len() <= usize::MAX,
        ValueModel::Ack(a) => a.sel.finite() && a.sel.len() <= usize::MAX,
        _ => true,
    }
}

/// Appends the varint of a `u32`.
fn put_u32(out: Vec<u8>, x: u32) -> (res: Vec<u8>)
    requires
        out@.len() + varint(x as nat).len() <= usize::MAX,
    ensures
        res@ == out@ + varint(x as nat),
{
    match extend_u32(out, x) {
        Ok(v) => v,
        Err(_) => Vec::new(),
    }
}

/// Appends the varint of a length.
fn put_len(out: Vec<u8>, n: usize) -> (res: Vec<u8>)
    requires
        out@.len() + varint(n as nat).len() <= usize::MAX,
    ensures
        res@ == out@ + varint(n as nat),
{
    match extend_len(out, n) {
        Ok(v) => v,
        Err(_) => Vec::new(),
    }
}

/// Appends a length-prefixed byte string.
fn put_bytes(out: Vec<u8>, b: &[u8]) -> (res: Vec<u8>)
    requires
        out@.len() + varint(b@.len()).len() + b@.len() <= usize::MAX,
    ensures
        res@ == out@ + varint(b@.len()) + b@,
{
    match extend_bytes(out, b) {
        Ok(v) => v,
        Err(_) => Vec::new(),
    }
}

/// Appends the selective acks: their number, then each in increasing order.
fn put_sel(out: Vec<u8>, sel: &BTreeSet<SeqNum>) -> (res: Vec<u8>)
    requires
        out@.len() + varint(sel@.len()).len() + u32s_bytes(sorted_elems(sel@)).len() <= usize::MAX,
    ensures
        res@ == out@ + varint(sel@.len()) + u32s_bytes(sorted_elems(sel@)),
{
    proof {
        lemma_btree_set_listing(sel);
    }
    let n = sel.len();
    let mut out = put_len(out, n);
    let ghost prefix = out@;
    let ghost all = sorted_elems(sel@);
    for x in it: sel.iter()
        invariant
            it.seq().unref() == all,
            out@ == prefix + u32s_bytes(all.take(it.index())),
            prefix.len() + u32s_bytes(all).len() <= usize::MAX,
    {
        proof {
            let i = it.index();
            assert(all.take(i + 1).drop_last() =~= all.take(i));
            assert(all.take(i + 1).last() == *x);
            lemma_u32s_bytes_prefix_len(all, i + 1);
        }
        out = put_u32(out, *x);
    }
    proof {
        assert(all.take(all.len() as int) =~= all);
    }
    out
}


/// The set of the elements of `v`.
fn set_of(v: &Vec<SeqNum>) -> (s: BTreeSet<SeqNum>)
    ensures
        s@ == v@.to_set(),
{
    let mut s: BTreeSet<SeqNum> = BTreeSet::new();
    for i in 0..v.len()
        invariant
            s@ == v@.take(i as int).to_set(),
    {
        proof {
            assert(v@.take(i + 1) =~= v@.take(i as int).push(v@[i as int]));
            v@.take(i as int).lemma_push_to_set_commute(v@[i as int]);
        }
        s.insert(v[i]);
    }
    proof {
        assert(v@.take(v@.len() as int) =~= v@);
    }
    s
}

impl Packet {
    /// The packet's bytes on the wire.
    pub fn to_bytes(&self) -> (bytes: Vec<u8>)
        requires
            encode_packet(self@).len() <= usize::MAX,
        ensures
            bytes@ == encode_packet(self@),
            bytes@[varint(self.seq as nat).len() as int] as nat == variant_index(self.value@),
    {
        proof {
            lemma_packet_tag(self@);
        }
        let out = put_u32(Vec::new(), self.seq);
        assert(out@ == varint(self.seq as nat));
        match &self.value {
            PacketValue::Start => put_u32(out, 0),
            PacketValue::Data { data, window } => {
                let out = put_u32(out, 1);
                let out = put_bytes(out, data.as_slice());
                put_u32(out, *window)
            },
            PacketValue::Ack(a) => {
                let out = put_u32(out, 2);
                let out = put_u32(out, a.cum);
                let out = put_sel(out, &a.sel);
                put_u32(out, a.adv_win)
            },
            PacketValue::Fin => put_u32(out, 3),
        }
    }

    /// Reads one packet from the front of `s`, returning it with the bytes
    /// that follow; `None` where the bytes do not start with a packet.
    pub fn take_from_bytes(s: &[u8]) -> (res: Option<(Packet, &[u8])>)
        ensures
            match res {
                Some((p, rest)) => decode_packet(s@) == Some((p@, rest@)),
                None => decode_packet(s@) is None,
            },
    {
        let (seq, rest) = match take_u32(s) {
            Some(x) => x,
            None => return None,
        };
        let (tag, rest) = match take_u32(rest) {
            Some(x) => x,
            None => return None,
        };
        if tag == 0 {
            Some((Packet { seq, value: PacketValue::Start }, rest))
        } else if tag == 1 {
            let (data, r1) = match take_bytes(rest) {
                Some(x) => x,
                None => return None,
            };
            let (window, r2) = match take_u32(r1) {
                Some(x) => x,
                None => return None,
            };
            Some((Packet { seq, value: PacketValue::Data { data: FileData(data), window } }, r2))
        } else if tag == 2 {
            let (cum, r1) = match take_u32(rest) {
                Some(x) => x,
                None => return None,
            };
            let (sel, r2) = match take_u32_vec(r1) {
                Some(x) => x,
                None => return None,
            };
            let (adv_win, r3) = match take_u32(r2) {
                Some(x) => x,
                None => return None,
            };
            let sel = set_of(&sel);
            Some((Packet { seq, value: PacketValue::Ack(Ack { cum, sel, adv_win }) }, r3))
        } else if tag == 3 {
            Some((Packet { seq, value: PacketValue::Fin }, rest))
        } else {
            None
        }
    }
}


/// Reading back the bytes of a data value gives it back.
proof fn lemma_data_roundtrip(data: Seq<u8>, window: SeqNum, rest: Seq<u8>)
    requires
        data.len() <= usize::MAX,
    ensures
        decode_value(encode_value(ValueModel::Data { data, window }) + rest) == Some(
            (ValueModel::Data { data, window }, rest),
        ),
{
    let t3 = varint(window as nat) + rest;
    let t2 = data + t3;
    let t1 = varint(data.len()) + t2;
    assert(encode_value(ValueModel::Data { data, window }) + rest =~= varint(1) + t1);
    lemma_u32_varint_roundtrip(1, t1);
    lemma_len_varint_roundtrip(data.len() as usize, t2);
    assert(t2.take(data.len() as int) =~= data);
    assert(t2.skip(data.len() as int) =~= t3);
    lemma_u32_varint_roundtrip(window, rest);
}

/// Reading back the bytes of an ack gives it back.
proof fn lemma_ack_roundtrip(a: AckModel, rest: Seq<u8>)
    requires
        a.sel.finite(),
        a.sel.len() <= usize::MAX,
    ensures
        decode_value(encode_value(ValueModel::Ack(a)) + rest) == Some((ValueModel::Ack(a), rest)),
{
    lemma_sorted_elems(a.sel);
    let q = sorted_elems(a.sel);
    let t3 = varint(a.adv_win as nat) + rest;
    let t2 = varint(a.sel.len()) + u32s_bytes(q) + t3;
    let t1 = varint(a.cum as nat) + t2;
    assert(encode_value(ValueModel::Ack(a)) + rest =~= varint(2) + t1);
    lemma_u32_varint_roundtrip(2, t1);
    lemma_u32_varint_roundtrip(a.cum, t2);
    assert(t2 =~= varint(a.sel.len()) + (u32s_bytes(q) + t3));
    lemma_len_varint_roundtrip(a.sel.len() as usize, u32s_bytes(q) + t3);
    lemma_u32s_roundtrip(q, t3);
    lemma_u32_varint_roundtrip(a.adv_win, rest);
}

/// Reading back the bytes of a value gives the value, and leaves what follows.
pub proof fn lemma_value_roundtrip(v: ValueModel, rest: Seq<u8>)
    requires
        value_encodable(v),
    ensures
        decode_value(encode_value(v) + rest) == Some((v, rest)),
{
    match v {
        ValueModel::Start => {
            lemma_u32_varint_roundtrip(0, rest);
        },
        ValueModel::Data { data, window } => {
            lemma_data_roundtrip(data, window, rest);
        },
        ValueModel::Ack(a) => {
            lemma_ack_roundtrip(a, rest);
        },
        ValueModel::Fin => {
            lemma_u32_varint_roundtrip(3, rest);
        },
    }
}

/// Reading back the bytes of a packet gives the packet, and leaves what
/// follows: what a receiver reads is what the sender wrote.
pub proof fn lemma_packet_roundtrip(p: PacketModel, rest: Seq<u8>)
    requires
        value_encodable(p.value),
    ensures
        decode_packet(encode_packet(p) + rest) == Some((p, rest)),
{
    let vb = encode_value(p.value);
    assert(encode_packet(p) + rest =~= varint(p.seq as nat) + (vb + rest));
    lemma_u32_varint_roundtrip(p.seq, vb + rest);
    lemma_value_roundtrip(p.value, rest);
}


/// The bytes of a value start with the index of its variant, in one byte,
/// whatever its fields hold.
pub proof fn lemma_value_tag(v: ValueModel)
    ensures
        encode_value(v).len() >= 1,
        encode_value(v)[0] as nat == variant_index(v),
{
    assert(varint(0) == seq![0u8]);
    assert(varint(1) == seq![1u8]);
    assert(varint(2) == seq![2u8]);
    assert(varint(3) == seq![3u8]);
}

/// In the bytes of a packet, the byte after its sequence number is the index
/// of its value's variant.
pub proof fn lemma_packet_tag(p: PacketModel)
    ensures
        encode_packet(p).len() > varint(p.seq as nat).len(),
        encode_packet(p)[varint(p.seq as nat).len() as int] as nat == variant_index(p.value),
{
    lemma_value_tag(p.value);
    let k = varint(p.seq as nat).len() as int;
    assert(encode_packet(p)[k] == encode_value(p.value)[0]);
}

/// A value is read back only under the tag of its own variant: bytes that
/// start with a tag past the last variant hold no value.
pub proof fn lemma_decode_tag(bytes: Seq<u8>)
    ensures
        decode_value(bytes) matches Some((v, r)) ==> (take_u32_spec(bytes) matches Some((t, r0))
            && t as nat == variant_index(v)),
        take_u32_spec(bytes) matches Some((t, r0)) && t as nat > 3 ==> decode_value(bytes) is None,
{
}

/// Reading a packet consumes bytes.
pub proof fn lemma_decode_consumes(bytes: Seq<u8>)
    ensures
        decode_packet(bytes) matches Some((p, r)) ==> r.len() < bytes.len(),
{
    lemma_takes_consume(bytes);
    if let Some((seq, rest)) = take_u32_spec(bytes) {
        lemma_takes_consume(rest);
        if let Some((tag, r0)) = take_u32_spec(rest) {
            lemma_takes_consume(r0);
            if let Some((x, r1)) = take_bytes_spec(r0) {
                lemma_takes_consume(r1);
            }
            if let Some((x, r1)) = take_u32_spec(r0) {
                lemma_takes_consume(r1);
                if let Some((y, r2)) = take_u32_vec_spec(r1) {
                    lemma_takes_consume(r2);
                }
            }
        }
    }
}

/// Reads packets one after the other from the front of `bytes` until the
/// bytes left do not start with one: the packets, and the bytes left.
pub open spec fn parse_all(bytes: Seq<u8>) -> (Seq<PacketModel>, Seq<u8>)
    decreases bytes.len(),
{
    match decode_packet(bytes) {
        Some((p, rest)) => {
            proof {
                lemma_decode_consumes(bytes);
            }
            let (ps, left) = parse_all(rest);
            (seq![p] + ps, left)
        },
        None => (Seq::empty(), bytes),
    }
}

/// `sorted` with `p` inserted after the last element whose sequence number
/// is at most that of `p`.
pub open spec fn insert_by_seq(sorted: Seq<PacketModel>, p: PacketModel) -> Seq<PacketModel>
    decreases sorted.len(),
{
    if sorted.len() == 0 {
        seq![p]
    } else if sorted.last().seq <= p.seq {
        sorted.push(p)
    } else {
        insert_by_seq(sorted.drop_last(), p).push(sorted.last())
    }
}

/// The packets ordered by sequence number, those with equal numbers in the
/// order they came in.
pub open spec fn sort_by_seq(ps: Seq<PacketModel>) -> Seq<PacketModel>
    decreases ps.len(),
{
    if ps.len() == 0 {
        Seq::empty()
    } else {
        insert_by_seq(sort_by_seq(ps.drop_last()), ps.last())
    }
}

/// The abstract values of a list of packets.
pub open spec fn models(ps: Seq<Packet>) -> Seq<PacketModel> {
    ps.map_values(|p: Packet| p@)
}

/// Inserts `p` into `v` where [`insert_by_seq`] puts it.
fn insert_packet(v: &mut Vec<Packet>, p: Packet)
    ensures
        models(final(v)@) == insert_by_seq(models(old(v)@), p@),
{
    let ghost m = models(v@);
    let mut j = v.len();
    proof {
        assert(m.take(j as int) =~= m);
        assert(insert_by_seq(m, p@) + m.skip(j as int) =~= insert_by_seq(m, p@));
    }
    while j > 0 && v[j - 1].seq > p.seq
        invariant
            j <= v.len(),
            models(v@) == m,
            insert_by_seq(m, p@) == insert_by_seq(m.take(j as int), p@) + m.skip(j as int),
        decreases j,
    {
        proof {
            let t = m.take(j as int);
            assert(t.last() == m[j - 1]);
            assert(t.drop_last() =~= m.take(j - 1));
            assert(m.skip(j - 1) =~= seq![m[j - 1]] + m.skip(j as int));
            assert(insert_by_seq(t, p@) == insert_by_seq(t.drop_last(), p@).push(t.last()));
            assert(insert_by_seq(t.drop_last(), p@).push(t.last()) + m.skip(j as int)
                =~= insert_by_seq(t.drop_last(), p@) + m.skip(j - 1));
        }
        j = j - 1;
    }
    proof {
        let t = m.take(j as int);
        if j > 0 {
            assert(t.last() == m[j - 1]);
        }
        assert(insert_by_seq(t, p@) =~= t.push(p@));
    }
    v.insert(j, p);
    proof {
        assert(models(v@) =~= m.take(j as int).push(p@) + m.skip(j as int));
    }
}

impl Packet {
    /// Converts a window of net bytes to a list of packets: reads packets
    /// until the bytes left do not start with one, and orders them by
    /// sequence number. Returns them with the bytes left.
    pub fn from_bytes(buffer: &[u8]) -> (res: (Vec<Packet>, &[u8]))
        ensures
            models(res.0@) == sort_by_seq(parse_all(buffer@).0),
            res.1@ == parse_all(buffer@).1,
            seq_ordered(models(res.0@)),
            models(res.0@).to_multiset() == parse_all(buffer@).0.to_multiset(),
            forall|k: SeqNum|
                #[trigger] models(res.0@).filter(has_seq(k)) == parse_all(buffer@).0.filter(
                    has_seq(k),
                ),
    {
        proof {
            lemma_sort_by_seq(parse_all(buffer@).0);
            assert forall|k: SeqNum|
                #[trigger] sort_by_seq(parse_all(buffer@).0).filter(has_seq(k)) == parse_all(
                    buffer@,
                ).0.filter(has_seq(k)) by {
                lemma_sort_by_seq_stable(parse_all(buffer@).0, k);
            }
        }
        let mut read: Vec<Packet> = Vec::new();
        let mut buf = buffer;
        loop
            invariant
                parse_all(buffer@) == (models(read@) + parse_all(buf@).0, parse_all(buf@).1),
            ensures
                parse_all(buffer@) == (models(read@), buf@),
            decreases buf@.len(),
        {
            match Packet::take_from_bytes(buf) {
                Some((p, rest)) => {
                    proof {
                        lemma_decode_consumes(buf@);
                        assert(models(read@.push(p)) =~= models(read@).push(p@));
                        assert(models(read@) + parse_all(buf@).0 =~= models(read@).push(p@) + parse_all(rest@).0);
                    }
                    read.push(p);
                    buf = rest;
                },
                None => {
                    proof {
                        assert(models(read@) + Seq::<PacketModel>::empty() =~= models(read@));
                    }
                    break ;
                },
            }
        }
        let mut out: Vec<Packet> = Vec::new();
        let ghost packets = read@;
        for p in it: read
            invariant
                it.seq() == packets,
                models(out@) == sort_by_seq(models(packets.take(it.index()))),
                it.index() == packets.len() ==> models(out@) == sort_by_seq(models(packets)),
        {
            proof {
                let i = it.index();
                assert(models(packets.take(i + 1)).drop_last() =~= models(packets.take(i)));
                assert(models(packets.take(i + 1)).last() == p@);
                if i + 1 == packets.len() {
                    assert(packets.take(i + 1) =~= packets);
                }
            }
            insert_packet(&mut out, p);
        }
        proof {
            if packets.len() == 0 {
                assert(models(packets) =~= Seq::<PacketModel>::empty());
            }
        }
        (out, buf)
    }
}


/// The bytes of a list of packets written one after the other.
pub open spec fn encode_all(ps: Seq<PacketModel>) -> Seq<u8>
    decreases ps.len(),
{
    if ps.len() == 0 {
        Seq::empty()
    } else {
        encode_packet(ps[0]) + encode_all(ps.drop_first())
    }
}

/// Reading a run of written packets gives those packets back, then goes on
/// with what follows them.
pub proof fn lemma_parse_all_encoded(ps: Seq<PacketModel>, rest: Seq<u8>)
    requires
        forall|i: int| 0 <= i < ps.len() ==> value_encodable(#[trigger] ps[i].value),
    ensures
        parse_all(encode_all(ps) + rest) == (ps + parse_all(rest).0, parse_all(rest).1),
    decreases ps.len(),
{
    if ps.len() == 0 {
        assert(encode_all(ps) + rest =~= rest);
        assert(ps + parse_all(rest).0 =~= parse_all(rest).0);
    } else {
        let t = ps.drop_first();
        assert(value_encodable(ps[0].value));
        assert forall|i: int| 0 <= i < t.len() implies value_encodable(#[trigger] t[i].value) by {
            assert(t[i] == ps[i + 1]);
        }
        lemma_parse_all_encoded(t, rest);
        let b = encode_all(ps) + rest;
        assert(b =~= encode_packet(ps[0]) + (encode_all(t) + rest));
        lemma_packet_roundtrip(ps[0], encode_all(t) + rest);
        assert(ps =~= seq![ps[0]] + t);
        assert(seq![ps[0]] + (t + parse_all(rest).0) =~= ps + parse_all(rest).0);
    }
}

/// Ordered by sequence number.
pub open spec fn seq_ordered(ps: Seq<PacketModel>) -> bool {
    forall|i: int, j: int| 0 <= i < j < ps.len() ==> ps[i].seq <= ps[j].seq
}

/// Inserting a packet into an ordered list keeps it ordered and adds just that packet.
pub proof fn lemma_insert_by_seq(s: Seq<PacketModel>, p: PacketModel)
    requires
        seq_ordered(s),
    ensures
        seq_ordered(insert_by_seq(s, p)),
        insert_by_seq(s, p).to_multiset() == s.to_multiset().insert(p),
        insert_by_seq(s, p).len() == s.len() + 1,
        forall|i: int|
            0 <= i < insert_by_seq(s, p).len() ==> #[trigger] insert_by_seq(s, p)[i] == p
                || s.contains(insert_by_seq(s, p)[i]),
    decreases s.len(),
{
    broadcast use vstd::seq_lib::group_to_multiset_ensures;

    if s.len() == 0 {
        assert(seq![p] =~= s.push(p));
    } else if s.last().seq <= p.seq {
    } else {
        let init = s.drop_last();
        assert(seq_ordered(init));
        lemma_insert_by_seq(init, p);
        let r = insert_by_seq(init, p);
        assert(s =~= init.push(s.last()));
        assert forall|i: int| 0 <= i < r.len() implies #[trigger] r[i].seq <= s.last().seq by {
            if r[i] != p {
                let k = choose|k: int| 0 <= k < init.len() && init[k] == r[i];
                assert(s[k] == r[i]);
            }
        }
        assert forall|i: int| 0 <= i < r.push(s.last()).len() implies #[trigger] r.push(
            s.last(),
        )[i] == p || s.contains(r.push(s.last())[i]) by {
            if i < r.len() && r[i] != p {
                let k = choose|k: int| 0 <= k < init.len() && init[k] == r[i];
                assert(s[k] == r[i]);
            }
            if i == r.len() {
                assert(s[s.len() - 1] == s.last());
            }
        }
    }
}

/// Sorting orders the packets by sequence number and neither adds nor drops one.
pub proof fn lemma_sort_by_seq(ps: Seq<PacketModel>)
    ensures
        seq_ordered(sort_by_seq(ps)),
        sort_by_seq(ps).to_multiset() == ps.to_multiset(),
    decreases ps.len(),
{
    broadcast use vstd::seq_lib::group_to_multiset_ensures;

    if ps.len() == 0 {
    } else {
        lemma_sort_by_seq(ps.drop_last());
        lemma_insert_by_seq(sort_by_seq(ps.drop_last()), ps.last());
        assert(ps =~= ps.drop_last().push(ps.last()));
    }
}


/// A packet whose sequence number is `k`.
pub open spec fn has_seq(k: SeqNum) -> spec_fn(PacketModel) -> bool {
    |p: PacketModel| p.seq == k
}

/// Inserting a packet puts it after every packet with its sequence number and
/// moves no other packet past another.
pub proof fn lemma_insert_by_seq_stable(s: Seq<PacketModel>, p: PacketModel, k: SeqNum)
    ensures
        insert_by_seq(s, p).filter(has_seq(k)) == if p.seq == k {
            s.filter(has_seq(k)).push(p)
        } else {
            s.filter(has_seq(k))
        },
    decreases s.len(),
{
    if s.len() == 0 {
        Seq::<PacketModel>::empty().lemma_filter_push(p, has_seq(k));
        assert(seq![p] =~= Seq::<PacketModel>::empty().push(p));
        assert(Seq::<PacketModel>::empty().filter(has_seq(k)) =~= Seq::<PacketModel>::empty());
    } else if s.last().seq <= p.seq {
        s.lemma_filter_push(p, has_seq(k));
    } else {
        let init = s.drop_last();
        lemma_insert_by_seq_stable(init, p, k);
        insert_by_seq(init, p).lemma_filter_push(s.last(), has_seq(k));
        init.lemma_filter_push(s.last(), has_seq(k));
        assert(init.push(s.last()) =~= s);
    }
}

/// Sorting keeps, for each sequence number, the packets with it in the order
/// they came in.
pub proof fn lemma_sort_by_seq_stable(ps: Seq<PacketModel>, k: SeqNum)
    ensures
        sort_by_seq(ps).filter(has_seq(k)) == ps.filter(has_seq(k)),
    decreases ps.len(),
{
    if ps.len() == 0 {
    } else {
        let init = ps.drop_last();
        lemma_sort_by_seq_stable(init, k);
        lemma_insert_by_seq_stable(sort_by_seq(init), ps.last(), k);
        init.lemma_filter_push(ps.last(), has_seq(k));
        assert(init.push(ps.last()) =~= ps);
    }
}

} // verus!
