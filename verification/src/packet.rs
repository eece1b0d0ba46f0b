//! Packets: a sequence number with a value.
use vstd::prelude::*;

use vstd::layout::size_of;

use crate::codec::{encode_packet, models, value_encodable};
use crate::error::JapError;
use crate::order::lemma_btree_set_listing;
use crate::value::{FileData, PacketValue, ValueModel};
use crate::wire::{
    lemma_len_varint_roundtrip, lemma_sorted_elems, lemma_u32_varint_roundtrip,
    lemma_u32s_bytes_len, sorted_elems, varint,
};
use crate::{SeqNum, MTU};

verus! {

/// container with a sequence number for the data
#[derive(Debug, PartialEq, Eq)]
pub struct Packet {
    pub seq: SeqNum,
    pub value: PacketValue,
}

/// The abstract value of a [`Packet`].
pub struct PacketModel {
    pub seq: SeqNum,
    pub value: ValueModel,
}

impl View for Packet {
    type V = PacketModel;

    open spec fn view(&self) -> PacketModel {
        PacketModel { seq: self.seq, value: self.value@ }
    }
}

impl Clone for Packet {
    fn clone(&self) -> (res: Self)
        ensures
            res@ == self@,
    {
        Packet { seq: self.seq, value: self.value.clone() }
    }
}

/// The varint of a `u32` takes at most five bytes, that of a `usize` at most ten.
proof fn lemma_varint_lens(x: u32, n: usize)
    ensures
        1 <= varint(x as nat).len() <= 5,
        1 <= varint(n as nat).len() <= 10,
{
    lemma_u32_varint_roundtrip(x, Seq::empty());
    lemma_len_varint_roundtrip(n, Seq::empty());
}

/// Bounds on the length of a packet's bytes.
proof fn lemma_encode_len(p: PacketModel)
    requires
        value_encodable(p.value),
    ensures
        encode_packet(p).len() >= 2,
        match p.value {
            ValueModel::Data { data, .. } => data.len() + 3 <= encode_packet(p).len() <= data.len() + 21,
            ValueModel::Ack(a) => a.sel.len() + 4 <= encode_packet(p).len() <= 5 * a.sel.len() + 30,
            _ => encode_packet(p).len() <= 6,
        },
{
    lemma_varint_lens(p.seq, 0);
    match p.value {
        ValueModel::Start => lemma_varint_lens(0, 0),
        ValueModel::Data { data, window } => {
            lemma_varint_lens(1, data.len() as usize);
            lemma_varint_lens(window, 0);
        },
        ValueModel::Ack(a) => {
            lemma_varint_lens(2, a.sel.len() as usize);
            lemma_varint_lens(a.cum, 0);
            lemma_varint_lens(a.adv_win, 0);
            lemma_sorted_elems(a.sel);
            lemma_u32s_bytes_len(sorted_elems(a.sel));
        },
        ValueModel::Fin => lemma_varint_lens(3, 0),
    }
}

/// The sequence number `k` places after `start`, wrapping around.
pub open spec fn seq_after(start: SeqNum, k: nat) -> SeqNum {
    ((start + k) % 0x1_0000_0000) as SeqNum
}

/// `d` cut into consecutive pieces of `seg` bytes, the last one possibly shorter.
pub open spec fn chunks(d: Seq<u8>, seg: nat) -> Seq<Seq<u8>>
    decreases d.len(),
    when seg > 0
{
    if d.len() == 0 {
        Seq::empty()
    } else if d.len() <= seg {
        seq![d]
    } else {
        seq![d.take(seg as int)] + chunks(d.skip(seg as int), seg)
    }
}

/// The data packets that carry the pieces of `d`, numbered from the one after `seq`.
pub open spec fn fragments(seq: SeqNum, d: Seq<u8>, seg: nat, window: SeqNum) -> Seq<PacketModel> {
    chunks(d, seg).map(
        |i: int, c: Seq<u8>|
            PacketModel {
                seq: seq_after(seq, (i + 1) as nat),
                value: ValueModel::Data { data: c, window },
            },
    )
}

/// The data that a list of data packets carries, concatenated in order.
pub open spec fn payloads(ps: Seq<PacketModel>) -> Seq<u8> {
    ps.map_values(|p: PacketModel| p.value->data).flatten()
}

/// The room a fragment leaves for data: the MTU less the in-memory size of a packet.
pub open spec fn max_segment_size_spec() -> nat {
    if size_of::<Packet>() <= MTU {
        (MTU - size_of::<Packet>()) as nat
    } else {
        0
    }
}

/// What fragmenting `p` gives: `p` alone where its bytes fit the MTU; else, for
/// a data packet, the packets carrying the pieces of its data (with `window`)
/// and the last sequence number used.
pub open spec fn fragment_spec(p: PacketModel, window: SeqNum) -> Result<
    (Seq<PacketModel>, SeqNum),
    JapError,
> {
    if encode_packet(p).len() <= MTU {
        Ok((seq![p], p.seq))
    } else {
        match p.value {
            ValueModel::Data { data, .. } => if max_segment_size_spec() == 0 {
                Err(JapError::NoRoomForData)
            } else {
                Ok(
                    (
                        fragments(p.seq, data, max_segment_size_spec(), window),
                        seq_after(p.seq, chunks(data, max_segment_size_spec()).len()),
                    ),
                )
            },
            _ => Err(JapError::NonDataExceedsMtu),
        }
    }
}

/// A packet whose bytes fit the MTU is its own only fragment and keeps its
/// sequence number, whatever window the fragments would advertise; one that
/// does not fit is never handed back whole.
pub proof fn lemma_fragment_fits(p: PacketModel, window: SeqNum)
    ensures
        encode_packet(p).len() <= MTU ==> fragment_spec(p, window) == Ok::<
            (Seq<PacketModel>, SeqNum),
            JapError,
        >((seq![p], p.seq)),
        encode_packet(p).len() > MTU && !(p.value is Data) ==> fragment_spec(p, window) == Err::<
            (Seq<PacketModel>, SeqNum),
            JapError,
        >(JapError::NonDataExceedsMtu),
{
}

/// Cutting data into pieces loses and reorders nothing: the pieces, put back
/// together in order, are the data; each piece holds between one and `seg` bytes.
pub proof fn lemma_chunks(d: Seq<u8>, seg: nat)
    requires
        seg > 0,
    ensures
        chunks(d, seg).flatten() == d,
        forall|i: int|
            0 <= i < chunks(d, seg).len() ==> 0 < #[trigger] chunks(d, seg)[i].len() <= seg,
    decreases d.len(),
{
    if d.len() == 0 {
    } else if d.len() <= seg {
        assert(chunks(d, seg).drop_first() =~= Seq::<Seq<u8>>::empty());
        assert(Seq::<Seq<u8>>::empty().flatten() == Seq::<u8>::empty());
        assert(chunks(d, seg).first() == d);
        assert(chunks(d, seg).flatten() =~= d);
    } else {
        lemma_chunks(d.skip(seg as int), seg);
        let c = chunks(d, seg);
        assert(c.drop_first() =~= chunks(d.skip(seg as int), seg));
        assert(c.flatten() =~= d);
        assert forall|i: int| 0 <= i < c.len() implies 0 < #[trigger] c[i].len() <= seg by {
            if i > 0 {
                assert(c[i] == chunks(d.skip(seg as int), seg)[i - 1]);
            }
        }
    }
}

/// The fragments of a data packet carry its data, in order, in pieces of at
/// most `seg` bytes, under consecutive sequence numbers from the one after
/// `seq`, each advertising `window`; each one's bytes exceed its piece by at
/// most 21 bytes, so all fit the MTU where `seg + 21` does.
pub proof fn lemma_fragments(seq: SeqNum, d: Seq<u8>, seg: nat, window: SeqNum)
    requires
        seg > 0,
        d.len() <= usize::MAX,
    ensures
        payloads(fragments(seq, d, seg, window)) == d,
        forall|i: int|
            #![trigger fragments(seq, d, seg, window)[i]]
            0 <= i < fragments(seq, d, seg, window).len() ==> {
                let p = fragments(seq, d, seg, window)[i];
                &&& p.seq == seq_after(seq, (i + 1) as nat)
                &&& p.value matches ValueModel::Data { data, window: w } && w == window
                    && 0 < data.len() <= seg
                &&& encode_packet(p).len() <= seg + 21
                &&& seg + 21 <= MTU ==> encode_packet(p).len() <= MTU
            },
{
    lemma_chunks(d, seg);
    let f = fragments(seq, d, seg, window);
    assert(f.map_values(|p: PacketModel| p.value->data) =~= chunks(d, seg));
    assert forall|i: int| #![trigger f[i]] 0 <= i < f.len() implies encode_packet(f[i]).len() <= seg + 21 by {
        assert(chunks(d, seg)[i].len() <= seg);
        assert(chunks(d, seg)[i].len() <= d.len()) by {
            lemma_chunks_within(d, seg, i);
        }
        lemma_encode_len(f[i]);
    }
}

/// Each piece is no longer than the data it was cut from.
proof fn lemma_chunks_within(d: Seq<u8>, seg: nat, i: int)
    requires
        seg > 0,
        0 <= i < chunks(d, seg).len(),
    ensures
        chunks(d, seg)[i].len() <= d.len(),
    decreases d.len(),
{
    if d.len() > seg && i > 0 {
        lemma_chunks_within(d.skip(seg as int), seg, i - 1);
    }
}

/// A copy of `d[from..to]`.
fn copy_range(d: &Vec<u8>, from: usize, to: usize) -> (res: Vec<u8>)
    requires
        from <= to <= d@.len(),
    ensures
        res@ == d@.subrange(from as int, to as int),
{
    let mut res: Vec<u8> = Vec::new();
    let mut i = from;
    while i < to
        invariant
            from <= i <= to <= d@.len(),
            res@ == d@.subrange(from as int, i as int),
        decreases to - i,
    {
        res.push(d[i]);
        i = i + 1;
        proof {
            assert(res@ =~= d@.subrange(from as int, i as int));
        }
    }
    res
}

impl Packet {
    /// Initializes a set of fragmented data packets, numbered from `*seq`;
    /// leaves `*seq` at the last number used.
    pub fn data(seq: &mut SeqNum, data: Vec<u8>, window: SeqNum) -> (res: Result<Vec<Packet>, JapError>)
        ensures
            match fragment_spec(
                PacketModel {
                    seq: *old(seq),
                    value: ValueModel::Data { data: data@, window: 1 },
                },
                window,
            ) {
                Ok((ps, last)) => res matches Ok(v) && models(v@) == ps && *final(seq) == last,
                Err(e) => res matches Err(e2) && e2 == e && *final(seq) == *old(seq),
            },
            res matches Ok(v) ==> payloads(models(v@)) == data@,
            encode_packet(
                PacketModel { seq: *old(seq), value: ValueModel::Data { data: data@, window: 1 } },
            ).len() <= MTU ==> (res matches Ok(v) && models(v@) == seq![
                (PacketModel { seq: *old(seq), value: ValueModel::Data { data: data@, window: 1 } }),
            ] && *final(seq) == *old(seq)),
    {
        proof {
            let ps = seq![PacketModel { seq: *old(seq), value: ValueModel::Data { data: data@, window: 1 } }];
            assert(ps.map_values(|p: PacketModel| p.value->data).drop_first() =~= Seq::<Seq<u8>>::empty());
            assert(Seq::<Seq<u8>>::empty().flatten() == Seq::<u8>::empty());
            assert(payloads(ps) =~= data@);
            assert(data.len() == data@.len());
            if max_segment_size_spec() > 0 {
                lemma_fragments(*old(seq), data@, max_segment_size_spec(), window);
            }
        }
        let first = Self { seq: *seq, value: PacketValue::Data { data: FileData(data), window: 1 } };
        let (out, new_seq_start) = match first.fragment(window) {
            Ok(x) => x,
            Err(e) => return Err(e),
        };
        *seq = new_seq_start;
        Ok(out)
    }

    /// The packet that ends a transfer, numbered after `*seq` (sequence
    /// numbers wrap around); advances `*seq` to it.
    pub fn fin(seq: &mut SeqNum) -> (p: Self)
        ensures
            *final(seq) == seq_after(*old(seq), 1),
            p@ == (PacketModel { seq: *final(seq), value: ValueModel::Fin }),
    {
        *seq = seq.wrapping_add(1);
        Self { seq: *seq, value: PacketValue::Fin }
    }

    /// The size of the MTU that can be dedicated to data.
    pub fn max_segment_size() -> (n: usize)
        ensures
            n == max_segment_size_spec(),
    {
        let size = core::mem::size_of::<Packet>();
        if size <= MTU {
            MTU - size
        } else {
            0
        }
    }

    /// Whether the packet's bytes fit the MTU.
    pub fn fits_mtu(&self) -> (fits: bool)
        ensures
            fits == (encode_packet(self@).len() <= MTU),
    {
        match &self.value {
            PacketValue::Data { data, .. } => {
                if data.len() > MTU {
                    proof {
                        lemma_encode_len(self@);
                    }
                    return false;
                }
            },
            PacketValue::Ack(a) => {
                proof {
                    lemma_btree_set_listing(&a.sel);
                }
                if a.sel.len() > MTU {
                    proof {
                        lemma_encode_len(self@);
                    }
                    return false;
                }
            },
            _ => {},
        }
        proof {
            lemma_encode_len(self@);
        }
        let bytes = self.to_bytes();
        bytes.len() <= MTU
    }

    /// The packet's bytes for one datagram; an error where they exceed the MTU.
    pub fn to_datagram(&self) -> (res: Result<Vec<u8>, JapError>)
        ensures
            encode_packet(self@).len() <= MTU ==> (res matches Ok(b) && b@ == encode_packet(self@)),
            encode_packet(self@).len() > MTU ==> res == Err::<Vec<u8>, JapError>(JapError::ExceedsMtu),
    {
        if self.fits_mtu() {
            Ok(self.to_bytes())
        } else {
            Err(JapError::ExceedsMtu)
        }
    }

    /// Checks the size of the serialized packet in bytes and fragments it
    /// accordingly. Returns the list of fragments alongside the last
    /// sequence number.
    pub fn fragment(self, window: SeqNum) -> (res: Result<(Vec<Packet>, SeqNum), JapError>)
        ensures
            match fragment_spec(self@, window) {
                Ok((ps, last)) => res matches Ok((v, l)) && models(v@) == ps && l == last,
                Err(e) => res matches Err(e2) && e2 == e,
            },
            encode_packet(self@).len() <= MTU ==> (res matches Ok((v, l)) && models(v@) == seq![self@]
                && l == self.seq),
    {
        if self.fits_mtu() {
            let seq = self.seq;
            let ghost m = self@;
            let mut v: Vec<Packet> = Vec::new();
            v.push(self);
            proof {
                assert(models(v@) =~= seq![m]);
            }
            return Ok((v, seq));
        }
        let original = match self.value {
            PacketValue::Data { data, .. } => data,
            _ => return Err(JapError::NonDataExceedsMtu),
        };
        let seg = Packet::max_segment_size();
        if seg == 0 {
            return Err(JapError::NoRoomForData);
        }
        let bytes = original.0;
        let ghost d = bytes@;
        let mut out: Vec<Packet> = Vec::new();
        let mut seq = self.seq;
        let mut next_seq = seq.wrapping_add(1);
        let mut off: usize = 0;
        proof {
            assert(d.skip(0) =~= d);
            assert(chunks(d, seg as nat).take(0) + chunks(d, seg as nat) =~= chunks(d, seg as nat));
            assert(models(out@) =~= fragments(self.seq, d, seg as nat, window).take(0));
        }
        while off < bytes.len()
            invariant
                off <= bytes@.len(),
                bytes@ == d,
                out@.len() <= chunks(d, seg as nat).len(),
                seg == max_segment_size_spec(),
                seg > 0,
                chunks(d, seg as nat) == chunks(d, seg as nat).take(out@.len() as int) + chunks(
                    d.skip(off as int),
                    seg as nat,
                ),
                models(out@) == fragments(self.seq, d, seg as nat, window).take(out@.len() as int),
                seq == seq_after(self.seq, out@.len() as nat),
                next_seq == seq_after(self.seq, (out@.len() + 1) as nat),
            decreases bytes@.len() - off,
        {
            let end = if bytes.len() - off > seg {
                off + seg
            } else {
                bytes.len()
            };
            let segment = copy_range(&bytes, off, end);
            let ghost rest = d.skip(off as int);
            let ghost k = out@.len() as int;
            proof {
                if rest.len() <= seg {
                    assert(chunks(rest, seg as nat) == seq![rest]);
                    assert(segment@ =~= rest);
                } else {
                    assert(segment@ =~= rest.take(seg as int));
                    assert(d.skip(end as int) =~= rest.skip(seg as int));
                }
            }
            out.push(
                Packet { seq: next_seq, value: PacketValue::Data { data: FileData(segment), window } },
            );
            seq = next_seq;
            next_seq = next_seq.wrapping_add(1);
            off = end;
            proof {
                let c = segment@;
                let all = chunks(d, seg as nat);
                assert(chunks(rest, seg as nat) =~= seq![c] + chunks(d.skip(off as int), seg as nat)) by {
                    if rest.len() <= seg {
                        assert(d.skip(off as int).len() == 0);
                        assert(chunks(d.skip(off as int), seg as nat) =~= Seq::<Seq<u8>>::empty());
                    }
                }
                assert(all[k] == c);
                assert(all.take(k + 1) =~= all.take(k).push(c));
                assert(all =~= all.take(k + 1) + chunks(d.skip(off as int), seg as nat));
                assert(fragments(self.seq, d, seg as nat, window)[k] == PacketModel {
                    seq: seq_after(self.seq, (k + 1) as nat),
                    value: ValueModel::Data { data: c, window },
                });
                assert(models(out@) =~= fragments(self.seq, d, seg as nat, window).take(k + 1));
            }
        }
        proof {
            let all = chunks(d, seg as nat);
            assert(chunks(d.skip(off as int), seg as nat) =~= Seq::<Seq<u8>>::empty());
            assert(all.take(out@.len() as int) =~= all);
            assert(fragments(self.seq, d, seg as nat, window).take(out@.len() as int)
                =~= fragments(self.seq, d, seg as nat, window));
        }
        Ok((out, seq))
    }
}

} // verus!
