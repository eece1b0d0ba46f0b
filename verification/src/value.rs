//! What a packet carries: a start marker, file data, an acknowledgement or a fin.
use std::collections::BTreeSet;
use vstd::prelude::*;

use crate::packet::Packet;
use crate::SeqNum;

verus! {

broadcast use {vstd::std_specs::btree::group_btree_axioms, vstd::laws_cmp::group_laws_cmp};

/// A piece of the file being transferred.
#[derive(Debug, PartialEq, Eq)]
pub struct FileData(pub Vec<u8>);

impl View for FileData {
    type V = Seq<u8>;

    open spec fn view(&self) -> Seq<u8> {
        self.0@
    }
}

impl FileData {
    /// The bytes of this piece.
    pub fn as_slice(&self) -> (s: &[u8])
        ensures
            s@ == self@,
    {
        self.0.as_slice()
    }

    /// Number of bytes in this piece.
    pub fn len(&self) -> (n: usize)
        ensures
            n == self@.len(),
    {
        self.0.len()
    }
}

/// The text `String::from_utf8_lossy` makes of `bytes`.
pub uninterp spec fn lossy_utf8(bytes: Seq<u8>) -> Seq<char>;

/// The text that `Debug` prints for the string `text`: quoted and escaped.
pub uninterp spec fn debug_str(text: Seq<char>) -> Seq<char>;

/// `String::from_utf8_lossy`: the bytes as text, with each invalid sequence
/// replaced by U+FFFD. The contract only names the result.
#[verifier::external_body]
fn lossy_text(bytes: &[u8]) -> (text: String)
    ensures
        text@ == lossy_utf8(bytes@),
{
    String::from_utf8_lossy(bytes).into_owned()
}

/// The `Debug` formatting of a `str` (`format!("{:?}", ..)`): the text quoted
/// and escaped. The contract only names the result.
#[verifier::external_body]
fn debug_quoted(text: &str) -> (quoted: String)
    ensures
        quoted@ == debug_str(text@),
{
    format!("{:?}", text)
}

impl FileData {
    /// How a piece of the file is shown for debugging: `FileData(`, the bytes
    /// read as lossy UTF-8 and quoted as `Debug` quotes a string, then `)`.
    pub fn debug_string(&self) -> (shown: String)
        ensures
            shown@ == "FileData("@ + debug_str(lossy_utf8(self@)) + ")"@,
    {
        let text = lossy_text(self.0.as_slice());
        let quoted = debug_quoted(text.as_str());
        FileData::debug_frame(quoted.as_str())
    }

    /// Frames the shown field of a [`FileData`]: `FileData(`, the field, `)`.
    pub fn debug_frame(field: &str) -> (shown: String)
        ensures
            shown@ == "FileData("@ + field@ + ")"@,
    {
        let mut shown = String::from_str("FileData(");
        shown.append(field);
        shown.append(")");
        shown
    }
}

impl Clone for FileData {
    fn clone(&self) -> (res: Self)
        ensures
            res@ == self@,
    {
        FileData(self.0.clone())
    }
}

/// The abstract value of an [`Ack`].
pub struct AckModel {
    pub cum: SeqNum,
    pub sel: Set<SeqNum>,
    pub adv_win: SeqNum,
}

/// An acknowledgement from the receiver.
#[derive(Debug, PartialEq, Eq)]
pub struct Ack {
    /// The cumulative ack.
    /// AKA the highest packet ID of ones received contiguously
    pub cum: SeqNum,
    /// The selective acks: IDs received above the cumulative ack
    pub sel: BTreeSet<SeqNum>,
    /// Advertised window of packets capable of being received
    pub adv_win: SeqNum,
}

impl View for Ack {
    type V = AckModel;

    open spec fn view(&self) -> AckModel {
        AckModel { cum: self.cum, sel: self.sel@, adv_win: self.adv_win }
    }
}

impl AckModel {
    /// Every selective ack lies above the cumulative ack.
    pub open spec fn wf(self) -> bool {
        forall|s: SeqNum| #[trigger] self.sel.contains(s) ==> s > self.cum
    }

    /// The sequence numbers that this ack reports as received:
    /// `1..=cum` and the selective acks above `cum`.
    pub open spec fn acked(self) -> Set<SeqNum> {
        Set::new(|s: SeqNum| (1 <= s <= self.cum) || (self.sel.contains(s) && s > self.cum))
    }

    /// The ack after recording `s` (see [`Ack::add_seq`]): a number right after
    /// the cumulative ack moves it to the end of the run of selective acks that
    /// follows, and the selective acks it passed are dropped; a number further
    /// on becomes a selective ack.
    pub open spec fn add(self, s: SeqNum) -> AckModel {
        if s <= self.cum {
            self
        } else if s == self.cum + 1 {
            let c = run_end(s, self.sel);
            AckModel { cum: c, sel: self.sel.filter(|x: SeqNum| x > c), adv_win: self.adv_win }
        } else {
            AckModel { cum: self.cum, sel: self.sel.insert(s), adv_win: self.adv_win }
        }
    }

    /// The ack after recording each of `seqs` in turn.
    pub open spec fn add_all(self, seqs: Seq<SeqNum>) -> AckModel
        decreases seqs.len(),
    {
        if seqs.len() == 0 {
            self
        } else {
            self.add_all(seqs.drop_last()).add(seqs.last())
        }
    }
}

/// The end of the run of consecutive numbers of `x` that follows `c`: the
/// largest `e >= c` such that every number in `c + 1 ..= e` is in `x`.
pub open spec fn run_end(c: SeqNum, x: Set<SeqNum>) -> SeqNum
    decreases SeqNum::MAX - c,
{
    if c < SeqNum::MAX && x.contains((c + 1) as SeqNum) {
        run_end((c + 1) as SeqNum, x)
    } else {
        c
    }
}

/// The ack that reports exactly the numbers of `t`: cumulative up to the
/// highest number received contiguously from 1, selective above it.
pub open spec fn ack_of(t: Set<SeqNum>, adv_win: SeqNum) -> AckModel {
    let c = run_end(0, t);
    AckModel { cum: c, sel: t.filter(|x: SeqNum| x > c), adv_win }
}

/// The run after `c` lies in `x` and stops where `x` has no next number.
pub proof fn lemma_run_end(c: SeqNum, x: Set<SeqNum>)
    ensures
        run_end(c, x) >= c,
        forall|i: SeqNum| c < i <= run_end(c, x) ==> #[trigger] x.contains(i),
        run_end(c, x) < SeqNum::MAX ==> !x.contains((run_end(c, x) + 1) as SeqNum),
    decreases SeqNum::MAX - c,
{
    if c < SeqNum::MAX && x.contains((c + 1) as SeqNum) {
        lemma_run_end((c + 1) as SeqNum, x);
    }
}

/// The run after `c` depends only on the numbers above `c`.
pub proof fn lemma_run_end_above(c: SeqNum, x: Set<SeqNum>, y: Set<SeqNum>)
    requires
        forall|i: SeqNum| i > c ==> (x.contains(i) <==> y.contains(i)),
    ensures
        run_end(c, x) == run_end(c, y),
    decreases SeqNum::MAX - c,
{
    if c < SeqNum::MAX {
        assert(x.contains((c + 1) as SeqNum) <==> y.contains((c + 1) as SeqNum));
        if x.contains((c + 1) as SeqNum) {
            lemma_run_end_above((c + 1) as SeqNum, x, y);
        }
    }
}

/// A run may be measured from any point inside it.
pub proof fn lemma_run_end_from(c: SeqNum, d: SeqNum, x: Set<SeqNum>)
    requires
        c <= d,
        forall|i: SeqNum| c < i <= d ==> #[trigger] x.contains(i),
    ensures
        run_end(c, x) == run_end(d, x),
    decreases d - c,
{
    if c < d {
        assert(x.contains((c + 1) as SeqNum));
        lemma_run_end_from((c + 1) as SeqNum, d, x);
    }
}

/// Recording a number in the ack that reports `t` gives the ack that reports
/// `t` with that number.
pub proof fn lemma_add_ack_of(t: Set<SeqNum>, adv_win: SeqNum, s: SeqNum)
    ensures
        ack_of(t, adv_win).add(s) == ack_of(t.insert(s), adv_win),
{
    let a = ack_of(t, adv_win);
    let c = run_end(0, t);
    let u = t.insert(s);
    lemma_run_end(0, t);
    if s <= c {
        if s > 0 {
            assert(t.contains(s));
            assert(u =~= t);
        } else {
            lemma_run_end_above(0, t, u);
            assert(u.filter(|x: SeqNum| x > c) =~= t.filter(|x: SeqNum| x > c));
        }
    } else if s == c + 1 {
        lemma_run_end_from(0, s, u);
        lemma_run_end_above(s, u, a.sel);
        let e = run_end(s, a.sel);
        assert(run_end(0, u) == e);
        lemma_run_end(s, a.sel);
        assert(a.sel.filter(|x: SeqNum| x > e) =~= u.filter(|x: SeqNum| x > e));
    } else {
        assert(!u.contains((c + 1) as SeqNum));
        lemma_run_end_from(0, c, u);
        assert(run_end(c, u) == c);
        assert(a.sel.insert(s) =~= u.filter(|x: SeqNum| x > c));
    }
}

/// The ack that reports `t` is well formed, reports exactly the non-zero
/// numbers of `t`, and its cumulative ack is the highest number received
/// contiguously from 1.
pub proof fn lemma_ack_of(t: Set<SeqNum>, adv_win: SeqNum)
    ensures
        ack_of(t, adv_win).wf(),
        ack_of(t, adv_win).acked() == t.remove(0),
        forall|i: SeqNum| 1 <= i <= ack_of(t, adv_win).cum ==> #[trigger] t.contains(i),
        ack_of(t, adv_win).cum < SeqNum::MAX ==> !t.contains((ack_of(t, adv_win).cum + 1) as SeqNum),
{
    lemma_run_end(0, t);
    assert(ack_of(t, adv_win).acked() =~= t.remove(0));
}

/// Recording a sequence number keeps every selective ack above the cumulative ack.
pub proof fn lemma_add_keeps_wf(a: AckModel, s: SeqNum)
    requires
        a.wf(),
    ensures
        a.add(s).wf(),
{
    if s == a.cum + 1 {
        lemma_run_end(s, a.sel);
    }
}

/// Recording a sequence number adds exactly that number to what the ack
/// reports as received (zero is never reported).
pub proof fn lemma_add_acked(a: AckModel, s: SeqNum)
    ensures
        a.add(s).acked() == if s == 0 {
            a.acked()
        } else {
            a.acked().insert(s)
        },
{
    if s == a.cum + 1 {
        lemma_run_end(s, a.sel);
    }
    assert(a.add(s).acked() =~= if s == 0 {
        a.acked()
    } else {
        a.acked().insert(s)
    });
}

/// An ack built from a list of sequence numbers, starting from nothing
/// received, is the ack that reports the set of those numbers, whatever
/// their order.
pub proof fn lemma_add_all_ack_of(adv_win: SeqNum, seqs: Seq<SeqNum>)
    ensures
        (AckModel { cum: 0, sel: Set::empty(), adv_win }).add_all(seqs) == ack_of(seqs.to_set(), adv_win),
    decreases seqs.len(),
{
    let start = AckModel { cum: 0, sel: Set::empty(), adv_win };
    if seqs.len() == 0 {
        assert(seqs.to_set() =~= Set::<SeqNum>::empty());
        assert(Set::<SeqNum>::empty().filter(|x: SeqNum| x > 0) =~= Set::<SeqNum>::empty());
    } else {
        let init = seqs.drop_last();
        lemma_add_all_ack_of(adv_win, init);
        lemma_add_ack_of(init.to_set(), adv_win, seqs.last());
        assert(init.push(seqs.last()) =~= seqs);
        init.lemma_push_to_set_commute(seqs.last());
    }
}

/// The sequence numbers of a list of packets.
pub open spec fn seqs_of(packets: Seq<Packet>) -> Seq<SeqNum> {
    packets.map_values(|p: Packet| p.seq)
}

impl Ack {
    /// Records the receipt of `new_seq`. Where it comes right after the
    /// cumulative ack, the cumulative ack moves on through the selective acks
    /// that follow it, so that it stays the highest number received
    /// contiguously. Returns whether it moved the cumulative ack or was a
    /// selective ack not seen before.
    pub fn add_seq(&mut self, new_seq: SeqNum) -> (added: bool)
        ensures
            final(self)@ == old(self)@.add(new_seq),
            added == (new_seq > old(self).cum && (new_seq == old(self).cum + 1
                || !old(self)@.sel.contains(new_seq))),
            new_seq == old(self).cum + 1 ==> final(self).cum == run_end(new_seq, old(self)@.sel),
            old(self)@.wf() ==> final(self)@.wf(),
            final(self)@.acked() == if new_seq == 0 {
                old(self)@.acked()
            } else {
                old(self)@.acked().insert(new_seq)
            },
    {
        proof {
            lemma_add_acked(old(self)@, new_seq);
            if old(self)@.wf() {
                lemma_add_keeps_wf(old(self)@, new_seq);
            }
        }
        if new_seq <= self.cum {
            return false;
        }
        if self.cum + 1 == new_seq {
            let ghost q = self.sel@;
            let mut c = new_seq;
            while c < SeqNum::MAX && self.sel.contains(&(c + 1))
                invariant
                    self.sel@ == q,
                    new_seq <= c,
                    run_end(c, q) == run_end(new_seq, q),
                decreases SeqNum::MAX - c,
            {
                c = c + 1;
            }
            self.cum = c;
            let mut kept: BTreeSet<SeqNum> = BTreeSet::new();
            for x in it: self.sel.iter()
                invariant
                    self.sel@ == q,
                    it.seq().unref().to_set() == q,
                    kept@ == it.seq().unref().take(it.index()).to_set().filter(
                        |s: SeqNum| s > c,
                    ),
                    it.index() == it.seq().len() ==> kept@ == q.filter(|s: SeqNum| s > c),
            {
                let ghost before = it.seq().unref().take(it.index());
                if *x > c {
                    kept.insert(*x);
                }
                proof {
                    let after = it.seq().unref().take(it.index() + 1);
                    assert(after =~= before.push(*x));
                    before.lemma_push_to_set_commute(*x);
                    if it.index() + 1 == it.seq().len() {
                        assert(after =~= it.seq().unref());
                    }
                    assert(kept@ =~= after.to_set().filter(|s: SeqNum| s > c));
                }
            }
            self.sel = kept;
            assert(self.sel@ =~= q.filter(|x: SeqNum| x > c));
            true
        } else {
            self.sel.insert(new_seq)
        }
    }

    /// Builds the ack that a receiver gives for `packets`, starting from an
    /// empty one that advertises `adv_win`.
    pub fn from_packets(packets: &[Packet], adv_win: SeqNum) -> (out: Self)
        ensures
            out@ == ack_of(seqs_of(packets@).to_set(), adv_win),
            out.cum == run_end(0, seqs_of(packets@).to_set()),
            out@.wf(),
            out@.acked() == seqs_of(packets@).to_set().remove(0),
            out.adv_win == adv_win,
    {
        proof {
            lemma_add_all_ack_of(adv_win, seqs_of(packets@));
            lemma_ack_of(seqs_of(packets@).to_set(), adv_win);
        }
        let mut out = Self { cum: 0, sel: BTreeSet::new(), adv_win };
        let ghost start = out@;
        for i in 0..packets.len()
            invariant
                out@ == start.add_all(seqs_of(packets@.take(i as int))),
        {
            out.add_seq(packets[i].seq);
            proof {
                assert(seqs_of(packets@.take(i + 1)).drop_last() =~= seqs_of(packets@.take(i as int)));
            }
        }
        assert(packets@.take(packets@.len() as int) =~= packets@);
        out
    }
}

/// What a packet carries.
#[derive(Debug, PartialEq, Eq)]
pub enum PacketValue {
    /// Sender gives this to the receiver, then uses it to get the RTT estimate
    /// based on how long it takes to receive an ack
    Start,
    /// An actual packet with data, and the window the sender advertises
    Data { data: FileData, window: SeqNum },
    /// An Acknowledgement from a receiver that a packet was received
    Ack(Ack),
    /// A message from the sender that all packets have been successfully sent and acked
    Fin,
}

/// The abstract value of a [`PacketValue`].
pub enum ValueModel {
    Start,
    Data { data: Seq<u8>, window: SeqNum },
    Ack(AckModel),
    Fin,
}

impl View for PacketValue {
    type V = ValueModel;

    open spec fn view(&self) -> ValueModel {
        match self {
            PacketValue::Start => ValueModel::Start,
            PacketValue::Data { data, window } => ValueModel::Data { data: data@, window: *window },
            PacketValue::Ack(a) => ValueModel::Ack(a@),
            PacketValue::Fin => ValueModel::Fin,
        }
    }
}

impl Clone for Ack {
    fn clone(&self) -> (res: Self)
        ensures
            res@ == self@,
    {
        Ack { cum: self.cum, sel: self.sel.clone(), adv_win: self.adv_win }
    }
}

impl Clone for PacketValue {
    fn clone(&self) -> (res: Self)
        ensures
            res@ == self@,
    {
        match self {
            PacketValue::Start => PacketValue::Start,
            PacketValue::Data { data, window } => PacketValue::Data {
                data: data.clone(),
                window: *window,
            },
            PacketValue::Ack(a) => PacketValue::Ack(a.clone()),
            PacketValue::Fin => PacketValue::Fin,
        }
    }
}

} // verus!
