//! The postcard primitives that the packet format is built from: varints,
//! length-prefixed byte strings and sequences of `u32`.
use vstd::prelude::*;

verus! {

/// Number of bytes postcard allows for the varint of a `u32`.
pub open spec fn u32_varint_max() -> nat {
    5
}

/// Number of bytes postcard allows for the varint of a `usize`.
pub open spec fn usize_varint_max() -> nat {
    if usize::BITS == 64 {
        10
    } else {
        5
    }
}

/// The canonical varint of `v`: seven bits per byte, least significant group
/// first, the high bit set on every byte but the last.
pub open spec fn varint(v: nat) -> Seq<u8>
    decreases v,
{
    if v < 128 {
        seq![v as u8]
    } else {
        seq![(v % 128 + 128) as u8] + varint(v / 128)
    }
}

/// Reads a varint of at most `max_len` bytes from the front of `bytes`:
/// its value and the number of bytes it takes.
pub open spec fn varint_prefix(bytes: Seq<u8>, max_len: nat) -> Option<(nat, nat)>
    decreases max_len,
{
    if bytes.len() == 0 || max_len == 0 {
        None
    } else if bytes[0] < 128 {
        Some((bytes[0] as nat, 1nat))
    } else {
        match varint_prefix(bytes.drop_first(), (max_len - 1) as nat) {
            Some((v, n)) => Some((((bytes[0] - 128) + 128 * v) as nat, n + 1)),
            None => None,
        }
    }
}

/// What postcard reads as a `u32` from the front of `bytes`, and what is left.
pub open spec fn take_u32_spec(bytes: Seq<u8>) -> Option<(u32, Seq<u8>)> {
    match varint_prefix(bytes, u32_varint_max()) {
        Some((v, n)) => if v <= u32::MAX {
            Some((v as u32, bytes.skip(n as int)))
        } else {
            None
        },
        None => None,
    }
}

/// What postcard reads as the length of a sequence from the front of `bytes`.
pub open spec fn take_len_spec(bytes: Seq<u8>) -> Option<(usize, Seq<u8>)> {
    match varint_prefix(bytes, usize_varint_max()) {
        Some((v, n)) => if v <= usize::MAX {
            Some((v as usize, bytes.skip(n as int)))
        } else {
            None
        },
        None => None,
    }
}

/// What postcard reads as a `Vec<u8>`: a length, then that many bytes.
pub open spec fn take_bytes_spec(bytes: Seq<u8>) -> Option<(Seq<u8>, Seq<u8>)> {
    match take_len_spec(bytes) {
        Some((n, rest)) => if n <= rest.len() {
            Some((rest.take(n as int), rest.skip(n as int)))
        } else {
            None
        },
        None => None,
    }
}

/// Reads `n` varint `u32`s one after the other.
pub open spec fn take_u32s_spec(bytes: Seq<u8>, n: nat) -> Option<(Seq<u32>, Seq<u8>)>
    decreases n,
{
    if n == 0 {
        Some((Seq::<u32>::empty(), bytes))
    } else {
        match take_u32_spec(bytes) {
            Some((v, rest)) => match take_u32s_spec(rest, (n - 1) as nat) {
                Some((vs, rest2)) => Some((seq![v] + vs, rest2)),
                None => None,
            },
            None => None,
        }
    }
}

/// What postcard reads as a `Vec<u32>`: a length, then that many varints.
pub open spec fn take_u32_vec_spec(bytes: Seq<u8>) -> Option<(Seq<u32>, Seq<u8>)> {
    match take_len_spec(bytes) {
        Some((n, rest)) => take_u32s_spec(rest, n as nat),
        None => None,
    }
}

/// The bytes postcard writes for a sequence of `u32`s, after its length.
pub open spec fn u32s_bytes(vs: Seq<u32>) -> Seq<u8>
    decreases vs.len(),
{
    if vs.len() == 0 {
        Seq::<u8>::empty()
    } else {
        u32s_bytes(vs.drop_last()) + varint(vs.last() as nat)
    }
}

/// Strictly increasing.
pub open spec fn increasing(q: Seq<u32>) -> bool {
    forall|i: int, j: int| 0 <= i < j < q.len() ==> q[i] < q[j]
}

/// The least element of a set of `u32`s.
pub open spec fn set_min(s: Set<u32>) -> u32 {
    choose|m: u32| s.contains(m) && forall|x: u32| #[trigger] s.contains(x) ==> m <= x
}

/// A finite non-empty set of `u32`s has a least element.
pub proof fn lemma_set_min(s: Set<u32>)
    requires
        s.finite(),
        s.len() > 0,
    ensures
        s.contains(set_min(s)),
        forall|x: u32| #[trigger] s.contains(x) ==> set_min(s) <= x,
    decreases s.len(),
{
    let x = s.choose();
    if s.len() == 1 {
        assert(s.remove(x).len() == 0);
        assert forall|y: u32| #[trigger] s.contains(y) implies x <= y by {
            if y != x {
                assert(s.remove(x).contains(y));
            }
        }
    } else {
        let r = s.remove(x);
        lemma_set_min(r);
        let m = set_min(r);
        let least = if m < x {
            m
        } else {
            x
        };
        assert forall|y: u32| #[trigger] s.contains(y) implies least <= y by {
            if y != x {
                assert(r.contains(y));
            }
        }
    }
}

/// The elements of a finite set of `u32`s in increasing order.
pub open spec fn sorted_elems(s: Set<u32>) -> Seq<u32>
    decreases s.len(),
    when s.finite()
{
    if s.len() == 0 {
        Seq::<u32>::empty()
    } else {
        proof {
            lemma_set_min(s);
        }
        seq![set_min(s)] + sorted_elems(s.remove(set_min(s)))
    }
}

/// The elements of a sequence with one more in front.
proof fn lemma_cons_to_set(m: u32, t: Seq<u32>)
    ensures
        (seq![m] + t).to_set() == t.to_set().insert(m),
{
    let q = seq![m] + t;
    assert forall|x: u32| q.to_set().contains(x) <==> t.to_set().insert(m).contains(x) by {
        if q.contains(x) {
            let k = choose|k: int| 0 <= k < q.len() && q[k] == x;
            if k > 0 {
                assert(t[k - 1] == x);
            }
        }
        if t.contains(x) {
            let k = choose|k: int| 0 <= k < t.len() && t[k] == x;
            assert(q[k + 1] == x);
        }
        assert(q[0] == m);
    }
    assert(q.to_set() =~= t.to_set().insert(m));
}

/// `sorted_elems` lists each element of the set once, in increasing order.
pub proof fn lemma_sorted_elems(s: Set<u32>)
    requires
        s.finite(),
    ensures
        increasing(sorted_elems(s)),
        sorted_elems(s).to_set() == s,
        sorted_elems(s).len() == s.len(),
    decreases s.len(),
{
        if s.len() == 0 {
        s.lemma_len0_is_empty();
        assert(sorted_elems(s).to_set() =~= s);
    } else {
        lemma_set_min(s);
        let m = set_min(s);
        let r = s.remove(m);
        lemma_sorted_elems(r);
        let t = sorted_elems(r);
        let q = sorted_elems(s);
        assert(q == seq![m] + t);
        lemma_cons_to_set(m, t);
        assert(r.insert(m) =~= s);
        assert forall|i: int, j: int| 0 <= i < j < q.len() implies q[i] < q[j] by {
            if i == 0 {
                assert(q[j] == t[j - 1]);
                assert(t.to_set().contains(t[j - 1]));
                assert(r.contains(q[j]));
            } else {
                assert(q[i] == t[i - 1] && q[j] == t[j - 1]);
            }
        }
    }
}

/// An increasing sequence is the sorted listing of its own elements.
pub proof fn lemma_sorted_elems_unique(q: Seq<u32>)
    requires
        increasing(q),
    ensures
        sorted_elems(q.to_set()) == q,
    decreases q.len(),
{
    broadcast use vstd::set_lib::group_set_properties;
    broadcast use vstd::seq_lib::group_seq_properties;

    let s = q.to_set();
    if q.len() == 0 {
        assert(s =~= Set::empty());
    } else {
        assert(s.contains(q[0]));
        assert(s.len() > 0);
        lemma_set_min(s);
        let m = set_min(s);
        assert(m == q[0]) by {
            let k = choose|k: int| 0 <= k < q.len() && q[k] == m;
            if k > 0 {
                assert(q[0] < q[k]);
            }
        }
        let t = q.drop_first();
        assert(q =~= seq![m] + t);
        lemma_cons_to_set(m, t);
        assert(!t.to_set().contains(m)) by {
            if t.contains(m) {
                let k = choose|k: int| 0 <= k < t.len() && t[k] == m;
                assert(q[k + 1] == m);
                assert(q[0] < q[k + 1]);
            }
        }
        assert(t.to_set() =~= s.remove(m));
        lemma_sorted_elems_unique(t);
    }
}

/// The bytes of a non-empty sequence of `u32`s start with the varint of its first element.
pub proof fn lemma_u32s_bytes_cons(q: Seq<u32>)
    requires
        q.len() > 0,
    ensures
        u32s_bytes(q) == varint(q[0] as nat) + u32s_bytes(q.drop_first()),
    decreases q.len(),
{
    if q.len() == 1 {
        assert(q.drop_last() =~= Seq::<u32>::empty());
        assert(q.drop_first() =~= Seq::<u32>::empty());
        assert(u32s_bytes(Seq::<u32>::empty()) == Seq::<u8>::empty());
        assert(u32s_bytes(q) =~= varint(q[0] as nat));
    } else {
        lemma_u32s_bytes_cons(q.drop_last());
        assert(q.drop_last().drop_first() =~= q.drop_first().drop_last());
        assert(q.drop_first().last() == q.last());
        assert(u32s_bytes(q) =~= varint(q[0] as nat) + u32s_bytes(q.drop_first()));
    }
}

/// Each `u32` takes between one and five bytes.
pub proof fn lemma_u32s_bytes_len(q: Seq<u32>)
    ensures
        q.len() <= u32s_bytes(q).len() <= 5 * q.len(),
    decreases q.len(),
{
    if q.len() > 0 {
        lemma_u32s_bytes_len(q.drop_last());
        lemma_u32_varint_roundtrip(q.last(), Seq::empty());
    }
}

/// Reading back the bytes of a sequence of `u32`s gives the sequence.
pub proof fn lemma_u32s_roundtrip(q: Seq<u32>, rest: Seq<u8>)
    ensures
        take_u32s_spec(u32s_bytes(q) + rest, q.len()) == Some((q, rest)),
    decreases q.len(),
{
    if q.len() == 0 {
        assert(u32s_bytes(q) + rest =~= rest);
    } else {
        lemma_u32s_bytes_cons(q);
        let t = q.drop_first();
        let tail = u32s_bytes(t) + rest;
        let b = u32s_bytes(q) + rest;
        assert(b =~= varint(q[0] as nat) + tail);
        lemma_u32_varint_roundtrip(q[0], tail);
        lemma_u32s_roundtrip(t, rest);
        assert(take_u32_spec(b) == Some((q[0], tail)));
        assert(take_u32s_spec(tail, (q.len() - 1) as nat) == Some((t, rest)));
        assert(seq![q[0]] + t =~= q);
    }
}

/// The bytes of a prefix of a sequence of `u32`s are no longer than those of the whole.
pub proof fn lemma_u32s_bytes_prefix_len(q: Seq<u32>, i: int)
    requires
        0 <= i <= q.len(),
    ensures
        u32s_bytes(q.take(i)).len() <= u32s_bytes(q).len(),
    decreases q.len() - i,
{
    if i < q.len() {
        lemma_u32s_bytes_prefix_len(q, i + 1);
        assert(q.take(i + 1).drop_last() =~= q.take(i));
    } else {
        assert(q.take(i) =~= q);
    }
}

/// A varint read from the front of `bytes` takes at least one of them.
pub proof fn lemma_varint_prefix_len(bytes: Seq<u8>, k: nat)
    ensures
        varint_prefix(bytes, k) matches Some((v, n)) ==> 1 <= n <= bytes.len(),
    decreases k,
{
    if bytes.len() > 0 && k > 0 && bytes[0] >= 128 {
        lemma_varint_prefix_len(bytes.drop_first(), (k - 1) as nat);
    }
}

/// Each read consumes bytes: what is left is shorter (or, for a sequence of
/// no elements, no longer) than what was read from.
pub proof fn lemma_takes_consume(bytes: Seq<u8>)
    ensures
        take_u32_spec(bytes) matches Some((v, r)) ==> r.len() < bytes.len(),
        take_len_spec(bytes) matches Some((v, r)) ==> r.len() < bytes.len(),
        take_bytes_spec(bytes) matches Some((v, r)) ==> r.len() < bytes.len(),
        take_u32_vec_spec(bytes) matches Some((v, r)) ==> r.len() < bytes.len(),
{
    lemma_varint_prefix_len(bytes, u32_varint_max());
    lemma_varint_prefix_len(bytes, usize_varint_max());
    if let Some((n, rest)) = take_len_spec(bytes) {
        lemma_takes_u32s_consume(rest, n as nat);
    }
}

/// Reading `n` `u32`s leaves no more than was there.
pub proof fn lemma_takes_u32s_consume(bytes: Seq<u8>, n: nat)
    ensures
        take_u32s_spec(bytes, n) matches Some((v, r)) ==> r.len() <= bytes.len(),
    decreases n,
{
    if n > 0 {
        lemma_varint_prefix_len(bytes, u32_varint_max());
        if let Some((v, rest)) = take_u32_spec(bytes) {
            lemma_takes_u32s_consume(rest, (n - 1) as nat);
        }
    }
}

/// 128 to the power `n`.
pub open spec fn pow128(n: nat) -> nat
    decreases n,
{
    if n == 0 {
        1
    } else {
        128 * pow128((n - 1) as nat)
    }
}

/// A varint of a value below `128^k` takes at most `k` bytes, and reading it
/// back, with room for at least that many bytes, gives the value.
pub proof fn lemma_varint_roundtrip(v: nat, k: nat, rest: Seq<u8>)
    requires
        v < pow128(k),
        k >= 1,
    ensures
        varint(v).len() <= k,
        varint(v).len() >= 1,
        varint_prefix(varint(v) + rest, k) == Some((v, varint(v).len())),
    decreases v,
{
    if v < 128 {
        assert((varint(v) + rest)[0] == v as u8);
    } else {
        let k1 = (k - 1) as nat;
        assert(v / 128 < pow128(k1)) by {
            assert(pow128(k) == 128 * pow128(k1));
        }
        assert(k1 >= 1) by {
            if k1 == 0 {
                assert(pow128(0) == 1);
            }
        }
        lemma_varint_roundtrip(v / 128, k1, rest);
        let b = varint(v) + rest;
        assert(b[0] == (v % 128 + 128) as u8);
        assert(b[0] >= 128);
        assert(b.drop_first() =~= varint(v / 128) + rest);
        assert((b[0] - 128) + 128 * (v / 128) == v);
    }
}

/// The varint of any `u32` fits the five bytes postcard allows for it.
pub proof fn lemma_u32_varint_roundtrip(v: u32, rest: Seq<u8>)
    ensures
        1 <= varint(v as nat).len() <= 5,
        take_u32_spec(varint(v as nat) + rest) == Some((v, rest)),
{
    reveal_with_fuel(pow128, 6);
    assert(pow128(5) == 34359738368);
    lemma_varint_roundtrip(v as nat, 5, rest);
    assert((varint(v as nat) + rest).skip(varint(v as nat).len() as int) =~= rest);
}

/// The varint of any `usize` fits the bytes postcard allows for it.
pub proof fn lemma_len_varint_roundtrip(v: usize, rest: Seq<u8>)
    ensures
        1 <= varint(v as nat).len() <= usize_varint_max(),
        take_len_spec(varint(v as nat) + rest) == Some((v, rest)),
{
    reveal_with_fuel(pow128, 11);
    assert(pow128(5) == 34359738368);
    assert(pow128(10) == 1180591620717411303424);
    lemma_varint_roundtrip(v as nat, usize_varint_max(), rest);
    assert((varint(v as nat) + rest).skip(varint(v as nat).len() as int) =~= rest);
}

} // verus!

verus! {

#[verifier::external_type_specification]
#[verifier::external_body]
pub struct ExPostcardError(postcard::Error);

/// Appends the postcard encoding of a `u32` to `out` (`postcard::to_extend`).
/// postcard writes a `u32` as its canonical varint, and writing into a `Vec`
/// does not fail.
#[verifier::external_body]
pub(crate) fn extend_u32(out: Vec<u8>, x: u32) -> (res: Result<Vec<u8>, postcard::Error>)
    requires
        out@.len() + varint(x as nat).len() <= usize::MAX,
    ensures
        res is Ok,
        res matches Ok(v) ==> v@ == out@ + varint(x as nat),
{
    postcard::to_extend(&x, out)
}

/// Appends the postcard encoding of a `usize` to `out` (`postcard::to_extend`):
/// its canonical varint.
#[verifier::external_body]
pub(crate) fn extend_len(out: Vec<u8>, n: usize) -> (res: Result<Vec<u8>, postcard::Error>)
    requires
        out@.len() + varint(n as nat).len() <= usize::MAX,
    ensures
        res is Ok,
        res matches Ok(v) ==> v@ == out@ + varint(n as nat),
{
    postcard::to_extend(&n, out)
}

/// Appends the postcard encoding of a byte slice to `out` (`postcard::to_extend`):
/// the varint of its length, then the bytes themselves.
#[verifier::external_body]
pub(crate) fn extend_bytes(out: Vec<u8>, b: &[u8]) -> (res: Result<Vec<u8>, postcard::Error>)
    requires
        out@.len() + varint(b@.len()).len() + b@.len() <= usize::MAX,
    ensures
        res is Ok,
        res matches Ok(v) ==> v@ == out@ + varint(b@.len()) + b@,
{
    postcard::to_extend(b, out)
}

/// Reads a `u32` from the front of `s` (`postcard::take_from_bytes::<u32>`),
/// returning it with the bytes that follow; `None` where postcard reports an error.
#[verifier::external_body]
pub(crate) fn take_u32(s: &[u8]) -> (res: Option<(u32, &[u8])>)
    ensures
        match res {
            Some((v, rest)) => take_u32_spec(s@) == Some((v, rest@)),
            None => take_u32_spec(s@) is None,
        },
{
    postcard::take_from_bytes::<u32>(s).ok()
}

/// Reads a `Vec<u8>` from the front of `s` (`postcard::take_from_bytes::<Vec<u8>>`),
/// returning it with the bytes that follow; `None` where postcard reports an error.
#[verifier::external_body]
pub(crate) fn take_bytes(s: &[u8]) -> (res: Option<(Vec<u8>, &[u8])>)
    ensures
        match res {
            Some((v, rest)) => take_bytes_spec(s@) == Some((v@, rest@)),
            None => take_bytes_spec(s@) is None,
        },
{
    postcard::take_from_bytes::<Vec<u8>>(s).ok()
}

/// Reads a `Vec<u32>` from the front of `s` (`postcard::take_from_bytes::<Vec<u32>>`),
/// returning it with the bytes that follow; `None` where postcard reports an error.
#[verifier::external_body]
pub(crate) fn take_u32_vec(s: &[u8]) -> (res: Option<(Vec<u32>, &[u8])>)
    ensures
        match res {
            Some((v, rest)) => take_u32_vec_spec(s@) == Some((v@, rest@)),
            None => take_u32_vec_spec(s@) is None,
        },
{
    postcard::take_from_bytes::<Vec<u32>>(s).ok()
}

} // verus!
