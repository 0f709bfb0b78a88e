//! Packet bodies on the wire: each request or response is a one-byte
//! tag followed by its fields, lists are count-prefixed, and a whole
//! body travels in one varint-framed chunk of at most five million
//! bytes. Every decoder mirrors its specification decoder exactly.

use vstd::prelude::*;
use vstd::utf8::encode_utf8;
use crate::codec::{
    dec_bytes, dec_le, dec_mtm, dec_opt_u16, dec_opt_u32, dec_str, dec_varint, decode_bytes,
    decode_le, decode_mtm, decode_opt_u16, decode_opt_u32, decode_str, decode_varint, enc_bytes,
    enc_le, enc_mtm, enc_opt_u16, enc_opt_u32, enc_str, enc_varint, encode_bytes, encode_le,
    encode_mtm, encode_opt_u16, encode_opt_u32, encode_str, encode_varint, lemma_dec_le_bound,
    lemma_pow256_le, matches_dec, pow128, pow256,
};
use crate::config::MinTargetMax;
use crate::packets::{
    DisconnectPacket, DisconnectV, DistantMatch, DistantMatchV, GetFiltersPacket, GetFiltersV,
    LocalMatch, LocalMatchV, Query, QueryV, RequestPacket, RequestV, ResponsePacket, ResponseV,
    ResultsPacket, ResultsV, SearchPacket, SearchV, UpdateFiltersPacket, UpdateFiltersV,
};
use crate::peer::PeerId;

verus! {

/// The concatenation of the encodings of all items, in order.
pub open spec fn enc_seq<T>(items: Seq<T>, f: spec_fn(T) -> Seq<u8>) -> Seq<u8>
    decreases items.len(),
{
    if items.len() == 0 {
        Seq::empty()
    } else {
        f(items[0]) + enc_seq(items.skip(1), f)
    }
}

/// Encoding one more item appends its encoding.
pub proof fn lemma_enc_seq_push<T>(items: Seq<T>, x: T, f: spec_fn(T) -> Seq<u8>)
    ensures
        enc_seq(items.push(x), f) == enc_seq(items, f) + f(x),
    decreases items.len(),
{
    if items.len() == 0 {
        assert(items.push(x)[0] == x);
        assert(items.push(x).skip(1) =~= Seq::<T>::empty());
        assert(enc_seq(items, f) =~= Seq::<u8>::empty());
        assert(enc_seq(items.push(x).skip(1), f) =~= Seq::<u8>::empty());
        assert(enc_seq(items.push(x), f) =~= f(x) + Seq::<u8>::empty());
        assert(f(x) + Seq::<u8>::empty() =~= enc_seq(items, f) + f(x));
    } else {
        assert(items.push(x).skip(1) =~= items.skip(1).push(x));
        lemma_enc_seq_push(items.skip(1), x, f);
        assert(items.push(x)[0] == items[0]);
        assert(enc_seq(items.push(x), f) == f(items[0]) + (enc_seq(items.skip(1), f) + f(x)));
        assert(f(items[0]) + (enc_seq(items.skip(1), f) + f(x)) =~= (f(items[0]) + enc_seq(
            items.skip(1),
            f,
        )) + f(x));
    }
}

/// Reads `count` consecutive items with the given item reader.
pub open spec fn dec_seq<T>(
    bytes: Seq<u8>,
    pos: int,
    count: nat,
    f: spec_fn(Seq<u8>, int) -> Option<(T, int)>,
) -> Option<(Seq<T>, int)>
    decreases count,
{
    if count == 0 {
        Some((Seq::empty(), pos))
    } else {
        match f(bytes, pos) {
            None => None,
            Some((x, p)) => {
                match dec_seq(bytes, p, (count - 1) as nat, f) {
                    None => None,
                    Some((xs, p2)) => Some((seq![x] + xs, p2)),
                }
            },
        }
    }
}

/// Reading one more item prepends it.
pub proof fn lemma_dec_seq_unfold<T>(
    bytes: Seq<u8>,
    pos: int,
    count: nat,
    f: spec_fn(Seq<u8>, int) -> Option<(T, int)>,
)
    requires
        count > 0,
    ensures
        dec_seq(bytes, pos, count, f) == (match f(bytes, pos) {
            None => None::<(Seq<T>, int)>,
            Some((x, p)) => {
                match dec_seq(bytes, p, (count - 1) as nat, f) {
                    None => None,
                    Some((xs, p2)) => Some((seq![x] + xs, p2)),
                }
            },
        }),
{
}

/// A decoded value and the position after it, compared deeply to what
/// a specification decoder returned.
pub open spec fn matches_dec_deep<X: DeepView>(r: Option<(X, usize)>, s: Option<(X::V, int)>) -> bool {
    match r {
        Some(x) => {
            match s {
                Some(sv) => sv.0 == x.0.deep_view() && sv.1 == x.1,
                None => false,
            }
        },
        None => s is None,
    }
}

/// A value that can travel on the wire: its encoding and decoding are
/// fixed by two specification functions, and the executable pair
/// follows them exactly.
pub trait WireItem: Sized + DeepView {
    /// The encoding of a value's model.
    spec fn enc_spec(m: Self::V) -> Seq<u8>;

    /// Reads one value's model at `pos`.
    spec fn dec_spec(bytes: Seq<u8>, pos: int) -> Option<(Self::V, int)>;

    /// Appends the encoding of this value.
    fn enc(&self, out: &mut Vec<u8>)
        ensures
            final(out)@ == old(out)@ + Self::enc_spec(self.deep_view()),
    ;

    /// Reads one value; mirrors `dec_spec` exactly.
    fn dec(buf: &Vec<u8>, pos: usize) -> (r: Option<(Self, usize)>)
        ensures
            matches_dec_deep(r, Self::dec_spec(buf@, pos as int)),
    ;

    /// True when the model is small enough to encode faithfully; every
    /// value a process can build is.
    spec fn enc_ok(m: Self::V) -> bool;

    /// Law: reading the encoding of any such model back yields it,
    /// wherever it sits in a byte stream.
    proof fn lemma_item_roundtrip(m: Self::V, pre: Seq<u8>, rest: Seq<u8>)
        requires
            Self::enc_ok(m),
        ensures
            Self::dec_spec(pre + Self::enc_spec(m) + rest, pre.len() as int) == Some(
                (m, pre.len() + Self::enc_spec(m).len() as int),
            ),
    ;
}

/// True when every item of the list, and the list itself, is small
/// enough to encode faithfully.
pub open spec fn list_enc_ok<T: WireItem>(items: Seq<T::V>) -> bool {
    items.len() < pow256(8) && forall|k: int| 0 <= k < items.len() ==> T::enc_ok(
        #[trigger] items[k],
    )
}

/// Law: reading back the concatenated encodings of a list of items
/// yields exactly those items.
pub proof fn lemma_seq_roundtrip<T: WireItem>(items: Seq<T::V>, pre: Seq<u8>, rest: Seq<u8>)
    requires
        forall|k: int| 0 <= k < items.len() ==> T::enc_ok(#[trigger] items[k]),
    ensures
        dec_seq(
            pre + enc_seq(items, enc_fn::<T>()) + rest,
            pre.len() as int,
            items.len(),
            dec_fn::<T>(),
        ) == Some((items, pre.len() + enc_seq(items, enc_fn::<T>()).len() as int)),
    decreases items.len(),
{
    let bytes = pre + enc_seq(items, enc_fn::<T>()) + rest;
    if items.len() == 0 {
        assert(enc_seq(items, enc_fn::<T>()) =~= Seq::<u8>::empty());
        assert(dec_seq(bytes, pre.len() as int, 0, dec_fn::<T>()) == Some(
            (Seq::<T::V>::empty(), pre.len() as int),
        ));
        assert(items =~= Seq::<T::V>::empty());
    } else {
        let x = items[0];
        let tail = items.skip(1);
        let ex = T::enc_spec(x);
        let etail = enc_seq(tail, enc_fn::<T>());
        assert(enc_fn::<T>()(x) == ex);
        assert(enc_seq(items, enc_fn::<T>()) == ex + etail);
        assert(pre + (ex + etail) + rest =~= pre + ex + (etail + rest));
        T::lemma_item_roundtrip(x, pre, etail + rest);
        let p = pre.len() + ex.len();
        assert(T::dec_spec(bytes, pre.len() as int) == Some((x, p as int)));
        assert(dec_fn::<T>()(bytes, pre.len() as int) == T::dec_spec(bytes, pre.len() as int));
        let pre2 = pre + ex;
        assert forall|k: int| 0 <= k < tail.len() implies T::enc_ok(#[trigger] tail[k]) by {
            assert(tail[k] == items[k + 1]);
        }
        lemma_seq_roundtrip::<T>(tail, pre2, rest);
        assert(pre2 + etail + rest =~= bytes);
        assert(pre2.len() == p);
        assert(dec_seq(bytes, p as int, tail.len(), dec_fn::<T>()) == Some(
            (tail, p + etail.len() as int),
        ));
        assert(dec_seq(bytes, pre.len() as int, items.len(), dec_fn::<T>()) == Some(
            (seq![x] + tail, p + etail.len() as int),
        ));
        assert(seq![x] + tail =~= items);
        assert(p + etail.len() == pre.len() + (ex + etail).len());
    }
}

/// Law: reading back an encoded list yields exactly its items.
pub proof fn lemma_list_roundtrip<T: WireItem>(items: Seq<T::V>, pre: Seq<u8>, rest: Seq<u8>)
    requires
        list_enc_ok::<T>(items),
    ensures
        dec_list_spec::<T>(pre + enc_list_spec::<T>(items) + rest, pre.len() as int) == Some(
            (items, pre.len() + enc_list_spec::<T>(items).len() as int),
        ),
{
    let bytes = pre + enc_list_spec::<T>(items) + rest;
    let eseq = enc_seq(items, enc_fn::<T>());
    crate::codec::lemma_le_roundtrip(pre, items.len(), 8, eseq + rest);
    assert(pre + enc_le(items.len(), 8) + (eseq + rest) =~= bytes);
    let p = pre.len() + 8;
    assert(enc_le(items.len(), 8).len() == 8) by {
        reveal_with_fuel(enc_le, 9);
    }
    assert(dec_le(bytes, pre.len() as int, 8) == Some((items.len(), p as int)));
    let pre2 = pre + enc_le(items.len(), 8);
    assert(pre2.len() == p);
    lemma_seq_roundtrip::<T>(items, pre2, rest);
    assert(pre2 + eseq + rest =~= bytes);
}

/// The item encoder of `T`, as a single function value.
pub open spec fn enc_fn<T: WireItem>() -> spec_fn(T::V) -> Seq<u8> {
    |m: T::V| T::enc_spec(m)
}

/// The item reader of `T`, as a single function value.
pub open spec fn dec_fn<T: WireItem>() -> spec_fn(Seq<u8>, int) -> Option<(T::V, int)> {
    |b: Seq<u8>, p: int| T::dec_spec(b, p)
}

/// The encoding of a list: an eight-byte count, then the items.
pub open spec fn enc_list_spec<T: WireItem>(items: Seq<T::V>) -> Seq<u8> {
    enc_le(items.len(), 8) + enc_seq(items, enc_fn::<T>())
}

/// Reads a count-prefixed list.
pub open spec fn dec_list_spec<T: WireItem>(bytes: Seq<u8>, pos: int) -> Option<
    (Seq<T::V>, int),
> {
    match dec_le(bytes, pos, 8) {
        None => None,
        Some((n, p)) => dec_seq(bytes, p, n, dec_fn::<T>()),
    }
}

/// Appends the count-prefixed encoding of all items.
pub fn encode_list<T: WireItem>(out: &mut Vec<u8>, items: &Vec<T>)
    ensures
        final(out)@ == old(out)@ + enc_list_spec::<T>(items.deep_view()),
{
    encode_le(out, items.len() as u64, 8);
    let ghost mid = out@;
    let mut i: usize = 0;
    proof {
        assert(items.deep_view().take(0) =~= Seq::<T::V>::empty());
        assert(mid + enc_seq(items.deep_view().take(0), enc_fn::<T>()) =~= mid);
    }
    while i < items.len()
        invariant
            i <= items@.len(),
            items.deep_view().len() == items@.len(),
            out@ == mid + enc_seq(items.deep_view().take(i as int), enc_fn::<T>()),
        decreases items@.len() - i,
    {
        let ghost done = items.deep_view().take(i as int);
        items[i].enc(out);
        proof {
            lemma_enc_seq_push(done, items.deep_view()[i as int], enc_fn::<T>());
            assert(done.push(items.deep_view()[i as int]) =~= items.deep_view().take(i + 1));
            assert(enc_fn::<T>()(items.deep_view()[i as int]) == T::enc_spec(
                items.deep_view()[i as int],
            ));
            assert(items[i as int].deep_view() == items.deep_view()[i as int]);
            assert((mid + enc_seq(done, enc_fn::<T>())) + T::enc_spec(items.deep_view()[i as int])
                =~= mid + (enc_seq(done, enc_fn::<T>()) + T::enc_spec(items.deep_view()[i as int])));
        }
        i += 1;
    }
    proof {
        assert(items.deep_view().take(items@.len() as int) =~= items.deep_view());
        assert(out@ =~= old(out)@ + enc_list_spec::<T>(items.deep_view()));
    }
}

/// Reads a count-prefixed list; mirrors `dec_list_spec` exactly.
pub fn decode_list<T: WireItem>(buf: &Vec<u8>, pos: usize) -> (r: Option<(Vec<T>, usize)>)
    ensures
        matches_dec_deep(r, dec_list_spec::<T>(buf@, pos as int)),
{
    proof {
        lemma_dec_le_bound(buf@, pos as int, 8);
        reveal_with_fuel(pow256, 9);
    }
    let count = match decode_le(buf, pos, 8) {
        None => {
            return None;
        },
        Some((n, p)) => (n, p),
    };
    let (count, start) = count;
    let mut acc: Vec<T> = Vec::new();
    let mut cur = start;
    let mut k: u64 = 0;
    proof {
        assert(acc.deep_view() =~= Seq::<T::V>::empty());
        let full = dec_seq(buf@, start as int, count as nat, dec_fn::<T>());
        if full is Some {
            let (xs, p2) = full->Some_0;
            assert(acc.deep_view() + xs =~= xs);
        }
    }
    while k < count
        invariant
            k <= count,
            dec_list_spec::<T>(buf@, pos as int) == dec_seq(
                buf@,
                start as int,
                count as nat,
                dec_fn::<T>(),
            ),
            dec_seq(buf@, start as int, count as nat, dec_fn::<T>()) == (match dec_seq(
                buf@,
                cur as int,
                (count - k) as nat,
                dec_fn::<T>(),
            ) {
                None => None::<(Seq<T::V>, int)>,
                Some((xs, p2)) => Some((acc.deep_view() + xs, p2)),
            }),
        decreases count - k,
    {
        proof {
            lemma_dec_seq_unfold(buf@, cur as int, (count - k) as nat, dec_fn::<T>());
            assert(dec_fn::<T>()(buf@, cur as int) == T::dec_spec(buf@, cur as int));
        }
        match T::dec(buf, cur) {
            None => {
                return None;
            },
            Some((x, p)) => {
                let ghost acc_before = acc.deep_view();
                let ghost xv = x.deep_view();
                acc.push(x);
                proof {
                    assert(acc.deep_view() =~= acc_before.push(xv));
                    let inner = dec_seq(buf@, p as int, (count - k - 1) as nat, dec_fn::<T>());
                    if inner is Some {
                        let (xs, p2) = inner->Some_0;
                        assert(acc_before + (seq![xv] + xs) =~= acc_before.push(xv) + xs);
                    }
                }
                cur = p;
                k += 1;
            },
        }
    }
    proof {
        assert(acc.deep_view() + Seq::<T::V>::empty() =~= acc.deep_view());
    }
    Some((acc, cur))
}

// ---------------------------------------------------------------------
// The items that appear inside packets.
// ---------------------------------------------------------------------
impl WireItem for PeerId {
    open spec fn enc_spec(m: Seq<u8>) -> Seq<u8> {
        enc_bytes(m)
    }

    open spec fn dec_spec(bytes: Seq<u8>, pos: int) -> Option<(Seq<u8>, int)> {
        dec_bytes(bytes, pos)
    }

    fn enc(&self, out: &mut Vec<u8>) {
        encode_bytes(out, &self.bytes);
    }

    fn dec(buf: &Vec<u8>, pos: usize) -> (r: Option<(Self, usize)>) {
        match decode_bytes(buf, pos) {
            None => None,
            Some((b, p)) => Some((PeerId { bytes: b }, p)),
        }
    }

    open spec fn enc_ok(m: Seq<u8>) -> bool {
        m.len() < pow256(8)
    }

    proof fn lemma_item_roundtrip(m: Seq<u8>, pre: Seq<u8>, rest: Seq<u8>) {
        crate::codec::lemma_bytes_roundtrip(pre, m, rest);
    }
}

impl WireItem for Vec<u8> {
    open spec fn enc_spec(m: Seq<u8>) -> Seq<u8> {
        enc_bytes(m)
    }

    open spec fn dec_spec(bytes: Seq<u8>, pos: int) -> Option<(Seq<u8>, int)> {
        dec_bytes(bytes, pos)
    }

    fn enc(&self, out: &mut Vec<u8>) {
        encode_bytes(out, self);
        proof {
            assert(self.deep_view() =~= self@);
        }
    }

    fn dec(buf: &Vec<u8>, pos: usize) -> (r: Option<(Self, usize)>) {
        match decode_bytes(buf, pos) {
            None => None,
            Some((b, p)) => {
                proof {
                    assert(b.deep_view() =~= b@);
                }
                Some((b, p))
            },
        }
    }

    open spec fn enc_ok(m: Seq<u8>) -> bool {
        m.len() < pow256(8)
    }

    proof fn lemma_item_roundtrip(m: Seq<u8>, pre: Seq<u8>, rest: Seq<u8>) {
        crate::codec::lemma_bytes_roundtrip(pre, m, rest);
    }
}

impl WireItem for String {
    open spec fn enc_spec(m: Seq<char>) -> Seq<u8> {
        enc_str(m)
    }

    open spec fn dec_spec(bytes: Seq<u8>, pos: int) -> Option<(Seq<char>, int)> {
        dec_str(bytes, pos)
    }

    fn enc(&self, out: &mut Vec<u8>) {
        encode_str(out, self.as_str());
    }

    fn dec(buf: &Vec<u8>, pos: usize) -> (r: Option<(Self, usize)>) {
        decode_str(buf, pos)
    }

    open spec fn enc_ok(m: Seq<char>) -> bool {
        encode_utf8(m).len() < pow256(8)
    }

    proof fn lemma_item_roundtrip(m: Seq<char>, pre: Seq<u8>, rest: Seq<u8>) {
        crate::codec::lemma_str_roundtrip(pre, m, rest);
    }
}

impl WireItem for Option<u16> {
    open spec fn enc_spec(m: Option<u16>) -> Seq<u8> {
        enc_opt_u16(m)
    }

    open spec fn dec_spec(bytes: Seq<u8>, pos: int) -> Option<(Option<u16>, int)> {
        dec_opt_u16(bytes, pos)
    }

    fn enc(&self, out: &mut Vec<u8>) {
        encode_opt_u16(out, self);
    }

    fn dec(buf: &Vec<u8>, pos: usize) -> (r: Option<(Self, usize)>) {
        decode_opt_u16(buf, pos)
    }

    open spec fn enc_ok(m: Option<u16>) -> bool {
        true
    }

    proof fn lemma_item_roundtrip(m: Option<u16>, pre: Seq<u8>, rest: Seq<u8>) {
        let bytes = pre + Self::enc_spec(m) + rest;
        match m {
            None => {
                assert(bytes[pre.len() as int] == 0u8);
            },
            Some(v) => {
                assert(bytes[pre.len() as int] == 1u8);
                let pre2 = pre + seq![1u8];
                assert(pre2 + enc_le(v as nat, 2) + rest =~= bytes);
                assert(v < pow256(2)) by {
                    reveal_with_fuel(pow256, 3);
                }
                crate::codec::lemma_le_roundtrip(pre2, v as nat, 2, rest);
                assert(enc_le(v as nat, 2).len() == 2) by {
                    reveal_with_fuel(enc_le, 3);
                }
                assert(dec_le(bytes, pre.len() as int + 1, 2) == Some(
                    (v as nat, pre.len() + 3int),
                ));
            },
        }
    }
}

impl WireItem for Query {
    open spec fn enc_spec(m: QueryV) -> Seq<u8> {
        enc_list_spec::<String>(m.words) + enc_le(m.min_matching as nat, 2)
    }

    open spec fn dec_spec(bytes: Seq<u8>, pos: int) -> Option<(QueryV, int)> {
        match dec_list_spec::<String>(bytes, pos) {
            None => None,
            Some((words, p)) => {
                match dec_le(bytes, p, 2) {
                    None => None,
                    Some((mm, p2)) => Some((QueryV { words, min_matching: mm as u16 }, p2)),
                }
            },
        }
    }

    fn enc(&self, out: &mut Vec<u8>) {
        encode_list::<String>(out, &self.words);
        encode_le(out, self.min_matching as u64, 2);
        proof {
            assert(out@ =~= old(out)@ + Self::enc_spec(self.deep_view()));
        }
    }

    fn dec(buf: &Vec<u8>, pos: usize) -> (r: Option<(Self, usize)>) {
        let (words, p) = match decode_list::<String>(buf, pos) {
            None => {
                return None;
            },
            Some(x) => x,
        };
        proof {
            lemma_dec_le_bound(buf@, p as int, 2);
            reveal_with_fuel(pow256, 3);
        }
        let (mm, p2) = match decode_le(buf, p, 2) {
            None => {
                return None;
            },
            Some(x) => x,
        };
        Some((Query { words, min_matching: mm as u16 }, p2))
    }

    open spec fn enc_ok(m: QueryV) -> bool {
        list_enc_ok::<String>(m.words)
    }

    proof fn lemma_item_roundtrip(m: QueryV, pre: Seq<u8>, rest: Seq<u8>) {
        let bytes = pre + Self::enc_spec(m) + rest;
        let ew = enc_list_spec::<String>(m.words);
        let emm = enc_le(m.min_matching as nat, 2);
        assert(pre + (ew + emm) + rest =~= pre + ew + (emm + rest));
        lemma_list_roundtrip::<String>(m.words, pre, emm + rest);
        let p = pre.len() + ew.len();
        assert(dec_list_spec::<String>(bytes, pre.len() as int) == Some((m.words, p as int)));
        let pre2 = pre + ew;
        assert(m.min_matching < pow256(2)) by {
            reveal_with_fuel(pow256, 3);
        }
        crate::codec::lemma_le_roundtrip(pre2, m.min_matching as nat, 2, rest);
        assert(pre2 + emm + rest =~= bytes);
        assert(enc_le(m.min_matching as nat, 2).len() == 2) by {
            reveal_with_fuel(enc_le, 3);
        }
        assert(dec_le(bytes, p as int, 2) == Some((m.min_matching as nat, p + 2int)));
        assert((QueryV { words: m.words, min_matching: ((m.min_matching as nat) as u16) }) == m);
    }
}

impl WireItem for LocalMatch {
    open spec fn enc_spec(m: LocalMatchV) -> Seq<u8> {
        enc_le(m.query as nat, 2) + enc_bytes(m.result)
    }

    open spec fn dec_spec(bytes: Seq<u8>, pos: int) -> Option<(LocalMatchV, int)> {
        match dec_le(bytes, pos, 2) {
            None => None,
            Some((q, p)) => {
                match dec_bytes(bytes, p) {
                    None => None,
                    Some((b, p2)) => Some((LocalMatchV { query: q as u16, result: b }, p2)),
                }
            },
        }
    }

    fn enc(&self, out: &mut Vec<u8>) {
        encode_le(out, self.query as u64, 2);
        encode_bytes(out, &self.result);
        proof {
            assert(out@ =~= old(out)@ + Self::enc_spec(self.deep_view()));
        }
    }

    fn dec(buf: &Vec<u8>, pos: usize) -> (r: Option<(Self, usize)>) {
        proof {
            lemma_dec_le_bound(buf@, pos as int, 2);
            reveal_with_fuel(pow256, 3);
        }
        let (q, p) = match decode_le(buf, pos, 2) {
            None => {
                return None;
            },
            Some(x) => x,
        };
        let (b, p2) = match decode_bytes(buf, p) {
            None => {
                return None;
            },
            Some(x) => x,
        };
        Some((LocalMatch { query: q as u16, result: b }, p2))
    }

    open spec fn enc_ok(m: LocalMatchV) -> bool {
        m.result.len() < pow256(8)
    }

    proof fn lemma_item_roundtrip(m: LocalMatchV, pre: Seq<u8>, rest: Seq<u8>) {
        let bytes = pre + Self::enc_spec(m) + rest;
        let eq = enc_le(m.query as nat, 2);
        let er = enc_bytes(m.result);
        assert(pre + (eq + er) + rest =~= pre + eq + (er + rest));
        assert(m.query < pow256(2)) by {
            reveal_with_fuel(pow256, 3);
        }
        crate::codec::lemma_le_roundtrip(pre, m.query as nat, 2, er + rest);
        assert(enc_le(m.query as nat, 2).len() == 2) by {
            reveal_with_fuel(enc_le, 3);
        }
        let p = pre.len() + 2;
        assert(dec_le(bytes, pre.len() as int, 2) == Some((m.query as nat, p as int)));
        let pre2 = pre + eq;
        crate::codec::lemma_bytes_roundtrip(pre2, m.result, rest);
        assert(pre2 + er + rest =~= bytes);
        assert(dec_bytes(bytes, p as int) == Some((m.result, p + er.len() as int)));
        assert((LocalMatchV { query: ((m.query as nat) as u16), result: m.result }) == m);
    }
}

impl WireItem for DistantMatch {
    open spec fn enc_spec(m: DistantMatchV) -> Seq<u8> {
        enc_list_spec::<Option<u16>>(m.queries) + enc_bytes(m.peer_id) + enc_list_spec::<String>(
            m.addresses,
        )
    }

    open spec fn dec_spec(bytes: Seq<u8>, pos: int) -> Option<(DistantMatchV, int)> {
        match dec_list_spec::<Option<u16>>(bytes, pos) {
            None => None,
            Some((queries, p)) => {
                match dec_bytes(bytes, p) {
                    None => None,
                    Some((peer, p2)) => {
                        match dec_list_spec::<String>(bytes, p2) {
                            None => None,
                            Some((addresses, p3)) => Some(
                                (DistantMatchV { queries, peer_id: peer, addresses }, p3),
                            ),
                        }
                    },
                }
            },
        }
    }

    fn enc(&self, out: &mut Vec<u8>) {
        encode_list::<Option<u16>>(out, &self.queries);
        encode_bytes(out, &self.peer_id.bytes);
        encode_list::<String>(out, &self.addresses);
        proof {
            assert(out@ =~= old(out)@ + Self::enc_spec(self.deep_view()));
        }
    }

    fn dec(buf: &Vec<u8>, pos: usize) -> (r: Option<(Self, usize)>) {
        let (queries, p) = match decode_list::<Option<u16>>(buf, pos) {
            None => {
                return None;
            },
            Some(x) => x,
        };
        let (peer, p2) = match decode_bytes(buf, p) {
            None => {
                return None;
            },
            Some(x) => x,
        };
        let (addresses, p3) = match decode_list::<String>(buf, p2) {
            None => {
                return None;
            },
            Some(x) => x,
        };
        Some((DistantMatch { queries, peer_id: PeerId { bytes: peer }, addresses }, p3))
    }

    open spec fn enc_ok(m: DistantMatchV) -> bool {
        &&& list_enc_ok::<Option<u16>>(m.queries)
        &&& m.peer_id.len() < pow256(8)
        &&& list_enc_ok::<String>(m.addresses)
    }

    proof fn lemma_item_roundtrip(m: DistantMatchV, pre: Seq<u8>, rest: Seq<u8>) {
        let bytes = pre + Self::enc_spec(m) + rest;
        let eq = enc_list_spec::<Option<u16>>(m.queries);
        let ep = enc_bytes(m.peer_id);
        let ea = enc_list_spec::<String>(m.addresses);
        assert(pre + (eq + ep + ea) + rest =~= pre + eq + (ep + (ea + rest)));
        lemma_list_roundtrip::<Option<u16>>(m.queries, pre, ep + (ea + rest));
        let p = pre.len() + eq.len();
        assert(dec_list_spec::<Option<u16>>(bytes, pre.len() as int) == Some(
            (m.queries, p as int),
        ));
        let pre2 = pre + eq;
        crate::codec::lemma_bytes_roundtrip(pre2, m.peer_id, ea + rest);
        assert(pre2 + ep + (ea + rest) =~= bytes);
        let p2 = p + ep.len();
        assert(dec_bytes(bytes, p as int) == Some((m.peer_id, p2 as int)));
        let pre3 = pre2 + ep;
        lemma_list_roundtrip::<String>(m.addresses, pre3, rest);
        assert(pre3 + ea + rest =~= bytes);
        assert(pre3.len() == p2);
        assert(dec_list_spec::<String>(bytes, p2 as int) == Some(
            (m.addresses, p2 + ea.len() as int),
        ));
        assert((DistantMatchV { queries: m.queries, peer_id: m.peer_id, addresses: m.addresses })
            == m);
    }
}

// ---------------------------------------------------------------------
// Whole packet bodies.
// ---------------------------------------------------------------------
/// The encoding of a `GetFilters` body.
pub open spec fn enc_get_filters(m: GetFiltersV) -> Seq<u8> {
    seq![m.filter_count] + enc_mtm(m.interval) + enc_list_spec::<PeerId>(m.blocked_peers)
}

/// Reads a `GetFilters` body.
pub open spec fn dec_get_filters(bytes: Seq<u8>, pos: int) -> Option<(GetFiltersV, int)> {
    if pos < 0 || pos >= bytes.len() {
        None
    } else {
        let fc = bytes[pos];
        match dec_mtm(bytes, pos + 1) {
            None => None,
            Some((interval, p)) => {
                match dec_list_spec::<PeerId>(bytes, p) {
                    None => None,
                    Some((blocked, p2)) => Some(
                        (GetFiltersV { filter_count: fc, interval, blocked_peers: blocked }, p2),
                    ),
                }
            },
        }
    }
}

/// The encoding of a `Search` body.
pub open spec fn enc_search(m: SearchV) -> Seq<u8> {
    enc_list_spec::<Query>(m.queries)
}

/// Reads a `Search` body.
pub open spec fn dec_search(bytes: Seq<u8>, pos: int) -> Option<(SearchV, int)> {
    match dec_list_spec::<Query>(bytes, pos) {
        None => None,
        Some((queries, p)) => Some((SearchV { queries }, p)),
    }
}

/// The encoding of a `Disconnect` body.
pub open spec fn enc_disconnect(m: DisconnectV) -> Seq<u8> {
    enc_str(m.reason) + enc_opt_u32(m.try_again_in)
}

/// Reads a `Disconnect` body.
pub open spec fn dec_disconnect(bytes: Seq<u8>, pos: int) -> Option<(DisconnectV, int)> {
    match dec_str(bytes, pos) {
        None => None,
        Some((reason, p)) => {
            match dec_opt_u32(bytes, p) {
                None => None,
                Some((t, p2)) => Some((DisconnectV { reason, try_again_in: t }, p2)),
            }
        },
    }
}

/// The encoding of a request: a one-byte tag, then the body.
pub open spec fn enc_request(m: RequestV) -> Seq<u8> {
    match m {
        RequestV::GetFilters(g) => seq![0u8] + enc_get_filters(g),
        RequestV::PostFilters => seq![1u8],
        RequestV::Search(s) => seq![2u8] + enc_search(s),
        RequestV::Disconnect(d) => seq![3u8] + enc_disconnect(d),
    }
}

/// Reads a request; unknown tags are rejected.
pub open spec fn dec_request(bytes: Seq<u8>, pos: int) -> Option<(RequestV, int)> {
    if pos < 0 || pos >= bytes.len() {
        None
    } else {
        let tag = bytes[pos];
        if tag == 0 {
            match dec_get_filters(bytes, pos + 1) {
                None => None,
                Some((g, p)) => Some((RequestV::GetFilters(g), p)),
            }
        } else if tag == 1 {
            Some((RequestV::PostFilters, pos + 1))
        } else if tag == 2 {
            match dec_search(bytes, pos + 1) {
                None => None,
                Some((s, p)) => Some((RequestV::Search(s), p)),
            }
        } else if tag == 3 {
            match dec_disconnect(bytes, pos + 1) {
                None => None,
                Some((d, p)) => Some((RequestV::Disconnect(d), p)),
            }
        } else {
            None
        }
    }
}

/// The encoding of an `UpdateFilters` body.
pub open spec fn enc_update_filters(m: UpdateFiltersV) -> Seq<u8> {
    enc_list_spec::<Vec<u8>>(m.filters)
}

/// Reads an `UpdateFilters` body.
pub open spec fn dec_update_filters(bytes: Seq<u8>, pos: int) -> Option<(UpdateFiltersV, int)> {
    match dec_list_spec::<Vec<u8>>(bytes, pos) {
        None => None,
        Some((filters, p)) => Some((UpdateFiltersV { filters }, p)),
    }
}

/// The encoding of a `Results` body.
pub open spec fn enc_results(m: ResultsV) -> Seq<u8> {
    enc_list_spec::<DistantMatch>(m.distant_matches) + enc_list_spec::<LocalMatch>(m.matches)
}

/// Reads a `Results` body.
pub open spec fn dec_results(bytes: Seq<u8>, pos: int) -> Option<(ResultsV, int)> {
    match dec_list_spec::<DistantMatch>(bytes, pos) {
        None => None,
        Some((dm, p)) => {
            match dec_list_spec::<LocalMatch>(bytes, p) {
                None => None,
                Some((lm, p2)) => Some((ResultsV { distant_matches: dm, matches: lm }, p2)),
            }
        },
    }
}

/// The encoding of a response: a one-byte tag, then the body.
pub open spec fn enc_response(m: ResponseV) -> Seq<u8> {
    match m {
        ResponseV::ConfirmRefresh(t) => seq![0u8] + enc_mtm(t),
        ResponseV::UpdateFilters(u) => seq![1u8] + enc_update_filters(u),
        ResponseV::Results(r) => seq![2u8] + enc_results(r),
        ResponseV::Disconnect(d) => seq![3u8] + enc_disconnect(d),
    }
}

/// Reads a response; unknown tags are rejected.
pub open spec fn dec_response(bytes: Seq<u8>, pos: int) -> Option<(ResponseV, int)> {
    if pos < 0 || pos >= bytes.len() {
        None
    } else {
        let tag = bytes[pos];
        if tag == 0 {
            match dec_mtm(bytes, pos + 1) {
                None => None,
                Some((t, p)) => Some((ResponseV::ConfirmRefresh(t), p)),
            }
        } else if tag == 1 {
            match dec_update_filters(bytes, pos + 1) {
                None => None,
                Some((u, p)) => Some((ResponseV::UpdateFilters(u), p)),
            }
        } else if tag == 2 {
            match dec_results(bytes, pos + 1) {
                None => None,
                Some((r, p)) => Some((ResponseV::Results(r), p)),
            }
        } else if tag == 3 {
            match dec_disconnect(bytes, pos + 1) {
                None => None,
                Some((d, p)) => Some((ResponseV::Disconnect(d), p)),
            }
        } else {
            None
        }
    }
}

/// Serialises a request body.
pub fn encode_request(req: &RequestPacket) -> (r: Vec<u8>)
    ensures
        r@ == enc_request(req@),
{
    let mut out: Vec<u8> = Vec::new();
    match req {
        RequestPacket::GetFilters(g) => {
            out.push(0u8);
            out.push(g.filter_count);
            encode_mtm(&mut out, &g.interval);
            encode_list::<PeerId>(&mut out, &g.blocked_peers);
            proof {
                assert(seq![g.filter_count] + enc_mtm(g.interval) + enc_list_spec::<PeerId>(
                    g.blocked_peers.deep_view(),
                ) =~= out@.skip(1));
                assert(out@ =~= enc_request(req@));
            }
        },
        RequestPacket::PostFilters => {
            out.push(1u8);
            proof {
                assert(out@ =~= enc_request(req@));
            }
        },
        RequestPacket::Search(s) => {
            out.push(2u8);
            encode_list::<Query>(&mut out, &s.queries);
            proof {
                assert(out@ =~= enc_request(req@));
            }
        },
        RequestPacket::Disconnect(d) => {
            out.push(3u8);
            encode_str(&mut out, d.reason.as_str());
            encode_opt_u32(&mut out, &d.try_again_in);
            proof {
                assert(out@ =~= enc_request(req@));
            }
        },
    }
    out
}

/// Reads a request body; the whole buffer must be one request.
pub fn decode_request(buf: &Vec<u8>) -> (r: Option<RequestPacket>)
    ensures
        ({
            let s = dec_request(buf@, 0);
            match r {
                Some(x) => s matches Some(sv) && sv.0 == x@ && sv.1 == buf@.len(),
                None => s is None || (s matches Some(sv) && sv.1 != buf@.len()),
            }
        }),
{
    if buf.len() == 0 {
        return None;
    }
    let tag = buf[0];
    if tag == 0 {
        let fc = if buf.len() < 2 {
            return None;
        } else {
            buf[1]
        };
        let (interval, p) = match decode_mtm(buf, 2) {
            None => {
                return None;
            },
            Some(x) => x,
        };
        let (blocked, p2) = match decode_list::<PeerId>(buf, p) {
            None => {
                return None;
            },
            Some(x) => x,
        };
        if p2 != buf.len() {
            return None;
        }
        Some(
            RequestPacket::GetFilters(
                GetFiltersPacket { filter_count: fc, interval, blocked_peers: blocked },
            ),
        )
    } else if tag == 1 {
        if buf.len() != 1 {
            return None;
        }
        Some(RequestPacket::PostFilters)
    } else if tag == 2 {
        let (queries, p) = match decode_list::<Query>(buf, 1) {
            None => {
                return None;
            },
            Some(x) => x,
        };
        if p != buf.len() {
            return None;
        }
        proof {
            assert(queries.deep_view() =~= queries@.map_values(|q: Query| q@));
        }
        Some(RequestPacket::Search(SearchPacket { queries }))
    } else if tag == 3 {
        let (reason, p) = match decode_str(buf, 1) {
            None => {
                return None;
            },
            Some(x) => x,
        };
        let (t, p2) = match decode_opt_u32(buf, p) {
            None => {
                return None;
            },
            Some(x) => x,
        };
        if p2 != buf.len() {
            return None;
        }
        Some(RequestPacket::Disconnect(DisconnectPacket { reason, try_again_in: t }))
    } else {
        None
    }
}

/// Serialises a response body.
pub fn encode_response(resp: &ResponsePacket) -> (r: Vec<u8>)
    ensures
        r@ == enc_response(resp@),
{
    let mut out: Vec<u8> = Vec::new();
    match resp {
        ResponsePacket::ConfirmRefresh(t) => {
            out.push(0u8);
            encode_mtm(&mut out, t);
            proof {
                assert(out@ =~= enc_response(resp@));
            }
        },
        ResponsePacket::UpdateFilters(u) => {
            out.push(1u8);
            encode_list::<Vec<u8>>(&mut out, &u.filters);
            proof {
                assert(out@ =~= enc_response(resp@));
            }
        },
        ResponsePacket::Results(res) => {
            out.push(2u8);
            encode_list::<DistantMatch>(&mut out, &res.distant_matches);
            encode_list::<LocalMatch>(&mut out, &res.matches);
            proof {
                assert(out@ =~= enc_response(resp@));
            }
        },
        ResponsePacket::Disconnect(d) => {
            out.push(3u8);
            encode_str(&mut out, d.reason.as_str());
            encode_opt_u32(&mut out, &d.try_again_in);
            proof {
                assert(out@ =~= enc_response(resp@));
            }
        },
    }
    out
}

/// Reads a response body; the whole buffer must be one response.
pub fn decode_response(buf: &Vec<u8>) -> (r: Option<ResponsePacket>)
    ensures
        ({
            let s = dec_response(buf@, 0);
            match r {
                Some(x) => s matches Some(sv) && sv.0 == x@ && sv.1 == buf@.len(),
                None => s is None || (s matches Some(sv) && sv.1 != buf@.len()),
            }
        }),
{
    if buf.len() == 0 {
        return None;
    }
    let tag = buf[0];
    if tag == 0 {
        let (t, p) = match decode_mtm(buf, 1) {
            None => {
                return None;
            },
            Some(x) => x,
        };
        if p != buf.len() {
            return None;
        }
        Some(ResponsePacket::ConfirmRefresh(t))
    } else if tag == 1 {
        let (filters, p) = match decode_list::<Vec<u8>>(buf, 1) {
            None => {
                return None;
            },
            Some(x) => x,
        };
        if p != buf.len() {
            return None;
        }
        Some(ResponsePacket::UpdateFilters(UpdateFiltersPacket { filters }))
    } else if tag == 2 {
        let (dm, p) = match decode_list::<DistantMatch>(buf, 1) {
            None => {
                return None;
            },
            Some(x) => x,
        };
        let (lm, p2) = match decode_list::<LocalMatch>(buf, p) {
            None => {
                return None;
            },
            Some(x) => x,
        };
        if p2 != buf.len() {
            return None;
        }
        Some(ResponsePacket::Results(ResultsPacket { distant_matches: dm, matches: lm }))
    } else if tag == 3 {
        let (reason, p) = match decode_str(buf, 1) {
            None => {
                return None;
            },
            Some(x) => x,
        };
        let (t, p2) = match decode_opt_u32(buf, p) {
            None => {
                return None;
            },
            Some(x) => x,
        };
        if p2 != buf.len() {
            return None;
        }
        Some(ResponsePacket::Disconnect(DisconnectPacket { reason, try_again_in: t }))
    } else {
        None
    }
}

// ---------------------------------------------------------------------
// Framing.
// ---------------------------------------------------------------------
/// The largest body a frame may carry.
pub const MAX_FRAME_LEN: usize = 5_000_000;

/// The encoding of a frame: the body's length as a varint, then the
/// body.
pub open spec fn enc_frame(body: Seq<u8>) -> Seq<u8> {
    enc_varint(body.len()) + body
}

/// Reads one frame at `pos`: a varint length of at most
/// `MAX_FRAME_LEN`, then that many body bytes.
pub open spec fn dec_frame(bytes: Seq<u8>, pos: int) -> Option<(Seq<u8>, int)> {
    match dec_varint(bytes, pos, 10) {
        None => None,
        Some((n, p)) => {
            if n > MAX_FRAME_LEN {
                None
            } else if p + n <= bytes.len() {
                Some((bytes.subrange(p, p + n), p + n))
            } else {
                None
            }
        },
    }
}

/// Frames a body for the wire; oversize bodies are refused.
pub fn frame_body(body: &Vec<u8>) -> (r: Option<Vec<u8>>)
    ensures
        r is Some <==> body@.len() <= MAX_FRAME_LEN,
        r matches Some(f) ==> f@ == enc_frame(body@),
{
    if body.len() > MAX_FRAME_LEN {
        return None;
    }
    let mut out: Vec<u8> = Vec::new();
    encode_varint(&mut out, body.len() as u64);
    let ghost mid = out@;
    let mut i: usize = 0;
    while i < body.len()
        invariant
            i <= body@.len(),
            out@ == mid + body@.subrange(0, i as int),
        decreases body@.len() - i,
    {
        out.push(body[i]);
        proof {
            assert(out@ =~= mid + body@.subrange(0, i + 1));
        }
        i += 1;
    }
    proof {
        assert(body@.subrange(0, body@.len() as int) =~= body@);
        assert(out@ =~= enc_frame(body@));
    }
    Some(out)
}

/// Reads one frame; mirrors `dec_frame` exactly.
pub fn read_frame(buf: &Vec<u8>, pos: usize) -> (r: Option<(Vec<u8>, usize)>)
    ensures
        matches_dec(r, dec_frame(buf@, pos as int)),
{
    let (n, p) = match decode_varint(buf, pos) {
        None => {
            proof {
                let s = dec_varint(buf@, pos as int, 10);
                if s is Some {
                    let n0 = s->Some_0.0;
                    assert(n0 > u64::MAX >= MAX_FRAME_LEN);
                }
            }
            return None;
        },
        Some(x) => x,
    };
    if n > MAX_FRAME_LEN as u64 {
        return None;
    }
    let n = n as usize;
    if n > buf.len() || p > buf.len() - n {
        return None;
    }
    let mut body: Vec<u8> = Vec::new();
    let mut i: usize = 0;
    while i < n
        invariant
            i <= n,
            p + n <= buf@.len(),
            buf@.len() <= usize::MAX,
            body@ == buf@.subrange(p as int, p + i),
        decreases n - i,
    {
        body.push(buf[p + i]);
        proof {
            assert(body@ =~= buf@.subrange(p as int, p + i + 1));
        }
        i += 1;
    }
    Some((body, p + n))
}

/// Reading a min/target/max tuple back yields the tuple written.
pub proof fn lemma_mtm_roundtrip(m: MinTargetMax, pre: Seq<u8>, rest: Seq<u8>)
    ensures
        dec_mtm(pre + enc_mtm(m) + rest, pre.len() as int) == Some(
            (m, pre.len() + enc_mtm(m).len() as int),
        ),
{
    let bytes = pre + enc_mtm(m) + rest;
    let e1 = enc_le(m.min as nat, 8);
    let e2 = enc_le(m.target as nat, 8);
    let e3 = enc_le(m.max as nat, 8);
    assert(usize::MAX < pow256(8)) by {
        reveal_with_fuel(pow256, 9);
    }
    assert(enc_le(m.min as nat, 8).len() == 8 && enc_le(m.target as nat, 8).len() == 8 && enc_le(
        m.max as nat,
        8,
    ).len() == 8) by {
        reveal_with_fuel(enc_le, 9);
    }
    assert(pre + (e1 + e2 + e3) + rest =~= pre + e1 + (e2 + (e3 + rest)));
    crate::codec::lemma_le_roundtrip(pre, m.min as nat, 8, e2 + (e3 + rest));
    let p1 = pre.len() + 8;
    assert(dec_le(bytes, pre.len() as int, 8) == Some((m.min as nat, p1 as int)));
    let pre2 = pre + e1;
    crate::codec::lemma_le_roundtrip(pre2, m.target as nat, 8, e3 + rest);
    assert(pre2 + e2 + (e3 + rest) =~= bytes);
    let p2 = p1 + 8;
    assert(dec_le(bytes, p1 as int, 8) == Some((m.target as nat, p2 as int)));
    let pre3 = pre2 + e2;
    crate::codec::lemma_le_roundtrip(pre3, m.max as nat, 8, rest);
    assert(pre3 + e3 + rest =~= bytes);
    assert(dec_le(bytes, p2 as int, 8) == Some((m.max as nat, p2 + 8int)));
    assert((MinTargetMax {
        min: ((m.min as nat) as usize),
        target: ((m.target as nat) as usize),
        max: ((m.max as nat) as usize),
    }) == m);
}

/// Reading an optional `u32` back yields the value written.
pub proof fn lemma_opt_u32_roundtrip(m: Option<u32>, pre: Seq<u8>, rest: Seq<u8>)
    ensures
        dec_opt_u32(pre + enc_opt_u32(m) + rest, pre.len() as int) == Some(
            (m, pre.len() + enc_opt_u32(m).len() as int),
        ),
{
    let bytes = pre + enc_opt_u32(m) + rest;
    match m {
        None => {
            assert(bytes[pre.len() as int] == 0u8);
        },
        Some(v) => {
            assert(bytes[pre.len() as int] == 1u8);
            let pre2 = pre + seq![1u8];
            assert(pre2 + enc_le(v as nat, 4) + rest =~= bytes);
            assert(v < pow256(4)) by {
                reveal_with_fuel(pow256, 5);
            }
            crate::codec::lemma_le_roundtrip(pre2, v as nat, 4, rest);
            assert(enc_le(v as nat, 4).len() == 4) by {
                reveal_with_fuel(enc_le, 5);
            }
            assert(dec_le(bytes, pre.len() as int + 1, 4) == Some((v as nat, pre.len() + 5int)));
        },
    }
}

/// True when a request's lists and strings are small enough to encode
/// faithfully; every request a process can build is.
pub open spec fn request_enc_ok(m: RequestV) -> bool {
    match m {
        RequestV::GetFilters(g) => list_enc_ok::<PeerId>(g.blocked_peers),
        RequestV::PostFilters => true,
        RequestV::Search(s) => list_enc_ok::<Query>(s.queries),
        RequestV::Disconnect(d) => encode_utf8(d.reason).len() < pow256(8),
    }
}

/// Law: reading an encoded request back yields the request written,
/// and consumes exactly its encoding.
#[verifier::rlimit(100)]
#[verifier::spinoff_prover]
pub proof fn lemma_request_roundtrip(m: RequestV, pre: Seq<u8>, rest: Seq<u8>)
    requires
        request_enc_ok(m),
    ensures
        dec_request(pre + enc_request(m) + rest, pre.len() as int) == Some(
            (m, pre.len() + enc_request(m).len() as int),
        ),
{
    let bytes = pre + enc_request(m) + rest;
    match m {
        RequestV::GetFilters(g) => {
            assert(bytes[pre.len() as int] == 0u8);
            let efc = seq![g.filter_count];
            let ei = enc_mtm(g.interval);
            let eb = enc_list_spec::<PeerId>(g.blocked_peers);
            assert(pre + (seq![0u8] + (efc + ei + eb)) + rest =~= (pre + seq![0u8]) + efc + (ei + (
            eb + rest)));
            let pre1 = pre + seq![0u8];
            assert(bytes[pre1.len() as int] == g.filter_count);
            let pre2 = pre1 + efc;
            lemma_mtm_roundtrip(g.interval, pre2, eb + rest);
            assert(pre2 + ei + (eb + rest) =~= bytes);
            let p2 = pre2.len() + ei.len();
            assert(dec_mtm(bytes, pre2.len() as int) == Some((g.interval, p2 as int)));
            let pre3 = pre2 + ei;
            lemma_list_roundtrip::<PeerId>(g.blocked_peers, pre3, rest);
            assert(pre3 + eb + rest =~= bytes);
            assert(pre3.len() == p2);
            assert(dec_list_spec::<PeerId>(bytes, p2 as int) == Some(
                (g.blocked_peers, p2 + eb.len() as int),
            ));
            assert((GetFiltersV {
                filter_count: g.filter_count,
                interval: g.interval,
                blocked_peers: g.blocked_peers,
            }) == g);
        },
        RequestV::PostFilters => {
            assert(bytes[pre.len() as int] == 1u8);
        },
        RequestV::Search(sp) => {
            assert(bytes[pre.len() as int] == 2u8);
            let pre1 = pre + seq![2u8];
            let eq = enc_list_spec::<Query>(sp.queries);
            assert(pre + (seq![2u8] + eq) + rest =~= pre1 + eq + rest);
            lemma_list_roundtrip::<Query>(sp.queries, pre1, rest);
            assert((SearchV { queries: sp.queries }) == sp);
        },
        RequestV::Disconnect(d) => {
            assert(bytes[pre.len() as int] == 3u8);
            let pre1 = pre + seq![3u8];
            let er = enc_str(d.reason);
            let et = enc_opt_u32(d.try_again_in);
            assert(pre + (seq![3u8] + (er + et)) + rest =~= pre1 + er + (et + rest));
            crate::codec::lemma_str_roundtrip(pre1, d.reason, et + rest);
            let p1 = pre1.len() + er.len();
            assert(dec_str(bytes, pre1.len() as int) == Some((d.reason, p1 as int)));
            let pre2 = pre1 + er;
            lemma_opt_u32_roundtrip(d.try_again_in, pre2, rest);
            assert(pre2 + et + rest =~= bytes);
            assert(dec_opt_u32(bytes, p1 as int) == Some((d.try_again_in, p1 + et.len() as int)));
            assert((DisconnectV { reason: d.reason, try_again_in: d.try_again_in }) == d);
        },
    }
}

/// True when a response's lists and strings are small enough to
/// encode faithfully; every response a process can build is.
pub open spec fn response_enc_ok(m: ResponseV) -> bool {
    match m {
        ResponseV::ConfirmRefresh(_) => true,
        ResponseV::UpdateFilters(u) => list_enc_ok::<Vec<u8>>(u.filters),
        ResponseV::Results(r) => list_enc_ok::<DistantMatch>(r.distant_matches)
            && list_enc_ok::<LocalMatch>(r.matches),
        ResponseV::Disconnect(d) => encode_utf8(d.reason).len() < pow256(8),
    }
}

/// Law: reading an encoded response back yields the response written,
/// and consumes exactly its encoding.
#[verifier::rlimit(100)]
#[verifier::spinoff_prover]
pub proof fn lemma_response_roundtrip(m: ResponseV, pre: Seq<u8>, rest: Seq<u8>)
    requires
        response_enc_ok(m),
    ensures
        dec_response(pre + enc_response(m) + rest, pre.len() as int) == Some(
            (m, pre.len() + enc_response(m).len() as int),
        ),
{
    let bytes = pre + enc_response(m) + rest;
    match m {
        ResponseV::ConfirmRefresh(t) => {
            assert(bytes[pre.len() as int] == 0u8);
            let pre1 = pre + seq![0u8];
            let et = enc_mtm(t);
            assert(pre + (seq![0u8] + et) + rest =~= pre1 + et + rest);
            lemma_mtm_roundtrip(t, pre1, rest);
        },
        ResponseV::UpdateFilters(u) => {
            assert(bytes[pre.len() as int] == 1u8);
            let pre1 = pre + seq![1u8];
            let ef = enc_list_spec::<Vec<u8>>(u.filters);
            assert(pre + (seq![1u8] + ef) + rest =~= pre1 + ef + rest);
            lemma_list_roundtrip::<Vec<u8>>(u.filters, pre1, rest);
            assert((UpdateFiltersV { filters: u.filters }) == u);
        },
        ResponseV::Results(r) => {
            assert(bytes[pre.len() as int] == 2u8);
            let pre1 = pre + seq![2u8];
            let ed = enc_list_spec::<DistantMatch>(r.distant_matches);
            let el = enc_list_spec::<LocalMatch>(r.matches);
            assert(pre + (seq![2u8] + (ed + el)) + rest =~= pre1 + ed + (el + rest));
            lemma_list_roundtrip::<DistantMatch>(r.distant_matches, pre1, el + rest);
            let p1 = pre1.len() + ed.len();
            assert(dec_list_spec::<DistantMatch>(bytes, pre1.len() as int) == Some(
                (r.distant_matches, p1 as int),
            ));
            let pre2 = pre1 + ed;
            lemma_list_roundtrip::<LocalMatch>(r.matches, pre2, rest);
            assert(pre2 + el + rest =~= bytes);
            assert(dec_list_spec::<LocalMatch>(bytes, p1 as int) == Some(
                (r.matches, p1 + el.len() as int),
            ));
            assert((ResultsV { distant_matches: r.distant_matches, matches: r.matches }) == r);
        },
        ResponseV::Disconnect(d) => {
            assert(bytes[pre.len() as int] == 3u8);
            let pre1 = pre + seq![3u8];
            let er = enc_str(d.reason);
            let et = enc_opt_u32(d.try_again_in);
            assert(pre + (seq![3u8] + (er + et)) + rest =~= pre1 + er + (et + rest));
            crate::codec::lemma_str_roundtrip(pre1, d.reason, et + rest);
            let p1 = pre1.len() + er.len();
            assert(dec_str(bytes, pre1.len() as int) == Some((d.reason, p1 as int)));
            let pre2 = pre1 + er;
            lemma_opt_u32_roundtrip(d.try_again_in, pre2, rest);
            assert(pre2 + et + rest =~= bytes);
            assert(dec_opt_u32(bytes, p1 as int) == Some((d.try_again_in, p1 + et.len() as int)));
            assert((DisconnectV { reason: d.reason, try_again_in: d.try_again_in }) == d);
        },
    }
}

/// Reading a frame back yields the body written, for any body within
/// the frame cap.
pub proof fn lemma_frame_roundtrip(pre: Seq<u8>, body: Seq<u8>, rest: Seq<u8>)
    requires
        body.len() <= MAX_FRAME_LEN,
    ensures
        dec_frame(pre + enc_frame(body) + rest, pre.len() as int) == Some(
            (body, pre.len() + enc_frame(body).len() as int),
        ),
{
    let bytes = pre + enc_frame(body) + rest;
    assert(pow128(10) > MAX_FRAME_LEN) by {
        reveal_with_fuel(pow128, 11);
    }
    crate::codec::lemma_enc_varint_len(body.len(), 10);
    crate::codec::lemma_varint_roundtrip(pre, body.len(), body + rest, 10);
    assert(pre + enc_varint(body.len()) + (body + rest) =~= bytes);
    let p = pre.len() + enc_varint(body.len()).len();
    assert(dec_varint(bytes, pre.len() as int, 10) == Some((body.len(), p as int)));
    assert forall|k: int| 0 <= k < body.len() implies bytes[p + k] == body[k] by {
        assert(bytes[p + k] == (pre + enc_varint(body.len()) + (body + rest))[p + k]);
    }
    assert(bytes.subrange(p as int, p + body.len() as int) =~= body);
}

} // verus!
