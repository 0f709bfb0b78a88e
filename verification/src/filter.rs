//! The bit filter: a fixed-size bit array of `N` bytes used as an
//! approximate membership test for the words of a document corpus.

use vstd::prelude::*;

verus! {

/// True when bit `k` of byte `b` is set (bit 0 is the least significant).
pub open spec fn byte_bit(b: u8, k: u8) -> bool
    recommends
        k < 8,
{
    (b >> k) & 1u8 == 1u8
}

/// The bits of a byte sequence: bit `i` of the sequence is bit `i % 8`
/// of byte `i / 8`.
pub open spec fn bits_of_bytes(bytes: Seq<u8>) -> Seq<bool> {
    Seq::new(bytes.len() * 8, |i: int| byte_bit(bytes[i / 8], (i % 8) as u8))
}

/// No bit of a zero byte is set.
proof fn lemma_zero_byte_bits()
    by (bit_vector)
    ensures
        forall|k: u8| k < 8 ==> !byte_bit(0u8, k),
{
}

/// Setting or clearing bit `k` of a byte leaves every other bit as it was.
proof fn lemma_write_bit(b: u8, k: u8, v: bool)
    by (bit_vector)
    requires
        k < 8,
    ensures
        byte_bit(if v { b | (1u8 << k) } else { b & !(1u8 << k) }, k) == v,
        forall|j: u8|
            j < 8 && j != k ==> byte_bit(
                if v { b | (1u8 << k) } else { b & !(1u8 << k) },
                j,
            ) == byte_bit(b, j),
{
}

/// The bits of an OR of two bytes are the disjunctions of their bits.
proof fn lemma_or_bits(a: u8, b: u8)
    by (bit_vector)
    ensures
        forall|k: u8| k < 8 ==> byte_bit(a | b, k) == (byte_bit(a, k) || byte_bit(b, k)),
{
}

/// The pointwise disjunction of two bit sequences of equal length.
pub open spec fn or_bits(a: Seq<bool>, b: Seq<bool>) -> Seq<bool>
    recommends
        a.len() == b.len(),
{
    Seq::new(a.len(), |i: int| a[i] || b[i])
}

/// A fixed-size bit array of `N` bytes (`8 * N` bits). Level-0 filters
/// summarise the documents a node holds; higher levels aggregate the
/// filters of its seeders.
#[derive(Debug)]
pub struct Filter<const N: usize> {
    pub bytes: Vec<u8>,
}

impl<const N: usize> View for Filter<N> {
    type V = Seq<bool>;

    open spec fn view(&self) -> Seq<bool> {
        bits_of_bytes(self.bytes@)
    }
}

impl<const N: usize> Clone for Filter<N> {
    fn clone(&self) -> (r: Self)
        ensures
            r.byte_view() == self.byte_view(),
            r@ == self@,
            self.wf() ==> r.wf(),
    {
        let mut bytes: Vec<u8> = Vec::new();
        let mut i: usize = 0;
        while i < self.bytes.len()
            invariant
                i <= self.bytes@.len(),
                bytes@ == self.bytes@.subrange(0, i as int),
            decreases self.bytes@.len() - i,
        {
            bytes.push(self.bytes[i]);
            i += 1;
        }
        proof {
            assert(bytes@ =~= self.bytes@);
        }
        Filter { bytes }
    }
}

impl<const N: usize> Filter<N> {
    /// A well-formed filter holds exactly `N` bytes.
    pub open spec fn wf(&self) -> bool {
        self.bytes@.len() == N
    }

    /// The raw byte buffer of the filter.
    pub open spec fn byte_view(&self) -> Seq<u8> {
        self.bytes@
    }

    /// The all-zero filter.
    pub fn new() -> (r: Self)
        ensures
            r.wf(),
            r@.len() == 8 * N,
            forall|i: int| 0 <= i < r@.len() ==> !r@[i],
    {
        let mut bytes: Vec<u8> = Vec::new();
        while bytes.len() < N
            invariant
                bytes@.len() <= N,
                forall|i: int| 0 <= i < bytes@.len() ==> bytes@[i] == 0u8,
            decreases N - bytes.len(),
        {
            bytes.push(0u8);
        }
        let r = Filter { bytes };
        proof {
            lemma_zero_byte_bits();
            assert forall|i: int| 0 <= i < r@.len() implies !r@[i] by {
                assert(0 <= i / 8 < N && 0 <= i % 8 < 8) by (nonlinear_arith)
                    requires
                        0 <= i < N * 8,
                ;
            }
        }
        r
    }

    /// Reads bit `idx`; out-of-range indices read as unset.
    pub fn get_bit(&self, idx: usize) -> (r: bool)
        requires
            self.wf(),
        ensures
            r == (idx < 8 * N && self@[idx as int]),
    {
        if idx / 8 >= N {
            proof {
                assert(idx >= 8 * N) by (nonlinear_arith)
                    requires
                        idx / 8 >= N,
                ;
            }
            return false;
        }
        proof {
            assert(idx < 8 * N) by (nonlinear_arith)
                requires
                    idx / 8 < N,
            ;
        }
        let byte_idx = idx / 8;
        let bit_idx = (idx % 8) as u8;
        let b = self.bytes[byte_idx];
        ((b >> bit_idx) & 1u8) == 1u8
    }

    /// Writes bit `idx`; out-of-range indices are ignored.
    pub fn set_bit(&mut self, idx: usize, value: bool)
        requires
            old(self).wf(),
        ensures
            final(self).wf(),
            idx < 8 * N ==> final(self)@ == old(self)@.update(idx as int, value),
            idx >= 8 * N ==> final(self)@ == old(self)@,
    {
        if idx / 8 >= N {
            proof {
                assert(idx >= 8 * N) by (nonlinear_arith)
                    requires
                        idx / 8 >= N,
                ;
            }
            return;
        }
        proof {
            assert(idx < 8 * N) by (nonlinear_arith)
                requires
                    idx / 8 < N,
            ;
        }
        let byte_idx = idx / 8;
        let bit_idx = (idx % 8) as u8;
        let b = self.bytes[byte_idx];
        let nb = if value {
            b | (1u8 << bit_idx)
        } else {
            b & !(1u8 << bit_idx)
        };
        self.bytes[byte_idx] = nb;
        proof {
            lemma_write_bit(b, bit_idx, value);
            assert forall|i: int| 0 <= i < 8 * N implies self@[i] == old(self)@.update(
                idx as int,
                value,
            )[i] by {
                vstd::arithmetic::div_mod::lemma_fundamental_div_mod(i, 8);
                vstd::arithmetic::div_mod::lemma_fundamental_div_mod(idx as int, 8);
                assert(0 <= i % 8 < 8) by (nonlinear_arith);
                assert(0 <= i / 8 < N) by (nonlinear_arith)
                    requires
                        0 <= i < 8 * N,
                ;
                if i / 8 == byte_idx as int && i % 8 == bit_idx as int {
                    assert(i == idx);
                }
            }
            assert(self@ =~= old(self)@.update(idx as int, value));
        }
    }

    /// ORs another filter into this one, byte by byte; bit `i` of the
    /// result is set when it was set in either filter.
    pub fn bitor_assign_ref(&mut self, other: &Filter<N>)
        requires
            old(self).wf(),
            other.wf(),
        ensures
            final(self).wf(),
            final(self)@ == or_bits(old(self)@, other@),
    {
        let mut byte_idx: usize = 0;
        while byte_idx < N
            invariant
                self.wf(),
                other.wf(),
                byte_idx <= N,
                forall|j: int|
                    0 <= j < byte_idx ==> self.byte_view()[j] == (old(self).byte_view()[j]
                        | other.byte_view()[j]),
                forall|j: int| byte_idx <= j < N ==> self.byte_view()[j] == old(self).byte_view()[j],
            decreases N - byte_idx,
        {
            let a = self.bytes[byte_idx];
            let o = other.bytes[byte_idx];
            proof {
                assert(a == self.byte_view()[byte_idx as int]);
                assert(o == other.byte_view()[byte_idx as int]);
                assert(self.byte_view()[byte_idx as int] == old(self).byte_view()[byte_idx as int]);
            }
            self.bytes[byte_idx] = a | o;
            proof {
                assert(self.byte_view()[byte_idx as int] == (a | o));
            }
            byte_idx += 1;
        }
        proof {
            assert forall|i: int| 0 <= i < self@.len() implies self@[i] == or_bits(
                old(self)@,
                other@,
            )[i] by {
                assert(0 <= i / 8 < N && 0 <= i % 8 < 8) by (nonlinear_arith)
                    requires
                        0 <= i < 8 * N,
                ;
                let a = old(self).byte_view()[i / 8];
                let b = other.byte_view()[i / 8];
                let k = (i % 8) as u8;
                assert(self.byte_view()[i / 8] == (a | b));
                lemma_or_bits(a, b);
                assert(byte_bit(a | b, k) == (byte_bit(a, k) || byte_bit(b, k)));
            }
            assert(self@ =~= or_bits(old(self)@, other@));
        }
    }

    /// The indices of all set bits, in increasing order.
    pub fn get_all_set_bits(&self) -> (r: Vec<usize>)
        requires
            self.wf(),
            N <= usize::MAX / 8,
        ensures
            forall|i: int, j: int| 0 <= i < j < r@.len() ==> r@[i] < r@[j],
            forall|i: int| 0 <= i < r@.len() ==> r@[i] < 8 * N && self@[r@[i] as int],
            forall|b: int| 0 <= b < 8 * N && self@[b] ==> r@.contains(b as usize),
    {
        let mut r: Vec<usize> = Vec::new();
        let mut idx: usize = 0;
        proof {
            assert(8 * N <= usize::MAX) by (nonlinear_arith)
                requires
                    N <= usize::MAX / 8,
            ;
        }
        while idx < 8 * N
            invariant
                self.wf(),
                idx <= 8 * N,
                8 * N <= usize::MAX,
                forall|i: int, j: int| 0 <= i < j < r@.len() ==> r@[i] < r@[j],
                forall|i: int| 0 <= i < r@.len() ==> r@[i] < idx && self@[r@[i] as int],
                forall|b: int| 0 <= b < idx && self@[b] ==> r@.contains(b as usize),
            decreases 8 * N - idx,
        {
            let ghost r_old = r@;
            if self.get_bit(idx) {
                r.push(idx);
            }
            proof {
                assert forall|b: int| 0 <= b < idx + 1 && self@[b] implies r@.contains(
                    b as usize,
                ) by {
                    if b == idx {
                        assert(r@[r@.len() - 1] == idx);
                    } else {
                        assert(r_old.contains(b as usize));
                        let t = choose|t: int| 0 <= t < r_old.len() && r_old[t] == b as usize;
                        assert(r@[t] == b as usize);
                    }
                }
            }
            idx += 1;
        }
        r
    }

    /// The raw byte serialisation: exactly `N` bytes.
    pub fn to_bytes(&self) -> (r: Vec<u8>)
        requires
            self.wf(),
        ensures
            r@ == self.byte_view(),
            r@.len() == N,
    {
        let mut r: Vec<u8> = Vec::new();
        let mut i: usize = 0;
        while i < self.bytes.len()
            invariant
                self.wf(),
                i <= N,
                r@ == self.byte_view().subrange(0, i as int),
            decreases N - i,
        {
            r.push(self.bytes[i]);
            i += 1;
        }
        proof {
            assert(r@ =~= self.byte_view());
        }
        r
    }

    /// Reads a filter back from its raw byte serialisation; buffers of
    /// any length other than `N` are rejected.
    pub fn from_bytes(bytes: Vec<u8>) -> (r: Option<Self>)
        ensures
            r is Some <==> bytes@.len() == N,
            r matches Some(f) ==> f.wf() && f.byte_view() == bytes@,
    {
        if bytes.len() == N {
            Some(Filter { bytes })
        } else {
            None
        }
    }
}

/// Law: deserialising the serialisation of any well-formed filter
/// succeeds and yields a filter with the same bits. The hypotheses are
/// exactly the contracts of `to_bytes` and `from_bytes`.
pub proof fn lemma_filter_roundtrip<const N: usize>(
    f: Filter<N>,
    bytes: Vec<u8>,
    r: Option<Filter<N>>,
)
    requires
        f.wf(),
        bytes@ == f.byte_view(),
        r is Some <==> bytes@.len() == N,
        r matches Some(g) ==> g.wf() && g.byte_view() == bytes@,
    ensures
        r is Some,
        r->Some_0@ == f@,
        r->Some_0.wf(),
{
}

} // verus!
