//! The wire codec: little-endian primitives, length-prefixed byte
//! strings and strings, and the varint-framed packet bodies. Every
//! decoder is proved to behave exactly as its specification decoder;
//! every encoder appends exactly its specification encoding.

use vstd::prelude::*;
use vstd::utf8::{decode_utf8, encode_utf8, valid_utf8};

verus! {

/// 256 to the `w`-th power: the number of values `w` bytes can hold.
pub open spec fn pow256(w: nat) -> nat
    decreases w,
{
    if w == 0 {
        1
    } else {
        256 * pow256((w - 1) as nat)
    }
}

/// The little-endian encoding of `n` in exactly `w` bytes (high bits
/// beyond the width are dropped).
pub open spec fn enc_le(n: nat, w: nat) -> Seq<u8>
    decreases w,
{
    if w == 0 {
        Seq::empty()
    } else {
        seq![(n % 256) as u8] + enc_le(n / 256, (w - 1) as nat)
    }
}

/// Reads a `w`-byte little-endian number at `pos`; fails only when
/// fewer than `w` bytes remain.
pub open spec fn dec_le(bytes: Seq<u8>, pos: int, w: nat) -> Option<(nat, int)>
    decreases w,
{
    if pos < 0 || pos + w > bytes.len() {
        None
    } else if w == 0 {
        Some((0, pos))
    } else {
        match dec_le(bytes, pos + 1, (w - 1) as nat) {
            None => None,
            Some((v, p)) => Some(((bytes[pos] + 256 * v) as nat, p)),
        }
    }
}

/// A decoded little-endian number fits in its width.
pub proof fn lemma_dec_le_bound(bytes: Seq<u8>, pos: int, w: nat)
    ensures
        dec_le(bytes, pos, w) matches Some(r) ==> r.0 < pow256(w) && r.1 == pos + w,
    decreases w,
{
    if w > 0 {
        lemma_dec_le_bound(bytes, pos + 1, (w - 1) as nat);
    }
}

/// Reading a little-endian encoding back yields the number written,
/// provided it fits the width.
pub proof fn lemma_le_roundtrip(pre: Seq<u8>, n: nat, w: nat, rest: Seq<u8>)
    requires
        n < pow256(w),
    ensures
        dec_le(pre + enc_le(n, w) + rest, pre.len() as int, w) == Some((n, pre.len() + w as int)),
    decreases w,
{
    let bytes = pre + enc_le(n, w) + rest;
    if w == 0 {
    } else {
        let pre2 = pre + seq![(n % 256) as u8];
        assert(pre2 + enc_le(n / 256, (w - 1) as nat) + rest =~= bytes);
        assert(n / 256 < pow256((w - 1) as nat)) by (nonlinear_arith)
            requires
                n < pow256(w),
                pow256(w) == 256 * pow256((w - 1) as nat),
        ;
        lemma_le_roundtrip(pre2, n / 256, (w - 1) as nat, rest);
        assert(bytes[pre.len() as int] == (n % 256) as u8);
        assert(bytes[pre.len() as int] + 256 * (n / 256) == n) by (nonlinear_arith)
            requires
                bytes[pre.len() as int] == (n % 256) as u8,
                n % 256 < 256,
        ;
    }
}

/// Appends the `w`-byte little-endian encoding of `v`.
pub fn encode_le(out: &mut Vec<u8>, v: u64, w: usize)
    requires
        w <= 8,
    ensures
        final(out)@ == old(out)@ + enc_le(v as nat, w as nat),
        final(out)@.len() == old(out)@.len() + w,
{
    let mut v = v;
    let mut left = w;
    let ghost v0 = v as nat;
    while left > 0
        invariant
            left <= w,
            out@.len() == old(out)@.len() + w - left,
            old(out)@ + enc_le(v0, w as nat) == out@ + enc_le(v as nat, left as nat),
        decreases left,
    {
        let ghost out_before = out@;
        let b = (v % 256) as u8;
        out.push(b);
        v = v / 256;
        proof {
            assert(out@ =~= out_before + seq![b]);
            assert(out_before + (seq![b] + enc_le(v as nat, (left - 1) as nat)) =~= out@ + enc_le(
                v as nat,
                (left - 1) as nat,
            ));
        }
        left = left - 1;
    }
    proof {
        assert(enc_le(v as nat, 0) =~= Seq::<u8>::empty());
        assert(out@ + Seq::<u8>::empty() =~= out@);
        assert(out@ == old(out)@ + enc_le(v0, w as nat));
    }
}

/// Reads a `w`-byte little-endian number; mirrors `dec_le` exactly.
pub fn decode_le(buf: &Vec<u8>, pos: usize, w: usize) -> (r: Option<(u64, usize)>)
    requires
        w <= 8,
    ensures
        r is Some <==> dec_le(buf@, pos as int, w as nat) is Some,
        r matches Some(x) ==> {
            &&& dec_le(buf@, pos as int, w as nat) matches Some(s)
            &&& x.0 == s.0
            &&& x.1 == s.1
        },
    decreases w,
{
    if buf.len() < w || pos > buf.len() - w {
        return None;
    }
    if w == 0 {
        return Some((0, pos));
    }
    proof {
        lemma_dec_le_bound(buf@, pos as int + 1, (w - 1) as nat);
        lemma_pow256_le(( w - 1) as nat, 7);
    }
    match decode_le(buf, pos + 1, w - 1) {
        None => None,
        Some((v, p)) => {
            let b = buf[pos];
            proof {
                assert(b + 256 * v < 256 * pow256((w - 1) as nat)) by (nonlinear_arith)
                    requires
                        v < pow256((w - 1) as nat),
                        b < 256,
                ;
                assert(256 * pow256((w - 1) as nat) == pow256(w as nat));
                reveal_with_fuel(pow256, 9);
                assert(pow256(8) == 0x1_0000_0000_0000_0000);
            }
            Some((b as u64 + 256 * v, p))
        },
    }
}

/// `pow256` grows with the width.
pub proof fn lemma_pow256_le(a: nat, b: nat)
    requires
        a <= b,
    ensures
        pow256(a) <= pow256(b),
    decreases b,
{
    if a < b {
        lemma_pow256_le(a, (b - 1) as nat);
        assert(pow256(b) == 256 * pow256((b - 1) as nat));
        assert(pow256((b - 1) as nat) <= 256 * pow256((b - 1) as nat)) by (nonlinear_arith)
            requires
                pow256((b - 1) as nat) >= 0,
        ;
    }
}

// ---------------------------------------------------------------------
// Unsigned varint, used to frame packet bodies.
// ---------------------------------------------------------------------
#[via_fn]
proof fn enc_varint_decreases(n: nat) {
    assert(n >= 128 ==> n / 128 < n) by (nonlinear_arith);
}

/// The unsigned varint encoding of `n`: seven bits per byte, least
/// significant group first, high bit set on every byte but the last.
pub open spec fn enc_varint(n: nat) -> Seq<u8>
    decreases n,
    via enc_varint_decreases
{
    if n < 128 {
        seq![n as u8]
    } else {
        seq![(n % 128 + 128) as u8] + enc_varint(n / 128)
    }
}

/// Reads a varint at `pos`, giving up after `fuel` bytes; mirrors the
/// ten-byte limit of the executable reader.
pub open spec fn dec_varint(bytes: Seq<u8>, pos: int, fuel: nat) -> Option<(nat, int)>
    decreases fuel,
{
    if fuel == 0 || pos < 0 || pos >= bytes.len() {
        None
    } else {
        let b = bytes[pos];
        if b < 128 {
            Some((b as nat, pos + 1))
        } else {
            match dec_varint(bytes, pos + 1, (fuel - 1) as nat) {
                None => None,
                Some((v, p)) => Some(((((b - 128) + 128 * v)) as nat, p)),
            }
        }
    }
}

/// 128 to the `k`-th power.
pub open spec fn pow128(k: nat) -> nat
    decreases k,
{
    if k == 0 {
        1
    } else {
        128 * pow128((k - 1) as nat)
    }
}

/// A varint encoding of a number below `pow128(k)` takes at most `k`
/// bytes.
pub proof fn lemma_enc_varint_len(n: nat, k: nat)
    requires
        k >= 1,
        n < pow128(k),
    ensures
        enc_varint(n).len() <= k,
    decreases k,
{
    if n < 128 {
    } else {
        assert(pow128(k) == 128 * pow128((k - 1) as nat));
        assert(n / 128 < pow128((k - 1) as nat)) by (nonlinear_arith)
            requires
                n < 128 * pow128((k - 1) as nat),
        ;
        assert(pow128((k - 1) as nat) > 1) by (nonlinear_arith)
            requires
                n >= 128,
                n / 128 < pow128((k - 1) as nat),
        ;
        lemma_enc_varint_len(n / 128, (k - 1) as nat);
    }
}

/// Reading a varint encoding back yields the number written, provided
/// the reader's fuel covers its length.
pub proof fn lemma_varint_roundtrip(pre: Seq<u8>, n: nat, rest: Seq<u8>, fuel: nat)
    requires
        fuel >= enc_varint(n).len(),
    ensures
        dec_varint(pre + enc_varint(n) + rest, pre.len() as int, fuel) == Some(
            (n, pre.len() + enc_varint(n).len() as int),
        ),
    decreases n,
{
    let bytes = pre + enc_varint(n) + rest;
    if n < 128 {
        assert(bytes[pre.len() as int] == n as u8);
    } else {
        assert(n / 128 < n) by (nonlinear_arith)
            requires
                n >= 128,
        ;
        let b = (n % 128 + 128) as u8;
        let pre2 = pre + seq![b];
        assert(pre2 + enc_varint(n / 128) + rest =~= bytes);
        lemma_varint_roundtrip(pre2, n / 128, rest, (fuel - 1) as nat);
        assert(bytes[pre.len() as int] == b);
        assert((b - 128) + 128 * (n / 128) == n) by (nonlinear_arith)
            requires
                b == n % 128 + 128,
                n >= 128,
        ;
    }
}

/// Appends the varint encoding of `v`.
pub fn encode_varint(out: &mut Vec<u8>, v: u64)
    ensures
        final(out)@ == old(out)@ + enc_varint(v as nat),
{
    let mut v = v;
    let ghost v0 = v as nat;
    let ghost done: Seq<u8> = Seq::empty();
    proof {
        assert(out@ + enc_varint(v as nat) =~= old(out)@ + enc_varint(v0));
    }
    while v >= 128
        invariant
            old(out)@ + enc_varint(v0) == out@ + enc_varint(v as nat),
        decreases v,
    {
        let ghost out_before = out@;
        let b = (v % 128 + 128) as u8;
        out.push(b);
        proof {
            assert(out@ =~= out_before + seq![b]);
            assert(out_before + (seq![b] + enc_varint(v as nat / 128)) =~= out@ + enc_varint(
                v as nat / 128,
            ));
        }
        v = v / 128;
    }
    let ghost out_before = out@;
    out.push(v as u8);
    proof {
        assert(enc_varint(v as nat) =~= seq![v as u8]);
        assert(out@ =~= out_before + enc_varint(v as nat));
        assert(out@ =~= old(out)@ + enc_varint(v0));
    }
}

/// Reads a varint of at most `fuel` bytes; mirrors `dec_varint`, but
/// gives up on values beyond the `u64` range.
fn decode_varint_fuel(buf: &Vec<u8>, pos: usize, fuel: u8) -> (r: Option<(u64, usize)>)
    ensures
        ({
            let s = dec_varint(buf@, pos as int, fuel as nat);
            match r {
                Some(x) => s matches Some(sv) && sv.0 == x.0 && sv.1 == x.1,
                None => s is None || (s matches Some(sv) && sv.0 > u64::MAX),
            }
        }),
    decreases fuel,
{
    if fuel == 0 || pos >= buf.len() {
        return None;
    }
    let b = buf[pos];
    if b < 128 {
        Some((b as u64, pos + 1))
    } else {
        match decode_varint_fuel(buf, pos + 1, fuel - 1) {
            None => {
                proof {
                    let s_inner = dec_varint(buf@, pos as int + 1, (fuel - 1) as nat);
                    if s_inner is Some {
                        let sv0 = s_inner->Some_0.0;
                        assert((b - 128) + 128 * sv0 > u64::MAX) by (nonlinear_arith)
                            requires
                                sv0 > u64::MAX,
                        ;
                    }
                }
                None
            },
            Some((v, p)) => {
                if v > (u64::MAX - (b - 128) as u64) / 128 {
                    proof {
                        assert((b - 128) + 128 * v > u64::MAX) by (nonlinear_arith)
                            requires
                                v > (u64::MAX - (b - 128) as u64) / 128,
                                b >= 128,
                        ;
                    }
                    None
                } else {
                    proof {
                        assert((b - 128) + 128 * v <= u64::MAX) by (nonlinear_arith)
                            requires
                                v <= (u64::MAX - (b - 128) as u64) / 128,
                                b >= 128,
                                b < 256,
                        ;
                    }
                    Some(((b - 128) as u64 + 128 * v, p))
                }
            },
        }
    }
}

/// Reads a varint of at most ten bytes, the longest encoding of a
/// `u64`.
pub fn decode_varint(buf: &Vec<u8>, pos: usize) -> (r: Option<(u64, usize)>)
    ensures
        ({
            let s = dec_varint(buf@, pos as int, 10);
            match r {
                Some(x) => s matches Some(sv) && sv.0 == x.0 && sv.1 == x.1,
                None => s is None || (s matches Some(sv) && sv.0 > u64::MAX),
            }
        }),
{
    decode_varint_fuel(buf, pos, 10)
}

// ---------------------------------------------------------------------
// Length-prefixed byte strings and character strings.
// ---------------------------------------------------------------------
/// A decoded value together with the position after it, compared to
/// what a specification decoder returned.
pub open spec fn matches_dec<X: View>(r: Option<(X, usize)>, s: Option<(X::V, int)>) -> bool {
    match r {
        Some(x) => {
            match s {
                Some(sv) => sv.0 == x.0@ && sv.1 == x.1,
                None => false,
            }
        },
        None => s is None,
    }
}

/// The encoding of a byte string: an eight-byte length, then the
/// bytes.
pub open spec fn enc_bytes(b: Seq<u8>) -> Seq<u8> {
    enc_le(b.len(), 8) + b
}

/// Reads a length-prefixed byte string.
pub open spec fn dec_bytes(bytes: Seq<u8>, pos: int) -> Option<(Seq<u8>, int)> {
    match dec_le(bytes, pos, 8) {
        None => None,
        Some((n, p)) => {
            if p + n <= bytes.len() {
                Some((bytes.subrange(p, p + n), p + n))
            } else {
                None
            }
        },
    }
}

/// Appends the length-prefixed encoding of `b`.
pub fn encode_bytes(out: &mut Vec<u8>, b: &Vec<u8>)
    ensures
        final(out)@ == old(out)@ + enc_bytes(b@),
{
    encode_le(out, b.len() as u64, 8);
    let ghost mid = out@;
    let mut i: usize = 0;
    while i < b.len()
        invariant
            i <= b@.len(),
            out@ == mid + b@.subrange(0, i as int),
        decreases b@.len() - i,
    {
        let ghost out_before = out@;
        out.push(b[i]);
        proof {
            assert(out@ =~= mid + b@.subrange(0, i + 1));
        }
        i += 1;
    }
    proof {
        assert(b@.subrange(0, b@.len() as int) =~= b@);
        assert(out@ =~= old(out)@ + enc_bytes(b@));
    }
}

/// Reads a length-prefixed byte string; mirrors `dec_bytes` exactly.
pub fn decode_bytes(buf: &Vec<u8>, pos: usize) -> (r: Option<(Vec<u8>, usize)>)
    ensures
        matches_dec(r, dec_bytes(buf@, pos as int)),
{
    proof {
        lemma_dec_le_bound(buf@, pos as int, 8);
        reveal_with_fuel(pow256, 9);
    }
    match decode_le(buf, pos, 8) {
        None => None,
        Some((n, p)) => {
            if n > (buf.len() - p) as u64 {
                return None;
            }
            let n = n as usize;
            let mut b: Vec<u8> = Vec::new();
            let mut i: usize = 0;
            while i < n
                invariant
                    i <= n,
                    p + n <= buf@.len(),
                    buf@.len() <= usize::MAX,
                    b@ == buf@.subrange(p as int, p + i),
                decreases n - i,
            {
                let ghost b_before = b@;
                b.push(buf[p + i]);
                proof {
                    assert(b@ =~= buf@.subrange(p as int, p + i + 1));
                }
                i += 1;
            }
            Some((b, p + n))
        },
    }
}

/// The encoding of a string: its UTF-8 bytes, length-prefixed.
pub open spec fn enc_str(s: Seq<char>) -> Seq<u8> {
    enc_bytes(encode_utf8(s))
}

/// Reads a length-prefixed string; the bytes must be valid UTF-8.
pub open spec fn dec_str(bytes: Seq<u8>, pos: int) -> Option<(Seq<char>, int)> {
    match dec_bytes(bytes, pos) {
        None => None,
        Some((b, p)) => {
            if valid_utf8(b) {
                Some((decode_utf8(b), p))
            } else {
                None
            }
        },
    }
}

/// Relies on `String::from_utf8`: it succeeds exactly on valid UTF-8
/// input, and the returned string decodes those bytes.
#[verifier::external_body]
fn string_from_utf8(bytes: Vec<u8>) -> (r: Option<String>)
    ensures
        r is Some <==> valid_utf8(bytes@),
        r matches Some(s) ==> s@ == decode_utf8(bytes@),
{
    String::from_utf8(bytes).ok()
}

/// Appends the length-prefixed UTF-8 encoding of `s`.
pub fn encode_str(out: &mut Vec<u8>, s: &str)
    ensures
        final(out)@ == old(out)@ + enc_str(s@),
{
    let b = s.as_bytes_vec();
    encode_bytes(out, &b);
}

/// Reads a length-prefixed string; mirrors `dec_str` exactly.
pub fn decode_str(buf: &Vec<u8>, pos: usize) -> (r: Option<(String, usize)>)
    ensures
        matches_dec(r, dec_str(buf@, pos as int)),
{
    match decode_bytes(buf, pos) {
        None => None,
        Some((b, p)) => {
            match string_from_utf8(b) {
                None => None,
                Some(s) => Some((s, p)),
            }
        },
    }
}

/// Writing a string and reading it back yields the same characters.
pub proof fn lemma_str_roundtrip(pre: Seq<u8>, s: Seq<char>, rest: Seq<u8>)
    requires
        encode_utf8(s).len() < pow256(8),
    ensures
        dec_str(pre + enc_str(s) + rest, pre.len() as int) == Some(
            (s, pre.len() + enc_str(s).len() as int),
        ),
{
    lemma_bytes_roundtrip(pre, encode_utf8(s), rest);
    broadcast use vstd::utf8::encode_utf8_valid_utf8;
    broadcast use vstd::utf8::encode_utf8_decode_utf8;

}

/// Writing a byte string and reading it back yields the same bytes.
pub proof fn lemma_bytes_roundtrip(pre: Seq<u8>, b: Seq<u8>, rest: Seq<u8>)
    requires
        b.len() < pow256(8),
    ensures
        dec_bytes(pre + enc_bytes(b) + rest, pre.len() as int) == Some(
            (b, pre.len() + enc_bytes(b).len() as int),
        ),
{
    let bytes = pre + enc_bytes(b) + rest;
    reveal_with_fuel(pow256, 9);
    lemma_le_roundtrip(pre, b.len(), 8, b + rest);
    assert(pre + enc_le(b.len(), 8) + (b + rest) =~= bytes);
    let p = pre.len() + 8;
    assert(dec_le(bytes, pre.len() as int, 8) == Some((b.len(), p as int)));
    assert(enc_le(b.len(), 8).len() == 8) by {
        reveal_with_fuel(enc_le, 9);
    }
    assert forall|k: int| 0 <= k < b.len() implies bytes[p + k] == b[k] by {
        assert(bytes[p + k] == (pre + enc_le(b.len(), 8) + (b + rest))[p + k]);
    }
    assert(bytes.subrange(p as int, p + b.len() as int) =~= b);
}

// ---------------------------------------------------------------------
// Options and the min/target/max tuple.
// ---------------------------------------------------------------------
/// The encoding of an optional `u16`: a presence byte, then the value.
pub open spec fn enc_opt_u16(o: Option<u16>) -> Seq<u8> {
    match o {
        None => seq![0u8],
        Some(v) => seq![1u8] + enc_le(v as nat, 2),
    }
}

/// Reads an optional `u16`.
pub open spec fn dec_opt_u16(bytes: Seq<u8>, pos: int) -> Option<(Option<u16>, int)> {
    if pos < 0 || pos >= bytes.len() {
        None
    } else if bytes[pos] == 0 {
        Some((None, pos + 1))
    } else if bytes[pos] == 1 {
        match dec_le(bytes, pos + 1, 2) {
            None => None,
            Some((v, p)) => Some((Some(v as u16), p)),
        }
    } else {
        None
    }
}

/// Appends the encoding of an optional `u16`.
pub fn encode_opt_u16(out: &mut Vec<u8>, o: &Option<u16>)
    ensures
        final(out)@ == old(out)@ + enc_opt_u16(*o),
{
    match o {
        None => {
            out.push(0u8);
            proof {
                assert(out@ =~= old(out)@ + enc_opt_u16(None));
            }
        },
        Some(v) => {
            out.push(1u8);
            let ghost mid = out@;
            encode_le(out, *v as u64, 2);
            proof {
                assert(out@ =~= old(out)@ + enc_opt_u16(Some(*v)));
            }
        },
    }
}

/// Reads an optional `u16`; mirrors `dec_opt_u16` exactly.
pub fn decode_opt_u16(buf: &Vec<u8>, pos: usize) -> (r: Option<(Option<u16>, usize)>)
    ensures
        matches_dec(r, dec_opt_u16(buf@, pos as int)),
{
    if pos >= buf.len() {
        return None;
    }
    let flag = buf[pos];
    if flag == 0 {
        Some((None, pos + 1))
    } else if flag == 1 {
        proof {
            lemma_dec_le_bound(buf@, pos as int + 1, 2);
            reveal_with_fuel(pow256, 3);
        }
        match decode_le(buf, pos + 1, 2) {
            None => None,
            Some((v, p)) => Some((Some(v as u16), p)),
        }
    } else {
        None
    }
}

/// The encoding of an optional `u32`: a presence byte, then the value.
pub open spec fn enc_opt_u32(o: Option<u32>) -> Seq<u8> {
    match o {
        None => seq![0u8],
        Some(v) => seq![1u8] + enc_le(v as nat, 4),
    }
}

/// Reads an optional `u32`.
pub open spec fn dec_opt_u32(bytes: Seq<u8>, pos: int) -> Option<(Option<u32>, int)> {
    if pos < 0 || pos >= bytes.len() {
        None
    } else if bytes[pos] == 0 {
        Some((None, pos + 1))
    } else if bytes[pos] == 1 {
        match dec_le(bytes, pos + 1, 4) {
            None => None,
            Some((v, p)) => Some((Some(v as u32), p)),
        }
    } else {
        None
    }
}

/// Appends the encoding of an optional `u32`.
pub fn encode_opt_u32(out: &mut Vec<u8>, o: &Option<u32>)
    ensures
        final(out)@ == old(out)@ + enc_opt_u32(*o),
{
    match o {
        None => {
            out.push(0u8);
            proof {
                assert(out@ =~= old(out)@ + enc_opt_u32(None));
            }
        },
        Some(v) => {
            out.push(1u8);
            encode_le(out, *v as u64, 4);
            proof {
                assert(out@ =~= old(out)@ + enc_opt_u32(Some(*v)));
            }
        },
    }
}

/// Reads an optional `u32`; mirrors `dec_opt_u32` exactly.
pub fn decode_opt_u32(buf: &Vec<u8>, pos: usize) -> (r: Option<(Option<u32>, usize)>)
    ensures
        matches_dec(r, dec_opt_u32(buf@, pos as int)),
{
    if pos >= buf.len() {
        return None;
    }
    let flag = buf[pos];
    if flag == 0 {
        Some((None, pos + 1))
    } else if flag == 1 {
        proof {
            lemma_dec_le_bound(buf@, pos as int + 1, 4);
            reveal_with_fuel(pow256, 5);
        }
        match decode_le(buf, pos + 1, 4) {
            None => None,
            Some((v, p)) => Some((Some(v as u32), p)),
        }
    } else {
        None
    }
}

/// The encoding of a min/target/max tuple: three eight-byte numbers.
pub open spec fn enc_mtm(m: crate::config::MinTargetMax) -> Seq<u8> {
    enc_le(m.min as nat, 8) + enc_le(m.target as nat, 8) + enc_le(m.max as nat, 8)
}

/// Reads a min/target/max tuple; each value must fit the platform's
/// `usize`.
pub open spec fn dec_mtm(bytes: Seq<u8>, pos: int) -> Option<
    (crate::config::MinTargetMax, int),
> {
    match dec_le(bytes, pos, 8) {
        None => None,
        Some((mn, p1)) => {
            match dec_le(bytes, p1, 8) {
                None => None,
                Some((tg, p2)) => {
                    match dec_le(bytes, p2, 8) {
                        None => None,
                        Some((mx, p3)) => {
                            if mn <= usize::MAX && tg <= usize::MAX && mx <= usize::MAX {
                                Some(
                                    (
                                        crate::config::MinTargetMax {
                                            min: mn as usize,
                                            target: tg as usize,
                                            max: mx as usize,
                                        },
                                        p3,
                                    ),
                                )
                            } else {
                                None
                            }
                        },
                    }
                },
            }
        },
    }
}

/// Appends the encoding of a min/target/max tuple.
pub fn encode_mtm(out: &mut Vec<u8>, m: &crate::config::MinTargetMax)
    ensures
        final(out)@ == old(out)@ + enc_mtm(*m),
{
    encode_le(out, m.min as u64, 8);
    encode_le(out, m.target as u64, 8);
    encode_le(out, m.max as u64, 8);
    proof {
        assert(out@ =~= old(out)@ + enc_mtm(*m));
    }
}

/// Reads a min/target/max tuple; mirrors `dec_mtm` exactly.
pub fn decode_mtm(buf: &Vec<u8>, pos: usize) -> (r: Option<(crate::config::MinTargetMax, usize)>)
    ensures
        r matches Some(x) ==> {
            &&& dec_mtm(buf@, pos as int) matches Some(s)
            &&& s.0 == x.0
            &&& s.1 == x.1
        },
        r is None ==> dec_mtm(buf@, pos as int) is None,
{
    let (mn, p1) = match decode_le(buf, pos, 8) {
        None => {
            return None;
        },
        Some(x) => x,
    };
    let (tg, p2) = match decode_le(buf, p1, 8) {
        None => {
            return None;
        },
        Some(x) => x,
    };
    let (mx, p3) = match decode_le(buf, p2, 8) {
        None => {
            return None;
        },
        Some(x) => x,
    };
    if mn > usize::MAX as u64 || tg > usize::MAX as u64 || mx > usize::MAX as u64 {
        return None;
    }
    Some(
        (
            crate::config::MinTargetMax {
                min: mn as usize,
                target: tg as usize,
                max: mx as usize,
            },
            p3,
        ),
    )
}

} // verus!
