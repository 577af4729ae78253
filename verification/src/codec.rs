//! Byte-level MessagePack codec for [`Value`].
//!
//! `enc_val` is the mathematical definition of the wire form: the minimal
//! (canonical) encoding of a value, the one the encoder emits.  `dec_val` is
//! the mathematical decoder: it accepts every wire form, canonical or not,
//! and distinguishes truncated input from malformed input.  The executable
//! `encode_value` and `decode_value` are proved to compute exactly these
//! functions, and `lemma_dec_enc_val` proves the round trip.

use vstd::prelude::*;
use vstd::utf8::{encode_utf8, valid_utf8, decode_utf8};
use vstd::string::StrSliceExecFns;
use crate::value::{Value, ValModel};

verus! {

broadcast use {vstd::std_specs::vec::group_vec_axioms, vstd::seq::group_seq_axioms};

/// Why a byte buffer failed to encode: some string, byte string, collection
/// or extension payload is too long for a MessagePack length field.
#[derive(Debug, PartialEq, Eq, Clone, Copy)]
pub enum EncodeError {
    /// A length does not fit in 32 bits.
    TooLong,
}

/// Largest length a MessagePack length field can carry.
pub const MAX_LEN: u64 = 0xffff_ffff;

/// 256 raised to `k`: the number of values `k` bytes can carry.
pub open spec fn pow256(k: nat) -> int
    decreases k,
{
    if k == 0 {
        1
    } else {
        256 * pow256((k - 1) as nat)
    }
}

/// The `k` low-order bytes of `n`, big-endian.
pub open spec fn be_bytes(n: int, k: nat) -> Seq<u8>
    decreases k,
{
    if k == 0 {
        Seq::empty()
    } else {
        be_bytes(n / 256, (k - 1) as nat).push((n % 256) as u8)
    }
}

/// The unsigned big-endian reading of a byte sequence.
pub open spec fn be_val(s: Seq<u8>) -> int
    decreases s.len(),
{
    if s.len() == 0 {
        0
    } else {
        be_val(s.drop_last()) * 256 + s.last()
    }
}

pub proof fn lemma_pow256_pos(k: nat)
    ensures
        pow256(k) >= 1,
    decreases k,
{
    if k > 0 {
        lemma_pow256_pos((k - 1) as nat);
    }
}

/// `k` bytes hold exactly the numbers below `pow256(k)`, and reading back
/// the bytes of such a number recovers it.
pub proof fn lemma_be_roundtrip(n: int, k: nat)
    requires
        0 <= n < pow256(k),
    ensures
        be_bytes(n, k).len() == k,
        be_val(be_bytes(n, k)) == n,
    decreases k,
{
    if k > 0 {
        lemma_pow256_pos((k - 1) as nat);
        assert(0 <= n / 256 < pow256((k - 1) as nat)) by (nonlinear_arith)
            requires
                0 <= n < 256 * pow256((k - 1) as nat),
                pow256((k - 1) as nat) >= 1,
        ;
        lemma_be_roundtrip(n / 256, (k - 1) as nat);
        let b = be_bytes(n, k);
        assert(b.drop_last() =~= be_bytes(n / 256, (k - 1) as nat));
        assert(0 <= n % 256 < 256) by (nonlinear_arith);
        assert(b.last() == (n % 256) as u8);
        assert(be_val(b) == (n / 256) * 256 + n % 256);
        assert((n / 256) * 256 + n % 256 == n) by (nonlinear_arith);
    }
}

pub proof fn lemma_be_bytes_len(n: int, k: nat)
    ensures
        be_bytes(n, k).len() == k,
    decreases k,
{
    if k > 0 {
        lemma_be_bytes_len(n / 256, (k - 1) as nat);
    }
}

/// Every big-endian reading of `k` bytes lies below `pow256(k)`.
pub proof fn lemma_be_val_bound(s: Seq<u8>)
    ensures
        0 <= be_val(s) < pow256(s.len()),
    decreases s.len(),
{
    if s.len() > 0 {
        lemma_be_val_bound(s.drop_last());
        let p = pow256((s.len() - 1) as nat);
        assert(be_val(s.drop_last()) * 256 + s.last() < 256 * p) by (nonlinear_arith)
            requires
                0 <= be_val(s.drop_last()) < p,
                0 <= s.last() < 256,
        ;
        assert(be_val(s.drop_last()) * 256 >= 0) by (nonlinear_arith)
            requires
                be_val(s.drop_last()) >= 0,
        ;
    }
}

/// Canonical encoding of a non-negative integer.
pub open spec fn enc_uint(n: u64) -> Seq<u8> {
    if n < 0x80 {
        seq![n as u8]
    } else if n < 0x100 {
        seq![0xccu8] + be_bytes(n as int, 1)
    } else if n < 0x10000 {
        seq![0xcdu8] + be_bytes(n as int, 2)
    } else if n < 0x1_0000_0000 {
        seq![0xceu8] + be_bytes(n as int, 4)
    } else {
        seq![0xcfu8] + be_bytes(n as int, 8)
    }
}

/// Canonical encoding of a signed integer; negative values use the signed
/// wire forms, non-negative ones fall back to the unsigned forms.
pub open spec fn enc_int(n: i64) -> Seq<u8> {
    if n >= 0 {
        enc_uint(n as u64)
    } else if n >= -32 {
        seq![(n + 0x100) as u8]
    } else if n >= -0x80 {
        seq![0xd0u8] + be_bytes(n + 0x100, 1)
    } else if n >= -0x8000 {
        seq![0xd1u8] + be_bytes(n + 0x10000, 2)
    } else if n >= -0x8000_0000 {
        seq![0xd2u8] + be_bytes(n + 0x1_0000_0000, 4)
    } else {
        seq![0xd3u8] + be_bytes(n + 0x1_0000_0000_0000_0000, 8)
    }
}

/// Canonical header announcing a text string of `len` bytes.
pub open spec fn enc_strhdr(len: int) -> Seq<u8> {
    if len < 0x20 {
        seq![(0xa0 + len) as u8]
    } else if len < 0x100 {
        seq![0xd9u8] + be_bytes(len, 1)
    } else if len < 0x10000 {
        seq![0xdau8] + be_bytes(len, 2)
    } else {
        seq![0xdbu8] + be_bytes(len, 4)
    }
}

/// Canonical header announcing a byte string of `len` bytes.
pub open spec fn enc_binhdr(len: int) -> Seq<u8> {
    if len < 0x100 {
        seq![0xc4u8] + be_bytes(len, 1)
    } else if len < 0x10000 {
        seq![0xc5u8] + be_bytes(len, 2)
    } else {
        seq![0xc6u8] + be_bytes(len, 4)
    }
}

/// Canonical header announcing an array of `len` elements.
pub open spec fn enc_arrhdr(len: int) -> Seq<u8> {
    if len < 0x10 {
        seq![(0x90 + len) as u8]
    } else if len < 0x10000 {
        seq![0xdcu8] + be_bytes(len, 2)
    } else {
        seq![0xddu8] + be_bytes(len, 4)
    }
}

/// Canonical header announcing a map of `len` key-value pairs.
pub open spec fn enc_maphdr(len: int) -> Seq<u8> {
    if len < 0x10 {
        seq![(0x80 + len) as u8]
    } else if len < 0x10000 {
        seq![0xdeu8] + be_bytes(len, 2)
    } else {
        seq![0xdfu8] + be_bytes(len, 4)
    }
}

/// The wire byte of an extension type tag (two's complement).
pub open spec fn tag_byte(t: i8) -> u8 {
    if t >= 0 {
        t as u8
    } else {
        (t + 0x100) as u8
    }
}

/// Canonical header announcing an extension of `len` payload bytes with the
/// given type tag.
pub open spec fn enc_exthdr(len: int, t: i8) -> Seq<u8> {
    (if len == 1 {
        seq![0xd4u8]
    } else if len == 2 {
        seq![0xd5u8]
    } else if len == 4 {
        seq![0xd6u8]
    } else if len == 8 {
        seq![0xd7u8]
    } else if len == 16 {
        seq![0xd8u8]
    } else if len < 0x100 {
        seq![0xc7u8] + be_bytes(len, 1)
    } else if len < 0x10000 {
        seq![0xc8u8] + be_bytes(len, 2)
    } else {
        seq![0xc9u8] + be_bytes(len, 4)
    }) + seq![tag_byte(t)]
}

/// The canonical (minimal) MessagePack encoding of a value.
pub open spec fn enc_val(v: ValModel) -> Seq<u8>
    decreases v,
{
    match v {
        ValModel::Nil => seq![0xc0u8],
        ValModel::Boolean(b) => if b {
            seq![0xc3u8]
        } else {
            seq![0xc2u8]
        },
        ValModel::Uint(n) => enc_uint(n),
        ValModel::Int(n) => enc_int(n),
        ValModel::F32(bits) => seq![0xcau8] + be_bytes(bits as int, 4),
        ValModel::F64(bits) => seq![0xcbu8] + be_bytes(bits as int, 8),
        ValModel::Str(s) => enc_strhdr(encode_utf8(s).len() as int) + encode_utf8(s),
        ValModel::Bin(b) => enc_binhdr(b.len() as int) + b,
        ValModel::Array(a) => enc_arrhdr(a.len() as int) + enc_vals(a),
        ValModel::Dict(m) => enc_maphdr(m.len() as int) + enc_pairs(m),
        ValModel::Ext(t, d) => enc_exthdr(d.len() as int, t) + d,
    }
}

/// The concatenated encodings of a sequence of values.
pub open spec fn enc_vals(vs: Seq<ValModel>) -> Seq<u8>
    decreases vs,
{
    if vs.len() == 0 {
        Seq::empty()
    } else {
        enc_val(vs[0]) + enc_vals(vs.drop_first())
    }
}

/// The concatenated encodings of a sequence of key-value pairs.
pub open spec fn enc_pairs(ps: Seq<(ValModel, ValModel)>) -> Seq<u8>
    decreases ps,
{
    if ps.len() == 0 {
        Seq::empty()
    } else {
        enc_val(ps[0].0) + enc_val(ps[0].1) + enc_pairs(ps.drop_first())
    }
}

/// A value is well-formed when its negative-integer variant is really
/// negative and every length fits a 32-bit length field.  Well-formed values
/// are exactly the ones the encoder accepts and the round trip preserves.
pub open spec fn wf_val(v: ValModel) -> bool
    decreases v,
{
    match v {
        ValModel::Int(n) => n < 0,
        ValModel::Str(s) => encode_utf8(s).len() <= MAX_LEN,
        ValModel::Bin(b) => b.len() <= MAX_LEN,
        ValModel::Array(a) => a.len() <= MAX_LEN && (forall|i: int|
            0 <= i < a.len() ==> wf_val(#[trigger] a[i])),
        ValModel::Dict(m) => m.len() <= MAX_LEN && (forall|i: int|
            0 <= i < m.len() ==> wf_val(#[trigger] m[i].0) && wf_val(m[i].1)),
        ValModel::Ext(t, d) => d.len() <= MAX_LEN,
        _ => true,
    }
}


// The definitions above unfold from the front; the encoder's loops grow the
// buffer from the back, so these two lemmas restate them as appends.
pub proof fn lemma_enc_vals_push(vs: Seq<ValModel>, x: ValModel)
    ensures
        enc_vals(vs.push(x)) == enc_vals(vs) + enc_val(x),
    decreases vs.len(),
{
    assert(vs.push(x)[0] == if vs.len() == 0 { x } else { vs[0] });
    if vs.len() == 0 {
        assert(vs.push(x).drop_first() =~= Seq::<ValModel>::empty());
        assert(enc_vals(vs.push(x)) == enc_val(x) + enc_vals(Seq::<ValModel>::empty()));
        assert(enc_vals(vs.push(x)) =~= enc_val(x));
        assert(enc_vals(vs) + enc_val(x) =~= enc_val(x));
    } else {
        assert(vs.push(x).drop_first() =~= vs.drop_first().push(x));
        lemma_enc_vals_push(vs.drop_first(), x);
        assert(enc_vals(vs.push(x)) == enc_val(vs[0]) + (enc_vals(vs.drop_first()) + enc_val(x)));
        assert(enc_vals(vs.push(x)) =~= enc_vals(vs) + enc_val(x));
    }
}

pub proof fn lemma_enc_pairs_push(ps: Seq<(ValModel, ValModel)>, x: (ValModel, ValModel))
    ensures
        enc_pairs(ps.push(x)) == enc_pairs(ps) + enc_val(x.0) + enc_val(x.1),
    decreases ps.len(),
{
    assert(ps.push(x)[0] == if ps.len() == 0 { x } else { ps[0] });
    if ps.len() == 0 {
        assert(ps.push(x).drop_first() =~= Seq::<(ValModel, ValModel)>::empty());
        assert(enc_pairs(ps.push(x)) == enc_val(x.0) + enc_val(x.1) + enc_pairs(
            Seq::<(ValModel, ValModel)>::empty(),
        ));
        assert(enc_pairs(ps.push(x)) =~= enc_val(x.0) + enc_val(x.1));
        assert(enc_pairs(ps) + enc_val(x.0) + enc_val(x.1) =~= enc_val(x.0) + enc_val(x.1));
    } else {
        assert(ps.push(x).drop_first() =~= ps.drop_first().push(x));
        lemma_enc_pairs_push(ps.drop_first(), x);
        assert(enc_pairs(ps.push(x)) == enc_val(ps[0].0) + enc_val(ps[0].1) + (enc_pairs(
            ps.drop_first(),
        ) + enc_val(x.0) + enc_val(x.1)));
        assert(enc_pairs(ps.push(x)) =~= enc_pairs(ps) + enc_val(x.0) + enc_val(x.1));
    }
}

/// Appends the `k` low-order bytes of `n`, big-endian.
fn push_be(buf: &mut Vec<u8>, n: u64, k: usize)
    requires
        k <= 8,
    ensures
        final(buf)@ == old(buf)@ + be_bytes(n as int, k as nat),
    decreases k,
{
    if k == 0 {
        assert(buf@ =~= old(buf)@ + be_bytes(n as int, 0));
    } else {
        push_be(buf, n / 256, k - 1);
        buf.push((n % 256) as u8);
        assert(buf@ =~= old(buf)@ + be_bytes(n as int, k as nat));
    }
}

/// Appends a byte string unchanged.
fn push_bytes(buf: &mut Vec<u8>, data: &Vec<u8>)
    ensures
        final(buf)@ == old(buf)@ + data@,
{
    let mut i: usize = 0;
    while i < data.len()
        invariant
            i <= data@.len(),
            buf@ == old(buf)@ + data@.take(i as int),
        decreases data@.len() - i,
    {
        buf.push(data[i]);
        assert(buf@ =~= old(buf)@ + data@.take(i + 1));
        i = i + 1;
    }
    assert(buf@ =~= old(buf)@ + data@);
}

/// Appends the canonical encoding of a non-negative integer.
fn push_uint(buf: &mut Vec<u8>, n: u64)
    ensures
        final(buf)@ == old(buf)@ + enc_uint(n),
{
    if n < 0x80 {
        buf.push(n as u8);
        assert(buf@ =~= old(buf)@ + enc_uint(n));
    } else if n < 0x100 {
        buf.push(0xcc);
        push_be(buf, n, 1);
        assert(buf@ =~= old(buf)@ + enc_uint(n));
    } else if n < 0x10000 {
        buf.push(0xcd);
        push_be(buf, n, 2);
        assert(buf@ =~= old(buf)@ + enc_uint(n));
    } else if n < 0x1_0000_0000 {
        buf.push(0xce);
        push_be(buf, n, 4);
        assert(buf@ =~= old(buf)@ + enc_uint(n));
    } else {
        buf.push(0xcf);
        push_be(buf, n, 8);
        assert(buf@ =~= old(buf)@ + enc_uint(n));
    }
}

/// Appends the canonical encoding of a signed integer.
fn push_int(buf: &mut Vec<u8>, n: i64)
    ensures
        final(buf)@ == old(buf)@ + enc_int(n),
{
    if n >= 0 {
        push_uint(buf, n as u64);
    } else if n >= -32 {
        buf.push((n + 0x100) as u8);
        assert(buf@ =~= old(buf)@ + enc_int(n));
    } else if n >= -0x80 {
        buf.push(0xd0);
        push_be(buf, (n + 0x100) as u64, 1);
        assert(buf@ =~= old(buf)@ + enc_int(n));
    } else if n >= -0x8000 {
        buf.push(0xd1);
        push_be(buf, (n + 0x10000) as u64, 2);
        assert(buf@ =~= old(buf)@ + enc_int(n));
    } else if n >= -0x8000_0000 {
        buf.push(0xd2);
        push_be(buf, (n + 0x1_0000_0000) as u64, 4);
        assert(buf@ =~= old(buf)@ + enc_int(n));
    } else {
        // n + 2^64 stated over in-range machine arithmetic
        let w: i64 = -(n + 1);
        let u: u64 = u64::MAX - (w as u64);
        assert(u as int == n + 0x1_0000_0000_0000_0000);
        buf.push(0xd3);
        push_be(buf, u, 8);
        assert(buf@ =~= old(buf)@ + enc_int(n));
    }
}


/// Appends the canonical text-string header.
fn push_strhdr(buf: &mut Vec<u8>, len: usize)
    requires
        len as u64 <= MAX_LEN,
    ensures
        final(buf)@ == old(buf)@ + enc_strhdr(len as int),
{
    if len < 0x20 {
        buf.push(0xa0 + len as u8);
        assert(final(buf)@ =~= old(buf)@ + enc_strhdr(len as int));
    } else if len < 0x100 {
        buf.push(0xd9);
        push_be(buf, len as u64, 1);
        assert(final(buf)@ =~= old(buf)@ + enc_strhdr(len as int));
    } else if len < 0x10000 {
        buf.push(0xda);
        push_be(buf, len as u64, 2);
        assert(final(buf)@ =~= old(buf)@ + enc_strhdr(len as int));
    } else {
        buf.push(0xdb);
        push_be(buf, len as u64, 4);
        assert(final(buf)@ =~= old(buf)@ + enc_strhdr(len as int));
    }
}

/// Appends the canonical byte-string header.
fn push_binhdr(buf: &mut Vec<u8>, len: usize)
    requires
        len as u64 <= MAX_LEN,
    ensures
        final(buf)@ == old(buf)@ + enc_binhdr(len as int),
{
    if len < 0x100 {
        buf.push(0xc4);
        push_be(buf, len as u64, 1);
        assert(final(buf)@ =~= old(buf)@ + enc_binhdr(len as int));
    } else if len < 0x10000 {
        buf.push(0xc5);
        push_be(buf, len as u64, 2);
        assert(final(buf)@ =~= old(buf)@ + enc_binhdr(len as int));
    } else {
        buf.push(0xc6);
        push_be(buf, len as u64, 4);
        assert(final(buf)@ =~= old(buf)@ + enc_binhdr(len as int));
    }
}

/// Appends the canonical array header.
fn push_arrhdr(buf: &mut Vec<u8>, len: usize)
    requires
        len as u64 <= MAX_LEN,
    ensures
        final(buf)@ == old(buf)@ + enc_arrhdr(len as int),
{
    if len < 0x10 {
        buf.push(0x90 + len as u8);
        assert(final(buf)@ =~= old(buf)@ + enc_arrhdr(len as int));
    } else if len < 0x10000 {
        buf.push(0xdc);
        push_be(buf, len as u64, 2);
        assert(final(buf)@ =~= old(buf)@ + enc_arrhdr(len as int));
    } else {
        buf.push(0xdd);
        push_be(buf, len as u64, 4);
        assert(final(buf)@ =~= old(buf)@ + enc_arrhdr(len as int));
    }
}

/// Appends the canonical map header.
fn push_maphdr(buf: &mut Vec<u8>, len: usize)
    requires
        len as u64 <= MAX_LEN,
    ensures
        final(buf)@ == old(buf)@ + enc_maphdr(len as int),
{
    if len < 0x10 {
        buf.push(0x80 + len as u8);
        assert(final(buf)@ =~= old(buf)@ + enc_maphdr(len as int));
    } else if len < 0x10000 {
        buf.push(0xde);
        push_be(buf, len as u64, 2);
        assert(final(buf)@ =~= old(buf)@ + enc_maphdr(len as int));
    } else {
        buf.push(0xdf);
        push_be(buf, len as u64, 4);
        assert(final(buf)@ =~= old(buf)@ + enc_maphdr(len as int));
    }
}

/// Appends the canonical extension header, type tag included.
fn push_exthdr(buf: &mut Vec<u8>, len: usize, t: i8)
    requires
        len as u64 <= MAX_LEN,
    ensures
        final(buf)@ == old(buf)@ + enc_exthdr(len as int, t),
{
    if len == 1 {
        buf.push(0xd4);
    } else if len == 2 {
        buf.push(0xd5);
    } else if len == 4 {
        buf.push(0xd6);
    } else if len == 8 {
        buf.push(0xd7);
    } else if len == 16 {
        buf.push(0xd8);
    } else if len < 0x100 {
        buf.push(0xc7);
        push_be(buf, len as u64, 1);
    } else if len < 0x10000 {
        buf.push(0xc8);
        push_be(buf, len as u64, 2);
    } else {
        buf.push(0xc9);
        push_be(buf, len as u64, 4);
    }
    if t >= 0 {
        buf.push(t as u8);
    } else {
        buf.push(((t as i16) + 0x100) as u8);
    }
    assert(final(buf)@ =~= old(buf)@ + enc_exthdr(len as int, t));
}

/// Appends the canonical encoding of `v`.  Succeeds exactly on well-formed
/// values, except that a non-negative `Int` is also accepted and encoded by
/// its numeric value (its decoding is then the equal `Uint`).
#[verifier::rlimit(100)]
#[verifier::loop_isolation(false)]
pub fn encode_value(v: &Value, buf: &mut Vec<u8>) -> (r: Result<(), EncodeError>)
    ensures
        r is Ok ==> final(buf)@ == old(buf)@ + enc_val(v@),
        wf_val(v@) ==> r is Ok,
    decreases v,
{
    match v {
        Value::Nil => {
            buf.push(0xc0);
            assert(buf@ =~= old(buf)@ + enc_val(v@));
            Ok(())
        }
        Value::Boolean(b) => {
            buf.push(if *b { 0xc3 } else { 0xc2 });
            assert(buf@ =~= old(buf)@ + enc_val(v@));
            Ok(())
        }
        Value::Uint(n) => {
            push_uint(buf, *n);
            Ok(())
        }
        Value::Int(n) => {
            push_int(buf, *n);
            Ok(())
        }
        Value::F32(bits) => {
            buf.push(0xca);
            push_be(buf, *bits as u64, 4);
            assert(buf@ =~= old(buf)@ + enc_val(v@));
            Ok(())
        }
        Value::F64(bits) => {
            buf.push(0xcb);
            push_be(buf, *bits, 8);
            assert(buf@ =~= old(buf)@ + enc_val(v@));
            Ok(())
        }
        Value::Str(s) => {
            let bytes = s.as_str().as_bytes_vec();
            if bytes.len() as u64 > MAX_LEN {
                return Err(EncodeError::TooLong);
            }
            push_strhdr(buf, bytes.len());
            push_bytes(buf, &bytes);
            assert(buf@ =~= old(buf)@ + enc_val(v@));
            Ok(())
        }
        Value::Bin(b) => {
            if b.len() as u64 > MAX_LEN {
                return Err(EncodeError::TooLong);
            }
            push_binhdr(buf, b.len());
            push_bytes(buf, b);
            assert(buf@ =~= old(buf)@ + enc_val(v@));
            Ok(())
        }
        Value::Array(a) => {
            if a.len() as u64 > MAX_LEN {
                return Err(EncodeError::TooLong);
            }
            push_arrhdr(buf, a.len());
            let ghost vm = v@->Array_0;
            assert(v@ == ValModel::Array(vm));
            assert(vm.len() == a@.len());
            assert(buf@ == old(buf)@ + enc_arrhdr(vm.len() as int));
            let mut i: usize = 0;
            while i < a.len()
                invariant
                    i <= a@.len(),
                    v@ == ValModel::Array(vm),
                    vm.len() == a@.len(),
                    forall|j: int| 0 <= j < a@.len() ==> vm[j] == #[trigger] a@[j]@,
                    wf_val(v@) ==> forall|j: int| 0 <= j < vm.len() ==> wf_val(#[trigger] vm[j]),
                    buf@ == old(buf)@ + enc_arrhdr(vm.len() as int) + enc_vals(vm.take(i as int)),
                decreases a@.len() - i,
            {
                proof {
                    assert(*v == Value::Array(*a));
                    assert(decreases_to!(*v => *a));
                    assert(decreases_to!(*a => a@[i as int]));
                }
                match encode_value(&a[i], buf) {
                    Ok(()) => {}
                    Err(e) => {
                        assert(!wf_val(vm[i as int]));
                        assert(!wf_val(v@));
                        return Err(e);
                    }
                }
                proof {
                    lemma_enc_vals_push(vm.take(i as int), vm[i as int]);
                    assert(vm.take(i + 1) =~= vm.take(i as int).push(vm[i as int]));
                    assert(buf@ =~= old(buf)@ + enc_arrhdr(vm.len() as int) + enc_vals(vm.take(i + 1)));
                }
                i = i + 1;
            }
            proof {
                assert(vm.take(vm.len() as int) =~= vm);
                assert(buf@ =~= old(buf)@ + enc_val(v@));
            }
            Ok(())
        }
        Value::Dict(m) => {
            if m.len() as u64 > MAX_LEN {
                return Err(EncodeError::TooLong);
            }
            push_maphdr(buf, m.len());
            let ghost pm = v@->Dict_0;
            assert(v@ == ValModel::Dict(pm));
            assert(pm.len() == m@.len());
            assert(buf@ == old(buf)@ + enc_maphdr(pm.len() as int));
            let mut i: usize = 0;
            while i < m.len()
                invariant
                    i <= m@.len(),
                    v@ == ValModel::Dict(pm),
                    pm.len() == m@.len(),
                    buf@ == old(buf)@ + enc_maphdr(pm.len() as int) + enc_pairs(pm.take(i as int)),
                decreases m@.len() - i,
            {
                proof {
                    assert(pm[i as int] == (m@[i as int].0@, m@[i as int].1@));
                    assert(wf_val(v@) ==> wf_val(pm[i as int].0) && wf_val(pm[i as int].1));
                    assert(*v == Value::Dict(*m));
                    assert(decreases_to!(*v => *m));
                    assert(decreases_to!(*m => m@[i as int]));
                    assert(decreases_to!(m@[i as int] => m@[i as int].0));
                    assert(decreases_to!(m@[i as int] => m@[i as int].1));
                }
                match encode_value(&m[i].0, buf) {
                    Ok(()) => {}
                    Err(e) => {
                        assert(!wf_val(pm[i as int].0));
                        assert(!wf_val(v@));
                        return Err(e);
                    }
                }
                match encode_value(&m[i].1, buf) {
                    Ok(()) => {}
                    Err(e) => {
                        assert(!wf_val(pm[i as int].1));
                        assert(!wf_val(v@));
                        return Err(e);
                    }
                }
                proof {
                    lemma_enc_pairs_push(pm.take(i as int), pm[i as int]);
                    assert(pm.take(i + 1) =~= pm.take(i as int).push(pm[i as int]));
                    assert(buf@ =~= old(buf)@ + enc_maphdr(pm.len() as int) + enc_pairs(pm.take(i + 1)));
                }
                i = i + 1;
            }
            proof {
                assert(pm.take(pm.len() as int) =~= pm);
                assert(buf@ =~= old(buf)@ + enc_val(v@));
            }
            Ok(())
        }
        Value::Ext(t, d) => {
            if d.len() as u64 > MAX_LEN {
                return Err(EncodeError::TooLong);
            }
            push_exthdr(buf, d.len(), *t);
            push_bytes(buf, d);
            assert(buf@ =~= old(buf)@ + enc_val(v@));
            Ok(())
        }
    }
}

/// Result of the mathematical decoder: a parsed item with the count of
/// consumed bytes, or one of the two failure modes.  `Short` means the input
/// ended inside the item (more bytes could still make it well formed); `Bad`
/// means the bytes can never begin a well-formed item.
pub enum Parsed<T> {
    Found(T, int),
    Short,
    Bad,
}

/// The signed reading of an unsigned `k`-byte value (two's complement).
pub open spec fn signed_of(u: int, k: nat) -> int {
    if u < pow256(k) / 2 {
        u
    } else {
        u - pow256(k)
    }
}

/// The signed reading of an extension type-tag byte.
pub open spec fn tag_of(b: u8) -> i8 {
    if b < 0x80 {
        b as i8
    } else {
        (b - 0x100) as i8
    }
}

/// An integer value as a `ValModel`: non-negative readings always become
/// `Uint`, so decoded integers are well formed.
pub open spec fn int_val(n: int) -> ValModel {
    if n >= 0 {
        ValModel::Uint(n as u64)
    } else {
        ValModel::Int(n as i64)
    }
}

/// Decodes the text-string payload that follows a `hdr`-byte header
/// announcing `len` payload bytes.
pub open spec fn dec_str(s: Seq<u8>, hdr: int, len: int) -> Parsed<ValModel> {
    if s.len() < hdr + len {
        Parsed::Short
    } else {
        let bytes = s.subrange(hdr, hdr + len);
        if valid_utf8(bytes) {
            Parsed::Found(ValModel::Str(decode_utf8(bytes)), hdr + len)
        } else {
            Parsed::Bad
        }
    }
}

/// Decodes the byte-string payload that follows a `hdr`-byte header.
pub open spec fn dec_bin(s: Seq<u8>, hdr: int, len: int) -> Parsed<ValModel> {
    if s.len() < hdr + len {
        Parsed::Short
    } else {
        Parsed::Found(ValModel::Bin(s.subrange(hdr, hdr + len)), hdr + len)
    }
}

/// Decodes the type tag and payload of an extension whose length field said
/// `len`, with `hdr` bytes of marker and length before the tag byte.
pub open spec fn dec_ext(s: Seq<u8>, hdr: int, len: int) -> Parsed<ValModel> {
    if s.len() < hdr + 1 + len {
        Parsed::Short
    } else {
        Parsed::Found(
            ValModel::Ext(tag_of(s[hdr]), s.subrange(hdr + 1, hdr + 1 + len)),
            hdr + 1 + len,
        )
    }
}

/// The mathematical decoder of one MessagePack value: what any conforming
/// reader finds at the front of `s`.  It accepts every encoding the format
/// defines, canonical or not.
pub open spec fn dec_val(s: Seq<u8>) -> Parsed<ValModel>
    decreases s.len(), 0nat, 0nat,
{
    if s.len() == 0 {
        Parsed::Short
    } else {
        let m = s[0];
        if m < 0x80 {
            Parsed::Found(ValModel::Uint(m as u64), 1)
        } else if m < 0x90 {
            match dec_pairs(s.skip(1), (m - 0x80) as nat) {
                Parsed::Found(ps, n) => Parsed::Found(ValModel::Dict(ps), 1 + n),
                Parsed::Short => Parsed::Short,
                Parsed::Bad => Parsed::Bad,
            }
        } else if m < 0xa0 {
            match dec_vals(s.skip(1), (m - 0x90) as nat) {
                Parsed::Found(vs, n) => Parsed::Found(ValModel::Array(vs), 1 + n),
                Parsed::Short => Parsed::Short,
                Parsed::Bad => Parsed::Bad,
            }
        } else if m < 0xc0 {
            dec_str(s, 1, m - 0xa0)
        } else if m == 0xc0 {
            Parsed::Found(ValModel::Nil, 1)
        } else if m == 0xc1 {
            Parsed::Bad
        } else if m == 0xc2 {
            Parsed::Found(ValModel::Boolean(false), 1)
        } else if m == 0xc3 {
            Parsed::Found(ValModel::Boolean(true), 1)
        } else if m <= 0xc6 {
            // bin 8/16/32
            let k = if m == 0xc4 { 1int } else if m == 0xc5 { 2int } else { 4int };
            if s.len() < 1 + k {
                Parsed::Short
            } else {
                dec_bin(s, 1 + k, be_val(s.subrange(1, 1 + k)))
            }
        } else if m <= 0xc9 {
            // ext 8/16/32
            let k = if m == 0xc7 { 1int } else if m == 0xc8 { 2int } else { 4int };
            if s.len() < 1 + k {
                Parsed::Short
            } else {
                dec_ext(s, 1 + k, be_val(s.subrange(1, 1 + k)))
            }
        } else if m == 0xca {
            if s.len() < 5 {
                Parsed::Short
            } else {
                Parsed::Found(ValModel::F32(be_val(s.subrange(1, 5)) as u32), 5)
            }
        } else if m == 0xcb {
            if s.len() < 9 {
                Parsed::Short
            } else {
                Parsed::Found(ValModel::F64(be_val(s.subrange(1, 9)) as u64), 9)
            }
        } else if m <= 0xcf {
            // uint 8/16/32/64
            let k = if m == 0xcc {
                1int
            } else if m == 0xcd {
                2int
            } else if m == 0xce {
                4int
            } else {
                8int
            };
            if s.len() < 1 + k {
                Parsed::Short
            } else {
                Parsed::Found(ValModel::Uint(be_val(s.subrange(1, 1 + k)) as u64), 1 + k)
            }
        } else if m <= 0xd3 {
            // int 8/16/32/64
            let k = if m == 0xd0 {
                1int
            } else if m == 0xd1 {
                2int
            } else if m == 0xd2 {
                4int
            } else {
                8int
            };
            if s.len() < 1 + k {
                Parsed::Short
            } else {
                Parsed::Found(
                    int_val(signed_of(be_val(s.subrange(1, 1 + k)), k as nat)),
                    1 + k,
                )
            }
        } else if m <= 0xd8 {
            // fixext 1/2/4/8/16
            let l = if m == 0xd4 {
                1int
            } else if m == 0xd5 {
                2int
            } else if m == 0xd6 {
                4int
            } else if m == 0xd7 {
                8int
            } else {
                16int
            };
            dec_ext(s, 1, l)
        } else if m <= 0xdb {
            // str 8/16/32
            let k = if m == 0xd9 { 1int } else if m == 0xda { 2int } else { 4int };
            if s.len() < 1 + k {
                Parsed::Short
            } else {
                dec_str(s, 1 + k, be_val(s.subrange(1, 1 + k)))
            }
        } else if m <= 0xdd {
            // array 16/32
            let k = if m == 0xdc { 2int } else { 4int };
            if s.len() < 1 + k {
                Parsed::Short
            } else {
                match dec_vals(s.skip(1 + k), be_val(s.subrange(1, 1 + k)) as nat) {
                    Parsed::Found(vs, n) => Parsed::Found(ValModel::Array(vs), 1 + k + n),
                    Parsed::Short => Parsed::Short,
                    Parsed::Bad => Parsed::Bad,
                }
            }
        } else if m <= 0xdf {
            // map 16/32
            let k = if m == 0xde { 2int } else { 4int };
            if s.len() < 1 + k {
                Parsed::Short
            } else {
                match dec_pairs(s.skip(1 + k), be_val(s.subrange(1, 1 + k)) as nat) {
                    Parsed::Found(ps, n) => Parsed::Found(ValModel::Dict(ps), 1 + k + n),
                    Parsed::Short => Parsed::Short,
                    Parsed::Bad => Parsed::Bad,
                }
            }
        } else {
            // negative fixint
            Parsed::Found(ValModel::Int((m - 0x100) as i64), 1)
        }
    }
}

/// Decodes `n` consecutive values from the front of `s`.
pub open spec fn dec_vals(s: Seq<u8>, n: nat) -> Parsed<Seq<ValModel>>
    decreases s.len(), 1nat, n,
{
    if n == 0 {
        Parsed::Found(Seq::empty(), 0)
    } else {
        match dec_val(s) {
            Parsed::Found(v, k) => {
                if 1 <= k <= s.len() {
                    match dec_vals(s.skip(k), (n - 1) as nat) {
                        Parsed::Found(vs, k2) => Parsed::Found(seq![v] + vs, k + k2),
                        Parsed::Short => Parsed::Short,
                        Parsed::Bad => Parsed::Bad,
                    }
                } else {
                    Parsed::Bad
                }
            }
            Parsed::Short => Parsed::Short,
            Parsed::Bad => Parsed::Bad,
        }
    }
}

/// Decodes `n` consecutive key-value pairs from the front of `s`.
pub open spec fn dec_pairs(s: Seq<u8>, n: nat) -> Parsed<Seq<(ValModel, ValModel)>>
    decreases s.len(), 1nat, n,
{
    if n == 0 {
        Parsed::Found(Seq::empty(), 0)
    } else {
        match dec_val(s) {
            Parsed::Found(key, k1) => {
                if 1 <= k1 <= s.len() {
                    match dec_val(s.skip(k1)) {
                        Parsed::Found(value, k2) => {
                            if 1 <= k2 <= s.len() - k1 {
                                match dec_pairs(s.skip(k1 + k2), (n - 1) as nat) {
                                    Parsed::Found(ps, k3) => Parsed::Found(
                                        seq![(key, value)] + ps,
                                        k1 + k2 + k3,
                                    ),
                                    Parsed::Short => Parsed::Short,
                                    Parsed::Bad => Parsed::Bad,
                                }
                            } else {
                                Parsed::Bad
                            }
                        }
                        Parsed::Short => Parsed::Short,
                        Parsed::Bad => Parsed::Bad,
                    }
                } else {
                    Parsed::Bad
                }
            }
            Parsed::Short => Parsed::Short,
            Parsed::Bad => Parsed::Bad,
        }
    }
}

/// Every encoding is at least one byte: the marker.
pub proof fn lemma_enc_val_len(v: ValModel)
    ensures
        enc_val(v).len() >= 1,
{
    lemma_be_bytes_len(0, 0);
    match v {
        ValModel::Nil => {}
        ValModel::Boolean(b) => {}
        ValModel::Uint(n) => {}
        ValModel::Int(n) => {}
        ValModel::F32(bits) => {}
        ValModel::F64(bits) => {}
        ValModel::Str(cs) => {}
        ValModel::Bin(b) => {}
        ValModel::Array(a) => {}
        ValModel::Dict(m) => {}
        ValModel::Ext(t, d) => {}
    }
}

proof fn lemma_dec_enc_uint(n: u64, rest: Seq<u8>)
    ensures
        dec_val(enc_uint(n) + rest) == Parsed::Found(ValModel::Uint(n), enc_uint(n).len() as int),
{
    reveal_with_fuel(pow256, 10);
    let e = enc_uint(n);
    let s = e + rest;
    if n < 0x80 {
        assert(s[0] == n as u8);
        assert(e.len() == 1);
    } else if n < 0x100 {
        lemma_be_bytes_len(n as int, 1);
        assert(s[0] == 0xcc);
        assert(s.subrange(1, 2) =~= be_bytes(n as int, 1));
        lemma_be_roundtrip(n as int, 1);
        assert(e.len() == 2);
    } else if n < 0x10000 {
        lemma_be_bytes_len(n as int, 2);
        assert(s[0] == 0xcd);
        assert(s.subrange(1, 3) =~= be_bytes(n as int, 2));
        lemma_be_roundtrip(n as int, 2);
        assert(e.len() == 3);
    } else if n < 0x1_0000_0000 {
        lemma_be_bytes_len(n as int, 4);
        assert(s[0] == 0xce);
        assert(s.subrange(1, 5) =~= be_bytes(n as int, 4));
        lemma_be_roundtrip(n as int, 4);
        assert(e.len() == 5);
    } else {
        lemma_be_bytes_len(n as int, 8);
        assert(s[0] == 0xcf);
        assert(s.subrange(1, 9) =~= be_bytes(n as int, 8));
        lemma_be_roundtrip(n as int, 8);
        assert(e.len() == 9);
    }
}

proof fn lemma_dec_enc_int(n: i64, rest: Seq<u8>)
    requires
        n < 0,
    ensures
        dec_val(enc_int(n) + rest) == Parsed::Found(ValModel::Int(n), enc_int(n).len() as int),
{
    reveal_with_fuel(pow256, 10);
    let e = enc_int(n);
    let s = e + rest;
    if n >= -32 {
        assert(s[0] == (n + 0x100) as u8);
        assert(s[0] >= 0xe0);
        assert((s[0] - 0x100) as i64 == n);
        assert(e.len() == 1);
    } else if n >= -0x80 {
        lemma_be_bytes_len(n + 0x100, 1);
        assert(s[0] == 0xd0);
        assert(s.subrange(1, 2) =~= be_bytes(n + 0x100, 1));
        lemma_be_roundtrip(n + 0x100, 1);
        assert(signed_of(n + 0x100, 1) == n);
        assert(e.len() == 2);
    } else if n >= -0x8000 {
        lemma_be_bytes_len(n + 0x10000, 2);
        assert(s[0] == 0xd1);
        assert(s.subrange(1, 3) =~= be_bytes(n + 0x10000, 2));
        lemma_be_roundtrip(n + 0x10000, 2);
        assert(signed_of(n + 0x10000, 2) == n);
        assert(e.len() == 3);
    } else if n >= -0x8000_0000 {
        lemma_be_bytes_len(n + 0x1_0000_0000, 4);
        assert(s[0] == 0xd2);
        assert(s.subrange(1, 5) =~= be_bytes(n + 0x1_0000_0000, 4));
        lemma_be_roundtrip(n + 0x1_0000_0000, 4);
        assert(signed_of(n + 0x1_0000_0000, 4) == n);
        assert(e.len() == 5);
    } else {
        lemma_be_bytes_len(n + 0x1_0000_0000_0000_0000, 8);
        assert(s[0] == 0xd3);
        assert(s.subrange(1, 9) =~= be_bytes(n + 0x1_0000_0000_0000_0000, 8));
        lemma_be_roundtrip(n + 0x1_0000_0000_0000_0000, 8);
        assert(signed_of(n + 0x1_0000_0000_0000_0000, 8) == n);
        assert(e.len() == 9);
    }
}

proof fn lemma_dec_enc_str(cs: Seq<char>, rest: Seq<u8>)
    requires
        encode_utf8(cs).len() <= MAX_LEN,
    ensures
        dec_val(enc_val(ValModel::Str(cs)) + rest) == Parsed::Found(
            ValModel::Str(cs),
            enc_val(ValModel::Str(cs)).len() as int,
        ),
{
    broadcast use vstd::utf8::encode_utf8_valid_utf8, vstd::utf8::encode_utf8_decode_utf8;

    reveal_with_fuel(pow256, 10);
    let b = encode_utf8(cs);
    let l = b.len() as int;
    let e = enc_val(ValModel::Str(cs));
    assert(e == enc_strhdr(l) + b);
    let s = e + rest;
    if l < 0x20 {
        assert(s[0] == (0xa0 + l) as u8);
        assert(0xa0 <= s[0] < 0xc0);
        assert(s[0] - 0xa0 == l);
        assert(s.subrange(1, 1 + l) =~= b);
        assert(e.len() == 1 + l);
    } else if l < 0x100 {
        lemma_be_bytes_len(l, 1);
        assert(s[0] == 0xd9);
        assert(s.subrange(1, 2) =~= be_bytes(l, 1));
        lemma_be_roundtrip(l, 1);
        assert(s.subrange(2, 2 + l) =~= b);
        assert(e.len() == 2 + l);
    } else if l < 0x10000 {
        lemma_be_bytes_len(l, 2);
        assert(s[0] == 0xda);
        assert(s.subrange(1, 3) =~= be_bytes(l, 2));
        lemma_be_roundtrip(l, 2);
        assert(s.subrange(3, 3 + l) =~= b);
        assert(e.len() == 3 + l);
    } else {
        lemma_be_bytes_len(l, 4);
        assert(s[0] == 0xdb);
        assert(s.subrange(1, 5) =~= be_bytes(l, 4));
        lemma_be_roundtrip(l, 4);
        assert(s.subrange(5, 5 + l) =~= b);
        assert(e.len() == 5 + l);
    }
}

proof fn lemma_dec_enc_bin(b: Seq<u8>, rest: Seq<u8>)
    requires
        b.len() <= MAX_LEN,
    ensures
        dec_val(enc_val(ValModel::Bin(b)) + rest) == Parsed::Found(
            ValModel::Bin(b),
            enc_val(ValModel::Bin(b)).len() as int,
        ),
{
    reveal_with_fuel(pow256, 10);
    let l = b.len() as int;
    let e = enc_val(ValModel::Bin(b));
    assert(e == enc_binhdr(l) + b);
    let s = e + rest;
    if l < 0x100 {
        lemma_be_bytes_len(l, 1);
        assert(s[0] == 0xc4);
        assert(s.subrange(1, 2) =~= be_bytes(l, 1));
        lemma_be_roundtrip(l, 1);
        assert(s.subrange(2, 2 + l) =~= b);
        assert(e.len() == 2 + l);
    } else if l < 0x10000 {
        lemma_be_bytes_len(l, 2);
        assert(s[0] == 0xc5);
        assert(s.subrange(1, 3) =~= be_bytes(l, 2));
        lemma_be_roundtrip(l, 2);
        assert(s.subrange(3, 3 + l) =~= b);
        assert(e.len() == 3 + l);
    } else {
        lemma_be_bytes_len(l, 4);
        assert(s[0] == 0xc6);
        assert(s.subrange(1, 5) =~= be_bytes(l, 4));
        lemma_be_roundtrip(l, 4);
        assert(s.subrange(5, 5 + l) =~= b);
        assert(e.len() == 5 + l);
    }
}

proof fn lemma_dec_enc_ext(t: i8, d: Seq<u8>, rest: Seq<u8>)
    requires
        d.len() <= MAX_LEN,
    ensures
        dec_val(enc_val(ValModel::Ext(t, d)) + rest) == Parsed::Found(
            ValModel::Ext(t, d),
            enc_val(ValModel::Ext(t, d)).len() as int,
        ),
{
    reveal_with_fuel(pow256, 10);
    let l = d.len() as int;
    let e = enc_val(ValModel::Ext(t, d));
    assert(e == enc_exthdr(l, t) + d);
    let s = e + rest;
    assert(tag_of(tag_byte(t)) == t);
    if l == 1 || l == 2 || l == 4 || l == 8 || l == 16 {
        assert(s[0] == if l == 1 {
            0xd4u8
        } else if l == 2 {
            0xd5u8
        } else if l == 4 {
            0xd6u8
        } else if l == 8 {
            0xd7u8
        } else {
            0xd8u8
        });
        assert(s[1] == tag_byte(t));
        assert(s.subrange(2, 2 + l) =~= d);
        assert(e.len() == 2 + l);
    } else if l < 0x100 {
        lemma_be_bytes_len(l, 1);
        assert(s[0] == 0xc7);
        assert(s.subrange(1, 2) =~= be_bytes(l, 1));
        lemma_be_roundtrip(l, 1);
        assert(s[2] == tag_byte(t));
        assert(s.subrange(3, 3 + l) =~= d);
        assert(e.len() == 3 + l);
    } else if l < 0x10000 {
        lemma_be_bytes_len(l, 2);
        assert(s[0] == 0xc8);
        assert(s.subrange(1, 3) =~= be_bytes(l, 2));
        lemma_be_roundtrip(l, 2);
        assert(s[3] == tag_byte(t));
        assert(s.subrange(4, 4 + l) =~= d);
        assert(e.len() == 4 + l);
    } else {
        lemma_be_bytes_len(l, 4);
        assert(s[0] == 0xc9);
        assert(s.subrange(1, 5) =~= be_bytes(l, 4));
        lemma_be_roundtrip(l, 4);
        assert(s[5] == tag_byte(t));
        assert(s.subrange(6, 6 + l) =~= d);
        assert(e.len() == 6 + l);
    }
}

/// The codec round trip: decoding the canonical encoding of any well-formed
/// value, whatever bytes follow it, finds exactly that value and consumes
/// exactly its encoding.
pub proof fn lemma_dec_enc_val(v: ValModel, rest: Seq<u8>)
    requires
        wf_val(v),
    ensures
        dec_val(enc_val(v) + rest) == Parsed::Found(v, enc_val(v).len() as int),
    decreases v, 0nat,
{
    reveal_with_fuel(pow256, 10);
    let e = enc_val(v);
    let s = e + rest;
    match v {
        ValModel::Nil => {
            assert(s[0] == 0xc0);
            assert(e.len() == 1);
        }
        ValModel::Boolean(b) => {
            assert(s[0] == if b { 0xc3u8 } else { 0xc2u8 });
            assert(e.len() == 1);
        }
        ValModel::Uint(n) => {
            lemma_dec_enc_uint(n, rest);
        }
        ValModel::Int(n) => {
            lemma_dec_enc_int(n, rest);
        }
        ValModel::F32(bits) => {
            lemma_be_bytes_len(bits as int, 4);
            assert(s[0] == 0xca);
            assert(s.subrange(1, 5) =~= be_bytes(bits as int, 4));
            lemma_be_roundtrip(bits as int, 4);
            assert(e.len() == 5);
        }
        ValModel::F64(bits) => {
            lemma_be_bytes_len(bits as int, 8);
            assert(s[0] == 0xcb);
            assert(s.subrange(1, 9) =~= be_bytes(bits as int, 8));
            lemma_be_roundtrip(bits as int, 8);
            assert(e.len() == 9);
        }
        ValModel::Str(cs) => {
            lemma_dec_enc_str(cs, rest);
        }
        ValModel::Bin(b) => {
            lemma_dec_enc_bin(b, rest);
        }
        ValModel::Array(a) => {
            let l = a.len() as int;
            let body = enc_vals(a);
            assert(e == enc_arrhdr(l) + body);
            lemma_dec_enc_vals(a, rest);
            if l < 0x10 {
                assert(s[0] == (0x90 + l) as u8);
                assert(0x90 <= s[0] < 0xa0);
                assert(s[0] - 0x90 == l);
                assert(s.skip(1) =~= body + rest);
                assert(e.len() == 1 + body.len());
            } else if l < 0x10000 {
                lemma_be_bytes_len(l, 2);
                assert(s[0] == 0xdc);
                assert(s.subrange(1, 3) =~= be_bytes(l, 2));
                lemma_be_roundtrip(l, 2);
                assert(s.skip(3) =~= body + rest);
                assert(e.len() == 3 + body.len());
            } else {
                lemma_be_bytes_len(l, 4);
                assert(s[0] == 0xdd);
                assert(s.subrange(1, 5) =~= be_bytes(l, 4));
                lemma_be_roundtrip(l, 4);
                assert(s.skip(5) =~= body + rest);
                assert(e.len() == 5 + body.len());
            }
        }
        ValModel::Dict(m) => {
            let l = m.len() as int;
            let body = enc_pairs(m);
            assert(e == enc_maphdr(l) + body);
            lemma_dec_enc_pairs(m, rest);
            if l < 0x10 {
                assert(s[0] == (0x80 + l) as u8);
                assert(0x80 <= s[0] < 0x90);
                assert(s[0] - 0x80 == l);
                assert(s.skip(1) =~= body + rest);
                assert(e.len() == 1 + body.len());
            } else if l < 0x10000 {
                lemma_be_bytes_len(l, 2);
                assert(s[0] == 0xde);
                assert(s.subrange(1, 3) =~= be_bytes(l, 2));
                lemma_be_roundtrip(l, 2);
                assert(s.skip(3) =~= body + rest);
                assert(e.len() == 3 + body.len());
            } else {
                lemma_be_bytes_len(l, 4);
                assert(s[0] == 0xdf);
                assert(s.subrange(1, 5) =~= be_bytes(l, 4));
                lemma_be_roundtrip(l, 4);
                assert(s.skip(5) =~= body + rest);
                assert(e.len() == 5 + body.len());
            }
        }
        ValModel::Ext(t, d) => {
            lemma_dec_enc_ext(t, d, rest);
        }
    }
}

/// Round trip for a run of values: decoding the concatenated encodings of
/// `vs` finds `vs` back.
pub proof fn lemma_dec_enc_vals(vs: Seq<ValModel>, rest: Seq<u8>)
    requires
        forall|i: int| 0 <= i < vs.len() ==> wf_val(#[trigger] vs[i]),
    ensures
        dec_vals(enc_vals(vs) + rest, vs.len()) == Parsed::Found(vs, enc_vals(vs).len() as int),
    decreases vs, 1nat,
{
    if vs.len() == 0 {
        assert(enc_vals(vs) + rest =~= rest);
        assert(vs =~= Seq::<ValModel>::empty());
    } else {
        let v0 = vs[0];
        let tail = vs.drop_first();
        let e0 = enc_val(v0);
        let etail = enc_vals(tail);
        lemma_dec_enc_val(v0, etail + rest);
        lemma_enc_val_len(v0);
        let s = enc_vals(vs) + rest;
        assert(s =~= e0 + (etail + rest));
        assert(dec_val(s) == Parsed::Found(v0, e0.len() as int));
        assert(s.skip(e0.len() as int) =~= etail + rest);
        assert forall|i: int| 0 <= i < tail.len() implies wf_val(#[trigger] tail[i]) by {
            assert(tail[i] == vs[i + 1]);
        }
        lemma_dec_enc_vals(tail, rest);
        assert(dec_vals(s, vs.len()) == Parsed::Found(
            seq![v0] + tail,
            e0.len() + etail.len() as int,
        ));
        assert(seq![v0] + tail =~= vs);
        assert(enc_vals(vs).len() == e0.len() + etail.len());
    }
}

/// Round trip for a run of key-value pairs.
pub proof fn lemma_dec_enc_pairs(ps: Seq<(ValModel, ValModel)>, rest: Seq<u8>)
    requires
        forall|i: int|
            0 <= i < ps.len() ==> wf_val(#[trigger] ps[i].0) && wf_val(ps[i].1),
    ensures
        dec_pairs(enc_pairs(ps) + rest, ps.len()) == Parsed::Found(ps, enc_pairs(ps).len() as int),
    decreases ps, 1nat,
{
    if ps.len() == 0 {
        assert(enc_pairs(ps) + rest =~= rest);
        assert(ps =~= Seq::<(ValModel, ValModel)>::empty());
    } else {
        let p0 = ps[0];
        let tail = ps.drop_first();
        let ek = enc_val(p0.0);
        let ev = enc_val(p0.1);
        let etail = enc_pairs(tail);
        assert(decreases_to!(ps => ps[0]));
        lemma_dec_enc_val(p0.0, ev + (etail + rest));
        lemma_dec_enc_val(p0.1, etail + rest);
        lemma_enc_val_len(p0.0);
        lemma_enc_val_len(p0.1);
        let s = enc_pairs(ps) + rest;
        assert(s =~= ek + (ev + (etail + rest)));
        assert(dec_val(s) == Parsed::Found(p0.0, ek.len() as int));
        assert(s.skip(ek.len() as int) =~= ev + (etail + rest));
        assert(dec_val(s.skip(ek.len() as int)) == Parsed::Found(p0.1, ev.len() as int));
        assert(s.skip(ek.len() + ev.len() as int) =~= etail + rest);
        assert forall|i: int|
            0 <= i < tail.len() implies wf_val(#[trigger] tail[i].0) && wf_val(tail[i].1) by {
            assert(tail[i] == ps[i + 1]);
        }
        lemma_dec_enc_pairs(tail, rest);
        assert(dec_pairs(s, ps.len()) == Parsed::Found(
            seq![p0] + tail,
            ek.len() + ev.len() + etail.len() as int,
        ));
        assert(seq![p0] + tail =~= ps);
        assert(enc_pairs(ps).len() == ek.len() + ev.len() + etail.len());
    }
}

/// Why a byte buffer failed to decode.  `Truncated` input may become
/// decodable once more bytes arrive; `Malformed` input never can, which is
/// fatal for a connection.
#[derive(Debug, PartialEq, Eq, Clone, Copy)]
pub enum DecodeError {
    /// The buffer ends in the middle of a value.
    Truncated,
    /// The bytes can never begin a well-formed value.
    Malformed,
}

pub proof fn lemma_pow256_mono(a: nat, b: nat)
    requires
        a <= b,
    ensures
        pow256(a) <= pow256(b),
    decreases b,
{
    if a < b {
        lemma_pow256_mono(a, (b - 1) as nat);
        lemma_pow256_pos((b - 1) as nat);
    }
}

/// Reads the unsigned big-endian value of `k` bytes at `pos`.
fn read_be(bytes: &[u8], pos: usize, k: usize) -> (r: u64)
    requires
        pos + k <= bytes@.len(),
        k <= 8,
    ensures
        r as int == be_val(bytes@.subrange(pos as int, pos + k)),
{
    let n = bytes.len();
    let mut acc: u64 = 0;
    let mut j: usize = 0;
    assert(bytes@.subrange(pos as int, pos as int) =~= Seq::<u8>::empty());
    while j < k
        invariant
            j <= k,
            k <= 8,
            bytes@.len() == n,
            pos + k <= bytes@.len(),
            acc as int == be_val(bytes@.subrange(pos as int, pos + j)),
        decreases k - j,
    {
        proof {
            lemma_be_val_bound(bytes@.subrange(pos as int, pos + j));
            lemma_pow256_mono(j as nat, 7);
            reveal_with_fuel(pow256, 10);
            assert(acc * 256 + 255 <= 0xffff_ffff_ffff_ffff);
            assert(bytes@.subrange(pos as int, pos + j + 1).drop_last() =~= bytes@.subrange(
                pos as int,
                pos + j,
            ));
            assert(bytes@.subrange(pos as int, pos + j + 1).last() == bytes@[pos + j]);
        }
        acc = acc * 256 + (bytes[pos + j] as u64);
        j = j + 1;
    }
    acc
}

/// Copies `len` bytes starting at `start` out of the buffer.
fn take_bytes(bytes: &[u8], start: usize, len: usize) -> (r: Vec<u8>)
    requires
        start + len <= bytes@.len(),
    ensures
        r@ == bytes@.subrange(start as int, start + len),
{
    let n = bytes.len();
    let mut out: Vec<u8> = Vec::new();
    let mut j: usize = 0;
    while j < len
        invariant
            j <= len,
            bytes@.len() == n,
            start + len <= bytes@.len(),
            out@ == bytes@.subrange(start as int, start + j),
        decreases len - j,
    {
        out.push(bytes[start + j]);
        assert(out@ =~= bytes@.subrange(start as int, start + j + 1));
        j = j + 1;
    }
    out
}

/// Relies on `String::from_utf8`: it returns the string whose characters
/// decode a valid UTF-8 byte vector, and refuses an invalid one, following
/// vstd's own model of UTF-8.
#[verifier::external_body]
fn string_from_utf8(b: Vec<u8>) -> (r: Option<String>)
    ensures
        match r {
            Some(s) => valid_utf8(b@) && s@ == decode_utf8(b@),
            None => !valid_utf8(b@),
        },
{
    String::from_utf8(b).ok()
}

/// The signed reading of an extension type-tag byte.
fn tag_of_exec(b: u8) -> (t: i8)
    ensures
        t == tag_of(b),
{
    if b < 0x80 {
        b as i8
    } else {
        -((0xff - b) as i8) - 1
    }
}

/// Decodes `count` consecutive values starting at `pos`.
#[verifier::loop_isolation(false)]
#[verifier::rlimit(60)]
fn decode_values(bytes: &[u8], pos: usize, count: u64) -> (r: Result<(Vec<Value>, usize), DecodeError>)
    requires
        pos <= bytes@.len(),
    ensures
        ({
            let d = dec_vals(bytes@.skip(pos as int), count as nat);
            match r {
                Ok(p) => d == Parsed::Found(crate::value::vals_model(p.0@), p.1 - pos) && pos
                    <= p.1 <= bytes@.len(),
                Err(DecodeError::Truncated) => d is Short,
                Err(DecodeError::Malformed) => d is Bad,
            }
        }),
    decreases bytes@.len() - pos, 1nat,
{
    let ghost s0 = bytes@.skip(pos as int);
    let mut out: Vec<Value> = Vec::new();
    let mut cur: usize = pos;
    let mut i: u64 = 0;
    assert(crate::value::vals_model(out@) =~= Seq::<ValModel>::empty());
    while i < count
        invariant
            pos <= cur <= bytes@.len(),
            i <= count,
            out@.len() == i,
            ({
                let dtail = dec_vals(bytes@.skip(cur as int), (count - i) as nat);
                let dall = dec_vals(s0, count as nat);
                match dtail {
                    Parsed::Found(vs, k) => dall == Parsed::Found(
                        crate::value::vals_model(out@) + vs,
                        (cur - pos) + k,
                    ),
                    Parsed::Short => dall is Short,
                    Parsed::Bad => dall is Bad,
                }
            }),
        decreases count - i,
    {
        let ghost scur = bytes@.skip(cur as int);
        let ghost dtail = dec_vals(scur, (count - i) as nat);
        match decode_value(bytes, cur) {
            Err(e) => {
                proof {
                    assert(count - i > 0);
                    match dec_val(scur) {
                        Parsed::Found(v, k) => { assert(false); }
                        Parsed::Short => { assert(dtail is Short); }
                        Parsed::Bad => { assert(dtail is Bad); }
                    }
                }
                return Err(e);
            }
            Ok((v, end)) => {
                proof {
                    assert(dec_val(scur) == Parsed::Found(v@, end - cur));
                    assert(1 <= end - cur <= scur.len());
                    assert(scur.skip(end - cur) =~= bytes@.skip(end as int));
                    let dnext = dec_vals(bytes@.skip(end as int), (count - i - 1) as nat);
                    match dnext {
                        Parsed::Found(vs, k) => {
                            assert(dtail == Parsed::Found(seq![v@] + vs, (end - cur) + k));
                            assert(crate::value::vals_model(out@.push(v)) =~= crate::value::vals_model(
                                out@,
                            ) + seq![v@]);
                            assert((crate::value::vals_model(out@) + seq![v@]) + vs
                                =~= crate::value::vals_model(out@) + (seq![v@] + vs));
                        }
                        Parsed::Short => { assert(dtail is Short); }
                        Parsed::Bad => { assert(dtail is Bad); }
                    }
                }
                out.push(v);
                cur = end;
                i = i + 1;
            }
        }
    }
    proof {
        assert(dec_vals(bytes@.skip(cur as int), 0) == Parsed::Found(Seq::<ValModel>::empty(), 0));
        assert(crate::value::vals_model(out@) + Seq::<ValModel>::empty() =~= crate::value::vals_model(
            out@,
        ));
    }
    Ok((out, cur))
}

/// Decodes `count` consecutive key-value pairs starting at `pos`.
#[verifier::loop_isolation(false)]
#[verifier::rlimit(60)]
fn decode_pairs(bytes: &[u8], pos: usize, count: u64) -> (r: Result<
    (Vec<(Value, Value)>, usize),
    DecodeError,
>)
    requires
        pos <= bytes@.len(),
    ensures
        ({
            let d = dec_pairs(bytes@.skip(pos as int), count as nat);
            match r {
                Ok(p) => d == Parsed::Found(crate::value::pairs_model(p.0@), p.1 - pos) && pos
                    <= p.1 <= bytes@.len(),
                Err(DecodeError::Truncated) => d is Short,
                Err(DecodeError::Malformed) => d is Bad,
            }
        }),
    decreases bytes@.len() - pos, 1nat,
{
    let ghost s0 = bytes@.skip(pos as int);
    let mut out: Vec<(Value, Value)> = Vec::new();
    let mut cur: usize = pos;
    let mut i: u64 = 0;
    assert(crate::value::pairs_model(out@) =~= Seq::<(ValModel, ValModel)>::empty());
    while i < count
        invariant
            pos <= cur <= bytes@.len(),
            i <= count,
            out@.len() == i,
            ({
                let dtail = dec_pairs(bytes@.skip(cur as int), (count - i) as nat);
                let dall = dec_pairs(s0, count as nat);
                match dtail {
                    Parsed::Found(ps, k) => dall == Parsed::Found(
                        crate::value::pairs_model(out@) + ps,
                        (cur - pos) + k,
                    ),
                    Parsed::Short => dall is Short,
                    Parsed::Bad => dall is Bad,
                }
            }),
        decreases count - i,
    {
        let ghost scur = bytes@.skip(cur as int);
        let ghost dtail = dec_pairs(scur, (count - i) as nat);
        let (key, kend) = match decode_value(bytes, cur) {
            Err(e) => {
                proof {
                    assert(count - i > 0);
                }
                return Err(e);
            }
            Ok(p) => p,
        };
        proof {
            assert(dec_val(scur) == Parsed::Found(key@, kend - cur));
            assert(1 <= kend - cur <= scur.len());
            assert(scur.skip(kend - cur) =~= bytes@.skip(kend as int));
        }
        let (value, vend) = match decode_value(bytes, kend) {
            Err(e) => {
                proof {
                    match dec_val(bytes@.skip(kend as int)) {
                        Parsed::Found(v, k) => { assert(false); }
                        Parsed::Short => { assert(dtail is Short); }
                        Parsed::Bad => { assert(dtail is Bad); }
                    }
                }
                return Err(e);
            }
            Ok(p) => p,
        };
        proof {
            assert(dec_val(bytes@.skip(kend as int)) == Parsed::Found(value@, vend - kend));
            assert(1 <= vend - kend <= bytes@.len() - kend);
            assert(scur.skip((kend - cur) + (vend - kend)) =~= bytes@.skip(vend as int));
            let dnext = dec_pairs(bytes@.skip(vend as int), (count - i - 1) as nat);
            match dnext {
                Parsed::Found(ps, k) => {
                    assert(dtail == Parsed::Found(
                        seq![(key@, value@)] + ps,
                        (kend - cur) + (vend - kend) + k,
                    ));
                    assert(crate::value::pairs_model(out@.push((key, value)))
                        =~= crate::value::pairs_model(out@) + seq![(key@, value@)]);
                    assert((crate::value::pairs_model(out@) + seq![(key@, value@)]) + ps
                        =~= crate::value::pairs_model(out@) + (seq![(key@, value@)] + ps));
                }
                Parsed::Short => { assert(dtail is Short); }
                Parsed::Bad => { assert(dtail is Bad); }
            }
        }
        out.push((key, value));
        cur = vend;
        i = i + 1;
    }
    proof {
        assert(dec_pairs(bytes@.skip(cur as int), 0) == Parsed::Found(
            Seq::<(ValModel, ValModel)>::empty(),
            0,
        ));
        assert(crate::value::pairs_model(out@) + Seq::<(ValModel, ValModel)>::empty()
            =~= crate::value::pairs_model(out@));
    }
    Ok((out, cur))
}

/// Decodes a text string of `l` payload bytes behind a `hdr`-byte header.
fn decode_str_payload(bytes: &[u8], pos: usize, hdr: usize, l: usize) -> (r: Result<
    (Value, usize),
    DecodeError,
>)
    requires
        pos + hdr <= bytes@.len(),
        hdr >= 1,
    ensures
        ({
            let d = dec_str(bytes@.skip(pos as int), hdr as int, l as int);
            match r {
                Ok(p) => d == Parsed::Found(p.0@, p.1 - pos) && pos < p.1 <= bytes@.len(),
                Err(DecodeError::Truncated) => d is Short,
                Err(DecodeError::Malformed) => d is Bad,
            }
        }),
{
    let n = bytes.len();
    if n - pos - hdr < l {
        return Err(DecodeError::Truncated);
    }
    let b = take_bytes(bytes, pos + hdr, l);
    proof {
        assert(b@ =~= bytes@.skip(pos as int).subrange(hdr as int, hdr + l));
    }
    match string_from_utf8(b) {
        Some(st) => Ok((Value::Str(st), pos + hdr + l)),
        None => Err(DecodeError::Malformed),
    }
}

/// Decodes a byte string of `l` payload bytes behind a `hdr`-byte header.
fn decode_bin_payload(bytes: &[u8], pos: usize, hdr: usize, l: usize) -> (r: Result<
    (Value, usize),
    DecodeError,
>)
    requires
        pos + hdr <= bytes@.len(),
        hdr >= 1,
    ensures
        ({
            let d = dec_bin(bytes@.skip(pos as int), hdr as int, l as int);
            match r {
                Ok(p) => d == Parsed::Found(p.0@, p.1 - pos) && pos < p.1 <= bytes@.len(),
                Err(DecodeError::Truncated) => d is Short,
                Err(DecodeError::Malformed) => d is Bad,
            }
        }),
{
    let n = bytes.len();
    if n - pos - hdr < l {
        return Err(DecodeError::Truncated);
    }
    let b = take_bytes(bytes, pos + hdr, l);
    proof {
        assert(b@ =~= bytes@.skip(pos as int).subrange(hdr as int, hdr + l));
    }
    Ok((Value::Bin(b), pos + hdr + l))
}

/// Decodes the tag byte and `l` payload bytes of an extension, behind `hdr`
/// bytes of marker and length field.
fn decode_ext_payload(bytes: &[u8], pos: usize, hdr: usize, l: usize) -> (r: Result<
    (Value, usize),
    DecodeError,
>)
    requires
        pos + hdr <= bytes@.len(),
        hdr >= 1,
    ensures
        ({
            let d = dec_ext(bytes@.skip(pos as int), hdr as int, l as int);
            match r {
                Ok(p) => d == Parsed::Found(p.0@, p.1 - pos) && pos < p.1 <= bytes@.len(),
                Err(DecodeError::Truncated) => d is Short,
                Err(DecodeError::Malformed) => d is Bad,
            }
        }),
{
    let n = bytes.len();
    if n - pos - hdr < 1 || n - pos - hdr - 1 < l {
        return Err(DecodeError::Truncated);
    }
    let t = tag_of_exec(bytes[pos + hdr]);
    let b = take_bytes(bytes, pos + hdr + 1, l);
    proof {
        assert(bytes@[pos + hdr] == bytes@.skip(pos as int)[hdr as int]);
        assert(b@ =~= bytes@.skip(pos as int).subrange(hdr + 1, hdr + 1 + l));
    }
    Ok((Value::Ext(t, b), pos + hdr + 1 + l))
}

/// Reads a `k`-byte length field at `pos + 1` and returns it as a `usize`.
fn read_len_field(bytes: &[u8], pos: usize, k: usize) -> (l: usize)
    requires
        pos + 1 + k <= bytes@.len(),
        1 <= k <= 4,
    ensures
        l as int == be_val(bytes@.skip(pos as int).subrange(1, 1 + k as int)),
        l <= MAX_LEN,
{
    let n = bytes.len();
    assert(pos + 1 + k <= n);
    let l64 = read_be(bytes, pos + 1, k);
    proof {
        let sub = bytes@.subrange(pos + 1, pos + 1 + k);
        assert(sub =~= bytes@.skip(pos as int).subrange(1, 1 + k as int));
        lemma_be_val_bound(sub);
        lemma_pow256_mono(k as nat, 4);
        reveal_with_fuel(pow256, 10);
        assert(l64 <= 0xffff_ffffu64);
    }
    l64 as usize
}

/// Decodes a float or sized-integer value (markers `0xca` through `0xd3`).
#[verifier::rlimit(100)]
fn decode_num(bytes: &[u8], pos: usize, m: u8) -> (r: Result<(Value, usize), DecodeError>)
    requires
        pos < bytes@.len(),
        bytes@.skip(pos as int)[0] == m,
        0xca <= m <= 0xd3,
    ensures
        ({
            let d = dec_val(bytes@.skip(pos as int));
            match r {
                Ok(p) => d == Parsed::Found(p.0@, p.1 - pos) && pos < p.1 <= bytes@.len(),
                Err(DecodeError::Truncated) => d is Short,
                Err(DecodeError::Malformed) => d is Bad,
            }
        }),
{
    let n = bytes.len();
    let ghost s = bytes@.skip(pos as int);
    proof {
        assert(s.len() == n - pos);
    }
    if m == 0xca {
        if n - pos < 5 {
            return Err(DecodeError::Truncated);
        }
        let u = read_be(bytes, pos + 1, 4);
        proof {
            let sub = bytes@.subrange(pos + 1, pos + 5);
            assert(sub =~= s.subrange(1, 5));
            lemma_be_val_bound(sub);
            reveal_with_fuel(pow256, 10);
        }
        Ok((Value::F32(u as u32), pos + 5))
    } else if m == 0xcb {
        if n - pos < 9 {
            return Err(DecodeError::Truncated);
        }
        let u = read_be(bytes, pos + 1, 8);
        proof {
            assert(bytes@.subrange(pos + 1, pos + 9) =~= s.subrange(1, 9));
        }
        Ok((Value::F64(u), pos + 9))
    } else if m <= 0xcf {
        let k: usize = if m == 0xcc {
            1
        } else if m == 0xcd {
            2
        } else if m == 0xce {
            4
        } else {
            8
        };
        if n - pos < 1 + k {
            return Err(DecodeError::Truncated);
        }
        let u = read_be(bytes, pos + 1, k);
        proof {
            assert(bytes@.subrange(pos + 1, pos + 1 + k) =~= s.subrange(1, 1 + k as int));
        }
        Ok((Value::Uint(u), pos + 1 + k))
    } else {
        let k: usize = if m == 0xd0 {
            1
        } else if m == 0xd1 {
            2
        } else if m == 0xd2 {
            4
        } else {
            8
        };
        if n - pos < 1 + k {
            return Err(DecodeError::Truncated);
        }
        let u = read_be(bytes, pos + 1, k);
        proof {
            let sub = bytes@.subrange(pos + 1, pos + 1 + k);
            assert(sub =~= s.subrange(1, 1 + k as int));
            lemma_be_val_bound(sub);
            reveal_with_fuel(pow256, 10);
        }
        let half: u64 = if k == 1 {
            0x80
        } else if k == 2 {
            0x8000
        } else if k == 4 {
            0x8000_0000
        } else {
            0x8000_0000_0000_0000
        };
        if u < half {
            Ok((Value::Uint(u), pos + 1 + k))
        } else {
            let v: i64 = if k == 1 {
                (u as i64) - 0x100
            } else if k == 2 {
                (u as i64) - 0x10000
            } else if k == 4 {
                (u as i64) - 0x1_0000_0000
            } else {
                -(((u64::MAX - u) as i64)) - 1
            };
            proof {
                assert(v as int == signed_of(u as int, k as nat));
            }
            Ok((Value::Int(v), pos + 1 + k))
        }
    }
}

/// Decodes one MessagePack value at `pos`, returning the value and the
/// offset just past it.  The result is exactly what the mathematical decoder
/// `dec_val` finds there: `Ok` exactly when it finds a value, `Truncated`
/// exactly when the buffer ends inside a value, `Malformed` exactly when the
/// bytes can never begin one.
#[verifier::rlimit(100)]
pub fn decode_value(bytes: &[u8], pos: usize) -> (r: Result<(Value, usize), DecodeError>)
    requires
        pos <= bytes@.len(),
    ensures
        ({
            let d = dec_val(bytes@.skip(pos as int));
            match r {
                Ok(p) => d == Parsed::Found(p.0@, p.1 - pos) && pos < p.1 <= bytes@.len()
                    && wf_val(p.0@),
                Err(DecodeError::Truncated) => d is Short,
                Err(DecodeError::Malformed) => d is Bad,
            }
        }),
    decreases bytes@.len() - pos, 0nat,
{
    let n = bytes.len();
    let ghost s = bytes@.skip(pos as int);
    proof {
        lemma_dec_val_wf(s);
    }
    if pos >= n {
        return Err(DecodeError::Truncated);
    }
    let m = bytes[pos];
    proof {
        assert(s[0] == m);
        assert(s.len() == n - pos);
    }
    if m < 0x80 {
        Ok((Value::Uint(m as u64), pos + 1))
    } else if m < 0x90 {
        let cnt = (m - 0x80) as u64;
        proof {
            assert(s.skip(1) =~= bytes@.skip(pos + 1));
        }
        match decode_pairs(bytes, pos + 1, cnt) {
            Ok((ps, end)) => {
                proof {
                    crate::value::lemma_val_model_dict(ps);
                }
                Ok((Value::Dict(ps), end))
            }
            Err(e) => Err(e),
        }
    } else if m < 0xa0 {
        let cnt = (m - 0x90) as u64;
        proof {
            assert(s.skip(1) =~= bytes@.skip(pos + 1));
        }
        match decode_values(bytes, pos + 1, cnt) {
            Ok((vs, end)) => {
                proof {
                    crate::value::lemma_val_model_array(vs);
                }
                Ok((Value::Array(vs), end))
            }
            Err(e) => Err(e),
        }
    } else if m < 0xc0 {
        decode_str_payload(bytes, pos, 1, (m - 0xa0) as usize)
    } else if m == 0xc0 {
        Ok((Value::Nil, pos + 1))
    } else if m == 0xc1 {
        Err(DecodeError::Malformed)
    } else if m == 0xc2 {
        Ok((Value::Boolean(false), pos + 1))
    } else if m == 0xc3 {
        Ok((Value::Boolean(true), pos + 1))
    } else if m <= 0xc6 {
        let k: usize = if m == 0xc4 { 1 } else if m == 0xc5 { 2 } else { 4 };
        if n - pos < 1 + k {
            return Err(DecodeError::Truncated);
        }
        let l = read_len_field(bytes, pos, k);
        decode_bin_payload(bytes, pos, 1 + k, l)
    } else if m <= 0xc9 {
        let k: usize = if m == 0xc7 { 1 } else if m == 0xc8 { 2 } else { 4 };
        if n - pos < 1 + k {
            return Err(DecodeError::Truncated);
        }
        let l = read_len_field(bytes, pos, k);
        decode_ext_payload(bytes, pos, 1 + k, l)
    } else if m <= 0xd3 {
        decode_num(bytes, pos, m)
    } else if m <= 0xd8 {
        let l: usize = if m == 0xd4 {
            1
        } else if m == 0xd5 {
            2
        } else if m == 0xd6 {
            4
        } else if m == 0xd7 {
            8
        } else {
            16
        };
        decode_ext_payload(bytes, pos, 1, l)
    } else if m <= 0xdb {
        let k: usize = if m == 0xd9 { 1 } else if m == 0xda { 2 } else { 4 };
        if n - pos < 1 + k {
            return Err(DecodeError::Truncated);
        }
        let l = read_len_field(bytes, pos, k);
        decode_str_payload(bytes, pos, 1 + k, l)
    } else if m <= 0xdd {
        let k: usize = if m == 0xdc { 2 } else { 4 };
        if n - pos < 1 + k {
            return Err(DecodeError::Truncated);
        }
        let l = read_len_field(bytes, pos, k);
        proof {
            assert(s.skip(1 + k as int) =~= bytes@.skip(pos + 1 + k));
        }
        match decode_values(bytes, pos + 1 + k, l as u64) {
            Ok((vs, end)) => {
                proof {
                    crate::value::lemma_val_model_array(vs);
                }
                Ok((Value::Array(vs), end))
            }
            Err(e) => Err(e),
        }
    } else if m <= 0xdf {
        let k: usize = if m == 0xde { 2 } else { 4 };
        if n - pos < 1 + k {
            return Err(DecodeError::Truncated);
        }
        let l = read_len_field(bytes, pos, k);
        proof {
            assert(s.skip(1 + k as int) =~= bytes@.skip(pos + 1 + k));
        }
        match decode_pairs(bytes, pos + 1 + k, l as u64) {
            Ok((ps, end)) => {
                proof {
                    crate::value::lemma_val_model_dict(ps);
                }
                Ok((Value::Dict(ps), end))
            }
            Err(e) => Err(e),
        }
    } else {
        let t = tag_of_exec(m);
        Ok((Value::Int(t as i64), pos + 1))
    }
}

/// Everything the decoder finds is well formed: integers keep their
/// canonical sign split and every length fits a 32-bit length field.  A
/// decoded value can therefore always be encoded again.
pub proof fn lemma_dec_val_wf(s: Seq<u8>)
    ensures
        dec_val(s) matches Parsed::Found(v, k) ==> wf_val(v),
    decreases s.len(), 0nat, 0nat,
{
    reveal_with_fuel(pow256, 10);
    if s.len() > 0 {
        let m = s[0];
        if 0x80 <= m < 0x90 {
            lemma_dec_pairs_wf(s.skip(1), (m - 0x80) as nat);
        } else if 0x90 <= m < 0xa0 {
            lemma_dec_vals_wf(s.skip(1), (m - 0x90) as nat);
        } else if 0xa0 <= m < 0xc0 {
            lemma_str_payload_wf(s, 1, m - 0xa0);
        } else if 0xc4 <= m <= 0xc9 || 0xd9 <= m <= 0xdb {
            let k = if m == 0xc4 || m == 0xc7 || m == 0xd9 {
                1int
            } else if m == 0xc5 || m == 0xc8 || m == 0xda {
                2int
            } else {
                4int
            };
            if s.len() >= 1 + k {
                lemma_be_val_bound(s.subrange(1, 1 + k));
                lemma_pow256_mono(k as nat, 4);
                if 0xd9 <= m {
                    lemma_str_payload_wf(s, 1 + k, be_val(s.subrange(1, 1 + k)));
                }
            }
        } else if 0xd0 <= m <= 0xd3 {
            let k = if m == 0xd0 {
                1int
            } else if m == 0xd1 {
                2int
            } else if m == 0xd2 {
                4int
            } else {
                8int
            };
            if s.len() >= 1 + k {
                lemma_be_val_bound(s.subrange(1, 1 + k));
                lemma_pow256_mono(k as nat, 8);
            }
        } else if 0xdc <= m <= 0xdf {
            let k = if m == 0xdc || m == 0xde { 2int } else { 4int };
            if s.len() >= 1 + k {
                lemma_be_val_bound(s.subrange(1, 1 + k));
                lemma_pow256_mono(k as nat, 4);
                let n = be_val(s.subrange(1, 1 + k)) as nat;
                if m <= 0xdd {
                    lemma_dec_vals_wf(s.skip(1 + k), n);
                } else {
                    lemma_dec_pairs_wf(s.skip(1 + k), n);
                }
            }
        }
    }
}

/// The string payload a well-formed header announces decodes to a string
/// whose UTF-8 form is the payload itself, hence within the length field.
proof fn lemma_str_payload_wf(s: Seq<u8>, hdr: int, len: int)
    requires
        0 <= len <= MAX_LEN,
        1 <= hdr,
    ensures
        dec_str(s, hdr, len) matches Parsed::Found(v, k) ==> wf_val(v),
{
    if s.len() >= hdr + len {
        let bytes = s.subrange(hdr, hdr + len);
        assert(bytes.len() == len);
        if valid_utf8(bytes) {
            vstd::utf8::decode_utf8_encode_utf8(bytes);
            assert(encode_utf8(decode_utf8(bytes)).len() == len);
        }
    }
}

/// A found run of values is elementwise well formed and has the announced
/// count.
pub proof fn lemma_dec_vals_wf(s: Seq<u8>, n: nat)
    ensures
        dec_vals(s, n) matches Parsed::Found(vs, k) ==> vs.len() == n && (forall|i: int|
            0 <= i < vs.len() ==> wf_val(#[trigger] vs[i])),
    decreases s.len(), 1nat, n,
{
    if n > 0 {
        lemma_dec_val_wf(s);
        if let Parsed::Found(v, k) = dec_val(s) {
            if 1 <= k <= s.len() {
                lemma_dec_vals_wf(s.skip(k), (n - 1) as nat);
                if let Parsed::Found(vs, k2) = dec_vals(s.skip(k), (n - 1) as nat) {
                    let whole = seq![v] + vs;
                    assert(whole[0] == v);
                    assert(forall|i: int| 0 <= i < vs.len() ==> whole[i + 1] == #[trigger] vs[i]);
                    assert(forall|i: int| 0 < i < whole.len() ==> #[trigger] whole[i] == vs[i - 1]);
                }
            }
        }
    }
}

/// A found run of pairs is elementwise well formed and has the announced
/// count.
pub proof fn lemma_dec_pairs_wf(s: Seq<u8>, n: nat)
    ensures
        dec_pairs(s, n) matches Parsed::Found(ps, k) ==> ps.len() == n && (forall|i: int|
            0 <= i < ps.len() ==> wf_val((#[trigger] ps[i]).0) && wf_val(ps[i].1)),
    decreases s.len(), 1nat, n,
{
    if n > 0 {
        lemma_dec_val_wf(s);
        if let Parsed::Found(key, k1) = dec_val(s) {
            if 1 <= k1 <= s.len() {
                lemma_dec_val_wf(s.skip(k1));
                if let Parsed::Found(value, k2) = dec_val(s.skip(k1)) {
                    if 1 <= k2 <= s.len() - k1 {
                        lemma_dec_pairs_wf(s.skip(k1 + k2), (n - 1) as nat);
                        if let Parsed::Found(ps, k3) = dec_pairs(s.skip(k1 + k2), (n - 1) as nat) {
                            let whole = seq![(key, value)] + ps;
                            assert forall|i: int|
                                0 <= i < whole.len() implies wf_val((#[trigger] whole[i]).0)
                                && wf_val(whole[i].1) by {
                                if i == 0 {
                                    assert(whole[0] == (key, value));
                                } else {
                                    assert(whole[i] == ps[i - 1]);
                                    assert(wf_val(ps[i - 1].0) && wf_val(ps[i - 1].1));
                                }
                            }
                        }
                    }
                }
            }
        }
    }
}

} // verus!
