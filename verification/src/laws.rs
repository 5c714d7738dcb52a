//! What packing and unpacking do to one another.

use crate::arith::{exp2, lemma_div_div, lemma_div_mod_unique, lemma_exp2_adds, lemma_exp2_step};
use crate::format::{
    bit_stream, bit_value, bits_of, extend, lemma_lsb_first_bound, lemma_msb_first_bound,
    lsb_first, msb_first, pack, padded, padding_len, relevant_len, unpack, values,
};
use crate::word::{bit_at, low_bits, representable, Word};
use vstd::arithmetic::div_mod::{lemma_fundamental_div_mod, lemma_mod_bound};
use vstd::prelude::*;

verus! {

/// The bits of `v` below position `n` are those of `v mod 2^n`.
proof fn lemma_bit_at_mod(v: int, n: int, t: int)
    requires
        0 <= t < n,
    ensures
        bit_at(v % exp2(n), t) == bit_at(v, t),
{
    let d = exp2(t);
    let big = exp2(n - t);
    let half = exp2(n - t - 1);
    lemma_exp2_adds(t, n - t);
    lemma_exp2_step(n - t - 1);
    assert(exp2(n) == d * big);
    assert(big == 2 * half);
    let r = v % exp2(n);
    let w = v / d;
    lemma_div_div(v, d, big);
    lemma_mod_bound(v, d);
    assert(d * (w % big) == (w % big) * d) by (nonlinear_arith);
    lemma_div_mod_unique(r, d, w % big, v % d);
    lemma_div_div(w, 2, half);
    lemma_mod_bound(w, 2);
    assert(2 * ((w / 2) % half) == ((w / 2) % half) * 2);
    lemma_div_mod_unique(w % big, 2, (w / 2) % half, w % 2);
}

/// A run of bits read least significant first spells each of its bits at
/// its own position.
proof fn lemma_bit_of_lsb_first(run: Seq<bool>, t: int)
    requires
        0 <= t < run.len(),
    ensures
        bit_at(lsb_first(run), t) == run[t],
    decreases run.len(),
{
    let n = run.len() as int;
    let rest = run.drop_last();
    let low = lsb_first(rest);
    let top = exp2(n - 1);
    lemma_lsb_first_bound(rest);
    lemma_exp2_step(n - 1);
    assert(lsb_first(run) == bit_value(run.last()) * top + low);
    lemma_div_mod_unique(lsb_first(run), top, bit_value(run.last()), low);
    if t == n - 1 {
    } else {
        lemma_bit_at_mod(lsb_first(run), n - 1, t);
        lemma_bit_of_lsb_first(rest, t);
    }
}

/// A run of bits read most significant first spells its bit `t` at position
/// `len - 1 - t`.
proof fn lemma_bit_of_msb_first(run: Seq<bool>, t: int)
    requires
        0 <= t < run.len(),
    ensures
        bit_at(msb_first(run), run.len() - 1 - t) == run[t],
    decreases run.len(),
{
    let n = run.len() as int;
    let rest = run.drop_last();
    let high = msb_first(rest);
    let whole = msb_first(run);
    assert(whole == high * 2 + bit_value(run.last()));
    lemma_div_mod_unique(whole, 2, high, bit_value(run.last()));
    lemma_exp2_step(0);
    if t == n - 1 {
        assert(whole / 1 == whole);
    } else {
        lemma_exp2_step(n - 2 - t);
        lemma_div_div(whole, 2, exp2(n - 2 - t));
        lemma_bit_of_msb_first(rest, t);
    }
}

/// The low `count` bits of `v`, read least significant first, spell
/// `v mod 2^count`.
proof fn lemma_lsb_first_of_low_bits(v: int, count: int)
    requires
        0 <= count,
    ensures
        lsb_first(low_bits(v, count)) == v % exp2(count),
    decreases count,
{
    let run = low_bits(v, count);
    if count == 0 {
        lemma_exp2_step(0);
        assert(v % 1 == 0);
    } else {
        let top = exp2(count - 1);
        assert(run.drop_last() =~= low_bits(v, count - 1));
        lemma_lsb_first_of_low_bits(v, count - 1);
        lemma_exp2_step(count - 1);
        lemma_div_div(v, top, 2);
        lemma_mod_bound(v / top, 2);
        assert(top * 2 == exp2(count));
        assert(bit_value(run.last()) == (v / top) % 2);
        assert(bit_value(run.last()) * top == top * ((v / top) % 2)) by (nonlinear_arith)
            requires
                bit_value(run.last()) == (v / top) % 2,
        ;
    }
}

/// A run of clear bits spells zero.
proof fn lemma_lsb_first_of_clear(run: Seq<bool>)
    requires
        forall|t: int| 0 <= t < run.len() ==> !run[t],
    ensures
        lsb_first(run) == 0,
    decreases run.len(),
{
    if run.len() > 0 {
        lemma_lsb_first_of_clear(run.drop_last());
        assert(bit_value(run.last()) * exp2(run.len() - 1) == 0) by (nonlinear_arith)
            requires
                bit_value(run.last()) == 0,
        ;
    }
}

/// Widening a `bits`-bit number keeps its low `bits` bits.
proof fn lemma_extend_keeps_low_bits(u: int, bits: int, signed: bool)
    requires
        0 < bits,
        0 <= u < exp2(bits),
    ensures
        extend(u, bits, signed) % exp2(bits) == u,
{
    if extend(u, bits, signed) == u {
        lemma_div_mod_unique(u, exp2(bits), 0, u);
    } else {
        lemma_div_mod_unique(u - exp2(bits), exp2(bits), -1, u);
    }
}

/// An integer that fits in `bits` bits comes back when its low `bits` bits
/// are widened again.
pub proof fn lemma_extend_restores(v: int, bits: int, signed: bool)
    requires
        representable(v, bits, signed),
        0 < bits,
    ensures
        extend(v % exp2(bits), bits, signed) == v,
{
    lemma_exp2_step(bits - 1);
    if v >= 0 {
        lemma_div_mod_unique(v, exp2(bits), 0, v);
    } else {
        lemma_div_mod_unique(v, exp2(bits), -1, v + exp2(bits));
    }
}

/// The padded stream is a whole number of bytes long.
proof fn lemma_padded_len(stream: Seq<bool>)
    ensures
        padded(stream).len() == stream.len() + padding_len(stream.len() as int),
        0 <= padding_len(stream.len() as int) < 8,
        padded(stream).len() % 8 == 0,
{
}

/// Reading a packed buffer bit by bit gives back the stream it was packed
/// from, followed by the padding.
pub proof fn lemma_bits_of_pack(stream: Seq<bool>)
    ensures
        bits_of(pack(stream)) == padded(stream),
{
    let full = padded(stream);
    let bytes = pack(stream);
    lemma_padded_len(stream);
    assert(bits_of(bytes).len() == full.len());
    assert forall|k: int| 0 <= k < full.len() implies bits_of(bytes)[k] == full[k] by {
        let j = k / 8;
        let t = k % 8;
        let group = full.subrange(8 * j, 8 * j + 8);
        lemma_msb_first_bound(group);
        vstd::arithmetic::power2::lemma2_to64();
        assert(bytes[j] == msb_first(group));
        lemma_bit_of_msb_first(group, t);
    }
    assert(bits_of(bytes) =~= full);
}

/// Unpacking what was packed gives every element with its bits above the
/// lowest `bits` lost, widened again as the output type says, and after them
/// one zero for every `bits` bits of padding.
pub proof fn lemma_unpack_pack(vals: Seq<int>, bits: int, signed: bool)
    requires
        0 < bits,
    ensures
        unpack(pack(bit_stream(vals, bits)), bits, signed).len() == vals.len() + padding_len(
            vals.len() * bits,
        ) / bits,
        forall|i: int|
            0 <= i < vals.len() ==> #[trigger] unpack(
                pack(bit_stream(vals, bits)),
                bits,
                signed,
            )[i] == extend(vals[i] % exp2(bits), bits, signed),
        forall|i: int|
            vals.len() <= i < vals.len() + padding_len(vals.len() * bits) / bits
                ==> #[trigger] unpack(pack(bit_stream(vals, bits)), bits, signed)[i] == 0,
{
    let stream = bit_stream(vals, bits);
    let bytes = pack(stream);
    let full = padded(stream);
    let out = unpack(bytes, bits, signed);
    let n = vals.len() as int;
    let pad = padding_len(n * bits);
    lemma_bits_of_pack(stream);
    lemma_padded_len(stream);
    assert(0 <= n * bits) by (nonlinear_arith)
        requires
            0 <= n,
            0 < bits,
    ;
    assert(stream.len() == n * bits);
    assert(bytes.len() * 8 == full.len());
    lemma_fundamental_div_mod(pad, bits);
    lemma_mod_bound(pad, bits);
    assert(n * bits + pad == (n + pad / bits) * bits + pad % bits) by (nonlinear_arith)
        requires
            pad == bits * (pad / bits) + pad % bits,
    ;
    lemma_div_mod_unique(n * bits + pad, bits, n + pad / bits, pad % bits);
    assert(0 <= pad / bits) by (nonlinear_arith)
        requires
            pad == bits * (pad / bits) + pad % bits,
            0 <= pad,
            0 <= pad % bits < bits,
    ;
    assert(out.len() == n + pad / bits);
    assert forall|i: int| 0 <= i < out.len() implies #[trigger] out[i] == (if i < n {
        extend(vals[i] % exp2(bits), bits, signed)
    } else {
        0
    }) by {
        assert(0 <= i * bits && i * bits + bits <= full.len() && (i < n ==> i * bits + bits <= n
            * bits) && (i >= n ==> i * bits >= n * bits)) by (nonlinear_arith)
            requires
                0 <= i < n + pad / bits,
                (n + pad / bits) * bits + pad % bits == full.len(),
                0 <= pad % bits,
                0 < bits,
                0 <= n,
        ;
        let group = full.subrange(i * bits, i * bits + bits);
        if i < n {
            assert forall|t: int| 0 <= t < bits implies group[t] == low_bits(vals[i], bits)[t] by {
                lemma_div_mod_unique(i * bits + t, bits, i, t);
            }
            assert(group =~= low_bits(vals[i], bits));
            lemma_lsb_first_of_low_bits(vals[i], bits);
        } else {
            lemma_lsb_first_of_clear(group);
            lemma_exp2_step(bits - 1);
        }
    }
}

/// Packing and then unpacking with the same width gives the elements back,
/// provided each fits in `bits` bits for an output type that is signed as
/// `signed` says, and the padding does not amount to a whole element.
pub proof fn lemma_round_trip(vals: Seq<int>, bits: int, signed: bool)
    requires
        0 < bits,
        padding_len(vals.len() * bits) < bits,
        forall|i: int| 0 <= i < vals.len() ==> representable(#[trigger] vals[i], bits, signed),
    ensures
        unpack(pack(bit_stream(vals, bits)), bits, signed) == vals,
{
    let out = unpack(pack(bit_stream(vals, bits)), bits, signed);
    let pad = padding_len(vals.len() * bits);
    lemma_unpack_pack(vals, bits, signed);
    lemma_div_mod_unique(pad, bits, 0, pad);
    assert forall|i: int| 0 <= i < vals.len() implies out[i] == vals[i] by {
        lemma_extend_restores(vals[i], bits, signed);
    }
    assert(out =~= vals);
}

/// Words that stand for the same integers are the same words.
pub proof fn lemma_same_values<T: Word>(xs: Seq<T>, ys: Seq<T>)
    requires
        values(xs) == values(ys),
    ensures
        xs == ys,
{
    assert(xs.len() == values(xs).len());
    assert(ys.len() == values(ys).len());
    assert forall|i: int| 0 <= i < xs.len() implies xs[i] == ys[i] by {
        assert(values(xs)[i] == xs[i].value());
        assert(values(ys)[i] == ys[i].value());
        xs[i].lemma_value_injective(ys[i]);
    }
    assert(xs =~= ys);
}

/// Packing words at `bits` bits each and unpacking the buffer into the same
/// type with the same width gives the words back, provided each fits in
/// `bits` bits and the padding does not amount to a whole element. `back`
/// stands for what unpacking returned.
pub proof fn lemma_round_trip_words<T: Word>(xs: Seq<T>, bits: int, back: Seq<T>)
    requires
        0 < bits,
        padding_len(xs.len() * bits) < bits,
        forall|i: int|
            0 <= i < xs.len() ==> representable(#[trigger] xs[i].value(), bits, T::signed()),
        values(back) == unpack(pack(bit_stream(values(xs), bits)), bits, T::signed()),
    ensures
        back == xs,
{
    let vals = values(xs);
    assert forall|i: int| 0 <= i < vals.len() implies representable(
        #[trigger] vals[i],
        bits,
        T::signed(),
    ) by {
        assert(vals[i] == xs[i].value());
    }
    lemma_round_trip(vals, bits, T::signed());
    lemma_same_values(back, xs);
}

/// Unpacking a buffer and packing the result again with the same width
/// reproduces the bits of the buffer that unpacking read: all but those at
/// the end that do not fill a whole element.
pub proof fn lemma_repack(bytes: Seq<u8>, bits: int, signed: bool)
    requires
        0 < bits,
    ensures
        0 <= relevant_len(bytes.len() as int, bits) <= bytes.len() * 8,
        bit_stream(unpack(bytes, bits, signed), bits) == bits_of(bytes).subrange(
            0,
            relevant_len(bytes.len() as int, bits),
        ),
        bits_of(pack(bit_stream(unpack(bytes, bits, signed), bits))).subrange(
            0,
            relevant_len(bytes.len() as int, bits),
        ) == bits_of(bytes).subrange(0, relevant_len(bytes.len() as int, bits)),
{
    let all = bytes.len() as int * 8;
    let count = all / bits;
    let kept = relevant_len(bytes.len() as int, bits);
    let out = unpack(bytes, bits, signed);
    let again = bit_stream(out, bits);
    let read = bits_of(bytes).subrange(0, kept);
    lemma_fundamental_div_mod(all, bits);
    lemma_mod_bound(all, bits);
    assert(0 <= count && 0 <= kept <= all && kept == count * bits) by (nonlinear_arith)
        requires
            all == bits * count + all % bits,
            kept == all - all % bits,
            0 <= all % bits < bits,
            0 <= all,
    ;
    assert(out.len() == count);
    assert(again.len() == kept);
    assert forall|k: int| 0 <= k < kept implies again[k] == read[k] by {
        let i = k / bits;
        let t = k % bits;
        lemma_fundamental_div_mod(k, bits);
        lemma_mod_bound(k, bits);
        assert(0 <= i < count && i * bits + bits <= kept && k == i * bits + t) by (nonlinear_arith)
            requires
                k == bits * i + t,
                0 <= t < bits,
                0 <= k < kept,
                kept == count * bits,
        ;
        let group = bits_of(bytes).subrange(i * bits, i * bits + bits);
        let u = lsb_first(group);
        lemma_lsb_first_bound(group);
        lemma_extend_keeps_low_bits(u, bits, signed);
        lemma_bit_at_mod(extend(u, bits, signed), bits, t);
        lemma_bit_of_lsb_first(group, t);
        assert(out[i] == extend(u, bits, signed));
    }
    assert(again =~= read);
    lemma_bits_of_pack(again);
    assert(padded(again).subrange(0, kept) =~= again);
}

} // verus!
