//! Unpacking: from the packed buffer back to integers.

use crate::arith::{exp2, lemma_div_div, lemma_div_mod_unique, lemma_exp2_adds, lemma_exp2_step};
use crate::bit_iter::NumberBitIter;
use crate::chunk::{chunk_bits, group_at, group_count};
use crate::error::CodecError;
use crate::format::{
    bit_value, bits_of, extend, lemma_lsb_first_bound, lsb_first, unpack, values,
};
use crate::word::{bit_at, low_bits, representable, top_weight, Word};
use vstd::prelude::*;

verus! {

/// What `u8::reverse_bits` of the standard library returns.
///
/// Not proved: that bit `i` of the result is bit `7 - i` of the argument, so
/// that the least significant bit becomes the most significant and so on.
pub assume_specification[ u8::reverse_bits ](byte: u8) -> (mirrored: u8)
    ensures
        forall|i: int|
            0 <= i < 8 ==> #[trigger] bit_at(mirrored as int, i) == bit_at(byte as int, 7 - i),
;

/// One step of building a word from the top: halving the word and setting its
/// top bit to `bit` puts `bit` above the `t` bits gathered so far.
proof fn lemma_push_top(v: int, v2: int, width: int, signed: bool, t: int, gathered: int, bit: bool)
    requires
        0 <= t < width,
        0 <= gathered < exp2(t),
        v % exp2(width) == gathered * exp2(width - t),
        v2 == (v / 2) % exp2(width - 1) + if bit {
            top_weight(width, signed)
        } else {
            0
        },
    ensures
        v2 % exp2(width) == (gathered + bit_value(bit) * exp2(t)) * exp2(width - (t + 1)),
{
    let half = exp2(width - 1);
    let unit = exp2(width - (t + 1));
    lemma_exp2_step(width - 1);
    lemma_exp2_step(width - (t + 1));
    lemma_exp2_adds(t, width - (t + 1));
    assert(exp2(width) == 2 * half);
    assert(exp2(width - t) == 2 * unit);
    assert(half == exp2(t) * unit);
    lemma_div_div(v, 2, half);
    let q = (v / 2) % half;
    assert(gathered * (2 * unit) == 2 * (gathered * unit)) by (nonlinear_arith);
    assert(q == gathered * unit);
    assert(0 <= q < half) by {
        vstd::arithmetic::div_mod::lemma_mod_bound(v / 2, half);
    }
    assert((gathered + bit_value(bit) * exp2(t)) * unit == gathered * unit + bit_value(bit) * (
    exp2(t) * unit)) by (nonlinear_arith);
    if !bit {
        lemma_div_mod_unique(v2, exp2(width), 0, q);
    } else if signed {
        lemma_div_mod_unique(v2, exp2(width), -1, q + half);
    } else {
        lemma_div_mod_unique(v2, exp2(width), 0, q + half);
    }
}

/// The last step of building a word: with `count` bits gathered at the top
/// of the word, the type's own right shift by the rest of the width leaves
/// their number, read as signed where the type is.
proof fn lemma_settle(v: int, width: int, signed: bool, count: int, gathered: int)
    requires
        0 < count <= width,
        0 <= gathered < exp2(count),
        representable(v, width, signed),
        v % exp2(width) == gathered * exp2(width - count),
    ensures
        v / exp2(width - count) == extend(gathered, count, signed),
{
    let unit = exp2(width - count);
    let full = exp2(width);
    lemma_exp2_adds(count, width - count);
    lemma_exp2_adds(count - 1, width - count);
    lemma_exp2_step(count - 1);
    lemma_exp2_step(width - 1);
    assert(full == exp2(count) * unit);
    assert(exp2(width - 1) == exp2(count - 1) * unit);
    vstd::arithmetic::div_mod::lemma_fundamental_div_mod(v, full);
    vstd::arithmetic::div_mod::lemma_mod_bound(v, full);
    let m = v / full;
    assert(v == full * m + gathered * unit);
    assert(gathered * unit < full) by (nonlinear_arith)
        requires
            gathered < exp2(count),
            full == exp2(count) * unit,
            unit > 0,
    ;
    assert(0 <= gathered * unit) by (nonlinear_arith)
        requires
            0 <= gathered,
            unit > 0,
    ;
    if v >= 0 {
        assert(m == 0) by (nonlinear_arith)
            requires
                v == full * m + gathered * unit,
                0 <= v < full,
                0 <= gathered * unit < full,
                full > 0,
        ;
        assert(full * m == 0) by (nonlinear_arith)
            requires
                m == 0,
        ;
        lemma_div_mod_unique(v, unit, gathered, 0);
        if signed {
            assert(gathered < exp2(count - 1)) by (nonlinear_arith)
                requires
                    gathered * unit < exp2(count - 1) * unit,
                    unit > 0,
            ;
        }
    } else {
        assert(signed);
        assert(m == -1) by (nonlinear_arith)
            requires
                v == full * m + gathered * unit,
                -full < v < 0,
                0 <= gathered * unit < full,
                full > 0,
        ;
        assert(full * m == -full) by (nonlinear_arith)
            requires
                m == -1,
        ;
        assert(full == 2 * exp2(width - 1));
        assert(gathered >= exp2(count - 1)) by (nonlinear_arith)
            requires
                gathered * unit >= exp2(count - 1) * unit,
                unit > 0,
        ;
        assert(v == (gathered - exp2(count)) * unit + 0) by (nonlinear_arith)
            requires
                v == full * m + gathered * unit,
                m == -1,
                full == exp2(count) * unit,
        ;
        lemma_div_mod_unique(v, unit, gathered - exp2(count), 0);
    }
}

/// Builds one word from its `bits` stored bits, least significant first: each
/// bit enters at the top of the word and moves down as the next ones arrive,
/// and the type's own right shift then brings the bits to the bottom.
fn fold_word<O: Word>(group: &Vec<bool>, bits: usize) -> (word: O)
    requires
        group@.len() == bits,
        0 < bits <= O::bit_width(),
    ensures
        word.value() == extend(lsb_first(group@), bits as int, O::signed()),
{
    let width = O::width();
    let mut acc = O::zero();
    let mut t: usize = 0;
    proof {
        O::lemma_width();
        lemma_exp2_step(width as int);
        lemma_div_mod_unique(0, exp2(width as int), 0, 0);
        assert(lsb_first(group@.subrange(0, 0)) == 0);
    }
    while t < bits
        invariant
            O::bit_width() == width,
            2 <= width,
            group@.len() == bits,
            t <= bits <= width,
            acc.value() % exp2(width as int) == lsb_first(group@.subrange(0, t as int)) * exp2(
                width - t,
            ),
        decreases bits - t,
    {
        let ghost before = group@.subrange(0, t as int);
        let ghost after = group@.subrange(0, t + 1);
        let ghost old_value = acc.value();
        let bit = group[t];
        acc = acc.shift_right(1).with_top_bit(bit);
        proof {
            assert(after.drop_last() =~= before);
            lemma_lsb_first_bound(before);
            lemma_exp2_step(0);
            lemma_push_top(
                old_value,
                acc.value(),
                width as int,
                O::signed(),
                t as int,
                lsb_first(before),
                bit,
            );
        }
        t += 1;
    }
    proof {
        assert(group@.subrange(0, t as int) =~= group@);
        lemma_lsb_first_bound(group@);
        acc.lemma_value_in_range();
        lemma_settle(acc.value(), width as int, O::signed(), bits as int, lsb_first(group@));
    }
    acc.shift_right(width - bits)
}

/// The eight bits of byte `i`, read from the mirrored byte's least
/// significant bit upwards, follow those of the bytes before it.
proof fn lemma_bits_grow(bytes: Seq<u8>, i: int, mirrored: u8)
    requires
        0 <= i < bytes.len(),
        forall|t: int|
            0 <= t < 8 ==> #[trigger] bit_at(mirrored as int, t) == bit_at(
                bytes[i] as int,
                7 - t,
            ),
    ensures
        bits_of(bytes).subrange(0, 8 * i) + low_bits(mirrored as int, 8) == bits_of(
            bytes,
        ).subrange(0, 8 * (i + 1)),
{
    let whole = bits_of(bytes);
    let left = whole.subrange(0, 8 * i) + low_bits(mirrored as int, 8);
    let right = whole.subrange(0, 8 * (i + 1));
    assert forall|k: int| 0 <= k < right.len() implies left[k] == right[k] by {
        if k >= 8 * i {
            let t = k - 8 * i;
            assert(left[k] == bit_at(mirrored as int, t));
            assert(k / 8 == i && k % 8 == t);
        }
    }
    assert(left =~= right);
}

/// Cutting off what does not fill a whole group leaves `total / bits` groups
/// of `bits` bits each.
proof fn lemma_whole_groups(total: int, bits: int)
    requires
        0 <= total,
        0 < bits,
    ensures
        0 <= total % bits <= total,
        total - total % bits == bits * (total / bits),
        group_count(total - total % bits, bits) == total / bits,
        0 <= total / bits,
{
    vstd::arithmetic::div_mod::lemma_fundamental_div_mod(total, bits);
    vstd::arithmetic::div_mod::lemma_mod_bound(total, bits);
    let q = total / bits;
    assert(0 <= q) by (nonlinear_arith)
        requires
            total == bits * q + total % bits,
            0 <= total,
            0 <= total % bits < bits,
            0 < bits,
    ;
    if q == 0 {
        assert(bits * q == 0);
        lemma_div_mod_unique(bits - 1, bits, 0, bits - 1);
    } else {
        assert(bits * q + bits - 1 == (q - 1) * bits + (2 * bits - 1)) by (nonlinear_arith);
        assert(bits * q + bits - 1 == q * bits + (bits - 1)) by (nonlinear_arith);
        lemma_div_mod_unique(bits * q + bits - 1, bits, q, bits - 1);
    }
}

/// Unpacks the elements that `iter` holds at `bits` bits each.
///
/// The bits of the buffer are read byte after byte, each byte from its most
/// significant bit down. Every `bits` of them are one element, least
/// significant bit first, which is widened to `O` by the type's own right
/// shift: a signed type reads the highest of the `bits` as the sign. Bits at
/// the end that do not fill a whole element are dropped. A width of zero, or
/// one above the width of `O`, is refused.
pub fn expand_it<O: Word>(iter: Vec<u8>, bits: usize) -> (res: Result<Vec<O>, CodecError>)
    requires
        0 < bits <= O::bit_width() ==> iter@.len() * 8 <= usize::MAX,
    ensures
        bits == 0 || bits > O::bit_width() ==> res == Err::<Vec<O>, CodecError>(
            CodecError::InvalidWidth,
        ),
        0 < bits <= O::bit_width() ==> res is Ok,
        res matches Ok(out) ==> values(out@) == unpack(iter@, bits as int, O::signed()),
        res matches Ok(out) ==> out@.len() == (iter@.len() * 8) / (bits as nat),
        res matches Ok(out) ==> (iter@.len() == 0 ==> out@ == Seq::<O>::empty()),
{
    if bits == 0 || bits > O::width() {
        return Err(CodecError::InvalidWidth);
    }
    let ghost whole = bits_of(iter@);
    let count = iter.len();
    let all_bits = count * 8;
    proof {
        lemma_whole_groups(all_bits as int, bits as int);
    }
    let relevant_bits = all_bits - (all_bits % bits);

    let mut stream: Vec<bool> = Vec::new();
    let mut i: usize = 0;
    assert(stream@ =~= whole.subrange(0, 0));
    while i < count
        invariant
            count == iter@.len(),
            count * 8 <= usize::MAX,
            whole == bits_of(iter@),
            i <= count,
            stream@ == whole.subrange(0, 8 * i),
        decreases count - i,
    {
        let mirrored = iter[i].reverse_bits();
        let mut run = NumberBitIter::new(mirrored).take(8);
        proof {
            lemma_bits_grow(iter@, i as int, mirrored);
        }
        stream.append(&mut run);
        i += 1;
    }
    stream.truncate(relevant_bits);
    assert(stream@ =~= whole.subrange(0, relevant_bits as int));

    let ghost kept = stream@;
    let groups = chunk_bits(stream, bits);
    let mut out: Vec<O> = Vec::new();
    let mut j: usize = 0;
    while j < groups.len()
        invariant
            0 < bits <= O::bit_width(),
            whole == bits_of(iter@),
            all_bits == iter@.len() * 8,
            relevant_bits == bits * (all_bits / bits),
            kept == whole.subrange(0, relevant_bits as int),
            relevant_bits <= whole.len(),
            groups@.len() == all_bits / bits,
            forall|i: int|
                0 <= i < groups@.len() ==> (#[trigger] groups@[i])@ == group_at(
                    kept,
                    bits as int,
                    i,
                ),
            j <= groups@.len(),
            out@.len() == j,
            forall|i: int|
                0 <= i < j ==> (#[trigger] out@[i]).value() == unpack(
                    iter@,
                    bits as int,
                    O::signed(),
                )[i],
        decreases groups@.len() - j,
    {
        proof {
            assert((j + 1) * bits <= relevant_bits && j * bits + bits == (j + 1) * bits)
                by (nonlinear_arith)
                requires
                    j < all_bits / bits,
                    relevant_bits == bits * (all_bits / bits),
                    0 < bits,
            ;
            assert(groups@[j as int]@ =~= whole.subrange(j * bits, j * bits + bits));
        }
        let word: O = fold_word(&groups[j], bits);
        out.push(word);
        j += 1;
    }
    assert(values(out@) =~= unpack(iter@, bits as int, O::signed()));
    Ok(out)
}

} // verus!
