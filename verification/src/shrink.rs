//! Packing: from integers to the packed buffer.

use crate::arith::{lemma_div_mod_unique, lemma_exp2_monotonic};
use crate::bit_iter::NumberBitIter;
use crate::chunk::{chunk_bits, group_at};
use crate::error::CodecError;
use crate::format::{
    bit_stream, lemma_msb_first_bound, msb_first, pack, packed_len, padded, padding_len, values,
};
use crate::word::{low_bits, Word};
use vstd::prelude::*;

verus! {

/// The bits of element `i` follow those of the elements before it.
proof fn lemma_stream_grows(vals: Seq<int>, bits: int, i: int)
    requires
        0 < bits,
        0 <= i < vals.len(),
    ensures
        (i + 1) * bits <= vals.len() * bits,
        0 <= i * bits,
        bit_stream(vals, bits).subrange(0, i * bits) + low_bits(vals[i], bits) == bit_stream(
            vals,
            bits,
        ).subrange(0, (i + 1) * bits),
{
    assert((i + 1) * bits <= vals.len() * bits && 0 <= i * bits && (i + 1) * bits == i * bits
        + bits) by (nonlinear_arith)
        requires
            0 < bits,
            0 <= i < vals.len(),
    ;
    let whole = bit_stream(vals, bits);
    let left = whole.subrange(0, i * bits) + low_bits(vals[i], bits);
    let right = whole.subrange(0, (i + 1) * bits);
    assert forall|k: int| 0 <= k < right.len() implies left[k] == right[k] by {
        if k >= i * bits {
            lemma_div_mod_unique(k, bits, i, k - i * bits);
        }
    }
    assert(left =~= right);
}

/// Folds up to eight bits into a byte: the first bit ends up highest.
fn fold_byte(group: &Vec<bool>) -> (byte: u8)
    requires
        group@.len() <= 8,
    ensures
        byte == msb_first(group@),
{
    let mut acc: u8 = 0;
    let mut t: usize = 0;
    while t < group.len()
        invariant
            t <= group@.len() <= 8,
            acc == msb_first(group@.subrange(0, t as int)),
        decreases group@.len() - t,
    {
        let low: u8 = if group[t] {
            1
        } else {
            0
        };
        proof {
            let before = group@.subrange(0, t as int);
            let after = group@.subrange(0, t + 1);
            assert(after.drop_last() =~= before);
            lemma_msb_first_bound(before);
            lemma_exp2_monotonic(t as int, 7);
            vstd::arithmetic::power2::lemma2_to64();
            assert(acc < 128 && low <= 1 ==> (acc << 1u8) | low == 2 * acc + low) by (bit_vector);
        }
        acc = (acc << 1u8) | low;
        t += 1;
    }
    assert(group@.subrange(0, t as int) =~= group@);
    acc
}

/// Packs the low `bits` bits of each element of `iter` into bytes.
///
/// The bits of the elements follow one another in element order, each
/// element's least significant bit first; eight of them make a byte, the
/// earliest in the byte's most significant position, and the last byte is
/// filled up with clear bits. Bits of an element above the lowest `bits` are
/// lost. A width of zero, or one that is not below the width of `T`, is
/// refused.
pub fn shrink_it<T: Word>(iter: Vec<T>, bits: usize) -> (res: Result<Vec<u8>, CodecError>)
    requires
        0 < bits < T::bit_width() ==> iter@.len() * bits + padding_len(iter@.len() * bits)
            <= usize::MAX,
    ensures
        bits == 0 || bits >= T::bit_width() ==> res == Err::<Vec<u8>, CodecError>(
            CodecError::InvalidWidth,
        ),
        0 < bits < T::bit_width() ==> res is Ok,
        res matches Ok(bytes) ==> bytes@ == pack(bit_stream(values(iter@), bits as int)),
        res matches Ok(bytes) ==> bytes@.len() == packed_len(iter@.len() as int, bits as int),
        res matches Ok(bytes) ==> (iter@.len() == 0 ==> bytes@ == Seq::<u8>::empty()),
{
    if bits == 0 || bits >= T::width() {
        return Err(CodecError::InvalidWidth);
    }
    let ghost vals = values(iter@);
    let ghost whole = bit_stream(vals, bits as int);
    let count = iter.len();
    assert(count * bits == whole.len()) by (nonlinear_arith)
        requires
            count >= 0,
            bits > 0,
            whole.len() == (count * bits) as nat,
    ;
    let necessary_bits = count * bits;
    let padding_bits = match necessary_bits % 8 {
        0 => 0,
        o => 8 - o,
    };
    assert(padding_bits == padding_len(necessary_bits as int));

    let mut stream: Vec<bool> = Vec::new();
    let mut i: usize = 0;
    assert(stream@ =~= whole.subrange(0, 0));
    while i < count
        invariant
            0 < bits,
            count == iter@.len(),
            vals == values(iter@),
            whole == bit_stream(vals, bits as int),
            i <= count,
            0 <= i * bits <= whole.len(),
            stream@ == whole.subrange(0, i * bits),
        decreases count - i,
    {
        let mut run = NumberBitIter::new(iter[i]).take(bits);
        proof {
            lemma_stream_grows(vals, bits as int, i as int);
        }
        stream.append(&mut run);
        i += 1;
    }
    assert(stream@ =~= whole);

    let mut p: usize = 0;
    while p < padding_bits
        invariant
            p <= padding_bits,
            padding_bits == padding_len(whole.len() as int),
            whole.len() + padding_bits <= usize::MAX,
            stream@ == whole + Seq::new(p as nat, |i: int| false),
        decreases padding_bits - p,
    {
        stream.push(false);
        p += 1;
        assert(stream@ =~= whole + Seq::new(p as nat, |i: int| false));
    }
    assert(stream@ == padded(whole));

    let ghost full = stream@;
    let groups = chunk_bits(stream, 8);
    assert(full.len() % 8 == 0);
    assert(groups@.len() == full.len() / 8);
    let mut bytes: Vec<u8> = Vec::new();
    let mut j: usize = 0;
    while j < groups.len()
        invariant
            j <= groups@.len(),
            full == padded(whole),
            full.len() % 8 == 0,
            groups@.len() == full.len() / 8,
            forall|i: int|
                0 <= i < groups@.len() ==> (#[trigger] groups@[i])@ == group_at(full, 8, i),
            bytes@.len() == j,
            forall|i: int| 0 <= i < j ==> bytes@[i] == #[trigger] pack(whole)[i],
        decreases groups@.len() - j,
    {
        assert(groups@[j as int]@ == full.subrange(8 * j, 8 * j + 8));
        let byte = fold_byte(&groups[j]);
        bytes.push(byte);
        j += 1;
    }
    assert(bytes@ =~= pack(whole));
    Ok(bytes)
}

} // verus!
