//! Base-128 variable-length integers: seven bits per byte, least significant
//! group first, the high bit of a byte set when another byte follows.

use varint_rs::VarintWriter;
use vstd::prelude::*;

verus! {

/// The encoding of `value`. Values below 128 take one byte; every further
/// seven bits take one more.
pub open spec fn varint_bytes(value: nat) -> Seq<u8>
    decreases value,
{
    if value < 128 {
        seq![value as u8]
    } else {
        seq![(value % 128 + 128) as u8] + varint_bytes(value / 128)
    }
}

/// The number read from `bytes` when the high bit of every byte is dropped
/// and the groups are put together, least significant first.
pub open spec fn varint_value(bytes: Seq<u8>) -> nat
    decreases bytes.len(),
{
    if bytes.len() == 0 {
        0
    } else {
        (bytes[0] % 128) as nat + 128 * varint_value(bytes.skip(1))
    }
}

/// Whether `bytes` is one whole encoding in its shortest form: the last byte
/// and no other has its high bit clear, and a group of zeros ends the
/// encoding only where it is the whole of it.
pub open spec fn is_canonical(bytes: Seq<u8>) -> bool {
    &&& bytes.len() >= 1
    &&& forall|i: int| 0 <= i < bytes.len() - 1 ==> #[trigger] bytes[i] >= 128
    &&& bytes.last() < 128
    &&& bytes.len() > 1 ==> bytes.last() != 0
}

/// Every encoding is canonical and reads back as the value it was made from.
pub proof fn lemma_encode_then_read(value: nat)
    ensures
        is_canonical(varint_bytes(value)),
        varint_value(varint_bytes(value)) == value,
    decreases value,
{
    if value >= 128 {
        lemma_encode_then_read(value / 128);
        let rest = varint_bytes(value / 128);
        let all = varint_bytes(value);
        assert(all.skip(1) =~= rest);
        assert forall|i: int| 0 <= i < all.len() - 1 implies #[trigger] all[i] >= 128 by {
            if i > 0 {
                assert(all[i] == rest[i - 1]);
            }
        }
        assert(all.last() == rest.last());
        if rest.len() == 1 {
            assert(rest[0] == (value / 128) as u8);
        }
    } else {
        assert(varint_bytes(value).skip(1) =~= Seq::<u8>::empty());
        assert(varint_value(Seq::<u8>::empty()) == 0);
    }
}

/// A canonical byte string is the encoding of the value it reads as.
pub proof fn lemma_read_then_encode(bytes: Seq<u8>)
    requires
        is_canonical(bytes),
    ensures
        varint_bytes(varint_value(bytes)) == bytes,
    decreases bytes.len(),
{
    let rest = bytes.skip(1);
    if bytes.len() == 1 {
        assert(varint_value(rest) == 0);
        assert(varint_bytes(bytes[0] as nat) =~= bytes);
    } else {
        assert(rest.last() == bytes.last());
        assert forall|i: int| 0 <= i < rest.len() - 1 implies #[trigger] rest[i] >= 128 by {
            assert(rest[i] == bytes[i + 1]);
        }
        lemma_read_then_encode(rest);
        lemma_canonical_positive(rest);
        let hi = varint_value(rest);
        let v = varint_value(bytes);
        assert(bytes[0] >= 128);
        assert(v == (bytes[0] - 128) + 128 * hi);
        assert(v / 128 == hi && v % 128 == bytes[0] - 128);
        assert(varint_bytes(v) =~= bytes);
    }
}

/// A canonical byte string of more than one byte, or one whose only byte is
/// not zero, reads as a positive value.
pub proof fn lemma_canonical_positive(bytes: Seq<u8>)
    requires
        is_canonical(bytes),
        bytes.len() > 1 || bytes[0] != 0,
    ensures
        varint_value(bytes) > 0,
    decreases bytes.len(),
{
    let rest = bytes.skip(1);
    if bytes.len() == 1 {
        assert(varint_value(rest) == 0);
    } else {
        assert(rest.last() == bytes.last());
        assert forall|i: int| 0 <= i < rest.len() - 1 implies #[trigger] rest[i] >= 128 by {
            assert(rest[i] == bytes[i + 1]);
        }
        lemma_canonical_positive(rest);
    }
}

/// Appends the encoding of `value` to `buf`.
///
/// Calls `VarintWriter::write_u32_varint` of varint-rs with the vector as the
/// writer. That function emits the low seven bits of the value with the high
/// bit set while the value is 128 or more, shifting it right by seven each
/// time, and then the remaining bits as the last byte; a vector takes every
/// byte at its end and never reports a write error.
#[verifier::external_body]
pub(crate) fn put_u32_varint(buf: &mut Vec<u8>, value: u32)
    ensures
        final(buf)@ == old(buf)@ + varint_bytes(value as nat),
{
    let _ = buf.write_u32_varint(value);
}

/// 128 to the power `k`.
pub open spec fn pow128(k: nat) -> nat
    decreases k,
{
    if k == 0 {
        1
    } else {
        128 * pow128((k - 1) as nat)
    }
}

/// Reading one more byte adds its low seven bits at the next higher place.
pub proof fn lemma_value_push(bytes: Seq<u8>, b: u8)
    ensures
        varint_value(bytes.push(b)) == varint_value(bytes) + (b % 128) * pow128(bytes.len()),
    decreases bytes.len(),
{
    let all = bytes.push(b);
    let g = (b % 128) as nat;
    if bytes.len() == 0 {
        assert(all.skip(1) =~= Seq::<u8>::empty());
        assert(varint_value(all.skip(1)) == 0);
        assert(all[0] == b);
        assert(varint_value(all) == g);
        assert(pow128(0) == 1);
    } else {
        lemma_value_push(bytes.skip(1), b);
        assert(all.skip(1) =~= bytes.skip(1).push(b));
        assert(all[0] == bytes[0]);
        let hi = varint_value(bytes.skip(1));
        let p = pow128((bytes.len() - 1) as nat);
        assert(pow128(bytes.len()) == 128 * p);
        assert(varint_value(all) == (bytes[0] % 128) as nat + 128 * (hi + g * p));
        assert(128 * (hi + g * p) == 128 * hi + g * (128 * p)) by (nonlinear_arith);
    }
}

/// A canonical byte string of `n` bytes, other than the single byte zero,
/// reads as at least 128 to the power `n - 1`.
pub proof fn lemma_canonical_lower_bound(bytes: Seq<u8>)
    requires
        is_canonical(bytes),
        bytes.len() > 1 || bytes[0] != 0,
    ensures
        varint_value(bytes) >= pow128((bytes.len() - 1) as nat),
    decreases bytes.len(),
{
    let rest = bytes.skip(1);
    if bytes.len() == 1 {
        assert(varint_value(rest) == 0);
    } else {
        assert(rest.last() == bytes.last());
        assert forall|i: int| 0 <= i < rest.len() - 1 implies #[trigger] rest[i] >= 128 by {
            assert(rest[i] == bytes[i + 1]);
        }
        lemma_canonical_lower_bound(rest);
    }
}

/// Where an encoding starts at `pos`, it ends with the first byte from there
/// on whose high bit is clear: it reaches no further and stops no earlier.
pub proof fn lemma_encoding_extent(bytes: Seq<u8>, pos: int, i: int, next: int, value: nat)
    requires
        0 <= pos <= i <= bytes.len(),
        forall|j: int| pos <= j < i ==> #[trigger] bytes[j] >= 128,
        pos <= next <= bytes.len(),
        bytes.subrange(pos, next) == varint_bytes(value),
    ensures
        next > i,
        i < bytes.len() && bytes[i] < 128 ==> next == i + 1,
{
    lemma_encode_then_read(value);
    let t = bytes.subrange(pos, next);
    assert(t.last() == bytes[next - 1]);
    if i < bytes.len() && bytes[i] < 128 && next > i + 1 {
        assert(t[i - pos] == bytes[i]);
    }
}

/// Whether the encoding of `value` stands in `bytes` at `pos`.
pub open spec fn encoding_at(bytes: Seq<u8>, pos: int, value: nat) -> bool {
    let e = varint_bytes(value);
    0 <= pos && pos + e.len() <= bytes.len() && bytes.subrange(pos, pos + e.len()) == e
}

/// Reads the encoding that starts at `pos`: its value and the position after
/// its last byte. There is none where the bytes run out first, where the
/// value does not fit in 32 bits, or where the bytes are not in shortest form.
pub fn read_u32_varint(bytes: &[u8], pos: usize) -> (r: Option<(u32, usize)>)
    ensures
        match r {
            Some((value, next)) => {
                &&& encoding_at(bytes@, pos as int, value as nat)
                &&& next == pos + varint_bytes(value as nat).len()
            },
            None => forall|value: u32| !#[trigger] encoding_at(bytes@, pos as int, value as nat),
        },
{
    let len = bytes.len();
    if pos >= len {
        assert forall|value: u32| !#[trigger] encoding_at(bytes@, pos as int, value as nat) by {
            let next = pos + varint_bytes(value as nat).len();
            lemma_encode_then_read(value as nat);
        }
        return None;
    }
    let mut value: u64 = 0;
    let mut scale: u64 = 1;
    let mut k: usize = 0;
    while k < 5
        invariant
            k <= 5,
            len == bytes@.len(),
            pos + k <= len,
            scale == pow128(k as nat),
            value == varint_value(bytes@.subrange(pos as int, pos + k)),
            value < pow128(k as nat),
            forall|j: int| pos <= j < pos + k ==> #[trigger] bytes@[j] >= 128,
        decreases 5 - k,
    {
        let i = pos + k;
        proof {
            reveal_with_fuel(pow128, 6);
        }
        if i >= len {
            assert forall|value: u32| !#[trigger] encoding_at(bytes@, pos as int, value as nat) by {
            let next = pos + varint_bytes(value as nat).len();
                if encoding_at(bytes@, pos as int, value as nat) {
                    lemma_encoding_extent(bytes@, pos as int, i as int, next, value as nat);
                }
            }
            return None;
        }
        let b = bytes[i];
        let group = (b % 128) as u64;
        let ghost before = bytes@.subrange(pos as int, i as int);
        let ghost upto = bytes@.subrange(pos as int, i + 1);
        proof {
            assert(upto =~= before.push(b));
            lemma_value_push(before, b);
            assert(group * scale <= 127 * scale) by (nonlinear_arith)
                requires
                    group <= 127,
                    scale >= 0,
            ;
        }
        value = value + group * scale;
        if b < 128 {
            if (k > 0 && b == 0) || value > 0xffff_ffff {
                assert forall|v: u32| !#[trigger] encoding_at(bytes@, pos as int, v as nat) by {
            let next = pos + varint_bytes(v as nat).len();
                    if encoding_at(bytes@, pos as int, v as nat) {
                        lemma_encoding_extent(bytes@, pos as int, i as int, next, v as nat);
                        lemma_encode_then_read(v as nat);
                        assert(upto.last() == b);
                    }
                }
                return None;
            }
            proof {
                assert(upto.last() == b);
                assert forall|j: int| 0 <= j < upto.len() - 1 implies #[trigger] upto[j] >= 128 by {
                    assert(upto[j] == bytes@[pos + j]);
                }
                lemma_read_then_encode(upto);
                assert(upto.len() == k + 1);
            }
            return Some((value as u32, i + 1));
        }
        proof {
            assert(128 * scale == pow128((k + 1) as nat));
        }
        scale = scale * 128;
        k = k + 1;
    }
    proof {
        assert forall|v: u32| !#[trigger] encoding_at(bytes@, pos as int, v as nat) by {
            let next = pos + varint_bytes(v as nat).len();
            if encoding_at(bytes@, pos as int, v as nat) {
                lemma_encoding_extent(bytes@, pos as int, pos + 5, next, v as nat);
                lemma_encode_then_read(v as nat);
                lemma_canonical_lower_bound(varint_bytes(v as nat));
                lemma_pow128_monotonic(5, (next - pos - 1) as nat);
                reveal_with_fuel(pow128, 6);
            }
        }
    }
    None
}

/// `pow128` does not decrease as the exponent grows.
pub proof fn lemma_pow128_monotonic(a: nat, b: nat)
    requires
        a <= b,
    ensures
        0 < pow128(a) <= pow128(b),
    decreases b,
{
    if b == 0 {
    } else if a == b {
        lemma_pow128_monotonic((a - 1) as nat, (b - 1) as nat);
    } else {
        lemma_pow128_monotonic(a, (b - 1) as nat);
    }
}

} // verus!
