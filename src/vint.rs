use vstd::prelude::*;
use vstd::arithmetic::power2::{pow2, lemma2_to64, lemma2_to64_rest, lemma_pow2_adds, lemma_pow2_strictly_increases};
use crate::error::EbmlError;
use crate::source::ByteSource;

verus! {

/// Count of zero bits before the first set bit of `b` (8 for zero).
pub open spec fn leading_zeros(b: u8) -> nat {
    if b >= 0x80 {
        0
    } else if b >= 0x40 {
        1
    } else if b >= 0x20 {
        2
    } else if b >= 0x10 {
        3
    } else if b >= 0x08 {
        4
    } else if b >= 0x04 {
        5
    } else if b >= 0x02 {
        6
    } else if b >= 0x01 {
        7
    } else {
        8
    }
}

/// Width in bytes of a variable-length integer whose first byte is `b`.
pub open spec fn encoded_len(b: u8) -> nat {
    leading_zeros(b) + 1
}

/// Value of `s` read as a big-endian unsigned integer.
pub open spec fn big_endian(s: Seq<u8>) -> nat
    decreases s.len(),
{
    if s.len() == 0 {
        0
    } else {
        (big_endian(s.drop_last()) * 256 + s.last()) as nat
    }
}

/// The semantic value of a vint of `width` bytes and raw value `raw`: the
/// marker bit at position `7 * width` cleared. A zero-width vint has its marker
/// at bit 0, which is clear in its zero raw value, so clearing by exclusive-or
/// sets it.
pub open spec fn vint_value(width: nat, raw: nat) -> nat {
    if width == 0 {
        1
    } else {
        (raw - pow2(7 * width)) as nat
    }
}

/// Decoding a vint at `p` of `b`: `Ok((width, raw))`, width 0 where nothing is
/// left to read.
pub open spec fn vint_at(b: Seq<u8>, p: nat) -> Result<(nat, nat), EbmlError> {
    if p >= b.len() {
        Ok((0, 0))
    } else if b[p as int] == 0 {
        Err(EbmlError::IntegerTooBig)
    } else if p + encoded_len(b[p as int]) > b.len() {
        Err(EbmlError::Truncated)
    } else {
        let w = encoded_len(b[p as int]);
        Ok((w, big_endian(b.subrange(p as int, (p + w) as int))))
    }
}

proof fn lemma_big_endian_bounds(s: Seq<u8>)
    requires
        s.len() >= 1,
    ensures
        s[0] * pow2(8 * (s.len() - 1) as nat) <= big_endian(s),
        big_endian(s) < (s[0] + 1) * pow2(8 * (s.len() - 1) as nat),
    decreases s.len(),
{
    if s.len() == 1 {
        assert(s.drop_last().len() == 0);
        assert(big_endian(s.drop_last()) == 0);
        assert(big_endian(s) == s[0] as nat);
        lemma2_to64();
    } else {
        let t = s.drop_last();
        lemma_big_endian_bounds(t);
        assert(t[0] == s[0]);
        let k = 8 * (t.len() - 1) as nat;
        lemma_pow2_adds(k, 8);
        lemma2_to64();
        assert(8 * (s.len() - 1) as nat == k + 8);
        let pk = pow2(k);
        let bt = big_endian(t);
        let x = s[0] as int;
        let l = s.last() as int;
        assert(big_endian(s) == bt * 256 + l);
        assert(x * pk <= bt);
        assert(bt + 1 <= (x + 1) * pk);
        assert((x * pk) * 256 <= bt * 256) by (nonlinear_arith)
            requires
                x * pk <= bt,
        ;
        assert((bt + 1) * 256 <= ((x + 1) * pk) * 256) by (nonlinear_arith)
            requires
                bt + 1 <= (x + 1) * pk,
        ;
        assert((x * pk) * 256 == x * (pk * 256)) by (nonlinear_arith);
        assert(((x + 1) * pk) * 256 == (x + 1) * (pk * 256)) by (nonlinear_arith);
        assert(pk * 256 == pow2(8 * (s.len() - 1) as nat));
    }
}

proof fn lemma_big_endian_fits(s: Seq<u8>)
    ensures
        big_endian(s) < pow2(8 * s.len()),
    decreases s.len(),
{
    lemma2_to64();
    if s.len() > 0 {
        let t = s.drop_last();
        lemma_big_endian_fits(t);
        lemma_pow2_adds(8 * t.len(), 8);
        assert(8 * s.len() == 8 * t.len() + 8);
        let bt = big_endian(t);
        let pt = pow2(8 * t.len());
        assert(bt < pt ==> bt * 256 + s.last() < pt * 256) by (nonlinear_arith)
            requires
                0 <= s.last() < 256,
        ;
    }
}

/// A decoded vint lies between its marker bit and the next bit up.
proof fn lemma_marker_range(s: Seq<u8>)
    requires
        s.len() >= 1,
        s[0] != 0,
        s.len() == encoded_len(s[0]),
    ensures
        pow2(7 * s.len()) <= big_endian(s) < pow2(7 * s.len() + 1),
{
    lemma_big_endian_bounds(s);
    lemma2_to64();
    lemma2_to64_rest();
    let x = s[0] as int;
    let n = s.len();
    if n == 1 {
        assert(pow2(7) <= x * pow2(0) && (x + 1) * pow2(0) <= pow2(8));
    } else if n == 2 {
        assert(pow2(14) <= x * pow2(8) && (x + 1) * pow2(8) <= pow2(15));
    } else if n == 3 {
        assert(pow2(21) <= x * pow2(16) && (x + 1) * pow2(16) <= pow2(22));
    } else if n == 4 {
        assert(pow2(28) <= x * pow2(24) && (x + 1) * pow2(24) <= pow2(29));
    } else if n == 5 {
        assert(pow2(35) <= x * pow2(32) && (x + 1) * pow2(32) <= pow2(36));
    } else if n == 6 {
        assert(pow2(42) <= x * pow2(40) && (x + 1) * pow2(40) <= pow2(43));
    } else if n == 7 {
        assert(pow2(49) <= x * pow2(48) && (x + 1) * pow2(48) <= pow2(50));
    } else {
        assert(pow2(56) <= x * pow2(56) && (x + 1) * pow2(56) <= pow2(57));
    }
}

/// A first byte with `z` leading zero bits, `z` at most 7, announces a vint
/// of `z + 1` bytes; where those bytes are there, that is the width decoded.
pub proof fn lemma_width_is_leading_zeros_plus_one(b: Seq<u8>, p: nat)
    requires
        p < b.len(),
        leading_zeros(b[p as int]) <= 7,
        p + leading_zeros(b[p as int]) + 1 <= b.len(),
    ensures
        vint_at(b, p) matches Ok((w, _)) && w == leading_zeros(b[p as int]) + 1,
{
}

/// A first byte of 0x01 announces eight bytes; where fewer follow it in the
/// source, decoding fails with `Truncated` and yields no partial value.
pub proof fn lemma_short_eight_byte_vint(b: Seq<u8>, p: nat)
    requires
        p < b.len(),
        b[p as int] == 0x01,
        b.len() < p + 8,
    ensures
        encoded_len(0x01) == 8,
        vint_at(b, p) == Err::<(nat, nat), EbmlError>(EbmlError::Truncated),
{
}

/// Decoding where nothing is left to read gives the zero-width vint, not an error.
pub proof fn lemma_exhausted_source_gives_empty_vint(b: Seq<u8>, p: nat)
    requires
        p >= b.len(),
    ensures
        vint_at(b, p) == Ok::<(nat, nat), EbmlError>((0, 0)),
{
}

/// A vint that was found has its marker bit set, so its raw value is not zero.
pub proof fn lemma_found_vint_nonzero(b: Seq<u8>, p: nat)
    ensures
        vint_at(b, p) matches Ok((w, raw)) ==> (w > 0 ==> raw >= pow2(7 * w) && raw > 0 && raw <= u64::MAX),
{
    if p < b.len() && b[p as int] != 0 && p + encoded_len(b[p as int]) <= b.len() {
        lemma_marker_range(b.subrange(p as int, (p + encoded_len(b[p as int])) as int));
        vstd::arithmetic::power2::lemma_pow2_pos(7 * encoded_len(b[p as int]));
        lemma_pow2_strictly_increases(7 * encoded_len(b[p as int]) + 1, 64);
        lemma2_to64();
    }
}

/// A decoded variable-length integer: its width in bytes (0 where nothing
/// could be read) and its raw value, marker bit included.
pub struct Vint {
    length: u32,
    raw_val: u64,
}

impl Vint {
    #[verifier::type_invariant]
    spec fn well_formed(self) -> bool {
        &&& self.length <= 8
        &&& self.length == 0 ==> self.raw_val == 0
        &&& self.length > 0 ==> pow2(7 * self.length as nat) <= self.raw_val < pow2(7 * self.length as nat + 1)
    }

    /// Width of the encoding in bytes.
    pub closed spec fn width(&self) -> nat {
        self.length as nat
    }

    /// Raw value, marker bit included.
    pub closed spec fn raw_value(&self) -> nat {
        self.raw_val as nat
    }

    pub fn raw(&self) -> (r: u64)
        ensures
            r == self.raw_value(),
    {
        self.raw_val
    }

    /// The value with the marker bit cleared.
    pub fn data(&self) -> (r: u64)
        ensures
            r == vint_value(self.width(), self.raw_value()),
    {
        proof {
            use_type_invariant(self);
            lemma2_to64();
            lemma2_to64_rest();
        }
        let raw = self.raw_val;
        let shift = 7 * self.length as u64;
        let marker = 1u64 << shift;
        proof {
            if self.length > 0 {
                vstd::bits::lemma_u64_shl_is_mul(1, shift);
                vstd::bits::lemma_u64_shl_is_mul(1, (shift + 1) as u64);
                lemma_pow2_adds(shift as nat, 1);
                assert(shift < 63 && raw >= (1u64 << shift) && raw < (1u64 << vstd::prelude::add(shift, 1))
                    ==> raw ^ (1u64 << shift) == vstd::prelude::sub(raw, 1u64 << shift)) by (bit_vector);
            } else {
                assert(1u64 << 0u64 == 1) by (bit_vector);
                assert(0u64 ^ 1u64 == 1) by (bit_vector);
            }
        }
        raw ^ marker
    }

    pub fn size(&self) -> (r: u32)
        ensures
            r == self.width(),
    {
        self.length
    }

    /// Decodes a vint from the start of an in-memory span, which holds at
    /// least the bytes that its first byte announces.
    pub fn from_data(data: &[u8]) -> (r: Result<Vint, EbmlError>)
        requires
            data@.len() > 0 && data@[0] != 0 ==> data@.len() >= encoded_len(data@[0]),
        ensures
            data@.len() == 0 ==> (r matches Ok(v) && v.width() == 0 && v.raw_value() == 0),
            data@.len() > 0 && data@[0] == 0 ==> r == Err::<Vint, EbmlError>(EbmlError::IntegerTooBig),
            data@.len() > 0 && data@[0] != 0 ==> (r matches Ok(v)
                && v.width() == leading_zeros(data@[0]) + 1
                && v.raw_value() == big_endian(data@.subrange(0, v.width() as int))),
            r matches Ok(v) ==> vint_at(data@, 0) == Ok::<(nat, nat), EbmlError>((v.width(), v.raw_value())),
    {
        if data.len() == 0 {
            return Ok(Vint { length: 0, raw_val: 0 });
        }
        let first = data[0];
        let size = leading_zero_count(first) + 1;
        if size > 8 {
            return Err(EbmlError::IntegerTooBig);
        }
        let mut val: u64 = 0;
        let mut i: u32 = 0;
        while i < size
            invariant
                i <= size <= 8,
                size <= data@.len(),
                val == big_endian(data@.subrange(0, i as int)),
            decreases size - i,
        {
            proof {
                lemma_big_endian_fits(data@.subrange(0, i as int));
                lemma2_to64();
                lemma2_to64_rest();
                if i < 7 {
                    lemma_pow2_strictly_increases(8 * i as nat, 56);
                }
            }
            assert(data@.subrange(0, i + 1).drop_last() =~= data@.subrange(0, i as int));
            val = val * 256 + data[i as usize] as u64;
            i = i + 1;
        }
        proof {
            lemma_marker_range(data@.subrange(0, size as int));
        }
        Ok(Vint { length: size, raw_val: val })
    }

    /// Decodes a vint from the cursor of `source`, one byte at a time.
    /// Nothing left to read gives the zero-width vint; a source that ends
    /// within the vint gives `Truncated`.
    pub fn read(source: &mut ByteSource) -> (r: Result<Vint, EbmlError>)
        ensures
            final(source).content() == old(source).content(),
            match vint_at(old(source).content(), old(source).cursor()) {
                Ok((w, raw)) => r matches Ok(v) && v.width() == w && v.raw_value() == raw
                    && final(source).cursor() == old(source).cursor() + w,
                Err(e) => r == Err::<Vint, EbmlError>(e),
            },
    {
        let ghost b = source.content();
        let ghost p = source.cursor() as int;
        let first = match source.read_byte() {
            None => {
                return Ok(Vint { length: 0, raw_val: 0 });
            },
            Some(x) => x,
        };
        let size = leading_zero_count(first) + 1;
        if size > 8 {
            return Err(EbmlError::IntegerTooBig);
        }
        let mut val: u64 = first as u64;
        let mut i: u32 = 1;
        assert(b.subrange(p, p + 1).drop_last() =~= b.subrange(p, p));
        assert(big_endian(b.subrange(p, p)) == 0);
        assert(b.subrange(p, p + 1).last() == first);
        while i < size
            invariant
                1 <= i <= size <= 8,
                b == old(source).content(),
                p == old(source).cursor(),
                size == encoded_len(first),
                p < b.len(),
                b[p] == first,
                source.content() == b,
                source.cursor() == p + i,
                p + i <= b.len(),
                val == big_endian(b.subrange(p, p + i)),
            decreases size - i,
        {
            let next = match source.read_byte() {
                None => {
                    return Err(EbmlError::Truncated);
                },
                Some(x) => x,
            };
            proof {
                lemma_big_endian_fits(b.subrange(p, p + i));
                lemma2_to64();
                lemma2_to64_rest();
                if i < 7 {
                    lemma_pow2_strictly_increases(8 * i as nat, 56);
                }
            }
            assert(b.subrange(p, p + i + 1).drop_last() =~= b.subrange(p, p + i));
            val = val * 256 + next as u64;
            i = i + 1;
        }
        proof {
            lemma_marker_range(b.subrange(p, p + size));
        }
        Ok(Vint { length: size, raw_val: val })
    }
}

/// Leading zero bits of a byte.
fn leading_zero_count(b: u8) -> (r: u32)
    ensures
        r == leading_zeros(b),
{
    let mut r: u32 = 0;
    let mut bit: u8 = 0x80;
    proof {
        lemma2_to64();
    }
    while r < 8 && b < bit
        invariant
            r <= 8,
            r < 8 ==> bit as nat == pow2((7 - r) as nat),
            leading_zeros(b) >= r,
            r < 8 ==> b < 2 * bit as nat,
            r == 8 ==> b == 0,
        decreases 8 - r,
    {
        proof {
            lemma2_to64();
        }
        bit = bit / 2;
        r = r + 1;
    }
    proof {
        lemma2_to64();
    }
    r
}

} // verus!
