use vstd::prelude::*;

verus! {

/// Value (0 or 1) of bit `i` of a bit sequence; bits past either end read as 0.
pub open spec fn bit_at(bits: Seq<bool>, i: int) -> u8 {
    if 0 <= i < bits.len() && bits[i] {
        1
    } else {
        0
    }
}

/// The byte formed MSB-first from the eight bits starting at position `p`.
pub open spec fn bits_to_byte(bits: Seq<bool>, p: int) -> u8 {
    (bit_at(bits, p) * 128 + bit_at(bits, p + 1) * 64 + bit_at(bits, p + 2) * 32 + bit_at(
        bits,
        p + 3,
    ) * 16 + bit_at(bits, p + 4) * 8 + bit_at(bits, p + 5) * 4 + bit_at(bits, p + 6) * 2 + bit_at(
        bits,
        p + 7,
    )) as u8
}

/// MSB-first packing of a bit sequence into bytes; the final partial byte is zero-padded.
pub open spec fn pack_spec(bits: Seq<bool>) -> Seq<u8> {
    Seq::new(((bits.len() + 7) / 8) as nat, |k: int| bits_to_byte(bits, 8 * k))
}

/// Bit `r` (0 = most significant) of byte `b`.
pub open spec fn nth_bit(b: u8, r: u8) -> bool {
    (b >> ((7 - r) as u8)) & 1 == 1
}

/// Every bit of a byte buffer in order, MSB-first within each byte.
pub open spec fn unpack_spec(bytes: Seq<u8>) -> Seq<bool> {
    Seq::new((8 * bytes.len()) as nat, |i: int| nth_bit(bytes[i / 8], (i % 8) as u8))
}

/// Reading bit `r` of the byte formed from `bits[p..p+8]` gives back bit `p + r`.
proof fn lemma_bits_to_byte_nth(bits: Seq<bool>, p: int, r: u8)
    requires
        r < 8,
    ensures
        nth_bit(bits_to_byte(bits, p), r) == (bit_at(bits, p + r) == 1),
{
    let b0 = bit_at(bits, p);
    let b1 = bit_at(bits, p + 1);
    let b2 = bit_at(bits, p + 2);
    let b3 = bit_at(bits, p + 3);
    let b4 = bit_at(bits, p + 4);
    let b5 = bit_at(bits, p + 5);
    let b6 = bit_at(bits, p + 6);
    let b7 = bit_at(bits, p + 7);
    let x = bits_to_byte(bits, p);
    assert(x == b0 * 128 + b1 * 64 + b2 * 32 + b3 * 16 + b4 * 8 + b5 * 4 + b6 * 2 + b7);
    assert(((x >> 7u8) & 1 == b0) && ((x >> 6u8) & 1 == b1) && ((x >> 5u8) & 1 == b2) && ((x
        >> 4u8) & 1 == b3) && ((x >> 3u8) & 1 == b4) && ((x >> 2u8) & 1 == b5) && ((x >> 1u8) & 1
        == b6) && ((x >> 0u8) & 1 == b7)) by (bit_vector)
        requires
            x == b0 * 128 + b1 * 64 + b2 * 32 + b3 * 16 + b4 * 8 + b5 * 4 + b6 * 2 + b7,
            b0 <= 1,
            b1 <= 1,
            b2 <= 1,
            b3 <= 1,
            b4 <= 1,
            b5 <= 1,
            b6 <= 1,
            b7 <= 1,
    ;
    if r == 0 {
        assert((7 - r) as u8 == 7u8);
    } else if r == 1 {
        assert((7 - r) as u8 == 6u8);
    } else if r == 2 {
        assert((7 - r) as u8 == 5u8);
    } else if r == 3 {
        assert((7 - r) as u8 == 4u8);
    } else if r == 4 {
        assert((7 - r) as u8 == 3u8);
    } else if r == 5 {
        assert((7 - r) as u8 == 2u8);
    } else if r == 6 {
        assert((7 - r) as u8 == 1u8);
    } else {
        assert((7 - r) as u8 == 0u8);
    }
}

/// Unpacking a packed bit sequence restores every original bit; the tail is padding.
pub proof fn lemma_unpack_pack(bits: Seq<bool>)
    ensures
        pack_spec(bits).len() == (bits.len() + 7) / 8,
        bits.len() <= unpack_spec(pack_spec(bits)).len(),
        forall|i: int| 0 <= i < bits.len() ==> unpack_spec(pack_spec(bits))[i] == bits[i],
{
    let packed = pack_spec(bits);
    let un = unpack_spec(packed);
    assert(8 * ((bits.len() + 7) / 8) >= bits.len());
    assert forall|i: int| 0 <= i < bits.len() implies un[i] == bits[i] by {
        let k = i / 8;
        let r = i % 8;
        assert(i == 8 * k + r);
        lemma_bits_to_byte_nth(bits, 8 * k, r as u8);
        assert(un[i] == nth_bit(packed[k], r as u8));
        assert(packed[k] == bits_to_byte(bits, 8 * k));
    };
}

/// Value (0 or 1) of bit `p + j` of a bit buffer, with the addition kept in range.
fn bit_val_at(bits: &Vec<bool>, p: usize, j: usize) -> (r: u8)
    requires
        j <= 7,
    ensures
        r == bit_at(bits@, p + j),
{
    if p < bits.len() && bits.len() - p > j {
        if bits[p + j] {
            1
        } else {
            0
        }
    } else {
        0
    }
}

/// Packs a bit sequence into bytes, MSB-first, zero-padding the final byte.
pub fn pack(bits: &Vec<bool>) -> (r: Vec<u8>)
    ensures
        r@ == pack_spec(bits@),
{
    let n_bytes: usize = bits.len() / 8 + if bits.len() % 8 == 0 {
        0
    } else {
        1
    };
    proof {
        assert(n_bytes == (bits@.len() + 7) / 8);
    }
    let mut out: Vec<u8> = Vec::new();
    let mut k: usize = 0;
    while k < n_bytes
        invariant
            n_bytes == (bits@.len() + 7) / 8,
            k <= n_bytes,
            out@ == pack_spec(bits@).take(k as int),
        decreases n_bytes - k,
    {
        let blen = bits.len();
        proof {
            assert(8 * (k as int) < 8 * (n_bytes as int));
            assert(8 * (n_bytes as int) <= blen + 7);
        }
        let p: usize = 8 * k;
        let b0 = bit_val_at(bits, p, 0);
        let b1 = bit_val_at(bits, p, 1);
        let b2 = bit_val_at(bits, p, 2);
        let b3 = bit_val_at(bits, p, 3);
        let b4 = bit_val_at(bits, p, 4);
        let b5 = bit_val_at(bits, p, 5);
        let b6 = bit_val_at(bits, p, 6);
        let b7 = bit_val_at(bits, p, 7);
        let byte: u8 = b0 * 128 + b1 * 64 + b2 * 32 + b3 * 16 + b4 * 8 + b5 * 4 + b6 * 2 + b7;
        proof {
            assert(byte == bits_to_byte(bits@, 8 * (k as int)));
        }
        out.push(byte);
        proof {
            assert(out@ =~= pack_spec(bits@).take(k as int + 1));
        }
        k = k + 1;
    }
    proof {
        assert(out@ =~= pack_spec(bits@));
    }
    out
}

/// Reads bit `8 * bp + r` of a byte buffer.
pub fn get_bit(bytes: &Vec<u8>, bp: usize, r: u8) -> (b: bool)
    requires
        bp < bytes@.len(),
        r < 8,
    ensures
        b == unpack_spec(bytes@)[8 * bp + r],
{
    let byte = bytes[bp];
    let b = ((byte >> (7 - r)) & 1) == 1;
    proof {
        let i = 8 * (bp as int) + r as int;
        assert(i / 8 == bp as int && i % 8 == r as int);
        assert(unpack_spec(bytes@)[i] == nth_bit(byte, r));
    }
    b
}

/// The eight bytes of `n`, big-endian.
pub open spec fn u64_bytes(n: u64) -> Seq<u8> {
    seq![
        (n >> 56u64) as u8,
        (n >> 48u64) as u8,
        (n >> 40u64) as u8,
        (n >> 32u64) as u8,
        (n >> 24u64) as u8,
        (n >> 16u64) as u8,
        (n >> 8u64) as u8,
        n as u8,
    ]
}

/// The value of the first eight bytes of `s` read big-endian.
pub open spec fn be64_val(s: Seq<u8>) -> u64 {
    ((s[0] as u64) << 56u64) | ((s[1] as u64) << 48u64) | ((s[2] as u64) << 40u64) | ((s[3] as u64)
        << 32u64) | ((s[4] as u64) << 24u64) | ((s[5] as u64) << 16u64) | ((s[6] as u64) << 8u64)
        | (s[7] as u64)
}

/// Reading back the big-endian bytes of `n` restores `n`.
pub proof fn lemma_be64_roundtrip(n: u64)
    ensures
        be64_val(u64_bytes(n)) == n,
{
    let b0 = (n >> 56u64) as u8;
    let b1 = (n >> 48u64) as u8;
    let b2 = (n >> 40u64) as u8;
    let b3 = (n >> 32u64) as u8;
    let b4 = (n >> 24u64) as u8;
    let b5 = (n >> 16u64) as u8;
    let b6 = (n >> 8u64) as u8;
    let b7 = n as u8;
    assert(((b0 as u64) << 56u64) | ((b1 as u64) << 48u64) | ((b2 as u64) << 40u64) | ((b3 as u64)
        << 32u64) | ((b4 as u64) << 24u64) | ((b5 as u64) << 16u64) | ((b6 as u64) << 8u64) | (
    b7 as u64) == n) by (bit_vector)
        requires
            b0 == (n >> 56u64) as u8,
            b1 == (n >> 48u64) as u8,
            b2 == (n >> 40u64) as u8,
            b3 == (n >> 32u64) as u8,
            b4 == (n >> 24u64) as u8,
            b5 == (n >> 16u64) as u8,
            b6 == (n >> 8u64) as u8,
            b7 == n as u8,
    ;
}

/// Appends the eight big-endian bytes of `n`.
pub fn push_u64_be(out: &mut Vec<u8>, n: u64)
    ensures
        final(out)@ == old(out)@ + u64_bytes(n),
{
    out.push((n >> 56) as u8);
    out.push((n >> 48) as u8);
    out.push((n >> 40) as u8);
    out.push((n >> 32) as u8);
    out.push((n >> 24) as u8);
    out.push((n >> 16) as u8);
    out.push((n >> 8) as u8);
    out.push(n as u8);
    proof {
        assert(out@ =~= old(out)@ + u64_bytes(n));
    }
}

/// Reads a big-endian 64-bit value at offset `off`.
pub fn read_u64_be(b: &Vec<u8>, off: usize) -> (r: u64)
    requires
        off + 8 <= b@.len(),
    ensures
        r == be64_val(b@.subrange(off as int, off as int + 8)),
{
    let len = b.len();
    proof {
        assert(off + 7 < len);
    }
    let r = ((b[off] as u64) << 56) | ((b[off + 1] as u64) << 48) | ((b[off + 2] as u64) << 40) | ((
    b[off + 3] as u64) << 32) | ((b[off + 4] as u64) << 24) | ((b[off + 5] as u64) << 16) | ((b[off
        + 6] as u64) << 8) | (b[off + 7] as u64);
    proof {
        let s = b@.subrange(off as int, off as int + 8);
        assert(s[0] == b@[off as int] && s[1] == b@[off as int + 1] && s[2] == b@[off as int + 2]
            && s[3] == b@[off as int + 3] && s[4] == b@[off as int + 4] && s[5] == b@[off as int
            + 5] && s[6] == b@[off as int + 6] && s[7] == b@[off as int + 7]);
    }
    r
}

/// The high byte of `d`, big-endian.
pub open spec fn u16_hi(d: u16) -> u8 {
    (d >> 8u16) as u8
}

/// The low byte of `d`, big-endian.
pub open spec fn u16_lo(d: u16) -> u8 {
    d as u8
}

/// The value formed from a big-endian byte pair.
pub open spec fn be16_val(hi: u8, lo: u8) -> u16 {
    (((hi as u16) << 8u16) | (lo as u16)) as u16
}

/// Recombining the two big-endian bytes of `d` restores `d`.
pub proof fn lemma_be16_roundtrip(d: u16)
    ensures
        be16_val(u16_hi(d), u16_lo(d)) == d,
{
    let hi = (d >> 8u16) as u8;
    let lo = d as u8;
    assert((((hi as u16) << 8u16) | (lo as u16)) == d) by (bit_vector)
        requires
            hi == (d >> 8u16) as u8,
            lo == d as u8,
    ;
}

} // verus!
