//! Packing a bit sequence into 8-bit groups, most significant group first.
use vstd::prelude::*;

verus! {

/// How many zeros go in front of `n` bits to make whole groups of eight.
pub open spec fn pad_len(n: nat) -> nat {
    if n % 8 == 0 {
        0
    } else {
        (8 - n % 8) as nat
    }
}

/// The bits with zeros in front, so that their count is a multiple of eight.
pub open spec fn padded_bits(bits: Seq<u8>) -> Seq<u8> {
    Seq::new(pad_len(bits.len()), |i: int| 0u8) + bits
}

/// The padded bits cut into consecutive groups of eight.
pub open spec fn byte_groups(bits: Seq<u8>) -> Seq<Seq<u8>> {
    let p = padded_bits(bits);
    Seq::new(p.len() / 8, |k: int| p.subrange(8 * k, 8 * k + 8))
}

/// Splits the bits into groups of eight, padding the first group with zeros on its left.
pub fn bits_to_bytes(bits: &[u8]) -> (res: Vec<Vec<u8>>)
    ensures
        res.deep_view() == byte_groups(bits@),
{
    let ghost padded = padded_bits(bits@);
    let ghost pad = pad_len(bits@.len());
    let mut bytes: Vec<Vec<u8>> = Vec::new();
    let md: usize = bits.len() % 8;
    if md != 0 {
        let mut first_vec: Vec<u8> = Vec::new();
        let mut z: usize = 0;
        while z < 8 - md
            invariant
                md == bits@.len() % 8,
                md != 0,
                pad == 8 - md,
                padded == padded_bits(bits@),
                z <= 8 - md,
                first_vec@ =~= padded.subrange(0, z as int),
            decreases 8 - md - z,
        {
            first_vec.push(0);
            z = z + 1;
        }
        let mut i: usize = 0;
        while i < md
            invariant
                md == bits@.len() % 8,
                md != 0,
                pad == 8 - md,
                padded == padded_bits(bits@),
                i <= md,
                first_vec@ =~= padded.subrange(0, pad + i),
            decreases md - i,
        {
            first_vec.push(bits[i]);
            i = i + 1;
        }
        bytes.push(first_vec);
    }
    let mut tmp_vec: Vec<u8> = Vec::new();
    let mut j: usize = md;
    while j < bits.len()
        invariant
            md == bits@.len() % 8,
            pad == pad_len(bits@.len()),
            padded == padded_bits(bits@),
            md <= j <= bits@.len(),
            8 * bytes@.len() + tmp_vec@.len() == pad + j,
            tmp_vec@.len() < 8,
            tmp_vec@ =~= padded.subrange(8 * bytes@.len() as int, pad + j),
            forall|k: int|
                0 <= k < bytes@.len() ==> #[trigger] bytes@[k]@ == padded.subrange(8 * k, 8 * k + 8),
        decreases bits.len() - j,
    {
        tmp_vec.push(bits[j]);
        j = j + 1;
        if tmp_vec.len() == 8 {
            bytes.push(tmp_vec);
            tmp_vec = Vec::new();
        }
    }
    assert((pad + bits@.len()) % 8 == 0);
    assert(padded.len() == pad + bits@.len());
    assert(bytes@.len() == padded.len() / 8);
    assert forall|k: int| 0 <= k < bytes@.len() implies bytes.deep_view()[k] == byte_groups(
        bits@,
    )[k] by {
        assert(bytes@[k]@ == padded.subrange(8 * k, 8 * k + 8));
    }
    assert(bytes.deep_view() =~= byte_groups(bits@));
    bytes
}

} // verus!
