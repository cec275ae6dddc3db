//! Conversion of a decimal digit vector to its bits, most significant first.
use vstd::prelude::*;
use vstd::arithmetic::power2::pow2;
use crate::decimal::{
    decimal_of, decimal_value, decimal_vec_div2, is_canonical_decimal, is_digit_seq, is_zero,
    lemma_leading_digit_positive,
};

verus! {

/// Every element is a bit.
pub open spec fn is_bit_seq(b: Seq<u8>) -> bool {
    forall|i: int| 0 <= i < b.len() ==> b[i] <= 1
}

/// The number that a bit sequence denotes, most significant bit first.
pub open spec fn binary_value(b: Seq<u8>) -> nat
    decreases b.len(),
{
    if b.len() == 0 {
        0
    } else {
        binary_value(b.drop_last()) * 2 + b.last() as nat
    }
}

/// The one binary form of a number: non-empty, and no leading zero unless it is `[0]`.
pub open spec fn is_canonical_binary(b: Seq<u8>) -> bool {
    &&& is_bit_seq(b)
    &&& b.len() >= 1
    &&& (b[0] == 1 || b == seq![0u8])
}

/// The binary form of a number, most significant bit first.
pub open spec fn bits_of(n: nat) -> Seq<u8>
    decreases n,
{
    if n < 2 {
        seq![n as u8]
    } else {
        bits_of(n / 2).push((n % 2) as u8)
    }
}

/// A bit sequence that starts with a one denotes a positive number.
pub proof fn lemma_leading_one_positive(b: Seq<u8>)
    requires
        b.len() > 0,
        b[0] == 1,
    ensures
        binary_value(b) > 0,
    decreases b.len(),
{
    if b.len() > 1 {
        lemma_leading_one_positive(b.drop_last());
    }
}

/// A number has one canonical binary form.
pub proof fn lemma_canonical_binary_unique(b: Seq<u8>)
    requires
        is_canonical_binary(b),
    ensures
        b == bits_of(binary_value(b)),
    decreases b.len(),
{
    let p = b.drop_last();
    if b.len() == 1 {
        assert(p =~= Seq::<u8>::empty());
        assert(binary_value(p) == 0);
        assert(bits_of(binary_value(b)) =~= b);
    } else {
        assert(b != seq![0u8]);
        assert(is_canonical_binary(p));
        lemma_canonical_binary_unique(p);
        lemma_leading_one_positive(p);
        assert(bits_of(binary_value(b)) =~= b);
    }
}

/// Every number survives the trip through digits and bits: its canonical digit
/// sequence denotes it, and so does the binary form of that value.
pub proof fn lemma_round_trip(n: nat)
    ensures
        is_canonical_decimal(decimal_of(n)),
        decimal_value(decimal_of(n)) == n,
        is_canonical_binary(bits_of(n)),
        binary_value(bits_of(decimal_value(decimal_of(n)))) == n,
    decreases n,
{
    if n < 10 {
        assert(decimal_of(n).drop_last() =~= Seq::<u8>::empty());
        assert(decimal_value(Seq::<u8>::empty()) == 0);
    } else {
        lemma_round_trip(n / 10);
        let d = decimal_of(n);
        assert(d.drop_last() =~= decimal_of(n / 10));
        assert(d[0] == decimal_of(n / 10)[0]);
        assert(decimal_value(seq![0u8]) == 0) by {
            assert(seq![0u8].drop_last() =~= Seq::<u8>::empty());
            assert(decimal_value(Seq::<u8>::empty()) == 0);
            assert(seq![0u8].last() == 0);
        }
        assert(decimal_of(n / 10) != seq![0u8]);
        assert forall|i: int| 0 <= i < d.len() implies d[i] <= 9 by {
            if i < d.len() - 1 {
                assert(d[i] == decimal_of(n / 10)[i]);
            }
        }
    }
    lemma_bits_of_value(n);
}

/// The binary form of a number is canonical and denotes it.
pub proof fn lemma_bits_of_value(n: nat)
    ensures
        is_canonical_binary(bits_of(n)),
        binary_value(bits_of(n)) == n,
    decreases n,
{
    if n < 2 {
        assert(bits_of(n).drop_last() =~= Seq::<u8>::empty());
        assert(binary_value(Seq::<u8>::empty()) == 0);
    } else {
        lemma_bits_of_value(n / 2);
        let b = bits_of(n);
        assert(b.drop_last() =~= bits_of(n / 2));
        assert(b[0] == bits_of(n / 2)[0]);
        assert(binary_value(seq![0u8]) == 0) by {
            assert(seq![0u8].drop_last() =~= Seq::<u8>::empty());
            assert(binary_value(Seq::<u8>::empty()) == 0);
            assert(seq![0u8].last() == 0);
        }
        assert(bits_of(n / 2) != seq![0u8]);
        assert forall|i: int| 0 <= i < b.len() implies b[i] <= 1 by {
            if i < b.len() - 1 {
                assert(b[i] == bits_of(n / 2)[i]);
            }
        }
    }
}

/// Putting a bit in front adds its weight at the sequence's length.
pub proof fn lemma_binary_value_prepend(x: u8, b: Seq<u8>)
    ensures
        binary_value(seq![x] + b) == x * pow2(b.len()) + binary_value(b),
    decreases b.len(),
{
    if b.len() == 0 {
        assert(seq![x] + b =~= seq![x]);
        assert(seq![x].drop_last() =~= b);
        vstd::arithmetic::power2::lemma2_to64();
        assert(pow2(b.len()) == 1);
    } else {
        assert((seq![x] + b).drop_last() =~= seq![x] + b.drop_last());
        assert((seq![x] + b).last() == b.last());
        lemma_binary_value_prepend(x, b.drop_last());
        vstd::arithmetic::power2::lemma_pow2_unfold(b.len());
        assert(binary_value(seq![x] + b) == x * pow2(b.len()) + binary_value(b)) by (nonlinear_arith)
            requires
                binary_value(seq![x] + b) == (x * pow2((b.len() - 1) as nat) + binary_value(
                    b.drop_last(),
                )) * 2 + b.last() as nat,
                pow2(b.len()) == 2 * pow2((b.len() - 1) as nat),
                binary_value(b) == binary_value(b.drop_last()) * 2 + b.last() as nat,
        ;
    }
}

/// The bits of the number that a digit vector denotes, most significant first.
///
/// Halves the value repeatedly and collects the remainders.
pub fn decimal_vec_to_binary_vec(decimal: &[u8]) -> (res: Vec<u8>)
    requires
        is_digit_seq(decimal@),
    ensures
        is_canonical_binary(res@),
        binary_value(res@) == decimal_value(decimal@),
        res@ == bits_of(decimal_value(decimal@)),
{
    if is_zero(decimal) {
        let v: Vec<u8> = vec![0];
        assert(v@ =~= seq![0u8]);
        assert(v@.drop_last() =~= Seq::<u8>::empty());
        assert(binary_value(Seq::<u8>::empty()) == 0);
        assert(decimal@.drop_last() =~= Seq::<u8>::empty());
        assert(decimal_value(Seq::<u8>::empty()) == 0);
        proof {
            lemma_canonical_binary_unique(v@);
        }
        return v;
    }
    let mut res: Vec<u8> = Vec::new();
    let mut owned: Vec<u8> = Vec::new();
    owned.extend_from_slice(decimal);
    assert(owned@ =~= decimal@);
    assert(binary_value(Seq::<u8>::empty()) == 0);
    assert(res@.reverse() =~= Seq::<u8>::empty());
    proof {
        vstd::arithmetic::power2::lemma2_to64();
    }
    while !is_zero(&owned)
        invariant
            is_digit_seq(owned@),
            is_bit_seq(res@),
            res@.len() == 0 ==> owned@ == decimal@,
            res@.len() > 0 ==> is_canonical_decimal(owned@),
            res@.len() > 0 && decimal_value(owned@) == 0 ==> (res@.last() == 1 || res@ == seq![0u8]),
            decimal_value(decimal@) == decimal_value(owned@) * pow2(res@.len()) + binary_value(
                res@.reverse(),
            ),
        decreases decimal_value(owned@) + (if res@.len() == 0 { 1int } else { 0int }),
    {
        let ghost old_owned = owned@;
        let ghost old_res = res@;
        let (q, rm) = decimal_vec_div2(&owned);
        proof {
            if old_res.len() > 0 && old_owned[0] != 0 {
                lemma_leading_digit_positive(old_owned);
            }
        }
        owned = q;
        res.push(rm);
        assert(res@.reverse() =~= seq![rm] + old_res.reverse());
        proof {
            lemma_binary_value_prepend(rm, old_res.reverse());
            vstd::arithmetic::power2::lemma_pow2_unfold(res@.len());
        }
        assert(decimal_value(old_owned) * pow2(old_res.len()) == decimal_value(owned@) * pow2(
            res@.len(),
        ) + rm * pow2(old_res.len())) by (nonlinear_arith)
            requires
                decimal_value(old_owned) == 2 * decimal_value(owned@) + rm,
                pow2(res@.len()) == 2 * pow2(old_res.len()),
        ;
    }
    assert(decimal_value(owned@) == 0) by {
        assert(owned@.drop_last() =~= Seq::<u8>::empty());
        assert(decimal_value(Seq::<u8>::empty()) == 0);
    }
    assert(res@.len() > 0);
    let mut bits: Vec<u8> = Vec::new();
    let mut k: usize = res.len();
    while k > 0
        invariant
            k <= res@.len(),
            bits@ =~= res@.subrange(k as int, res@.len() as int).reverse(),
        decreases k,
    {
        k = k - 1;
        bits.push(res[k]);
        assert(res@.subrange(k as int, res@.len() as int).reverse() =~= res@.subrange(
            k + 1,
            res@.len() as int,
        ).reverse().push(res@[k as int]));
    }
    assert(res@.subrange(0, res@.len() as int) =~= res@);
    assert(bits@ =~= res@.reverse());
    assert(bits@[0] == res@.last());
    assert(res@ == seq![0u8] ==> bits@ =~= seq![0u8]);
    assert(is_bit_seq(bits@)) by {
        assert forall|i: int| 0 <= i < bits@.len() implies bits@[i] <= 1 by {
            assert(bits@[i] == res@[res@.len() - 1 - i]);
        }
    }
    proof {
        lemma_canonical_binary_unique(bits@);
    }
    bits
}

} // verus!
