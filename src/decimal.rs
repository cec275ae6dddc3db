//! Decimal values held as digit vectors, most significant digit first.
use vstd::prelude::*;

verus! {

/// Every element is a decimal digit value.
pub open spec fn is_digit_seq(d: Seq<u8>) -> bool {
    forall|i: int| 0 <= i < d.len() ==> d[i] <= 9
}

/// The number that a digit sequence denotes; the empty sequence denotes zero.
pub open spec fn decimal_value(d: Seq<u8>) -> nat
    decreases d.len(),
{
    if d.len() == 0 {
        0
    } else {
        decimal_value(d.drop_last()) * 10 + d.last() as nat
    }
}

/// The one written form of a number: non-empty, and no leading zero unless it is `[0]`.
pub open spec fn is_canonical_decimal(d: Seq<u8>) -> bool {
    &&& is_digit_seq(d)
    &&& d.len() >= 1
    &&& (d[0] != 0 || d == seq![0u8])
}

/// A digit sequence whose first digit is not zero denotes a positive number.
pub proof fn lemma_leading_digit_positive(d: Seq<u8>)
    requires
        d.len() > 0,
        d[0] != 0,
    ensures
        decimal_value(d) > 0,
    decreases d.len(),
{
    if d.len() > 1 {
        lemma_leading_digit_positive(d.drop_last());
    }
}

/// The canonical digit sequence of a number.
pub open spec fn decimal_of(n: nat) -> Seq<u8>
    decreases n,
{
    if n < 10 {
        seq![n as u8]
    } else {
        decimal_of(n / 10).push((n % 10) as u8)
    }
}

/// A number has one canonical digit sequence.
pub proof fn lemma_canonical_decimal_unique(d: Seq<u8>)
    requires
        is_canonical_decimal(d),
    ensures
        d == decimal_of(decimal_value(d)),
    decreases d.len(),
{
    let p = d.drop_last();
    if d.len() == 1 {
        assert(p =~= Seq::<u8>::empty());
        assert(decimal_value(p) == 0);
        assert(decimal_of(decimal_value(d)) =~= d);
    } else {
        assert(d != seq![0u8]);
        assert(is_canonical_decimal(p));
        lemma_canonical_decimal_unique(p);
        lemma_leading_digit_positive(p);
        assert(decimal_of(decimal_value(d)) =~= d);
    }
}

/// One step of long division by two.
///
/// Returns the quotient in canonical form and the remainder bit.
pub fn decimal_vec_div2(decimal: &[u8]) -> (res: (Vec<u8>, u8))
    requires
        is_digit_seq(decimal@),
    ensures
        is_canonical_decimal(res.0@),
        res.1 <= 1,
        2 * decimal_value(res.0@) + res.1 == decimal_value(decimal@),
        res.0@ == decimal_of(decimal_value(decimal@) / 2),
        res.1 == decimal_value(decimal@) % 2,
{
    if decimal.len() == 0 {
        let v: Vec<u8> = vec![0];
        assert(v@.drop_last() =~= Seq::<u8>::empty());
        assert(decimal_value(Seq::<u8>::empty()) == 0);
        assert(v@ =~= seq![0u8]);
        proof {
            lemma_canonical_decimal_unique(v@);
        }
        (v, 0)
    } else {
        let mut res: Vec<u8> = Vec::new();
        let mut r: u8 = 0;
        let mut i: usize = 0;
        while i < decimal.len()
            invariant
                i <= decimal@.len(),
                is_digit_seq(decimal@),
                is_digit_seq(res@),
                res@.len() == 0 || res@[0] != 0,
                r <= 1,
                2 * decimal_value(res@) + r == decimal_value(decimal@.take(i as int)),
            decreases decimal.len() - i,
        {
            let digit = decimal[i];
            let cur: u8 = r * 10 + digit;
            let q: u8 = cur / 2;
            let ghost old_res = res@;
            let ghost old_r = r;
            r = cur % 2;
            assert(decimal@.take(i + 1).drop_last() =~= decimal@.take(i as int));
            assert(2 * (decimal_value(old_res) * 10 + q) + r
                == (2 * decimal_value(old_res) + old_r) * 10 + digit) by (nonlinear_arith)
                requires
                    cur == old_r * 10 + digit,
                    q == cur / 2,
                    r == cur % 2,
            ;
            if res.len() != 0 || q != 0 {
                res.push(q);
                assert(res@.drop_last() =~= old_res);
            }
            i = i + 1;
        }
        assert(decimal@.take(decimal@.len() as int) =~= decimal@);
        if res.len() == 0 {
            res.push(0);
            assert(res@.drop_last() =~= Seq::<u8>::empty());
            assert(decimal_value(Seq::<u8>::empty()) == 0);
            assert(res@ =~= seq![0u8]);
        }
        proof {
            lemma_canonical_decimal_unique(res@);
        }
        (res, r)
    }
}

/// Whether the digit vector is exactly `[0]`.
pub fn is_zero(v: &[u8]) -> (b: bool)
    ensures
        b == (v@ == seq![0u8]),
{
    let b = v.len() == 1 && v[0] == 0;
    assert(b ==> v@ =~= seq![0u8]);
    b
}

} // verus!
