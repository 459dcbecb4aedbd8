use vstd::prelude::*;

verus! {

/// The character for one decimal digit.
pub open spec fn digit_to_char(d: nat) -> char {
    ((48 + d) as u8) as char
}

/// The decimal digits of a positive number, most significant first; empty
/// for zero.
pub open spec fn dec_digits_rec(n: nat) -> Seq<char>
    decreases n,
{
    if n == 0 {
        Seq::empty()
    } else {
        dec_digits_rec(n / 10).push(digit_to_char(n % 10))
    }
}

/// The decimal digits of a number, most significant first; zero is "0".
pub open spec fn dec_digits(n: nat) -> Seq<char> {
    if n == 0 {
        seq!['0']
    } else {
        dec_digits_rec(n)
    }
}

/// The decimal textual representation of a 64-bit signed integer.
pub open spec fn fmt_i64(v: i64) -> Seq<char> {
    if v >= 0 {
        dec_digits(v as nat)
    } else {
        seq!['-'] + dec_digits((-(v as int)) as nat)
    }
}

proof fn lemma_dec_digits_rec_value(n: nat)
    requires
        n > 0,
    ensures
        crate::lexer::digits_val(dec_digits_rec(n)) == n,
        dec_digits_rec(n).len() >= 1,
        forall|i: int|
            0 <= i < dec_digits_rec(n).len() ==> crate::lexer::is_digit_char(
                #[trigger] dec_digits_rec(n)[i],
            ),
    decreases n,
{
    let c = digit_to_char(n % 10);
    assert(c as u32 == 48 + n % 10);
    assert(crate::lexer::digit_val(c) == n % 10);
    assert(crate::lexer::is_digit_char(c));
    if n < 10 {
        assert(n / 10 == 0);
        assert(dec_digits_rec(0) =~= Seq::<char>::empty());
        assert(dec_digits_rec(n) =~= Seq::<char>::empty().push(c));
        assert(dec_digits_rec(n).drop_last() =~= Seq::<char>::empty());
        assert(crate::lexer::digits_val(Seq::<char>::empty()) == 0);
        assert(crate::lexer::digits_val(dec_digits_rec(n)) == n % 10);
    } else {
        lemma_dec_digits_rec_value(n / 10);
        let prefix = dec_digits_rec(n / 10);
        assert(dec_digits_rec(n) == prefix.push(c));
        assert(prefix.push(c).drop_last() =~= prefix);
        assert(prefix.push(c).last() == c);
        assert(crate::lexer::digits_val(dec_digits_rec(n)) == (n / 10) * 10 + n % 10);
    }
}

/// The digits of a number read back as that number, and they are all
/// decimal digit characters.
pub proof fn lemma_dec_digits_value(n: nat)
    ensures
        crate::lexer::digits_val(dec_digits(n)) == n,
        dec_digits(n).len() >= 1,
        forall|i: int|
            0 <= i < dec_digits(n).len() ==> crate::lexer::is_digit_char(
                #[trigger] dec_digits(n)[i],
            ),
{
    if n == 0 {
        assert(dec_digits(0) == seq!['0']);
        assert(dec_digits(0).drop_last() =~= Seq::<char>::empty());
        assert(dec_digits(0).last() == '0');
        assert(crate::lexer::digits_val(Seq::<char>::empty()) == 0);
        assert('0' as u32 == 48);
        assert(crate::lexer::digit_val('0') == 0);
        assert(crate::lexer::digits_val(seq!['0']) == 0);
        assert(crate::lexer::is_digit_char('0'));
    } else {
        lemma_dec_digits_rec_value(n);
    }
}

/// Renders an integer in decimal, exactly as `fmt_i64` describes.
pub fn to_decimal(v: i64) -> (r: String)
    ensures
        r@ == fmt_i64(v),
{
    let neg: bool = v < 0;
    let mut m: u64 = if v >= 0 {
        v as u64
    } else {
        ((-(v + 1)) as u64) + 1
    };
    proof {
        if v >= 0 {
            assert(m == v as nat);
        } else {
            assert(m == (-(v as int)) as nat);
        }
    }
    let ghost m0 = m as nat;
    let mut digits: Vec<char> = Vec::new();
    if m == 0 {
        digits.push('0');
        proof {
            assert(digits@ =~= seq!['0']);
        }
    } else {
        while m > 0
            invariant
                dec_digits_rec(m0) =~= dec_digits_rec(m as nat) + digits@,
                m == 0 ==> digits@.len() > 0,
            decreases m,
        {
            let d: u8 = (m % 10) as u8;
            let c: char = (48 + d) as char;
            let ghost old_digits = digits@;
            digits.insert(0, c);
            proof {
                assert(digits@ =~= seq![c] + old_digits);
                assert(c == digit_to_char((m as nat) % 10));
                assert(dec_digits_rec(m as nat) == dec_digits_rec((m as nat) / 10).push(c));
                assert(dec_digits_rec((m as nat) / 10) + (seq![c] + old_digits)
                    =~= (dec_digits_rec((m as nat) / 10).push(c)) + old_digits);
            }
            m = m / 10;
        }
        proof {
            assert(dec_digits_rec(m0) =~= digits@);
        }
    }
    let mut r = String::new();
    if neg {
        crate::chars::push_char(&mut r, '-');
    }
    let ghost sign = r@;
    let mut i: usize = 0;
    while i < digits.len()
        invariant
            i <= digits.len(),
            r@ == sign + digits@.subrange(0, i as int),
        decreases digits.len() - i,
    {
        let ghost before = r@;
        crate::chars::push_char(&mut r, digits[i]);
        proof {
            assert(before.push(digits@[i as int]) =~= sign + digits@.subrange(0, i + 1));
        }
        i = i + 1;
    }
    proof {
        assert(digits@.subrange(0, digits@.len() as int) =~= digits@);
        if neg {
            assert(r@ =~= seq!['-'] + digits@);
        } else {
            assert(r@ =~= digits@);
        }
    }
    r
}

} // verus!
