//! Decimal rendering of unsigned integers.
use vstd::prelude::*;

verus! {

/// The character for a decimal digit.
pub open spec fn digit_char(d: nat) -> char {
    seq!['0', '1', '2', '3', '4', '5', '6', '7', '8', '9'][d as int]
}

/// The decimal digits of `n`, most significant first, with no leading zeros.
pub open spec fn decimal(n: nat) -> Seq<char>
    decreases n,
{
    if n < 10 {
        seq![digit_char(n)]
    } else {
        decimal(n / 10).push(digit_char(n % 10))
    }
}

/// The one-character text of the digit `d`.
fn digit_text(d: u128) -> (r: &'static str)
    requires
        d < 10,
    ensures
        r@ == seq![digit_char(d as nat)],
{
    proof {
        reveal_strlit("0");
        reveal_strlit("1");
        reveal_strlit("2");
        reveal_strlit("3");
        reveal_strlit("4");
        reveal_strlit("5");
        reveal_strlit("6");
        reveal_strlit("7");
        reveal_strlit("8");
        reveal_strlit("9");
    }
    if d == 0 {
        "0"
    } else if d == 1 {
        "1"
    } else if d == 2 {
        "2"
    } else if d == 3 {
        "3"
    } else if d == 4 {
        "4"
    } else if d == 5 {
        "5"
    } else if d == 6 {
        "6"
    } else if d == 7 {
        "7"
    } else if d == 8 {
        "8"
    } else {
        "9"
    }
}

/// The decimal text of `n`.
pub fn decimal_text(n: u128) -> (r: String)
    ensures
        r@ == decimal(n as nat),
    decreases n,
{
    if n < 10 {
        String::from_str(digit_text(n))
    } else {
        let mut s = decimal_text(n / 10);
        s.append(digit_text(n % 10));
        s
    }
}

/// The number that a run of decimal digits spells.
pub open spec fn digits_value(s: Seq<char>) -> nat
    decreases s.len(),
{
    if s.len() == 0 {
        0
    } else {
        10 * digits_value(s.drop_last()) + (s.last() as nat - '0' as nat) as nat
    }
}

proof fn lemma_digit_char(k: nat)
    requires
        k < 10,
    ensures
        '0' <= digit_char(k) <= '9',
        digit_char(k) as nat - '0' as nat == k,
{
    let ds = seq!['0', '1', '2', '3', '4', '5', '6', '7', '8', '9'];
    assert(digit_char(k) == ds[k as int]);
    if k == 0 {
        assert(ds[0] == '0');
    } else if k == 1 {
        assert(ds[1] == '1');
    } else if k == 2 {
        assert(ds[2] == '2');
    } else if k == 3 {
        assert(ds[3] == '3');
    } else if k == 4 {
        assert(ds[4] == '4');
    } else if k == 5 {
        assert(ds[5] == '5');
    } else if k == 6 {
        assert(ds[6] == '6');
    } else if k == 7 {
        assert(ds[7] == '7');
    } else if k == 8 {
        assert(ds[8] == '8');
    } else {
        assert(ds[9] == '9');
    }
}

/// The decimal text of `n` is a run of digits `0`-`9` that spells `n`, with
/// no leading zero unless `n` is zero itself.
pub proof fn law_decimal_spells_the_number(n: nat)
    ensures
        decimal(n).len() >= 1,
        forall|i: int| 0 <= i < decimal(n).len() ==> '0' <= #[trigger] decimal(n)[i] <= '9',
        digits_value(decimal(n)) == n,
        n > 0 ==> decimal(n)[0] != '0',
    decreases n,
{
    if n < 10 {
        lemma_digit_char(n);
        assert(decimal(n).drop_last() =~= Seq::<char>::empty());
        assert(digits_value(Seq::<char>::empty()) == 0);
        assert(decimal(n).last() == digit_char(n));
        assert(digits_value(decimal(n)) == 10 * digits_value(decimal(n).drop_last()) + (
        decimal(n).last() as nat - '0' as nat) as nat);
    } else {
        law_decimal_spells_the_number(n / 10);
        let init = decimal(n / 10);
        let d = digit_char((n % 10) as nat);
        lemma_digit_char((n % 10) as nat);
        assert(decimal(n) == init.push(d));
        assert(decimal(n).drop_last() =~= init);
        assert forall|i: int| 0 <= i < decimal(n).len() implies '0' <= #[trigger] decimal(n)[i] <= '9' by {
            if i < init.len() {
                assert(decimal(n)[i] == init[i]);
            }
        }
        assert(decimal(n)[0] == init[0]);
        assert(decimal(n).last() == d);
        assert(digits_value(decimal(n)) == 10 * digits_value(init) + (d as nat - '0' as nat) as nat);
        assert(n == 10 * (n / 10) + n % 10);
    }
}

} // verus!
