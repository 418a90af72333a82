//! Numbers that are written down can be read back.
use vstd::prelude::*;

#[allow(unused_imports)]
use crate::fixed::{abs_of, boundless, fixed_text, ten_to};
#[allow(unused_imports)]
use crate::text::{digits_of, integer_text, padded_digits};

verus! {

/// The number that digits stand for.
pub open spec fn number_in(s: Seq<char>) -> int
    decreases s.len(),
{
    if s.len() == 0 {
        0
    } else {
        10 * number_in(s.drop_last()) + (s.last() as int - '0' as int)
    }
}

/// Are these digits, and nothing else?
pub open spec fn all_digits(s: Seq<char>) -> bool {
    forall|i: int| 0 <= i < s.len() ==> '0' as int <= #[trigger] s[i] as int <= '9' as int
}

/// A number is written with its digits, without zeros in front.
pub proof fn lemma_digits(n: nat)
    ensures
        number_in(digits_of(n)) == n,
        all_digits(digits_of(n)),
        digits_of(n).len() >= 1,
        n > 0 ==> digits_of(n)[0] != '0',
    decreases n,
{
    let s = digits_of(n);
    if n >= 10 {
        lemma_digits(n / 10);
        assert(s.drop_last() =~= digits_of(n / 10));
    } else {
        assert(s.drop_last() =~= Seq::<char>::empty());
        assert(number_in(s.drop_last()) == 0);
    }
}

/// A whole number below zero has a minus in front of its size.
pub proof fn lemma_integer(n: int)
    ensures
        n >= 0 ==> number_in(integer_text(n)) == n && all_digits(integer_text(n)),
        n < 0 ==> integer_text(n).len() >= 2 && integer_text(n)[0] == '-' && number_in(
            integer_text(n).skip(1),
        ) == -n && all_digits(integer_text(n).skip(1)),
{
    if n >= 0 {
        lemma_digits(n as nat);
    } else {
        lemma_digits((-n) as nat);
        assert(integer_text(n).skip(1) =~= digits_of((-n) as nat));
    }
}

/// Two whole numbers that are written the same are the same.
pub proof fn lemma_integers_differ(a: int, b: int)
    requires
        integer_text(a) == integer_text(b),
    ensures
        a == b,
{
    lemma_integer(a);
    lemma_integer(b);
    if a >= 0 && b < 0 {
        assert('0' as int <= integer_text(a)[0] as int);
    }
    if b >= 0 && a < 0 {
        assert('0' as int <= integer_text(b)[0] as int);
    }
}

/// A number with zeros in front has as many digits as were asked for.
pub proof fn lemma_padded(n: nat, k: nat)
    requires
        n < ten_to(k as int),
    ensures
        padded_digits(n, k).len() == k,
        number_in(padded_digits(n, k)) == n,
        all_digits(padded_digits(n, k)),
    decreases k,
{
    if k > 0 {
        lemma_padded(n / 10, (k - 1) as nat);
        let s = padded_digits(n, k);
        assert(s.drop_last() =~= padded_digits(n / 10, (k - 1) as nat));
    }
}

/// A finite decimal is written with its sign, its whole part, a point, and the
/// twelve digits behind it. Returns both parts.
pub proof fn lemma_decimal(steps: int) -> (parts: (Seq<char>, Seq<char>))
    requires
        !boundless(steps),
    ensures
        fixed_text(steps) == (if steps < 0 {
            seq!['-']
        } else {
            Seq::<char>::empty()
        }) + parts.0 + seq!['.'] + parts.1,
        all_digits(parts.0),
        all_digits(parts.1),
        parts.1.len() == 12,
        number_in(parts.0) * 1_000_000_000_000 + number_in(parts.1) == abs_of(steps),
{
    let size = abs_of(steps);
    let (whole, rest) = (size / 1_000_000_000_000, size % 1_000_000_000_000);
    lemma_integer(whole);
    reveal_with_fuel(ten_to, 13);
    assert(ten_to(12) == 1_000_000_000_000);
    lemma_padded(rest as nat, 12);
    reveal_strlit("-");
    reveal_strlit("");
    reveal_strlit(".");
    assert("-"@ =~= seq!['-']);
    assert(""@ =~= Seq::<char>::empty());
    assert("."@ =~= seq!['.']);
    (integer_text(whole), padded_digits(rest as nat, 12))
}

} // verus!
