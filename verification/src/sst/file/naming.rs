//! The names of the objects that hold the files.
//!
//! The file of a generation is held by the object `sst-`, the generation in
//! twenty decimal digits, `.sst`. The name depends on the generation alone,
//! so that a file put again lands on the object it was put to before, and
//! different generations never share an object.

use vstd::prelude::*;
use vstd::string::StringExecFns;

verus! {

/// The number of digits of the largest generation.
pub const GENERATION_DIGITS: usize = 20;

/// Ten to the power `n`.
pub open spec fn pow10(n: nat) -> nat
    decreases n,
{
    if n == 0 {
        1
    } else {
        10 * pow10((n - 1) as nat)
    }
}

/// The number that the first `k` of the twenty digits of a generation spell:
/// the generation without its last `20 - k` digits.
pub open spec fn head(generation: u64, k: nat) -> int {
    (generation as int) / (pow10((20 - k) as nat) as int)
}

/// The character of a decimal digit.
pub open spec fn digit_char(d: nat) -> char {
    if d == 0 {
        '0'
    } else if d == 1 {
        '1'
    } else if d == 2 {
        '2'
    } else if d == 3 {
        '3'
    } else if d == 4 {
        '4'
    } else if d == 5 {
        '5'
    } else if d == 6 {
        '6'
    } else if d == 7 {
        '7'
    } else if d == 8 {
        '8'
    } else {
        '9'
    }
}

/// The generation in decimal, with zeros in front up to twenty digits: each
/// digit is the last digit of what the digits up to it spell.
pub open spec fn generation_digits(generation: u64) -> Seq<char> {
    Seq::new(
        GENERATION_DIGITS as nat,
        |i: int| digit_char((head(generation, (i + 1) as nat) % 10) as nat),
    )
}

/// The id of the object that holds a generation: `sst-`, the generation in
/// twenty decimal digits, `.sst`.
pub open spec fn spec_object_key(generation: u64) -> Seq<char> {
    seq!['s', 's', 't', '-'] + generation_digits(generation) + seq!['.', 's', 's', 't']
}

fn digit_str(d: u64) -> (s: &'static str)
    requires
        d < 10,
    ensures
        s@ == seq![digit_char(d as nat)],
{
    proof {
        reveal_strlit("0");
        reveal_strlit("1");
        reveal_strlit("2");
        reveal_strlit("3");
        reveal_strlit("4");
        reveal_strlit("5");
        reveal_strlit("6");
        reveal_strlit("7");
        reveal_strlit("8");
        reveal_strlit("9");
    }
    let s = if d == 0 {
        "0"
    } else if d == 1 {
        "1"
    } else if d == 2 {
        "2"
    } else if d == 3 {
        "3"
    } else if d == 4 {
        "4"
    } else if d == 5 {
        "5"
    } else if d == 6 {
        "6"
    } else if d == 7 {
        "7"
    } else if d == 8 {
        "8"
    } else {
        "9"
    };
    assert(s@ =~= seq![digit_char(d as nat)]);
    s
}

/// Names the object that holds a generation.
pub fn object_key(generation: u64) -> (id: String)
    ensures
        id@ == spec_object_key(generation),
{
    proof {
        reveal_strlit("sst-");
        reveal_strlit(".sst");
        reveal_with_fuel(pow10, 20);
    }
    let ghost digits = generation_digits(generation);
    let mut id = String::from_str("sst-");
    assert(id@ =~= seq!['s', 's', 't', '-']);
    let mut divisor: u64 = 10_000_000_000_000_000_000;
    let mut i: usize = 0;
    while i < GENERATION_DIGITS
        invariant
            i <= GENERATION_DIGITS,
            digits == generation_digits(generation),
            i < GENERATION_DIGITS ==> divisor as nat == pow10((19 - i) as nat),
            id@ == seq!['s', 's', 't', '-'] + digits.take(i as int),
        decreases GENERATION_DIGITS - i,
    {
        proof {
            lemma_pow10_positive((19 - i) as nat);
        }
        let d = (generation / divisor) % 10;
        let ghost before = id@;
        id.append(digit_str(d));
        assert(id@ =~= seq!['s', 's', 't', '-'] + digits.take(i + 1)) by {
            assert(digits[i as int] == digit_char(d as nat));
            assert(digits.take(i + 1) =~= digits.take(i as int).push(digits[i as int]));
        }
        proof {
            if i + 1 < GENERATION_DIGITS {
                assert(pow10((19 - i) as nat) == 10 * pow10((18 - i) as nat));
            }
        }
        divisor = divisor / 10;
        i = i + 1;
    }
    assert(digits.take(GENERATION_DIGITS as int) =~= digits);
    id.append(".sst");
    assert(id@ =~= spec_object_key(generation));
    id
}

proof fn lemma_pow10_positive(n: nat)
    ensures
        pow10(n) > 0,
    decreases n,
{
    if n > 0 {
        lemma_pow10_positive((n - 1) as nat);
    }
}

/// The digit behind a digit character.
proof fn lemma_digit_char_injective(a: nat, b: nat)
    requires
        a < 10,
        b < 10,
        digit_char(a) == digit_char(b),
    ensures
        a == b,
{
}

/// One digit more: ten times what stood before, and the digit.
proof fn lemma_head_step(generation: u64, k: nat)
    requires
        0 < k <= GENERATION_DIGITS,
    ensures
        head(generation, k) == 10 * head(generation, (k - 1) as nat) + head(generation, k) % 10,
        0 <= head(generation, k) % 10 < 10,
{
    let unit = pow10((20 - k) as nat) as int;
    let x = generation as int;
    lemma_pow10_positive((20 - k) as nat);
    assert(pow10((20 - (k - 1)) as nat) == 10 * pow10((20 - k) as nat));
    vstd::arithmetic::div_mod::lemma_div_denominator(x, unit, 10);
    assert(unit * 10 == 10 * unit) by (nonlinear_arith);
    assert(head(generation, (k - 1) as nat) == x / (unit * 10));
    assert((x / unit) / 10 == x / (unit * 10));
}

/// Generations with the same digits agree on what their first digits spell.
proof fn lemma_same_digits_same_head(a: u64, b: u64, k: nat)
    requires
        generation_digits(a) == generation_digits(b),
        k <= GENERATION_DIGITS,
    ensures
        head(a, k) == head(b, k),
    decreases k,
{
    if k == 0 {
        reveal_with_fuel(pow10, 21);
        let top = pow10(20) as int;
        assert(top == 100_000_000_000_000_000_000);
        lemma_small_quotient(a as int, top);
        lemma_small_quotient(b as int, top);
    } else {
        lemma_same_digits_same_head(a, b, (k - 1) as nat);
        lemma_head_step(a, k);
        lemma_head_step(b, k);
        let da = (head(a, k) % 10) as nat;
        let db = (head(b, k) % 10) as nat;
        assert(generation_digits(a)[k - 1] == digit_char(da));
        assert(generation_digits(b)[k - 1] == digit_char(db));
        lemma_digit_char_injective(da, db);
    }
}

/// Different generations are held by different objects.
pub proof fn lemma_object_key_injective(a: u64, b: u64)
    requires
        spec_object_key(a) == spec_object_key(b),
    ensures
        a == b,
{
    assert(generation_digits(a) =~= spec_object_key(a).subrange(4, 24));
    assert(generation_digits(b) =~= spec_object_key(b).subrange(4, 24));
    lemma_same_digits_same_head(a, b, 20);
    let one = pow10(0) as int;
    assert(one == 1);
    lemma_quotient_by_one(a as int, one);
    lemma_quotient_by_one(b as int, one);
}

proof fn lemma_small_quotient(x: int, d: int)
    by (nonlinear_arith)
    requires
        0 <= x < d,
    ensures
        x / d == 0,
{
}

proof fn lemma_quotient_by_one(x: int, d: int)
    by (nonlinear_arith)
    requires
        d == 1,
    ensures
        x / d == x,
{
}

} // verus!
