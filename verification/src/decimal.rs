use vstd::prelude::*;

verus! {

/// The ASCII character of the decimal digit `d`.
pub open spec fn digit_char(d: nat) -> char {
    (d + 48) as char
}

/// Whether `c` is one of the ASCII digits `0` to `9`.
pub open spec fn is_ascii_digit(c: char) -> bool {
    '0' <= c && c <= '9'
}

/// The value of an ASCII digit.
pub open spec fn digit_value(c: char) -> nat {
    (c as nat - 48) as nat
}

/// The decimal representation of `n`, without leading zeros (`0` is `"0"`).
pub open spec fn decimal_digits(n: nat) -> Seq<char>
    decreases n,
{
    if n < 10 {
        seq![digit_char(n)]
    } else {
        decimal_digits(n / 10).push(digit_char(n % 10))
    }
}

/// The number that a sequence of ASCII digits denotes (leading zeros allowed).
pub open spec fn digits_value(s: Seq<char>) -> nat
    decreases s.len(),
{
    if s.len() == 0 {
        0
    } else {
        digits_value(s.drop_last()) * 10 + digit_value(s.last())
    }
}

/// Every character of `s` is an ASCII digit.
pub open spec fn all_ascii_digits(s: Seq<char>) -> bool {
    forall|i: int| 0 <= i < s.len() ==> is_ascii_digit(#[trigger] s[i])
}

/// The digit character of `d` is an ASCII digit whose value is `d`.
pub proof fn lemma_digit_char(d: nat)
    requires
        d < 10,
    ensures
        is_ascii_digit(digit_char(d)),
        digit_value(digit_char(d)) == d,
{
    assert(((d + 48) as char) as nat == d + 48);
}

/// Reading back the decimal representation of `n` gives `n`; it is made of digits only.
pub proof fn lemma_decimal_roundtrip(n: nat)
    ensures
        digits_value(decimal_digits(n)) == n,
        all_ascii_digits(decimal_digits(n)),
        decimal_digits(n).len() >= 1,
    decreases n,
{
    lemma_digit_char(n % 10);
    if n >= 10 {
        lemma_decimal_roundtrip(n / 10);
        let d = decimal_digits(n);
        assert(d.drop_last() == decimal_digits(n / 10));
        assert(d.last() == digit_char(n % 10));
        assert(digits_value(d) == (n / 10) * 10 + n % 10);
        assert((n / 10) * 10 + n % 10 == n) by (nonlinear_arith);
        assert forall|i: int| 0 <= i < d.len() implies is_ascii_digit(#[trigger] d[i]) by {
            if i < d.len() - 1 {
                assert(d[i] == decimal_digits(n / 10)[i]);
            }
        }
    } else {
        assert(decimal_digits(n).drop_last() =~= Seq::<char>::empty());
        assert(n % 10 == n);
        assert(digits_value(Seq::<char>::empty()) == 0);
        assert(decimal_digits(n).last() == digit_char(n));
        assert(digits_value(decimal_digits(n)) == n);
    }
}

/// Distinct numbers have distinct decimal representations.
pub proof fn lemma_decimal_injective(a: nat, b: nat)
    requires
        decimal_digits(a) == decimal_digits(b),
    ensures
        a == b,
{
    lemma_decimal_roundtrip(a);
    lemma_decimal_roundtrip(b);
}

/// The one-character string of the decimal digit `d`.
fn digit_str(d: u64) -> (s: &'static str)
    requires
        d < 10,
    ensures
        s@ == seq![digit_char(d as nat)],
{
    proof {
        reveal_strlit("0");
        reveal_strlit("1");
        reveal_strlit("2");
        reveal_strlit("3");
        reveal_strlit("4");
        reveal_strlit("5");
        reveal_strlit("6");
        reveal_strlit("7");
        reveal_strlit("8");
        reveal_strlit("9");
    }
    if d == 0 {
        "0"
    } else if d == 1 {
        "1"
    } else if d == 2 {
        "2"
    } else if d == 3 {
        "3"
    } else if d == 4 {
        "4"
    } else if d == 5 {
        "5"
    } else if d == 6 {
        "6"
    } else if d == 7 {
        "7"
    } else if d == 8 {
        "8"
    } else {
        "9"
    }
}

/// The decimal representation of `n` as a `String`.
pub fn decimal_string(n: u64) -> (s: String)
    ensures
        s@ == decimal_digits(n as nat),
{
    // digits from the least significant one
    let mut rev: Vec<u64> = Vec::new();
    let mut m: u64 = n;
    while m >= 10
        invariant
            m <= n,
            decimal_digits(n as nat) == decimal_digits(m as nat) + Seq::new(rev@.len(), |i: int| digit_char(rev@[rev@.len() - 1 - i] as nat)),
            forall|i: int| 0 <= i < rev@.len() ==> rev@[i] < 10,
        decreases m,
    {
        let ghost old_rev = rev@;
        let d = m % 10;
        rev.push(d);
        let ghost old_m = m;
        m = m / 10;
        proof {
            assert(decimal_digits(old_m as nat) == decimal_digits(m as nat).push(digit_char(d as nat)));
            assert(decimal_digits(m as nat).push(digit_char(d as nat)) + Seq::new(old_rev.len(), |i: int| digit_char(old_rev[old_rev.len() - 1 - i] as nat))
                =~= decimal_digits(m as nat) + Seq::new(rev@.len(), |i: int| digit_char(rev@[rev@.len() - 1 - i] as nat)));
        }
    }
    let mut s = String::new();
    s.append(digit_str(m));
    assert(s@ == decimal_digits(m as nat));
    let mut k: usize = rev.len();
    while k > 0
        invariant
            k <= rev@.len(),
            forall|i: int| 0 <= i < rev@.len() ==> rev@[i] < 10,
            s@ + Seq::new(k as nat, |i: int| digit_char(rev@[k - 1 - i] as nat))
                == decimal_digits(n as nat),
        decreases k,
    {
        let ghost old_s = s@;
        k = k - 1;
        s.append(digit_str(rev[k]));
        proof {
            assert(old_s + Seq::new((k + 1) as nat, |i: int| digit_char(rev@[k - i] as nat))
                =~= s@ + Seq::new(k as nat, |i: int| digit_char(rev@[k - 1 - i] as nat)));
        }
    }
    assert(s@ + Seq::new(0, |i: int| digit_char(rev@[-1 - i] as nat)) =~= s@);
    s
}

} // verus!
