use vstd::prelude::*;

verus! {

/// Decimal text: writing a number out in digits, and reading digit text
/// back, with the exact acceptance rules of `usize` parsing (an optional
/// leading `+`, then one or more digits, no overflow). The wire codec leans
/// on both directions.
pub open spec fn is_digit(c: char) -> bool {
    48 <= c as int <= 57
}

pub open spec fn digit_val(c: char) -> nat {
    (c as int - 48) as nat
}

pub open spec fn digit_char(d: nat) -> char {
    if d == 0 {
        '0'
    } else if d == 1 {
        '1'
    } else if d == 2 {
        '2'
    } else if d == 3 {
        '3'
    } else if d == 4 {
        '4'
    } else if d == 5 {
        '5'
    } else if d == 6 {
        '6'
    } else if d == 7 {
        '7'
    } else if d == 8 {
        '8'
    } else {
        '9'
    }
}

/// The decimal digits of `n`, most significant first.
pub open spec fn dec_digits(n: nat) -> Seq<char>
    decreases n,
{
    if n < 10 {
        seq![digit_char(n)]
    } else {
        dec_digits(n / 10).push(digit_char(n % 10))
    }
}

pub open spec fn all_digits(s: Seq<char>) -> bool {
    forall|i: int| 0 <= i < s.len() ==> is_digit(#[trigger] s[i])
}

/// The number named by a digit string, most significant first.
pub open spec fn digits_val(s: Seq<char>) -> nat
    decreases s.len(),
{
    if s.len() == 0 {
        0
    } else {
        digits_val(s.drop_last()) * 10 + digit_val(s.last())
    }
}

/// The digits of the text, once an optional leading `+` sign is dropped.
pub open spec fn digits_part(s: Seq<char>) -> Seq<char> {
    if s.len() > 0 && s[0] == '+' {
        s.subrange(1, s.len() as int)
    } else {
        s
    }
}

/// Whether `usize` parsing accepts the text.
pub open spec fn parse_ok(s: Seq<char>) -> bool {
    &&& digits_part(s).len() > 0
    &&& all_digits(digits_part(s))
    &&& digits_val(digits_part(s)) <= usize::MAX
}

/// The number the text names, with parse failures defaulting to zero.
pub open spec fn parse_or_zero(s: Seq<char>) -> nat {
    if parse_ok(s) {
        digits_val(digits_part(s))
    } else {
        0
    }
}

pub proof fn lemma_dec_digits_shape(n: nat)
    ensures
        dec_digits(n).len() >= 1,
        all_digits(dec_digits(n)),
        digits_val(dec_digits(n)) == n,
    decreases n,
{
    if n < 10 {
        assert(dec_digits(n) =~= seq![digit_char(n)]);
        assert(seq![digit_char(n)].drop_last() =~= Seq::<char>::empty());
        assert(digits_val(Seq::<char>::empty()) == 0);
        assert(digits_val(dec_digits(n)) == digit_val(digit_char(n)));
    } else {
        lemma_dec_digits_shape(n / 10);
        let d = dec_digits(n / 10);
        let w = d.push(digit_char(n % 10));
        assert(w.drop_last() =~= d);
        assert(digits_val(w) == (n / 10) * 10 + n % 10);
        vstd::arithmetic::div_mod::lemma_fundamental_div_mod(n as int, 10);
    }
}

/// A written-out number parses back to itself: the digits carry no sign, so
/// the sign rule never fires, and a value that fits never overflows.
pub proof fn lemma_dec_digits_parse(n: nat)
    requires
        n <= usize::MAX,
    ensures
        parse_ok(dec_digits(n)),
        parse_or_zero(dec_digits(n)) == n,
{
    lemma_dec_digits_shape(n);
    assert(is_digit(dec_digits(n)[0]));
    assert(digits_part(dec_digits(n)) =~= dec_digits(n));
}

proof fn lemma_digits_val_step(s: Seq<char>, k: int)
    requires
        0 <= k < s.len(),
    ensures
        digits_val(s.subrange(0, k + 1)) == digits_val(s.subrange(0, k)) * 10 + digit_val(s[k]),
{
    assert(s.subrange(0, k + 1).drop_last() =~= s.subrange(0, k));
}

/// Appending digits never shrinks the value: the number named by a prefix is
/// a lower bound for the whole.
proof fn lemma_digits_prefix_le(s: Seq<char>, k: int)
    requires
        0 <= k <= s.len(),
    ensures
        digits_val(s.subrange(0, k)) <= digits_val(s),
    decreases s.len() - k,
{
    if k == s.len() {
        assert(s.subrange(0, k) =~= s);
    } else {
        lemma_digits_val_step(s, k);
        lemma_digits_prefix_le(s, k + 1);
        assert(digits_val(s.subrange(0, k)) <= digits_val(s.subrange(0, k)) * 10 + digit_val(
            s[k],
        )) by (nonlinear_arith);
    }
}

fn digit_str(d: usize) -> (r: &'static str)
    requires
        d < 10,
    ensures
        r@ =~= seq![digit_char(d as nat)],
{
    proof {
        reveal_strlit("0");
        reveal_strlit("1");
        reveal_strlit("2");
        reveal_strlit("3");
        reveal_strlit("4");
        reveal_strlit("5");
        reveal_strlit("6");
        reveal_strlit("7");
        reveal_strlit("8");
        reveal_strlit("9");
    }
    if d == 0 {
        "0"
    } else if d == 1 {
        "1"
    } else if d == 2 {
        "2"
    } else if d == 3 {
        "3"
    } else if d == 4 {
        "4"
    } else if d == 5 {
        "5"
    } else if d == 6 {
        "6"
    } else if d == 7 {
        "7"
    } else if d == 8 {
        "8"
    } else {
        "9"
    }
}

/// Writes `n` out in decimal.
pub fn usize_to_string(n: usize) -> (r: String)
    ensures
        r@ == dec_digits(n as nat),
    decreases n,
{
    if n < 10 {
        String::from_str(digit_str(n))
    } else {
        let mut s = usize_to_string(n / 10);
        s.append(digit_str(n % 10));
        proof {
            assert(s@ =~= dec_digits((n / 10) as nat).push(digit_char((n % 10) as nat)));
        }
        s
    }
}

/// Reads a number as `usize` parsing would, any failure counting as zero.
pub fn parse_usize_or_zero(s: &str) -> (r: usize)
    ensures
        r as nat == parse_or_zero(s@),
{
    let len = s.unicode_len();
    let mut start: usize = 0;
    if len > 0 && s.get_char(0) == '+' {
        start = 1;
    }
    let ghost d = digits_part(s@);
    proof {
        assert(d =~= s@.subrange(start as int, len as int));
    }
    if start >= len {
        return 0;
    }
    let mut acc: usize = 0;
    let mut k: usize = start;
    while k < len
        invariant
            start <= k <= len,
            len == s@.len(),
            start == 1 ==> len > 0 && s@[0] == '+',
            start == 0 ==> !(s@.len() > 0 && s@[0] == '+'),
            d == digits_part(s@),
            d =~= s@.subrange(start as int, len as int),
            all_digits(d.subrange(0, k - start)),
            acc as nat == digits_val(d.subrange(0, k - start)),
        decreases len - k,
    {
        let c = s.get_char(k);
        let v = c as u32;
        if v < 48 || v > 57 {
            proof {
                assert(d[k - start] == s@[k as int]);
                assert(!is_digit(d[k - start]));
            }
            return 0;
        }
        let dig = (v - 48) as usize;
        let next = match acc.checked_mul(10) {
            Some(a) => a.checked_add(dig),
            None => None,
        };
        match next {
            Some(a) => {
                acc = a;
                proof {
                    assert(d.subrange(0, k + 1 - start).drop_last() =~= d.subrange(
                        0,
                        k - start,
                    ));
                    assert(d[k - start] == s@[k as int]);
                }
                k += 1;
            },
            None => {
                proof {
                    assert(d[k - start] == s@[k as int]);
                    if parse_ok(s@) {
                        lemma_digits_val_step(d, k - start);
                        lemma_digits_prefix_le(d, k + 1 - start);
                    }
                }
                return 0;
            },
        }
    }
    proof {
        assert(d.subrange(0, (len - start) as int) =~= d);
    }
    acc
}

} // verus!
