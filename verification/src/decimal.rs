//! Decimal text for record ids: rendering an `i32` as the usual base-ten
//! string, and deciding whether a field parses back to a given id.

use vstd::prelude::*;
use vstd::string::*;

verus! {

/// The character for a single decimal digit value.
pub open spec fn digit_char(d: int) -> char {
    if d == 0 {
        '0'
    } else if d == 1 {
        '1'
    } else if d == 2 {
        '2'
    } else if d == 3 {
        '3'
    } else if d == 4 {
        '4'
    } else if d == 5 {
        '5'
    } else if d == 6 {
        '6'
    } else if d == 7 {
        '7'
    } else if d == 8 {
        '8'
    } else {
        '9'
    }
}

/// The base-ten representation of a natural number, most significant digit
/// first, with no leading zeros (a single `'0'` for zero).
pub open spec fn dec_rep(n: nat) -> Seq<char>
    decreases n,
{
    if n < 10 {
        seq![digit_char(n as int)]
    } else {
        dec_rep(n / 10) + seq![digit_char((n % 10) as int)]
    }
}

/// The base-ten representation of an integer: a minus sign before the
/// magnitude for negative values.
pub open spec fn int_rep(i: int) -> Seq<char> {
    if i < 0 {
        seq!['-'] + dec_rep((-i) as nat)
    } else {
        dec_rep(i as nat)
    }
}

/// Whether `c` is a decimal digit.
pub open spec fn is_digit(c: char) -> bool {
    '0' <= c && c <= '9'
}

/// The value of a decimal digit character.
pub open spec fn digit_value(c: char) -> int {
    c as int - '0' as int
}

/// Whether every character of `s` is a decimal digit.
pub open spec fn all_digits(s: Seq<char>) -> bool {
    forall|i: int| 0 <= i < s.len() ==> is_digit(#[trigger] s[i])
}

/// The value of a sequence of decimal digits, most significant first.
pub open spec fn digits_value(s: Seq<char>) -> int
    decreases s.len(),
{
    if s.len() == 0 {
        0
    } else {
        digits_value(s.drop_last()) * 10 + digit_value(s.last())
    }
}

/// The integer a piece of text denotes: an optional minus sign followed by
/// one or more decimal digits.  Anything else denotes no integer.
pub open spec fn parse_int(s: Seq<char>) -> Option<int> {
    if s.len() >= 1 && s[0] == '-' {
        if s.len() >= 2 && all_digits(s.skip(1)) {
            Some(-digits_value(s.skip(1)))
        } else {
            None
        }
    } else {
        if s.len() >= 1 && all_digits(s) {
            Some(digits_value(s))
        } else {
            None
        }
    }
}

/// Every character of a rendered magnitude is a decimal digit.
pub proof fn lemma_dec_rep_digits(n: nat)
    ensures
        all_digits(dec_rep(n)),
    decreases n,
{
    if n < 10 {
    } else {
        lemma_dec_rep_digits(n / 10);
        let r = dec_rep(n);
        let a = dec_rep(n / 10);
        assert(forall|i: int| 0 <= i < a.len() ==> r[i] == a[i]);
        assert(is_digit(r[r.len() - 1]));
    }
}

/// A rendered magnitude denotes the number it was rendered from.
pub proof fn lemma_dec_rep_value(n: nat)
    ensures
        digits_value(dec_rep(n)) == n,
    decreases n,
{
    if n < 10 {
        let s = dec_rep(n);
        assert(s.drop_last() =~= Seq::<char>::empty());
        assert(digits_value(s.drop_last()) == 0);
        assert(s.last() == digit_char(n as int));
        assert(digit_value(digit_char(n as int)) == n);
    } else {
        lemma_dec_rep_value(n / 10);
        let r = dec_rep(n);
        assert(r.drop_last() =~= dec_rep(n / 10));
        assert(r.last() == digit_char((n % 10) as int));
        assert(digits_value(r) == (n / 10) * 10 + (n % 10));
        assert(n == (n / 10) * 10 + (n % 10)) by {
            vstd::arithmetic::div_mod::lemma_fundamental_div_mod(n as int, 10);
        }
    }
}

/// A rendered id parses back to itself: rendering and parsing round-trip.
pub proof fn lemma_parse_int_rep(i: int)
    ensures
        parse_int(int_rep(i)) == Some(i),
{
    if i < 0 {
        let m = (-i) as nat;
        lemma_dec_rep_digits(m);
        lemma_dec_rep_value(m);
        let s = int_rep(i);
        assert(s.skip(1) =~= dec_rep(m));
        assert(all_digits(s.skip(1)));
        assert(parse_int(s) == Some(-digits_value(dec_rep(m))));
    } else {
        let n = i as nat;
        lemma_dec_rep_digits(n);
        lemma_dec_rep_value(n);
        let s = int_rep(i);
        assert(is_digit(s[0]));
        assert(s[0] != '-');
        assert(parse_int(s) == Some(digits_value(dec_rep(n))));
    }
}

/// A digit sequence has a non-negative value.
proof fn lemma_digits_value_nonneg(s: Seq<char>)
    requires
        all_digits(s),
    ensures
        digits_value(s) >= 0,
    decreases s.len(),
{
    if s.len() > 0 {
        assert(all_digits(s.drop_last()));
        lemma_digits_value_nonneg(s.drop_last());
        assert(is_digit(s.last()));
    }
}

/// The string for one digit.
fn digit_string(d: u32) -> (r: String)
    requires
        d < 10,
    ensures
        r@ == seq![digit_char(d as int)],
{
    let r: String = if d == 0 {
        "0".to_owned()
    } else if d == 1 {
        "1".to_owned()
    } else if d == 2 {
        "2".to_owned()
    } else if d == 3 {
        "3".to_owned()
    } else if d == 4 {
        "4".to_owned()
    } else if d == 5 {
        "5".to_owned()
    } else if d == 6 {
        "6".to_owned()
    } else if d == 7 {
        "7".to_owned()
    } else if d == 8 {
        "8".to_owned()
    } else {
        "9".to_owned()
    };
    proof {
        reveal_strlit("0");
        reveal_strlit("1");
        reveal_strlit("2");
        reveal_strlit("3");
        reveal_strlit("4");
        reveal_strlit("5");
        reveal_strlit("6");
        reveal_strlit("7");
        reveal_strlit("8");
        reveal_strlit("9");
        assert(r@ =~= seq![digit_char(d as int)]);
    }
    r
}

/// The base-ten string of a `u32`.
fn dec_string(n: u32) -> (r: String)
    ensures
        r@ == dec_rep(n as nat),
    decreases n,
{
    if n < 10 {
        digit_string(n)
    } else {
        let mut r = dec_string(n / 10);
        let d = digit_string(n % 10);
        r.append(d.as_str());
        r
    }
}

/// The base-ten string of an `i32`, as `format!("{}", n)` would print it.
pub fn int_string(n: i32) -> (r: String)
    ensures
        r@ == int_rep(n as int),
{
    if n >= 0 {
        dec_string(n as u32)
    } else {
        let mag: u32 = (-(n as i64)) as u32;
        let mut r: String = "-".to_owned();
        r.append(dec_string(mag).as_str());
        proof {
            reveal_strlit("-");
            assert(r@ =~= int_rep(n as int));
        }
        r
    }
}

/// Whether a field of text denotes exactly the id `id`.  Leading zeros are
/// accepted (`"083"` denotes 83); a sign other than a single leading minus,
/// an empty field, or any non-digit character denote no integer at all.
pub fn matches_id(field: &str, id: i32) -> (b: bool)
    ensures
        b == (parse_int(field@) == Some(id as int)),
{
    let n: usize = field.unicode_len();
    let neg: bool = n > 0 && field.get_char(0) == '-';
    let start: usize = if neg {
        1
    } else {
        0
    };
    if start >= n {
        // no digits at all
        return false;
    }
    let mut acc: u64 = 0;
    let mut too_big: bool = false;
    let mut i: usize = start;
    while i < n
        invariant
            start <= i <= n,
            n == field@.len(),
            start < n,
            start == 0 || start == 1,
            neg <==> start == 1,
            start == 1 ==> field@[0] == '-',
            start == 0 ==> field@[0] != '-',
            forall|j: int| start <= j < i ==> is_digit(#[trigger] field@[j]),
            !too_big ==> acc <= 0x8000_0000 && acc == digits_value(
                field@.subrange(start as int, i as int),
            ),
            too_big ==> digits_value(field@.subrange(start as int, i as int)) > 0x8000_0000,
        decreases n - i,
    {
        let c = field.get_char(i);
        if !(c >= '0' && c <= '9') {
            proof {
                assert(!is_digit(field@[i as int]));
                if neg {
                    assert(field@.skip(1) =~= field@.subrange(1, n as int));
                    assert(field@.skip(1)[i - 1] == field@[i as int]);
                    assert(!all_digits(field@.skip(1)));
                } else {
                    assert(!all_digits(field@));
                }
            }
            return false;
        }
        let d: u64 = (c as u32 as u64) - ('0' as u32 as u64);
        proof {
            let pre = field@.subrange(start as int, i as int);
            let post = field@.subrange(start as int, i + 1);
            assert(post.drop_last() =~= pre);
            assert(post.last() == field@[i as int]);
            if too_big {
                lemma_digits_value_nonneg(pre);
            }
        }
        if too_big {
            // the value already exceeds any i32; keep checking digits only
        } else {
            acc = acc * 10 + d;
            if acc > 0x8000_0000 {
                too_big = true;
            }
        }
        i = i + 1;
    }
    proof {
        if neg {
            assert(field@.skip(1) =~= field@.subrange(1, n as int));
            assert(all_digits(field@.skip(1)));
        } else {
            assert(field@.subrange(0, n as int) =~= field@);
            assert(all_digits(field@));
        }
    }
    if too_big {
        // magnitude above 2^31: no i32 equals it, with or without the sign
        return false;
    }
    let sval: i64 = if neg {
        -(acc as i64)
    } else {
        acc as i64
    };
    sval == (id as i64)
}

} // verus!
