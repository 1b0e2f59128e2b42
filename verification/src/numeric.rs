//! Decimal text for integer values, and integer values of decimal text.
//! Both directions carry exact character-level specifications; they back
//! the declared `Number` to `String` and `String` to `Number` conversions.

use vstd::prelude::*;

use crate::value::{JsonNumber, NumberV};

verus! {

/// The character of one decimal digit.
pub open spec fn digit_char(d: int) -> char {
    if d == 0 {
        '0'
    } else if d == 1 {
        '1'
    } else if d == 2 {
        '2'
    } else if d == 3 {
        '3'
    } else if d == 4 {
        '4'
    } else if d == 5 {
        '5'
    } else if d == 6 {
        '6'
    } else if d == 7 {
        '7'
    } else if d == 8 {
        '8'
    } else {
        '9'
    }
}

pub open spec fn is_dec_digit(c: char) -> bool {
    '0' as int <= c as int <= '9' as int
}

/// The numeric value of one decimal digit character.
pub open spec fn char_digit(c: char) -> int {
    c as int - '0' as int
}

/// The decimal digit sequence of an unsigned value, most significant first.
pub open spec fn dec_digits(n: nat) -> Seq<char>
    decreases n,
{
    if n < 10 {
        seq![digit_char(n as int)]
    } else {
        dec_digits(n / 10) + seq![digit_char((n % 10) as int)]
    }
}

/// The canonical decimal text of a signed value.
pub open spec fn dec_text_signed(n: int) -> Seq<char> {
    if n >= 0 {
        dec_digits(n as nat)
    } else {
        seq!['-'] + dec_digits((-n) as nat)
    }
}

/// The canonical decimal text of a numeric value: what the `Number` to
/// `String` conversion produces.
pub open spec fn num_text(n: NumberV) -> Seq<char> {
    match n {
        NumberV::Unsigned(u) => dec_digits(u as nat),
        NumberV::Signed(i) => dec_text_signed(i as int),
        NumberV::Decimal(s) => s,
    }
}

pub open spec fn all_dec_digits(s: Seq<char>) -> bool {
    forall|i: int| 0 <= i < s.len() ==> is_dec_digit(#[trigger] s[i])
}

/// Text that the strict unsigned-integer grammar accepts: one or more
/// digits, no leading zero unless the text is exactly "0".
pub open spec fn is_canonical_uint_text(s: Seq<char>) -> bool {
    &&& s.len() > 0
    &&& all_dec_digits(s)
    &&& (s[0] != '0' || s.len() == 1)
}

/// Text that the strict negative-integer grammar accepts: a minus sign,
/// then a nonzero canonical number.
pub open spec fn is_canonical_neg_text(s: Seq<char>) -> bool {
    &&& s.len() > 1
    &&& s[0] == '-'
    &&& is_canonical_uint_text(s.drop_first())
    &&& s[1] != '0'
}

/// The unsigned value of a digit sequence.
pub open spec fn digits_val(s: Seq<char>) -> nat
    decreases s,
{
    if s.len() == 0 {
        0
    } else {
        (digits_val(s.drop_last()) * 10 + char_digit(s.last())) as nat
    }
}

/// A digit string's value does not shrink when more digits follow.
proof fn lemma_digits_val_prefix_le(s: Seq<char>, i: int)
    requires
        0 <= i <= s.len(),
        all_dec_digits(s),
    ensures
        digits_val(s.take(i)) <= digits_val(s),
    decreases s.len() - i,
{
    if i < s.len() {
        lemma_digits_val_prefix_le(s, i + 1);
        assert(s.take(i + 1).drop_last() =~= s.take(i));
        assert(is_dec_digit(s[i]));
        assert(digits_val(s.take(i + 1)) == digits_val(s.take(i)) * 10 + char_digit(
            s.take(i + 1).last(),
        ));
        assert(digits_val(s.take(i)) <= digits_val(s.take(i)) * 10) by (nonlinear_arith);
    } else {
        assert(s.take(i) =~= s);
    }
}

/// Nonzero-leading digit text has a nonzero value.
proof fn lemma_digits_val_pos(s: Seq<char>)
    requires
        s.len() > 0,
        all_dec_digits(s),
        s[0] != '0',
    ensures
        digits_val(s) >= 1,
{
    assert(s.take(1).drop_last() =~= Seq::<char>::empty());
    assert(digits_val(Seq::<char>::empty()) == 0);
    assert(is_dec_digit(s[0]));
    assert(digits_val(s.take(1)) == char_digit(s[0]));
    lemma_digits_val_prefix_le(s, 1);
}

/// Decimal text is never empty.
proof fn lemma_dec_digits_len(n: nat)
    ensures
        dec_digits(n).len() >= 1,
    decreases n,
{
    if n >= 10 {
        lemma_dec_digits_len(n / 10);
    }
}

/// Formatting and evaluation are inverse: the digit text of `n` is
/// canonical and evaluates back to `n`.
pub proof fn lemma_dec_digits_val(n: nat)
    ensures
        is_canonical_uint_text(dec_digits(n)),
        digits_val(dec_digits(n)) == n,
    decreases n,
{
    if n < 10 {
        let s = dec_digits(n);
        assert(s.len() == 1);
        assert(s.drop_last() =~= Seq::<char>::empty());
        assert(digits_val(Seq::<char>::empty()) == 0);
        assert(s.last() == digit_char(n as int));
        assert(char_digit(digit_char(n as int)) == n);
        assert(digits_val(s) == char_digit(s.last()));
    } else {
        lemma_dec_digits_val(n / 10);
        let s = dec_digits(n);
        let hd = dec_digits(n / 10);
        assert(s =~= hd + seq![digit_char((n % 10) as int)]);
        assert(s.drop_last() =~= hd);
        assert(digits_val(s) == (n / 10) * 10 + n % 10);
        assert((n / 10) * 10 + n % 10 == n) by (nonlinear_arith);
        assert forall|i: int| 0 <= i < s.len() implies is_dec_digit(#[trigger] s[i]) by {
            if i < hd.len() {
                assert(s[i] == hd[i]);
            }
        }
        assert(hd.len() > 0 && s[0] == hd[0]);
        assert(hd[0] != '0' || hd.len() == 1);
        assert(n / 10 >= 1);
        if hd.len() == 1 {
            if n / 10 >= 10 {
                lemma_dec_digits_len((n / 10) / 10);
                assert(hd.len() >= 2);
            }
            assert(n / 10 < 10);
            assert(hd =~= seq![digit_char((n / 10) as int)]);
            assert(hd[0] != '0');
        }
    }
}

/// Parse strict unsigned decimal text. Returns the value exactly when the
/// text is canonical and the value fits a 64-bit word.
pub fn parse_u64_text(s: &str) -> (r: Option<u64>)
    ensures
        match r {
            Some(u) => is_canonical_uint_text(s@) && digits_val(s@) == u,
            None => !(is_canonical_uint_text(s@) && digits_val(s@) <= u64::MAX),
        },
{
    let n = s.unicode_len();
    if n == 0 {
        return None;
    }
    if n > 1 && s.get_char(0) == '0' {
        return None;
    }
    let mut acc: u64 = 0;
    let mut i: usize = 0;
    while i < n
        invariant
            n == s@.len(),
            0 < n,
            i <= n,
            n > 1 ==> s@[0] != '0',
            forall|j: int| 0 <= j < i ==> is_dec_digit(#[trigger] s@[j]),
            acc == digits_val(s@.take(i as int)),
        decreases n - i,
    {
        let c = s.get_char(i);
        let cu = c as u32;
        if cu < 48 || cu > 57 {
            proof {
                assert(!is_dec_digit(s@[i as int]));
            }
            return None;
        }
        let d = (cu - 48) as u64;
        proof {
            assert(s@.take(i + 1).drop_last() =~= s@.take(i as int));
            assert(digits_val(s@.take(i + 1)) == acc * 10 + d);
        }
        if acc > (u64::MAX - d) / 10 {
            proof {
                assert(acc * 10 + d > u64::MAX) by (nonlinear_arith)
                    requires
                        acc > (u64::MAX - d) / 10 && d <= 9,
                ;
                if all_dec_digits(s@) {
                    lemma_digits_val_prefix_le(s@, i + 1);
                }
            }
            return None;
        }
        proof {
            assert(acc * 10 + d <= u64::MAX) by (nonlinear_arith)
                requires
                    acc <= (u64::MAX - d) / 10 && d <= 9,
            ;
        }
        acc = acc * 10 + d;
        i = i + 1;
    }
    proof {
        assert(s@.take(n as int) =~= s@);
    }
    Some(acc)
}

/// The signed value of canonical integer text.
pub open spec fn int_text_val(s: Seq<char>) -> int {
    if s.len() > 0 && s[0] == '-' {
        -(digits_val(s.drop_first()) as int)
    } else {
        digits_val(s) as int
    }
}

/// Parse strict signed decimal text into a signed 64-bit value. Succeeds
/// exactly on canonical negative text whose value fits.
pub fn parse_i64_neg_text(s: &str) -> (r: Option<i64>)
    ensures
        match r {
            Some(v) => is_canonical_neg_text(s@) && int_text_val(s@) == v && v < 0,
            None => !(is_canonical_neg_text(s@) && -int_text_val(s@) <= 9223372036854775808),
        },
{
    let n = s.unicode_len();
    if n < 2 {
        return None;
    }
    if s.get_char(0) != '-' {
        return None;
    }
    if s.get_char(1) == '0' {
        return None;
    }
    let tail = s.substring_char(1, n);
    proof {
        assert(tail@ =~= s@.drop_first());
    }
    match parse_u64_text(tail) {
        Some(mag) => {
            proof {
                assert(int_text_val(s@) == -(mag as int));
                lemma_digits_val_pos(tail@);
            }
            if mag > 9223372036854775808u64 {
                return None;
            }
            if mag == 9223372036854775808u64 {
                proof {
                    assert(i64::MIN as int == -(mag as int));
                }
                Some(i64::MIN)
            } else {
                Some(-(mag as i64))
            }
        },
        None => None,
    }
}

/// The canonical decimal text of one digit.
fn digit_str(d: u64) -> (r: &'static str)
    requires
        d < 10,
    ensures
        r@ =~= seq![digit_char(d as int)],
{
    proof {
        reveal_strlit("0");
        reveal_strlit("1");
        reveal_strlit("2");
        reveal_strlit("3");
        reveal_strlit("4");
        reveal_strlit("5");
        reveal_strlit("6");
        reveal_strlit("7");
        reveal_strlit("8");
        reveal_strlit("9");
    }
    match d {
        0 => "0",
        1 => "1",
        2 => "2",
        3 => "3",
        4 => "4",
        5 => "5",
        6 => "6",
        7 => "7",
        8 => "8",
        _ => "9",
    }
}

/// The decimal text of an unsigned 64-bit value.
pub fn u64_to_string(n: u64) -> (r: String)
    ensures
        r@ == dec_digits(n as nat),
    decreases n,
{
    if n < 10 {
        digit_str(n).to_owned()
    } else {
        let mut s = u64_to_string(n / 10);
        s.append(digit_str(n % 10));
        proof {
            assert(s@ =~= dec_digits((n / 10) as nat) + seq![digit_char(((n as nat) % 10) as int)]);
        }
        s
    }
}

/// The decimal text of a signed 64-bit value.
pub fn i64_to_string(n: i64) -> (r: String)
    ensures
        r@ == dec_text_signed(n as int),
{
    if n >= 0 {
        u64_to_string(n as u64)
    } else {
        let mag: u64 = if n == i64::MIN {
            9223372036854775808u64
        } else {
            (-n) as u64
        };
        let mut s = "-".to_owned();
        let digits = u64_to_string(mag);
        s.append(digits.as_str());
        proof {
            reveal_strlit("-");
            assert(s@ =~= seq!['-'] + dec_digits((-(n as int)) as nat));
        }
        s
    }
}

/// The canonical decimal text of a numeric value.
pub fn number_to_string(n: &JsonNumber) -> (r: String)
    ensures
        r@ == num_text(n.dv()),
{
    match n {
        JsonNumber::Unsigned(u) => u64_to_string(*u),
        JsonNumber::Signed(i) => i64_to_string(*i),
        JsonNumber::Decimal(s) => s.clone(),
    }
}

} // verus!
