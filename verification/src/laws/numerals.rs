//! Digits, whole numbers and numbers with a point.

use vstd::prelude::*;
use crate::text::{
    all_digits, decimal, digits_end, digits_value, is_digit, is_exponent, is_number,
    lemma_decimal_digits, lemma_decimal_value, number_of, u32_of, u32_of_bytes, unsigned, upper,
    uppercase, usize_of, utf8,
};
use vstd::arithmetic::power::{lemma_pow0, lemma_pow1, lemma_pow_adds, pow};

verus! {

// ---- digits -------------------------------------------------------------------------------

/// The digits are the ten characters from `0` to `9`.
pub proof fn law_digit(c: char)
    ensures
        is_digit(c) <==> ("0123456789"@).contains(c),
{
    reveal_strlit("0123456789");
    let ten = "0123456789"@;
    if is_digit(c) {
        let k = c as int - 48;
        assert(ten[k] == c);
    }
    if ten.contains(c) {
        let k = choose|k: int| 0 <= k < ten.len() && ten[k] == c;
        assert(is_digit(ten[k]));
    }
}

/// One digit stands for its place among the ten digits.
pub proof fn law_digit_value(d: int)
    requires
        0 <= d < 10,
    ensures
        digits_value(seq![("0123456789"@)[d]]) == d,
        decimal(d as nat) == seq![("0123456789"@)[d]],
{
    reveal_strlit("0123456789");
    reveal_with_fuel(digits_value, 2);
    let one = seq![("0123456789"@)[d]];
    assert(one.drop_last() =~= Seq::<char>::empty());
}

/// Digits in front of others count as many times ten as there are others.
pub proof fn law_digits_value(a: Seq<char>, b: Seq<char>)
    requires
        all_digits(b) || b.len() == 0,
    ensures
        digits_value(a + b) == digits_value(a) * pow(10, b.len()) + digits_value(b),
    decreases b.len(),
{
    if b.len() == 0 {
        lemma_pow0(10);
        assert(a + b =~= a);
    } else {
        let front = b.drop_last();
        let d = (b.last() as nat - 48) as nat;
        assert(is_digit(b[b.len() - 1]));
        assert forall|i: int| 0 <= i < front.len() implies is_digit(#[trigger] front[i]) by {
            assert(is_digit(b[i]));
        }
        law_digits_value(a, front);
        assert((a + b).drop_last() =~= a + front);
        assert((a + b).last() == b.last());
        lemma_pow1(10);
        lemma_pow_adds(10, front.len(), 1);
        let p = pow(10, front.len());
        let x = digits_value(a) as int;
        let y = digits_value(front) as int;
        assert((x * p + y) * 10 + d == x * (p * 10) + (y * 10 + d)) by (nonlinear_arith);
    }
}

/// The decimal of a number has its value, and starts with no zero but in that of zero.
pub proof fn law_decimal(n: nat)
    ensures
        all_digits(decimal(n)),
        digits_value(decimal(n)) == n,
        decimal(n)[0] == '0' ==> n == 0 && decimal(n).len() == 1,
    decreases n,
{
    lemma_decimal_digits(n);
    lemma_decimal_value(n);
    if n >= 10 {
        law_decimal(n / 10);
        assert(decimal(n)[0] == decimal(n / 10)[0]);
    }
}

/// A number is what its digits stand for, with or without a plus in front; nothing else is one.
pub proof fn law_whole_number(text: Seq<char>)
    ensures
        all_digits(text) ==> number_of(text) == Some(digits_value(text)) && number_of("+"@ + text)
            == Some(digits_value(text)),
        number_of(text) is Some ==> all_digits(text) || (text.len() > 0 && text[0] == '+' && all_digits(
            text.skip(1),
        )),
        number_of(text) matches Some(n) ==> {
            &&& n <= u32::MAX ==> u32_of(text) == Some(n as u32)
            &&& n > u32::MAX ==> u32_of(text) is None
            &&& n <= usize::MAX ==> usize_of(text) == Some(n as usize)
            &&& n > usize::MAX ==> usize_of(text) is None
        },
        number_of(text) is None ==> u32_of(text) is None && usize_of(text) is None,
{
    reveal_strlit("+");
    let signed = "+"@ + text;
    assert(signed.skip(1) =~= text);
    if all_digits(text) {
        assert(is_digit(text[0]));
    }
}

/// The decimal of a number that can be held is read as that number.
pub proof fn law_number_read_back(n: u32)
    ensures
        u32_of(decimal(n as nat)) == Some(n),
        u32_of_bytes(utf8(decimal(n as nat))) == Some(n),
{
    crate::text::lemma_decimal_reads_back(n as nat);
    vstd::utf8::encode_utf8_valid_utf8(decimal(n as nat));
    vstd::utf8::encode_utf8_decode_utf8(decimal(n as nat));
}

// ---- numbers with a point -----------------------------------------------------------------

/// Nothing, a plus or a minus.
pub open spec fn is_sign(sign: Seq<char>) -> bool {
    sign == ""@ || sign == "+"@ || sign == "-"@
}

/// Digits, or nothing.
pub open spec fn are_digits(text: Seq<char>) -> bool {
    text.len() == 0 || all_digits(text)
}

/// Nothing, or `e` or `E`, a sign and digits.
pub open spec fn is_power(text: Seq<char>) -> bool {
    text.len() == 0 || exists|letter: Seq<char>, sign: Seq<char>, digits: Seq<char>|
        (letter == "e"@ || letter == "E"@) && is_sign(sign) && all_digits(digits) && text
            == #[trigger] power_text(letter, sign, digits)
}

/// A letter, a sign and digits.
pub open spec fn power_text(letter: Seq<char>, sign: Seq<char>, digits: Seq<char>) -> Seq<char> {
    letter + sign + digits
}

/// The characters of a sign.
proof fn lemma_sign(sign: Seq<char>, rest: Seq<char>)
    requires
        is_sign(sign),
        rest.len() > 0 ==> rest[0] != '+' && rest[0] != '-',
    ensures
        unsigned(sign + rest) == rest,
{
    reveal_strlit("");
    reveal_strlit("+");
    reveal_strlit("-");
    if sign == ""@ {
        assert(sign + rest =~= rest);
    } else {
        assert((sign + rest).skip(1) =~= rest);
    }
}

/// A power of ten is one.
proof fn lemma_power(e: Seq<char>)
    requires
        is_power(e),
    ensures
        is_exponent(e),
        e.len() > 0 ==> e[0] == 'e' || e[0] == 'E',
{
    if e.len() > 0 {
        let (letter, sign, digits) = choose|letter: Seq<char>, sign: Seq<char>, digits: Seq<char>|
            (letter == "e"@ || letter == "E"@) && is_sign(sign) && all_digits(digits) && e
                == #[trigger] power_text(letter, sign, digits);
        reveal_strlit("e");
        reveal_strlit("E");
        assert(e.skip(1) =~= sign + digits);
        assert(is_digit(digits[0]));
        lemma_sign(sign, digits);
    }
}

/// Where a run of digits ends.
proof fn lemma_run(text: Seq<char>, i: int, n: int)
    requires
        0 <= i <= n <= text.len(),
        forall|k: int| i <= k < n ==> is_digit(#[trigger] text[k]),
        n < text.len() ==> !is_digit(text[n]),
    ensures
        digits_end(text, i) == n,
    decreases n - i,
{
    if i < n {
        lemma_run(text, i + 1, n);
    }
}

/// Digits are a number, and so are digits with a point behind them, in front of them or among them,
/// however many there are; a sign may stand in front and a power of ten behind.
pub proof fn law_number(sign: Seq<char>, a: Seq<char>, b: Seq<char>, e: Seq<char>)
    requires
        is_sign(sign),
        is_power(e),
        are_digits(a),
        are_digits(b),
    ensures
        a.len() > 0 ==> is_number(sign + a + e),
        a.len() > 0 || b.len() > 0 ==> is_number(sign + a + "."@ + b + e),
{
    reveal_strlit(".");
    lemma_power(e);
    if a.len() > 0 {
        let body = a + e;
        assert forall|k: int| 0 <= k < a.len() implies is_digit(#[trigger] body[k]) by {
            assert(is_digit(a[k]));
        }
        lemma_run(body, 0, a.len() as int);
        assert(body.skip(a.len() as int) =~= e);
        lemma_sign(sign, body);
        assert(sign + body =~= sign + a + e);
    }
    if a.len() > 0 || b.len() > 0 {
        let body = a + "."@ + b + e;
        let whole = a.len() as int;
        let end = whole + 1 + b.len();
        assert forall|k: int| 0 <= k < whole implies is_digit(#[trigger] body[k]) by {
            assert(is_digit(a[k]));
        }
        assert(body[whole] == '.');
        lemma_run(body, 0, whole);
        assert forall|k: int| whole + 1 <= k < end implies is_digit(#[trigger] body[k]) by {
            assert(is_digit(b[k - whole - 1]));
        }
        if e.len() > 0 {
            assert(body[end] == e[0]);
        }
        lemma_run(body, whole + 1, end);
        assert(body.skip(end) =~= e);
        lemma_sign(sign, body);
        assert(sign + body =~= sign + a + "."@ + b + e);
    }
}

/// The words for what is not finite are numbers, with or without a sign.
pub proof fn law_number_word(sign: Seq<char>, word: Seq<char>)
    requires
        is_sign(sign),
        uppercase(word) == "INF"@ || uppercase(word) == "INFINITY"@ || uppercase(word) == "NAN"@,
    ensures
        is_number(sign + word),
{
    reveal_strlit("INF");
    reveal_strlit("INFINITY");
    reveal_strlit("NAN");
    assert(uppercase(word).len() == word.len());
    assert(uppercase(word)[0] == upper(word[0]));
    lemma_sign(sign, word);
}

/// The sign of a text.
proof fn lemma_sign_of(text: Seq<char>) -> (sign: Seq<char>)
    ensures
        is_sign(sign),
        text == sign + unsigned(text),
{
    reveal_strlit("");
    reveal_strlit("+");
    reveal_strlit("-");
    let sign = if text.len() > 0 && text[0] == '+' {
        "+"@
    } else if text.len() > 0 && text[0] == '-' {
        "-"@
    } else {
        ""@
    };
    assert(text =~= sign + unsigned(text));
    sign
}

/// What stands behind the digits of a number is a power of ten.
proof fn lemma_exponent(e: Seq<char>)
    requires
        is_exponent(e),
    ensures
        is_power(e),
{
    if e.len() > 0 {
        reveal_strlit("e");
        reveal_strlit("E");
        let letter = if e[0] == 'e' {
            "e"@
        } else {
            "E"@
        };
        let sign = lemma_sign_of(e.skip(1));
        let digits = unsigned(e.skip(1));
        assert(e =~= power_text(letter, sign, digits));
    }
}

/// A run of digits.
proof fn lemma_run_of(text: Seq<char>, i: int)
    requires
        0 <= i <= text.len(),
    ensures
        i <= digits_end(text, i) <= text.len(),
        are_digits(text.subrange(i, digits_end(text, i))),
    decreases text.len() - i,
{
    if i < text.len() && is_digit(text[i]) {
        lemma_run_of(text, i + 1);
        let n = digits_end(text, i);
        let run = text.subrange(i, n);
        assert forall|k: int| 0 <= k < run.len() implies is_digit(#[trigger] run[k]) by {
            if k > 0 {
                assert(run[k] == text.subrange(i + 1, n)[k - 1]);
            }
        }
    }
}

/// A number is a sign and then a word for what is not finite, or digits with a point at most and a
/// power of ten behind them: nothing else is one.
pub proof fn law_number_shape(text: Seq<char>) -> (parts: (
    Seq<char>,
    Seq<char>,
    Seq<char>,
    Seq<char>,
    Seq<char>,
))
    requires
        is_number(text),
    ensures
        ({
            let (sign, a, point, b, e) = parts;
            &&& text == sign + a + point + b + e
            &&& is_sign(sign)
            &&& ({
                ||| uppercase(a) == "INF"@ && point + b + e == ""@
                ||| uppercase(a) == "INFINITY"@ && point + b + e == ""@
                ||| uppercase(a) == "NAN"@ && point + b + e == ""@
                ||| point == ""@ && b == ""@ && all_digits(a) && is_power(e)
                ||| point == "."@ && are_digits(a) && are_digits(b) && a.len() + b.len() > 0 && is_power(
                    e,
                )
            })
        }),
{
    reveal_strlit("");
    reveal_strlit(".");
    let sign = lemma_sign_of(text);
    let body = unsigned(text);
    let none = ""@;
    if uppercase(body) == "INF"@ || uppercase(body) == "INFINITY"@ || uppercase(body) == "NAN"@ {
        assert(none + none + none =~= none);
        assert(text =~= sign + body + none + none + none);
        (sign, body, none, none, none)
    } else {
        let whole = digits_end(body, 0);
        lemma_run_of(body, 0);
        let a = body.subrange(0, whole);
        if whole < body.len() && body[whole] == '.' {
            let end = digits_end(body, whole + 1);
            lemma_run_of(body, whole + 1);
            let b = body.subrange(whole + 1, end);
            let e = body.skip(end);
            lemma_exponent(e);
            assert(text =~= sign + a + "."@ + b + e);
            (sign, a, "."@, b, e)
        } else {
            let e = body.skip(whole);
            lemma_exponent(e);
            assert(text =~= sign + a + none + none + e);
            (sign, a, none, none, e)
        }
    }
}

} // verus!
