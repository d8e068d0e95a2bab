//! Decimal rendering of identifiers and JSON string escaping.
//!
//! Both are specified exactly: `dec_digits` is the canonical decimal form
//! of a number (no leading zeros), `esc` is the escaped form of a string
//! as it appears inside a JSON string literal.

use vstd::prelude::*;

verus! {

pub open spec fn digit_char(d: int) -> char {
    if d == 0 { '0' }
    else if d == 1 { '1' }
    else if d == 2 { '2' }
    else if d == 3 { '3' }
    else if d == 4 { '4' }
    else if d == 5 { '5' }
    else if d == 6 { '6' }
    else if d == 7 { '7' }
    else if d == 8 { '8' }
    else { '9' }
}

pub open spec fn is_digit(c: char) -> bool {
    '0' <= c && c <= '9'
}

pub open spec fn digit_value(c: char) -> int {
    c as int - '0' as int
}

/// The canonical decimal form of `n`: nonempty, digits only, and no
/// leading zero except for `n == 0` itself.
pub open spec fn dec_digits(n: nat) -> Seq<char>
    decreases n,
{
    if n < 10 {
        seq![digit_char(n as int)]
    } else {
        dec_digits(n / 10).push(digit_char((n % 10) as int))
    }
}

/// The number denoted by a sequence of digit characters.
pub open spec fn digits_val(s: Seq<char>) -> nat
    decreases s.len(),
{
    if s.len() == 0 {
        0
    } else {
        (digits_val(s.drop_last()) * 10 + digit_value(s.last())) as nat
    }
}

pub proof fn lemma_digit_char_value(d: int)
    requires
        0 <= d < 10,
    ensures
        is_digit(digit_char(d)),
        digit_value(digit_char(d)) == d,
{
}

/// `dec_digits` is made of digits, is nonempty, and starts with '0'
/// only for the number zero.
pub proof fn lemma_dec_digits_shape(n: nat)
    ensures
        dec_digits(n).len() >= 1,
        forall|i: int| 0 <= i < dec_digits(n).len() ==> is_digit(#[trigger] dec_digits(n)[i]),
        dec_digits(n)[0] == '0' <==> n == 0,
        n == 0 ==> dec_digits(n).len() == 1,
    decreases n,
{
    if n >= 10 {
        lemma_dec_digits_shape(n / 10);
        lemma_digit_char_value((n % 10) as int);
        assert forall|i: int| 0 <= i < dec_digits(n).len() implies is_digit(
            #[trigger] dec_digits(n)[i],
        ) by {
            if i < dec_digits(n / 10).len() {
                assert(dec_digits(n)[i] == dec_digits(n / 10)[i]);
            }
        }
    } else {
        lemma_digit_char_value(n as int);
    }
}

/// Reading the canonical decimal form back gives the number itself.
pub proof fn lemma_dec_digits_val(n: nat)
    ensures
        digits_val(dec_digits(n)) == n,
    decreases n,
{
    if n < 10 {
        let s = dec_digits(n);
        assert(s.drop_last().len() == 0);
        lemma_digit_char_value(n as int);
        assert(s.last() == digit_char(n as int));
        assert(digits_val(s) == digits_val(s.drop_last()) * 10 + digit_value(s.last()));
        assert(digits_val(s.drop_last()) == 0);
    } else {
        lemma_dec_digits_val(n / 10);
        let s = dec_digits(n);
        assert(s.drop_last() =~= dec_digits(n / 10));
        lemma_digit_char_value((n % 10) as int);
    }
}

/// A digit string without a leading zero is the canonical form of its
/// value: decimal rendering is injective on canonical strings.
pub proof fn lemma_digits_canonical(s: Seq<char>)
    requires
        s.len() >= 1,
        forall|i: int| 0 <= i < s.len() ==> is_digit(#[trigger] s[i]),
        s[0] != '0' || s.len() == 1,
    ensures
        s =~= dec_digits(digits_val(s)),
    decreases s.len(),
{
    if s.len() == 1 {
        assert(digits_val(s.drop_last()) == 0);
        assert(digits_val(s) == digit_value(s[0]));
        assert(is_digit(s[0]));
        assert(dec_digits(digits_val(s)) =~= seq![digit_char(digit_value(s[0]))]);
        assert(digit_char(digit_value(s[0])) == s[0]);
    } else {
        let p = s.drop_last();
        assert(p[0] == s[0]);
        assert(forall|i: int| 0 <= i < p.len() ==> is_digit(#[trigger] p[i]));
        lemma_digits_canonical(p);
        let v = digits_val(s);
        // the prefix denotes at least 1, so v >= 10 and the recursive
        // branch of dec_digits applies
        assert(digits_val(p) >= 1) by {
            if digits_val(p) == 0 {
                assert(p =~= dec_digits(0));
                lemma_dec_digits_shape(0);
                assert(p[0] == '0');
            }
        }
        assert(is_digit(s.last()));
        assert(0 <= digit_value(s.last()) < 10);
        assert(v == digits_val(p) * 10 + digit_value(s.last()));
        assert(v >= 10);
        assert(v / 10 == digits_val(p) && v % 10 == digit_value(s.last())) by (nonlinear_arith)
            requires
                v == digits_val(p) * 10 + digit_value(s.last()),
                0 <= digit_value(s.last()) < 10,
                digits_val(p) >= 0,
        ;
        assert(dec_digits(v) =~= dec_digits(digits_val(p)).push(digit_char((v % 10) as int)));
        assert(digit_char(digit_value(s.last())) == s.last());
    }
}

/// Extending a digit string can only grow the value it denotes.
pub proof fn lemma_digits_val_prefix_le(s: Seq<char>, i: int)
    requires
        0 <= i <= s.len(),
        forall|k: int| 0 <= k < s.len() ==> is_digit(#[trigger] s[k]),
    ensures
        digits_val(s.take(i)) <= digits_val(s),
    decreases s.len() - i,
{
    if i < s.len() {
        lemma_digits_val_prefix_le(s, i + 1);
        let a = s.take(i);
        let b = s.take(i + 1);
        assert(b.drop_last() =~= a);
        assert(is_digit(s[i]));
        assert(digits_val(b) == digits_val(a) * 10 + digit_value(s[i]));
        assert(digits_val(a) <= digits_val(a) * 10) by (nonlinear_arith)
            requires digits_val(a) >= 0,
        ;
    } else {
        assert(s.take(i) =~= s);
    }
}

fn digit_str(d: u64) -> (r: &'static str)
    requires
        d < 10,
    ensures
        r@ =~= seq![digit_char(d as int)],
{
    proof {
        reveal_strlit("0");
        reveal_strlit("1");
        reveal_strlit("2");
        reveal_strlit("3");
        reveal_strlit("4");
        reveal_strlit("5");
        reveal_strlit("6");
        reveal_strlit("7");
        reveal_strlit("8");
        reveal_strlit("9");
    }
    match d {
        0 => "0",
        1 => "1",
        2 => "2",
        3 => "3",
        4 => "4",
        5 => "5",
        6 => "6",
        7 => "7",
        8 => "8",
        _ => "9",
    }
}

/// Renders `n` in its canonical decimal form.
pub fn u64_to_string(n: u64) -> (r: String)
    ensures
        r@ == dec_digits(n as nat),
    decreases n,
{
    if n < 10 {
        String::from_str(digit_str(n))
    } else {
        let mut s = u64_to_string(n / 10);
        s.append(digit_str(n % 10));
        proof {
            assert(s@ =~= dec_digits((n / 10) as nat).push(digit_char((n % 10) as int)));
        }
        s
    }
}

/// A character that stands for itself inside a JSON string literal.
pub open spec fn json_safe_char(c: char) -> bool {
    c != '"' && c != '\\' && (c as int) >= 32
}

pub open spec fn json_safe(s: Seq<char>) -> bool {
    forall|i: int| 0 <= i < s.len() ==> json_safe_char(#[trigger] s[i])
}

pub open spec fn hex_digit(d: int) -> char {
    if d < 10 { digit_char(d) }
    else if d == 10 { 'a' }
    else if d == 11 { 'b' }
    else if d == 12 { 'c' }
    else if d == 13 { 'd' }
    else if d == 14 { 'e' }
    else { 'f' }
}

/// The escaped form of one character inside a JSON string literal.
pub open spec fn esc_char(c: char) -> Seq<char> {
    if c == '"' { seq!['\\', '"'] }
    else if c == '\\' { seq!['\\', '\\'] }
    else if c == '\n' { seq!['\\', 'n'] }
    else if c == '\r' { seq!['\\', 'r'] }
    else if c == '\t' { seq!['\\', 't'] }
    else if (c as int) < 32 {
        seq!['\\', 'u', '0', '0', hex_digit((c as int) / 16), hex_digit((c as int) % 16)]
    } else {
        seq![c]
    }
}

/// The escaped form of a whole string.
pub open spec fn esc(s: Seq<char>) -> Seq<char>
    decreases s.len(),
{
    if s.len() == 0 {
        Seq::empty()
    } else {
        esc(s.drop_last()) + esc_char(s.last())
    }
}

/// Escaping leaves a string of safe characters untouched.
pub proof fn lemma_esc_identity(s: Seq<char>)
    requires
        json_safe(s),
    ensures
        esc(s) =~= s,
    decreases s.len(),
{
    if s.len() > 0 {
        assert(json_safe(s.drop_last()));
        lemma_esc_identity(s.drop_last());
        assert(json_safe_char(s.last()));
        assert(esc_char(s.last()) =~= seq![s.last()]);
    }
}

/// Relies on std's `String::push`: appends one character at the end.
#[verifier::external_body]
fn push_char(s: &mut String, c: char)
    ensures
        final(s)@ == old(s)@.push(c),
{
    s.push(c);
}

fn hex_str(d: u64) -> (r: &'static str)
    requires
        d < 16,
    ensures
        r@ =~= seq![hex_digit(d as int)],
{
    proof {
        reveal_strlit("a");
        reveal_strlit("b");
        reveal_strlit("c");
        reveal_strlit("d");
        reveal_strlit("e");
        reveal_strlit("f");
    }
    if d < 10 {
        digit_str(d)
    } else {
        match d {
            10 => "a",
            11 => "b",
            12 => "c",
            13 => "d",
            14 => "e",
            _ => "f",
        }
    }
}

/// Escapes `s` for inclusion in a JSON string literal.
pub fn escape_json(s: &str) -> (r: String)
    ensures
        r@ == esc(s@),
{
    let len = s.unicode_len();
    let mut out = String::new();
    let mut i: usize = 0;
    while i < len
        invariant
            i <= len,
            len == s@.len(),
            out@ == esc(s@.take(i as int)),
        decreases len - i,
    {
        proof {
            reveal_strlit("\\\"");
            reveal_strlit("\\\\");
            reveal_strlit("\\n");
            reveal_strlit("\\r");
            reveal_strlit("\\t");
            reveal_strlit("\\u00");
        }
        let c = s.get_char(i);
        if c == '"' {
            out.append("\\\"");
            proof { assert("\\\""@ =~= esc_char('"')); }
        } else if c == '\\' {
            out.append("\\\\");
            proof { assert("\\\\"@ =~= esc_char('\\')); }
        } else if c == '\n' {
            out.append("\\n");
            proof { assert("\\n"@ =~= esc_char('\n')); }
        } else if c == '\r' {
            out.append("\\r");
            proof { assert("\\r"@ =~= esc_char('\r')); }
        } else if c == '\t' {
            out.append("\\t");
            proof { assert("\\t"@ =~= esc_char('\t')); }
        } else if (c as u32) < 32 {
            out.append("\\u00");
            let v = c as u32;
            out.append(hex_str((v / 16) as u64));
            out.append(hex_str((v % 16) as u64));
            proof {
                assert(out@ =~= esc(s@.take(i as int)) + esc_char(c));
            }
        } else {
            push_char(&mut out, c);
            proof {
                assert(esc_char(c) =~= seq![c]);
                assert(esc(s@.take(i as int)).push(c) =~= esc(s@.take(i as int)) + esc_char(c));
            }
        }
        proof {
            assert(s@.take(i + 1 as int).drop_last() =~= s@.take(i as int));
            assert(s@.take(i + 1 as int).last() == s@[i as int]);
            assert(out@ =~= esc(s@.take(i + 1 as int)));
        }
        i = i + 1;
    }
    proof {
        assert(s@.take(len as int) =~= s@);
    }
    out
}

} // verus!
