//! Character-level facts shared by the scanner and the diagnostic printer:
//! UTF-8 widths and byte offsets, character classes, decimal digits.
use vstd::prelude::*;
use vstd::std_specs::iter::IteratorSpec;
use vstd::utf8::*;

verus! {

/// Number of bytes in the UTF-8 encoding of `c`.
pub open spec fn char_width(c: char) -> nat {
    encode_scalar(c as u32).len()
}

/// Byte offset of the `i`-th character of `s` in its UTF-8 encoding.
pub open spec fn byte_offset(s: Seq<char>, i: int) -> nat {
    encode_utf8(s.take(i)).len()
}

proof fn lemma_encode_concat(a: Seq<char>, b: Seq<char>)
    ensures
        encode_utf8(a + b) == encode_utf8(a) + encode_utf8(b),
    decreases a.len(),
{
    if a.len() == 0 {
        assert(a + b =~= b);
        assert(encode_utf8(a) + encode_utf8(b) =~= encode_utf8(b));
    } else {
        assert((a + b).drop_first() =~= a.drop_first() + b);
        lemma_encode_concat(a.drop_first(), b);
        assert(encode_utf8(a + b) =~= encode_utf8(a) + encode_utf8(b));
    }
}

pub proof fn lemma_char_width_bounds(c: char)
    ensures
        1 <= char_width(c) <= 4,
{
}

pub proof fn lemma_byte_offset_step(s: Seq<char>, i: int)
    requires
        0 <= i < s.len(),
    ensures
        byte_offset(s, i + 1) == byte_offset(s, i) + char_width(s[i]),
{
    let one = seq![s[i]];
    assert(s.take(i + 1) =~= s.take(i) + one);
    lemma_encode_concat(s.take(i), one);
    assert(one.drop_first() =~= Seq::<char>::empty());
    assert(one[0] == s[i]);
    assert(encode_utf8(one.drop_first()) =~= Seq::<u8>::empty());
    assert(encode_utf8(one) == encode_scalar(one[0] as u32) + encode_utf8(one.drop_first()));
    assert(encode_utf8(one) =~= encode_scalar(s[i] as u32));
}

pub proof fn lemma_byte_offset_mono(s: Seq<char>, i: int, j: int)
    requires
        0 <= i <= j <= s.len(),
    ensures
        byte_offset(s, i) + (j - i) <= byte_offset(s, j),
    decreases j - i,
{
    if i < j {
        lemma_byte_offset_mono(s, i, j - 1);
        lemma_byte_offset_step(s, j - 1);
        lemma_char_width_bounds(s[j - 1]);
    }
}

pub proof fn lemma_byte_offset_full(s: Seq<char>)
    ensures
        byte_offset(s, s.len() as int) == encode_utf8(s).len(),
{
    assert(s.take(s.len() as int) =~= s);
}

/// The width of `c` in UTF-8, computed from its scalar value.
pub fn utf8_width(c: char) -> (r: usize)
    ensures
        r == char_width(c),
{
    proof {
        char_is_scalar(c);
    }
    let u = c as u32;
    if u <= 0x7F {
        1
    } else if u <= 0x7FF {
        2
    } else if u <= 0xFFFF {
        3
    } else {
        4
    }
}

/// The characters of `s`, in order.
pub fn chars_of(s: &str) -> (r: Vec<char>)
    ensures
        r@ == s@,
{
    broadcast use vstd::string::group_string_axioms;

    let mut it = s.chars();
    let mut v: Vec<char> = Vec::new();
    loop
        invariant
            v@ + it.remaining() == s@,
        decreases s@.len() - v@.len(),
    {
        match it.next() {
            Some(c) => {
                v.push(c);
            },
            None => {
                assert(v@ + it.remaining() =~= v@);
                return v;
            },
        }
    }
}

/// Unicode White_Space: the characters that separate tokens.
pub open spec fn is_white_space(c: char) -> bool {
    let u = c as u32;
    ||| 0x09 <= u <= 0x0D
    ||| u == 0x20 || u == 0x85 || u == 0xA0 || u == 0x1680
    ||| 0x2000 <= u <= 0x200A
    ||| u == 0x2028 || u == 0x2029 || u == 0x202F || u == 0x205F || u == 0x3000
}

pub fn is_whitespace(c: char) -> (r: bool)
    ensures
        r == is_white_space(c),
{
    let u = c as u32;
    (0x09 <= u && u <= 0x0D) || u == 0x20 || u == 0x85 || u == 0xA0 || u == 0x1680 || (0x2000
        <= u && u <= 0x200A) || u == 0x2028 || u == 0x2029 || u == 0x202F || u == 0x205F || u
        == 0x3000
}

pub open spec fn is_digit(c: char) -> bool {
    0x30 <= (c as u32) <= 0x39
}

pub fn is_ascii_digit(c: char) -> (r: bool)
    ensures
        r == is_digit(c),
{
    let u = c as u32;
    0x30 <= u && u <= 0x39
}

/// Whether `c` has the Unicode Alphabetic property.
pub uninterp spec fn alphabetic(c: char) -> bool;

/// Letters: among ASCII characters exactly `a..=z` and `A..=Z`; beyond ASCII
/// the characters with the Unicode Alphabetic property.
pub open spec fn is_letter(c: char) -> bool {
    if (c as u32) < 0x80 {
        (0x61 <= (c as u32) <= 0x7A) || (0x41 <= (c as u32) <= 0x5A)
    } else {
        alphabetic(c)
    }
}

/// Relies on `char::is_alphabetic`: true exactly for characters with the
/// Unicode Alphabetic property, a function of the character alone; among
/// ASCII characters that property holds of the letters only.
#[verifier::external_body]
pub(crate) fn is_alphabetic(c: char) -> (r: bool)
    ensures
        r == if (c as u32) < 0x80 {
            (0x61 <= (c as u32) <= 0x7A) || (0x41 <= (c as u32) <= 0x5A)
        } else {
            alphabetic(c)
        },
        r == is_letter(c),
{
    c.is_alphabetic()
}

/// Relies on `String::push`: appends `c` at the end.
#[verifier::external_body]
pub(crate) fn push_char(s: &mut String, c: char)
    ensures
        final(s)@ == old(s)@.push(c),
{
    s.push(c);
}

/// Appends the characters of `t` to `s`.
pub fn push_text(s: &mut String, t: &str)
    ensures
        final(s)@ == old(s)@ + t@,
{
    let cs = chars_of(t);
    let mut i: usize = 0;
    while i < cs.len()
        invariant
            cs@ == t@,
            i <= cs@.len(),
            s@ == old(s)@ + t@.take(i as int),
        decreases cs@.len() - i,
    {
        push_char(s, cs[i]);
        assert(t@.take(i + 1) =~= t@.take(i as int).push(cs@[i as int]));
        i = i + 1;
    }
    assert(t@.take(i as int) =~= t@);
}

/// Decimal digit character for `d < 10`.
pub open spec fn digit_char(d: nat) -> char {
    if d == 0 {
        '0'
    } else if d == 1 {
        '1'
    } else if d == 2 {
        '2'
    } else if d == 3 {
        '3'
    } else if d == 4 {
        '4'
    } else if d == 5 {
        '5'
    } else if d == 6 {
        '6'
    } else if d == 7 {
        '7'
    } else if d == 8 {
        '8'
    } else {
        '9'
    }
}

/// Decimal representation of `n`, without leading zeros.
pub open spec fn decimal(n: nat) -> Seq<char>
    decreases n,
{
    if n < 10 {
        seq![digit_char(n)]
    } else {
        decimal(n / 10).push(digit_char(n % 10))
    }
}

/// Appends the decimal representation of `n`.
pub fn push_decimal(s: &mut String, n: usize)
    ensures
        final(s)@ == old(s)@ + decimal(n as nat),
    decreases n,
{
    if n >= 10 {
        push_decimal(s, n / 10);
    }
    let d = n % 10;
    let c = if d == 0 {
        '0'
    } else if d == 1 {
        '1'
    } else if d == 2 {
        '2'
    } else if d == 3 {
        '3'
    } else if d == 4 {
        '4'
    } else if d == 5 {
        '5'
    } else if d == 6 {
        '6'
    } else if d == 7 {
        '7'
    } else if d == 8 {
        '8'
    } else {
        '9'
    };
    push_char(s, c);
    assert(s@ =~= old(s)@ + decimal(n as nat));
}

/// Value of a decimal digit character.
pub open spec fn digit_value(c: char) -> int {
    (c as u32) - 0x30
}

/// Value of a run of decimal digits, most significant first.
pub open spec fn digits_value(s: Seq<char>) -> int
    decreases s.len(),
{
    if s.len() == 0 {
        0
    } else {
        digits_value(s.drop_last()) * 10 + digit_value(s.last())
    }
}

pub open spec fn pow10(n: nat) -> int
    decreases n,
{
    if n == 0 {
        1
    } else {
        10 * pow10((n - 1) as nat)
    }
}

pub open spec fn all_digit_chars(s: Seq<char>) -> bool {
    forall|i: int| 0 <= i < s.len() ==> is_digit(#[trigger] s[i])
}

/// The least value that rounds to infinity as an IEEE 754 double,
/// 2^1024 - 2^970, written in decimal.
pub open spec fn overflow_threshold() -> int {
    digits_value("179769313486231580793728971405303415079934132710037826936173778980444968292764750946649017977587207096330286416692887910946555547851940402630657488671505820681908902000708383676273854845817711531764475730270069855571366959622842914819860834936475292719074168444365510704342711559699508093042880177904174497792"@)
}

proof fn lemma_pow10_mono(m: nat, n: nat)
    requires
        m <= n,
    ensures
        1 <= pow10(m) <= pow10(n),
    decreases n,
{
    if n > m {
        lemma_pow10_mono(m, (n - 1) as nat);
    } else if n > 0 {
        lemma_pow10_mono(0, (n - 1) as nat);
    }
}

proof fn lemma_digits_value_upper(s: Seq<char>)
    requires
        all_digit_chars(s),
    ensures
        0 <= digits_value(s) < pow10(s.len()),
    decreases s.len(),
{
    if s.len() > 0 {
        assert(is_digit(s[s.len() - 1]));
        lemma_digits_value_upper(s.drop_last());
    }
}

proof fn lemma_digits_value_lower(s: Seq<char>)
    requires
        all_digit_chars(s),
        s.len() > 0,
        s[0] != '0',
    ensures
        digits_value(s) >= pow10((s.len() - 1) as nat),
    decreases s.len(),
{
    assert(is_digit(s[s.len() - 1]));
    assert(('0' as u32) == 0x30);
    if s.len() == 1 {
        assert(s.drop_last().len() == 0);
        assert(digits_value(s.drop_last()) == 0);
        assert(is_digit(s[0]));
        assert(s.last() == s[0]);
        assert(pow10(0) == 1);
        if (s[0] as u32) == 0x30 {
            char_u32_cast(s[0], 0x30);
            char_u32_cast('0', 0x30);
        }
    } else {
        assert(s.drop_last()[0] == s[0]);
        lemma_digits_value_lower(s.drop_last());
        assert(pow10((s.len() - 1) as nat) == 10 * pow10((s.len() - 2) as nat));
    }
}

proof fn lemma_digits_value_leading_zero(s: Seq<char>)
    ensures
        digits_value(seq!['0'] + s) == digits_value(s),
    decreases s.len(),
{
    if s.len() == 0 {
        let z = seq!['0'] + s;
        assert(z.drop_last().len() == 0);
        assert(digits_value(z.drop_last()) == 0);
        assert(z.last() == '0');
        assert(('0' as u32) == 0x30);
    } else {
        assert((seq!['0'] + s).drop_last() =~= seq!['0'] + s.drop_last());
        assert((seq!['0'] + s).last() == s.last());
        lemma_digits_value_leading_zero(s.drop_last());
    }
}

/// Whether the digits `cs[from..to]` denote a value at or above the
/// threshold where a double overflows to infinity.
pub fn digits_overflow(cs: &Vec<char>, from: usize, to: usize) -> (r: bool)
    requires
        from <= to <= cs@.len(),
        all_digit_chars(cs@.subrange(from as int, to as int)),
    ensures
        r == (digits_value(cs@.subrange(from as int, to as int)) >= overflow_threshold()),
{
    let ghost whole = cs@.subrange(from as int, to as int);
    let mut a = from;
    while a < to && cs[a] == '0'
        invariant
            from <= a <= to <= cs@.len(),
            whole == cs@.subrange(from as int, to as int),
            all_digit_chars(whole),
            digits_value(cs@.subrange(a as int, to as int)) == digits_value(whole),
        decreases to - a,
    {
        proof {
            assert(cs@.subrange(a as int, to as int) =~= seq!['0'] + cs@.subrange(
                a + 1,
                to as int,
            ));
            lemma_digits_value_leading_zero(cs@.subrange(a + 1, to as int));
        }
        a = a + 1;
    }
    let ghost x = cs@.subrange(a as int, to as int);
    assert(all_digit_chars(x)) by {
        assert forall|i: int| 0 <= i < x.len() implies is_digit(#[trigger] x[i]) by {
            assert(x[i] == whole[a - from + i]);
        }
    }
    let limit = "179769313486231580793728971405303415079934132710037826936173778980444968292764750946649017977587207096330286416692887910946555547851940402630657488671505820681908902000708383676273854845817711531764475730270069855571366959622842914819860834936475292719074168444365510704342711559699508093042880177904174497792";
    proof {
        reveal_strlit("179769313486231580793728971405303415079934132710037826936173778980444968292764750946649017977587207096330286416692887910946555547851940402630657488671505820681908902000708383676273854845817711531764475730270069855571366959622842914819860834936475292719074168444365510704342711559699508093042880177904174497792");
    }
    let td = chars_of(limit);
    let ghost t = td@;
    assert(all_digit_chars(t));
    assert(t.len() == 309);
    assert(t[0] == '1');
    proof {
        lemma_digits_value_upper(t);
        lemma_digits_value_lower(t);
        lemma_digits_value_upper(x);
    }
    let len = to - a;
    if len > td.len() {
        proof {
            lemma_digits_value_lower(x);
            lemma_pow10_mono(309, (x.len() - 1) as nat);
        }
        return true;
    }
    if len < td.len() {
        proof {
            lemma_pow10_mono(x.len(), 308);
        }
        return false;
    }
    let mut ord: i8 = 0;
    let mut i: usize = 0;
    assert(x.take(0) =~= Seq::<char>::empty());
    assert(t.take(0) =~= Seq::<char>::empty());
    while i < len
        invariant
            i <= len == x.len() == t.len(),
            a + len == to <= cs@.len(),
            x == cs@.subrange(a as int, to as int),
            t == td@,
            all_digit_chars(x),
            all_digit_chars(t),
            ord == 0 ==> digits_value(x.take(i as int)) == digits_value(t.take(i as int)),
            ord < 0 ==> digits_value(x.take(i as int)) < digits_value(t.take(i as int)),
            ord > 0 ==> digits_value(x.take(i as int)) > digits_value(t.take(i as int)),
        decreases len - i,
    {
        let cx = cs[a + i];
        let ct = td[i];
        assert(cx == x[i as int]);
        assert(is_digit(x[i as int]) && is_digit(t[i as int]));
        assert(x.take(i + 1).drop_last() =~= x.take(i as int));
        assert(t.take(i + 1).drop_last() =~= t.take(i as int));
        if ord == 0 {
            if (cx as u32) < (ct as u32) {
                ord = -1;
            } else if (cx as u32) > (ct as u32) {
                ord = 1;
            }
        }
        i = i + 1;
    }
    assert(x.take(len as int) =~= x);
    assert(t.take(len as int) =~= t);
    ord >= 0
}

} // verus!
