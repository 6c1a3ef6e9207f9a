use vstd::prelude::*;

use crate::error::{Error, ErrorKind};
use crate::span::Span;
use crate::text::{
    byte_offset, char_width, chars_of, decimal, lemma_byte_offset_full, lemma_byte_offset_mono,
    lemma_byte_offset_step, push_char, push_decimal, push_text, utf8_width,
};

verus! {

/// Number of characters of `s` whose encoding starts before byte offset `b`.
pub open spec fn chars_before(s: Seq<char>, b: int) -> nat
    decreases s.len(),
{
    if s.len() == 0 || b <= 0 {
        0
    } else {
        1 + chars_before(s.drop_first(), b - char_width(s[0]))
    }
}

/// 1-based line and column reached after reading `p`: a newline moves to the
/// first column of the next line, any other character one column right.
pub open spec fn line_col_after(p: Seq<char>) -> (nat, nat)
    decreases p.len(),
{
    if p.len() == 0 {
        (1, 1)
    } else {
        let (l, c) = line_col_after(p.drop_last());
        if p.last() == '\n' {
            (l + 1, 1)
        } else {
            (l, c + 1)
        }
    }
}

/// Line and column of byte offset `b` in `s`.
pub open spec fn line_col(s: Seq<char>, b: int) -> (nat, nat) {
    line_col_after(s.take(chars_before(s, b) as int))
}

/// First position at or after `i` that holds a newline, or the length.
pub open spec fn line_end(s: Seq<char>, i: int) -> int
    decreases s.len() - i,
{
    if 0 <= i < s.len() && s[i] != '\n' {
        line_end(s, i + 1)
    } else {
        i
    }
}

/// Where line `n` (1-based) starts, if the text has that many lines.
pub open spec fn line_start(s: Seq<char>, n: nat) -> Option<int>
    decreases n,
{
    if n <= 1 {
        Some(0)
    } else {
        match line_start(s, (n - 1) as nat) {
            Some(st) => if line_end(s, st) < s.len() {
                Some(line_end(s, st) + 1)
            } else {
                None
            },
            None => None,
        }
    }
}

/// Text of line `n` (1-based) without its line ending (`\n` or `\r\n`);
/// empty when there is no such line.
pub open spec fn line_text(s: Seq<char>, n: nat) -> Seq<char> {
    match line_start(s, n) {
        Some(st) => {
            let e = line_end(s, st);
            let raw = s.subrange(st, e);
            if e < s.len() && raw.len() > 0 && raw.last() == '\r' {
                raw.drop_last()
            } else {
                raw
            }
        },
        None => Seq::empty(),
    }
}

pub open spec fn kind_message(k: ErrorKind) -> Seq<char> {
    match k {
        ErrorKind::UnexpectedCharacter(c) => "unexpected character '"@ + seq![c] + "'"@,
        ErrorKind::InvalidNumber => "invalid number literal"@,
        ErrorKind::UnknownCommand(cmd) => "unknown command \\"@ + cmd@,
        ErrorKind::UnexpectedToken { expected, found } => "expected "@ + expected@ + ", found "@
            + found@,
    }
}

pub open spec fn repeat(c: char, n: nat) -> Seq<char> {
    Seq::new(n, |_i: int| c)
}

/// A line number right-aligned in two columns.
pub open spec fn pad2(d: Seq<char>) -> Seq<char> {
    if d.len() < 2 {
        seq![' '] + d
    } else {
        d
    }
}

/// Number of carets under a span: its width, at least one.
pub open spec fn caret_width(sp: Span) -> nat {
    if sp.end > sp.start {
        (sp.end - sp.start) as nat
    } else {
        1
    }
}

/// The source line shown for a diagnostic on line `line` at byte offset
/// `start`: empty when the offset lies past the end of the text.
pub open spec fn shown_line(s: Seq<char>, line: nat, start: int) -> Seq<char> {
    if start > vstd::utf8::encode_utf8(s).len() {
        Seq::empty()
    } else {
        line_text(s, line)
    }
}

/// The full diagnostic for `e` over the source text `s`.
pub open spec fn rendered(s: Seq<char>, e: Error) -> Seq<char> {
    let (line, col) = line_col(s, e.span.start as int);
    "error: "@ + kind_message(e.kind) + "\n"@ + " --> "@ + decimal(line) + ":"@ + decimal(col)
        + "\n"@ + "  |\n"@ + pad2(decimal(line)) + " | "@ + shown_line(s, line, e.span.start as int) + "\n"@ + "  | "@
        + repeat(' ', (col - 1) as nat) + repeat('^', caret_width(e.span))
}

/// 1-based line and column of the character at byte offset `byte_pos`.
pub fn line_col_at(source: &str, byte_pos: usize) -> (r: (usize, usize))
    requires
        source@.len() < usize::MAX,
    ensures
        (r.0 as nat, r.1 as nat) == line_col(source@, byte_pos as int),
        r.0 >= 1,
        r.1 >= 1,
{
    let ghost s = source@;
    let n = source.as_bytes().len();
    let chars = chars_of(source);
    let mut line: usize = 1;
    let mut col: usize = 1;
    let mut i: usize = 0;
    let mut j: usize = 0;
    proof {
        lemma_byte_offset_full(s);
        assert(s.take(0) =~= Seq::<char>::empty());
        assert(s.skip(0) =~= s);
    }
    while j < chars.len() && i < byte_pos
        invariant
            chars@ == s,
            n == vstd::utf8::encode_utf8(s).len(),
            s.len() < usize::MAX,
            j <= s.len(),
            i == byte_offset(s, j as int),
            chars_before(s, byte_pos as int) == j + chars_before(s.skip(j as int), byte_pos - i),
            (line as nat, col as nat) == line_col_after(s.take(j as int)),
            1 <= line <= j + 1,
            1 <= col <= j + 1,
        decreases s.len() - j,
    {
        let c = chars[j];
        proof {
            lemma_byte_offset_step(s, j as int);
            lemma_byte_offset_mono(s, j + 1, s.len() as int);
            lemma_byte_offset_full(s);
            assert(s.skip(j as int).drop_first() =~= s.skip(j + 1));
            assert(s.take(j + 1).drop_last() =~= s.take(j as int));
        }
        if c == '\n' {
            line = line + 1;
            col = 1;
        } else {
            col = col + 1;
        }
        i = i + utf8_width(c);
        j = j + 1;
    }
    proof {
        if j == s.len() {
            assert(s.skip(j as int).len() == 0);
        }
    }
    (line, col)
}

/// Human-readable message for an error kind.
fn format_error_kind(kind: &ErrorKind) -> (r: String)
    ensures
        r@ == kind_message(*kind),
{
    let mut out = String::new();
    match kind {
        ErrorKind::UnexpectedCharacter(c) => {
            push_text(&mut out, "unexpected character '");
            push_char(&mut out, *c);
            push_text(&mut out, "'");
        },
        ErrorKind::InvalidNumber => {
            push_text(&mut out, "invalid number literal");
        },
        ErrorKind::UnknownCommand(cmd) => {
            push_text(&mut out, "unknown command \\");
            push_text(&mut out, cmd.as_str());
        },
        ErrorKind::UnexpectedToken { expected, found } => {
            push_text(&mut out, "expected ");
            push_text(&mut out, expected.as_str());
            push_text(&mut out, ", found ");
            push_text(&mut out, found.as_str());
        },
    }
    assert(out@ =~= kind_message(*kind));
    out
}

fn push_repeat(out: &mut String, c: char, n: usize)
    ensures
        final(out)@ == old(out)@ + repeat(c, n as nat),
{
    let mut k: usize = 0;
    while k < n
        invariant
            k <= n,
            out@ == old(out)@ + repeat(c, k as nat),
        decreases n - k,
    {
        push_char(out, c);
        k = k + 1;
        assert(out@ =~= old(out)@ + repeat(c, k as nat));
    }
}

proof fn lemma_decimal_len(n: nat)
    ensures
        decimal(n).len() >= 1,
        n < 10 <==> decimal(n).len() < 2,
    decreases n,
{
    if n >= 10 {
        lemma_decimal_len(n / 10);
    }
}

proof fn lemma_line_start_none(s: Seq<char>, n: nat, m: nat)
    requires
        line_start(s, n) is None,
        n <= m,
    ensures
        line_start(s, m) is None,
    decreases m - n,
{
    if n < m {
        lemma_line_start_none(s, n, (m - 1) as nat);
    }
}

fn find_line_end(chars: &Vec<char>, st: usize) -> (e: usize)
    requires
        st <= chars@.len(),
    ensures
        e as int == line_end(chars@, st as int),
        st <= e <= chars@.len(),
{
    let mut e = st;
    while e < chars.len() && chars[e] != '\n'
        invariant
            st <= e <= chars@.len(),
            line_end(chars@, e as int) == line_end(chars@, st as int),
        decreases chars@.len() - e,
    {
        e = e + 1;
    }
    e
}

/// Text of line `n` of the characters `chars`, empty if there is none.
fn source_line(chars: &Vec<char>, n: usize) -> (r: String)
    requires
        n >= 1,
    ensures
        r@ == line_text(chars@, n as nat),
{
    let ghost s = chars@;
    let mut st: usize = 0;
    let mut cur: usize = 1;
    while cur < n
        invariant
            1 <= cur <= n,
            st <= s.len(),
            s == chars@,
            line_start(s, cur as nat) == Some(st as int),
        decreases n - cur,
    {
        let e = find_line_end(chars, st);
        if e >= chars.len() {
            proof {
                assert(line_start(s, (cur + 1) as nat) is None);
                lemma_line_start_none(s, (cur + 1) as nat, n as nat);
            }
            return String::new();
        }
        st = e + 1;
        cur = cur + 1;
    }
    let e = find_line_end(chars, st);
    let mut stop = e;
    if e < chars.len() && e > st && chars[e - 1] == '\r' {
        stop = e - 1;
    }
    let mut out = String::new();
    let mut k = st;
    while k < stop
        invariant
            st <= k <= stop <= e <= s.len(),
            s == chars@,
            out@ == s.subrange(st as int, k as int),
        decreases stop - k,
    {
        push_char(&mut out, chars[k]);
        k = k + 1;
        assert(out@ =~= s.subrange(st as int, k as int));
    }
    assert(out@ =~= line_text(s, n as nat));
    out
}

/// Renders `error` as a caret-annotated diagnostic over the source text.
pub fn render_error(source: &str, error: &Error) -> (r: String)
    requires
        source@.len() < usize::MAX,
    ensures
        r@ == rendered(source@, *error),
{
    let (line, col) = line_col_at(source, error.span.start);
    let byte_len = source.as_bytes().len();
    let text = if error.span.start > byte_len {
        String::new()
    } else {
        let chars = chars_of(source);
        source_line(&chars, line)
    };
    let mut out = String::new();
    push_text(&mut out, "error: ");
    let message = format_error_kind(&error.kind);
    push_text(&mut out, message.as_str());
    push_text(&mut out, "\n");
    push_text(&mut out, " --> ");
    push_decimal(&mut out, line);
    push_text(&mut out, ":");
    push_decimal(&mut out, col);
    push_text(&mut out, "\n");
    push_text(&mut out, "  |\n");
    proof {
        lemma_decimal_len(line as nat);
    }
    if line < 10 {
        push_char(&mut out, ' ');
    }
    push_decimal(&mut out, line);
    push_text(&mut out, " | ");
    push_text(&mut out, text.as_str());
    push_text(&mut out, "\n");
    push_text(&mut out, "  | ");
    push_repeat(&mut out, ' ', col - 1);
    let width = if error.span.end > error.span.start {
        error.span.end - error.span.start
    } else {
        1
    };
    push_repeat(&mut out, '^', width);
    assert(out@ =~= rendered(source@, *error));
    out
}

} // verus!
