use vstd::prelude::*;

use crate::text::{chars_of, is_ascii_digit, is_digit, push_char, push_text};
use crate::utils::{strip_end, trim_trailing, trimmed};

verus! {

/// Digits with at most one decimal point, and not the point alone.
pub open spec fn is_decimal_literal(t: Seq<char>) -> bool {
    &&& t.len() > 0
    &&& t != seq!['.']
    &&& forall|i: int| 0 <= i < t.len() ==> is_digit(#[trigger] t[i]) || t[i] == '.'
    &&& forall|i: int, j: int|
        0 <= i < j < t.len() && #[trigger] t[i] == '.' ==> #[trigger] t[j] != '.'
}

/// Position of the first decimal point at or after `i`, or the length.
pub open spec fn first_dot(t: Seq<char>, i: int) -> int
    decreases t.len() - i,
{
    if 0 <= i < t.len() && t[i] != '.' {
        first_dot(t, i + 1)
    } else {
        i
    }
}

/// `s` without its leading run of `c`.
pub open spec fn strip_start(s: Seq<char>, c: char) -> Seq<char>
    decreases s.len(),
{
    if s.len() > 0 && s[0] == c {
        strip_start(s.drop_first(), c)
    } else {
        s
    }
}

/// Integer part of a literal without leading zeros, `0` when nothing is left.
pub open spec fn integer_text(t: Seq<char>) -> Seq<char> {
    let ip = strip_start(t.take(first_dot(t, 0)), '0');
    if ip.len() == 0 {
        seq!['0']
    } else {
        ip
    }
}

/// Canonical text of a decimal literal: the integer part without leading
/// zeros, then the fractional part without trailing zeros, and no dangling
/// decimal point.
pub open spec fn number_text(t: Seq<char>) -> Seq<char> {
    let d = first_dot(t, 0);
    if d < t.len() {
        trimmed(integer_text(t) + seq!['.'] + t.skip(d + 1), '0')
    } else {
        integer_text(t)
    }
}

proof fn lemma_strip_end_shape(s: Seq<char>, c: char)
    ensures
        strip_end(s, c) == s.take(strip_end(s, c).len() as int),
        strip_end(s, c).len() <= s.len(),
        strip_end(s, c).len() > 0 ==> strip_end(s, c).last() != c,
        strip_end(strip_end(s, c), c) == strip_end(s, c),
    decreases s.len(),
{
    if s.len() > 0 && s.last() == c {
        lemma_strip_end_shape(s.drop_last(), c);
        let r = strip_end(s, c);
        assert(s.drop_last().take(r.len() as int) =~= s.take(r.len() as int));
    } else {
        assert(s.take(s.len() as int) =~= s);
    }
}

proof fn lemma_strip_start_shape(s: Seq<char>, c: char)
    ensures
        strip_start(s, c) == s.skip(s.len() - strip_start(s, c).len()),
        strip_start(s, c).len() <= s.len(),
        strip_start(s, c).len() > 0 ==> strip_start(s, c)[0] != c,
        strip_start(strip_start(s, c), c) == strip_start(s, c),
    decreases s.len(),
{
    if s.len() > 0 && s[0] == c {
        lemma_strip_start_shape(s.drop_first(), c);
        let r = strip_start(s, c);
        assert(s.drop_first().skip(s.len() - 1 - r.len()) =~= s.skip(s.len() - r.len()));
    } else {
        assert(s.skip(0) =~= s);
    }
}

proof fn lemma_strip_end_concat(x: Seq<char>, y: Seq<char>, c: char)
    ensures
        strip_end(x + y, c) == if strip_end(y, c).len() > 0 {
            x + strip_end(y, c)
        } else {
            strip_end(x, c)
        },
    decreases y.len(),
{
    if y.len() == 0 {
        assert(x + y =~= x);
    } else if y.last() == c {
        assert((x + y).drop_last() =~= x + y.drop_last());
        lemma_strip_end_concat(x, y.drop_last(), c);
    }
}

proof fn lemma_first_dot_at(s: Seq<char>, i: int, j: int)
    requires
        0 <= i <= j <= s.len(),
        forall|k: int| i <= k < j ==> s[k] != '.',
        j == s.len() || s[j] == '.',
    ensures
        first_dot(s, i) == j,
    decreases j - i,
{
    if i < j {
        lemma_first_dot_at(s, i + 1, j);
    }
}

pub open spec fn all_digits(s: Seq<char>) -> bool {
    forall|i: int| 0 <= i < s.len() ==> is_digit(#[trigger] s[i])
}

/// Canonical integer text `ip`: digits, not empty, no leading zero unless it
/// is `0` itself.
pub open spec fn canonical_integer(ip: Seq<char>) -> bool {
    &&& all_digits(ip)
    &&& ip.len() > 0
    &&& (ip[0] == '0' ==> ip == seq!['0'])
}

proof fn lemma_integer_text(t: Seq<char>)
    requires
        is_decimal_literal(t),
    ensures
        canonical_integer(integer_text(t)),
{
    let d = first_dot(t, 0);
    lemma_first_dot_bounds(t, 0);
    let h = t.take(d);
    lemma_strip_start_shape(h, '0');
    let ip = strip_start(h, '0');
    assert forall|i: int| 0 <= i < ip.len() implies is_digit(#[trigger] ip[i]) by {
        let k = h.len() - ip.len() + i;
        assert(ip[i] == t[k]);
        assert(t[k] != '.') by {
            lemma_first_dot_before(t, 0, k);
        }
    }
}

proof fn lemma_first_dot_bounds(s: Seq<char>, i: int)
    requires
        0 <= i <= s.len(),
    ensures
        i <= first_dot(s, i) <= s.len(),
        first_dot(s, i) < s.len() ==> s[first_dot(s, i)] == '.',
    decreases s.len() - i,
{
    if i < s.len() && s[i] != '.' {
        lemma_first_dot_bounds(s, i + 1);
    }
}

proof fn lemma_first_dot_before(s: Seq<char>, i: int, k: int)
    requires
        0 <= i <= k < first_dot(s, i),
    ensures
        s[k] != '.',
    decreases k - i,
{
    if i < k {
        lemma_first_dot_before(s, i + 1, k);
    }
}

/// The canonical text of `ip` followed by a point and `fp`, when `ip` is
/// canonical and `fp` is digits ending in a non-zero digit.
proof fn lemma_canonical_parts(ip: Seq<char>, fp: Seq<char>)
    requires
        canonical_integer(ip),
        all_digits(fp),
        fp.len() > 0 ==> fp.last() != '0',
    ensures
        number_text(if fp.len() > 0 { ip + seq!['.'] + fp } else { ip }) == if fp.len() > 0 {
            ip + seq!['.'] + fp
        } else {
            ip
        },
{
    lemma_strip_start_shape(ip, '0');
    if ip[0] == '0' {
        assert(ip.drop_first() =~= Seq::<char>::empty());
        assert(strip_start(ip.drop_first(), '0') == ip.drop_first());
    }
    if fp.len() > 0 {
        let r = ip + seq!['.'] + fp;
        assert forall|k: int| 0 <= k < ip.len() implies r[k] != '.' by {
            assert(r[k] == ip[k]);
            assert(is_digit(ip[k]));
        }
        lemma_first_dot_at(r, 0, ip.len() as int);
        assert(r.take(ip.len() as int) =~= ip);
        assert(r.skip(ip.len() as int + 1) =~= fp);
        assert(integer_text(r) == ip);
        lemma_strip_end_shape(fp, '0');
        assert(strip_end(fp, '0') == fp) by {
            assert(fp =~= fp.drop_last().push(fp.last()));
        }
        lemma_strip_end_concat(ip + seq!['.'], fp, '0');
        assert(is_digit(fp.last()));
    } else {
        assert forall|k: int| 0 <= k < ip.len() implies ip[k] != '.' by {
            assert(is_digit(ip[k]));
        }
        lemma_first_dot_at(ip, 0, ip.len() as int);
        assert(ip.take(ip.len() as int) =~= ip);
    }
}

/// Canonical number text splits into a canonical integer part and a
/// fractional part of digits that does not end in zero.
proof fn lemma_number_text_parts(t: Seq<char>) -> (fp: Seq<char>)
    requires
        is_decimal_literal(t),
    ensures
        all_digits(fp),
        fp.len() > 0 ==> fp.last() != '0',
        number_text(t) == if fp.len() > 0 {
            integer_text(t) + seq!['.'] + fp
        } else {
            integer_text(t)
        },
{
    let d = first_dot(t, 0);
    lemma_first_dot_bounds(t, 0);
    lemma_integer_text(t);
    let ip = integer_text(t);
    if d < t.len() {
        let f = t.skip(d + 1);
        assert forall|i: int| 0 <= i < f.len() implies is_digit(#[trigger] f[i]) by {
            assert(f[i] == t[d + 1 + i]);
            assert(t[d] == '.');
        }
        lemma_strip_end_shape(f, '0');
        let g = strip_end(f, '0');
        assert forall|i: int| 0 <= i < g.len() implies is_digit(#[trigger] g[i]) by {
            assert(g[i] == f[i]);
        }
        lemma_strip_end_concat(ip + seq!['.'], f, '0');
        if g.len() > 0 {
            assert(is_digit(g.last()));
            assert((ip + seq!['.'] + g).last() == g.last());
            assert(ip + seq!['.'] + g =~= ip + (seq!['.'] + g));
        } else {
            let x = ip + seq!['.'];
            assert(x.last() == '.');
            assert(strip_end(x, '0') == x);
            assert(x.drop_last() =~= ip);
        }
        g
    } else {
        Seq::empty()
    }
}

/// Canonical number text is itself a decimal literal, and rendering it
/// again gives it back unchanged.
pub proof fn lemma_number_text_idempotent(t: Seq<char>)
    requires
        is_decimal_literal(t),
    ensures
        is_decimal_literal(number_text(t)),
        number_text(number_text(t)) == number_text(t),
{
    let fp = lemma_number_text_parts(t);
    let ip = integer_text(t);
    lemma_integer_text(t);
    lemma_canonical_parts(ip, fp);
    let r = number_text(t);
    if fp.len() > 0 {
        assert forall|i: int| 0 <= i < r.len() implies is_digit(#[trigger] r[i]) || r[i] == '.' by {
            if i < ip.len() {
                assert(r[i] == ip[i]);
            } else if i > ip.len() {
                assert(r[i] == fp[i - ip.len() - 1]);
            }
        }
        assert forall|i: int, j: int| 0 <= i < j < r.len() && #[trigger] r[i] == '.' implies #[trigger] r[j]
            != '.' by {
            if i < ip.len() {
                assert(r[i] == ip[i]);
                assert(is_digit(ip[i]));
            } else {
                assert(r[j] == fp[j - ip.len() - 1]);
                assert(is_digit(fp[j - ip.len() - 1]));
            }
        }
        assert(r[0] == ip[0]);
        assert(is_digit(ip[0]));
    } else {
        assert(is_digit(r[0]));
    }
}

proof fn lemma_first_dot_shift(t: Seq<char>, i: int)
    requires
        0 <= i <= t.len(),
    ensures
        first_dot(seq!['0'] + t, i + 1) == first_dot(t, i) + 1,
    decreases t.len() - i,
{
    let u = seq!['0'] + t;
    if i < t.len() {
        assert(u[i + 1] == t[i]);
        if t[i] != '.' {
            lemma_first_dot_shift(t, i + 1);
        }
    }
}

proof fn lemma_first_dot_prefix(t: Seq<char>, c: char, i: int)
    requires
        0 <= i <= t.len(),
        first_dot(t, i) < t.len(),
    ensures
        first_dot(t.push(c), i) == first_dot(t, i),
    decreases t.len() - i,
{
    lemma_first_dot_bounds(t, i);
    assert(t.push(c)[i] == t[i]);
    if t[i] != '.' {
        lemma_first_dot_prefix(t, c, i + 1);
    }
}

/// A decimal literal with a fractional part and the same literal with one
/// more trailing zero denote the same number, and render to the same text.
pub proof fn lemma_number_text_trailing_zero(t: Seq<char>)
    requires
        is_decimal_literal(t),
        first_dot(t, 0) < t.len(),
    ensures
        number_text(t.push('0')) == number_text(t),
{
    let d = first_dot(t, 0);
    let u = t.push('0');
    lemma_first_dot_prefix(t, '0', 0);
    lemma_first_dot_bounds(t, 0);
    assert(u.take(d) =~= t.take(d));
    assert(u.skip(d + 1) =~= t.skip(d + 1).push('0'));
    let x = integer_text(t) + seq!['.'] + t.skip(d + 1);
    assert(integer_text(u) + seq!['.'] + u.skip(d + 1) =~= x.push('0'));
    assert(x.push('0').drop_last() =~= x);
}

/// A decimal literal and the same literal with one more leading zero denote
/// the same number, and render to the same text.
pub proof fn lemma_number_text_leading_zero(t: Seq<char>)
    requires
        is_decimal_literal(t),
    ensures
        number_text(seq!['0'] + t) == number_text(t),
{
    let u = seq!['0'] + t;
    let d = first_dot(t, 0);
    lemma_first_dot_bounds(t, 0);
    lemma_first_dot_shift(t, 0);
    assert(first_dot(u, 0) == first_dot(u, 1));
    assert(u.take(d + 1) =~= seq!['0'] + t.take(d));
    assert((seq!['0'] + t.take(d)).drop_first() =~= t.take(d));
    assert(strip_start(u.take(d + 1), '0') == strip_start(t.take(d), '0'));
    if d < t.len() {
        assert(u.skip(d + 2) =~= t.skip(d + 1));
    }
}

/// A decimal literal without a fractional part and the same literal with a
/// dangling decimal point denote the same number, and render to the same
/// text.
pub proof fn lemma_number_text_dangling_point(t: Seq<char>)
    requires
        is_decimal_literal(t),
        first_dot(t, 0) == t.len(),
    ensures
        number_text(t.push('.')) == number_text(t),
{
    let u = t.push('.');
    assert forall|k: int| 0 <= k < t.len() implies u[k] != '.' by {
        lemma_first_dot_before(t, 0, k);
    }
    lemma_first_dot_at(u, 0, t.len() as int);
    assert(u.take(t.len() as int) =~= t.take(t.len() as int));
    assert(u.skip(t.len() as int + 1) =~= Seq::<char>::empty());
    let x = integer_text(t) + seq!['.'];
    assert(integer_text(u) + seq!['.'] + u.skip(t.len() as int + 1) =~= x);
    assert(x.last() == '.');
    assert(strip_end(x, '0') == x);
    assert(x.drop_last() =~= integer_text(t));
}

proof fn lemma_push_zero_literal(t: Seq<char>)
    requires
        is_decimal_literal(t),
    ensures
        is_decimal_literal(t.push('0')),
        first_dot(t, 0) < t.len() ==> first_dot(t.push('0'), 0) == first_dot(t, 0),
{
    let u = t.push('0');
    assert(is_digit('0'));
    assert forall|i: int, j: int| 0 <= i < j < u.len() && #[trigger] u[i] == '.' implies #[trigger] u[j]
        != '.' by {
        if j < t.len() {
            assert(u[i] == t[i] && u[j] == t[j]);
        }
    }
    assert forall|i: int| 0 <= i < u.len() implies is_digit(#[trigger] u[i]) || u[i] == '.' by {
        if i < t.len() {
            assert(u[i] == t[i]);
        }
    }
    assert(u != seq!['.']) by {
        assert(u[u.len() - 1] == '0');
    }
    if first_dot(t, 0) < t.len() {
        lemma_first_dot_prefix(t, '0', 0);
    }
}

proof fn lemma_prepend_zero_literal(t: Seq<char>)
    requires
        is_decimal_literal(t),
    ensures
        is_decimal_literal(seq!['0'] + t),
        first_dot(seq!['0'] + t, 0) < (seq!['0'] + t).len() <==> first_dot(t, 0) < t.len(),
{
    let u = seq!['0'] + t;
    assert(is_digit('0'));
    assert forall|i: int, j: int| 0 <= i < j < u.len() && #[trigger] u[i] == '.' implies #[trigger] u[j]
        != '.' by {
        if i > 0 {
            assert(u[i] == t[i - 1] && u[j] == t[j - 1]);
        }
    }
    assert forall|i: int| 0 <= i < u.len() implies is_digit(#[trigger] u[i]) || u[i] == '.' by {
        if i > 0 {
            assert(u[i] == t[i - 1]);
        }
    }
    assert(u != seq!['.']) by {
        assert(u[0] == '0');
    }
    lemma_first_dot_bounds(t, 0);
    lemma_first_dot_shift(t, 0);
    assert(first_dot(u, 0) == first_dot(u, 1));
}

pub open spec fn zeros(n: nat) -> Seq<char> {
    Seq::new(n, |_i: int| '0')
}

/// Literals that differ only by zeros written before the integer part and
/// after the fractional part denote the same number, and render to the same
/// text.
pub proof fn lemma_number_text_zero_padding(t: Seq<char>, lead: nat, trail: nat)
    requires
        is_decimal_literal(t),
        trail > 0 ==> first_dot(t, 0) < t.len(),
    ensures
        is_decimal_literal(zeros(lead) + t + zeros(trail)),
        number_text(zeros(lead) + t + zeros(trail)) == number_text(t),
    decreases lead + trail,
{
    if trail > 0 {
        lemma_number_text_zero_padding(t, lead, (trail - 1) as nat);
        let v = zeros(lead) + t + zeros((trail - 1) as nat);
        assert(zeros(lead) + t + zeros(trail) =~= v.push('0'));
        if first_dot(v, 0) >= v.len() {
            lemma_prepend_zeros_dot(t, lead);
            lemma_push_zeros_dot(zeros(lead) + t, (trail - 1) as nat);
        }
        lemma_push_zero_literal(v);
        lemma_number_text_trailing_zero(v);
    } else if lead > 0 {
        lemma_number_text_zero_padding(t, (lead - 1) as nat, 0);
        let v = zeros((lead - 1) as nat) + t + zeros(0);
        assert(zeros(lead) + t + zeros(0) =~= seq!['0'] + v);
        lemma_prepend_zero_literal(v);
        lemma_number_text_leading_zero(v);
    } else {
        assert(zeros(0) + t + zeros(0) =~= t);
    }
}

proof fn lemma_prepend_zeros_dot(t: Seq<char>, lead: nat)
    requires
        is_decimal_literal(t),
        first_dot(t, 0) < t.len(),
    ensures
        is_decimal_literal(zeros(lead) + t),
        first_dot(zeros(lead) + t, 0) < (zeros(lead) + t).len(),
    decreases lead,
{
    if lead == 0 {
        assert(zeros(0) + t =~= t);
    } else {
        lemma_prepend_zeros_dot(t, (lead - 1) as nat);
        assert(zeros(lead) + t =~= seq!['0'] + (zeros((lead - 1) as nat) + t));
        lemma_prepend_zero_literal(zeros((lead - 1) as nat) + t);
    }
}

proof fn lemma_push_zeros_dot(t: Seq<char>, trail: nat)
    requires
        is_decimal_literal(t),
        first_dot(t, 0) < t.len(),
    ensures
        is_decimal_literal(t + zeros(trail)),
        first_dot(t + zeros(trail), 0) < (t + zeros(trail)).len(),
    decreases trail,
{
    if trail == 0 {
        assert(t + zeros(0) =~= t);
    } else {
        lemma_push_zeros_dot(t, (trail - 1) as nat);
        let v = t + zeros((trail - 1) as nat);
        assert(t + zeros(trail) =~= v.push('0'));
        lemma_push_zero_literal(v);
        lemma_first_dot_bounds(v, 0);
    }
}

#[derive(Clone, Copy, Debug, PartialEq, Eq, Structural)]
pub enum OperatorType {
    ADD,
    SUB,
    MUL,
    DIV,
}

pub open spec fn op_symbol(op: OperatorType) -> Seq<char> {
    match op {
        OperatorType::ADD => seq!['+'],
        OperatorType::SUB => seq!['-'],
        OperatorType::MUL => seq!['*'],
        OperatorType::DIV => seq!['/'],
    }
}

impl OperatorType {
    pub fn to_string(&self) -> (r: String)
        ensures
            r@ == op_symbol(*self),
    {
        let mut out = String::new();
        let c = match self {
            OperatorType::ADD => '+',
            OperatorType::SUB => '-',
            OperatorType::MUL => '*',
            OperatorType::DIV => '/',
        };
        push_char(&mut out, c);
        out
    }
}

/// A numeric leaf, kept as the decimal literal it was written with.
pub struct Number {
    text: String,
}

/// A named variable.
pub struct Symbol {
    name: String,
}

/// An operator applied to two owned operands.
pub struct BinaryOperation {
    left: Box<Expr>,
    operator: OperatorType,
    right: Box<Expr>,
}

/// A named function applied to one owned argument.
pub struct Function {
    name: String,
    argument: Box<Expr>,
}

/// An expression tree; each node owns its children.
pub enum Expr {
    Number(Number),
    Symbol(Symbol),
    BinaryOperation(BinaryOperation),
    Function(Function),
}

/// Operations over the tree, one method per kind of node.
/// Each kind of node has a step relation that the visitor's method for that
/// kind establishes between the visitor before and after the visit.
pub trait ExprVisitor: Sized {
    spec fn binary_op_step(before: Self, after: Self, node: BinaryOperation) -> bool;

    spec fn function_step(before: Self, after: Self, node: Function) -> bool;

    spec fn number_step(before: Self, after: Self, node: Number) -> bool;

    spec fn symbol_step(before: Self, after: Self, node: Symbol) -> bool;

    fn visit_binary_op(&mut self, node: &BinaryOperation)
        ensures
            Self::binary_op_step(*old(self), *final(self), *node),
    ;

    fn visit_function(&mut self, node: &Function)
        ensures
            Self::function_step(*old(self), *final(self), *node),
    ;

    fn visit_number(&mut self, node: &Number)
        ensures
            Self::number_step(*old(self), *final(self), *node),
    ;

    fn visit_symbol(&mut self, node: &Symbol)
        ensures
            Self::symbol_step(*old(self), *final(self), *node),
    ;
}

/// Canonical text of a tree: operations fully parenthesised, functions
/// applied with parentheses, numbers in canonical form, symbols verbatim.
pub closed spec fn expr_text(e: Expr) -> Seq<char>
    decreases e,
{
    match e {
        Expr::Number(n) => number_text(n.text@),
        Expr::Symbol(s) => s.name@,
        Expr::BinaryOperation(b) => seq!['('] + expr_text(*b.left) + seq![' '] + op_symbol(
            b.operator,
        ) + seq![' '] + expr_text(*b.right) + seq![')'],
        Expr::Function(f) => f.name@ + seq!['('] + expr_text(*f.argument) + seq![')'],
    }
}

impl Number {
    pub closed spec fn literal(&self) -> Seq<char> {
        self.text@
    }

    pub open spec fn wf(&self) -> bool {
        is_decimal_literal(self.literal())
    }

    /// A number written as `text`; `None` unless it is a decimal literal.
    pub fn new(text: &str) -> (r: Option<Number>)
        ensures
            r is Some <==> is_decimal_literal(text@),
            r matches Some(n) ==> n.literal() == text@ && n.wf(),
    {
        let cs = chars_of(text);
        let ghost t = cs@;
        if cs.len() == 0 || (cs.len() == 1 && cs[0] == '.') {
            proof {
                if cs.len() == 1 {
                    assert(t =~= seq!['.']);
                }
            }
            return None;
        }
        let mut seen_dot = false;
        let mut i: usize = 0;
        while i < cs.len()
            invariant
                cs@ == t,
                t == text@,
                i <= t.len(),
                forall|k: int| 0 <= k < i ==> is_digit(#[trigger] t[k]) || t[k] == '.',
                forall|a: int, b: int|
                    0 <= a < b < i && #[trigger] t[a] == '.' ==> #[trigger] t[b] != '.',
                seen_dot <==> exists|k: int| 0 <= k < i && #[trigger] t[k] == '.',
            decreases t.len() - i,
        {
            let c = cs[i];
            if c == '.' {
                if seen_dot {
                    proof {
                        let k = choose|k: int| 0 <= k < i && t[k] == '.';
                        assert(!is_decimal_literal(t)) by {
                            if is_decimal_literal(t) {
                                assert(t[k] == '.' ==> t[i as int] != '.');
                            }
                        }
                    }
                    return None;
                }
                seen_dot = true;
            } else if !is_ascii_digit(c) {
                assert(!is_decimal_literal(t)) by {
                    if is_decimal_literal(t) {
                        assert(is_digit(t[i as int]) || t[i as int] == '.');
                    }
                }
                return None;
            }
            i = i + 1;
        }
        assert(t != seq!['.']) by {
            if t =~= seq!['.'] {
                assert(cs.len() == 1);
            }
        }
        Some(Number { text: text.to_owned() })
    }

    /// The literal as written.
    pub fn text(&self) -> (r: &str)
        ensures
            r@ == self.literal(),
    {
        self.text.as_str()
    }

    pub fn to_string(&self) -> (r: String)
        ensures
            r@ == number_text(self.literal()),
            r@ == expr_text(Expr::Number(*self)),
    {
        let cs = chars_of(self.text.as_str());
        let ghost t = cs@;
        let mut d: usize = 0;
        while d < cs.len() && cs[d] != '.'
            invariant
                cs@ == t,
                d <= t.len(),
                first_dot(t, d as int) == first_dot(t, 0),
            decreases t.len() - d,
        {
            d = d + 1;
        }
        let mut a: usize = 0;
        assert(t.take(d as int).skip(0) =~= t.take(d as int));
        while a < d && cs[a] == '0'
            invariant
                cs@ == t,
                a <= d <= t.len(),
                strip_start(t.take(d as int).skip(a as int), '0') == strip_start(
                    t.take(d as int),
                    '0',
                ),
            decreases d - a,
        {
            assert(t.take(d as int).skip(a as int).drop_first() =~= t.take(d as int).skip(a + 1));
            a = a + 1;
        }
        let mut out = String::new();
        if a == d {
            assert(t.take(d as int).skip(a as int).len() == 0);
            push_char(&mut out, '0');
        } else {
            let mut k = a;
            while k < d
                invariant
                    cs@ == t,
                    a <= k <= d <= t.len(),
                    out@ == t.subrange(a as int, k as int),
                decreases d - k,
            {
                push_char(&mut out, cs[k]);
                k = k + 1;
                assert(out@ =~= t.subrange(a as int, k as int));
            }
            assert(t.take(d as int).skip(a as int) =~= t.subrange(a as int, d as int));
        }
        assert(out@ == integer_text(t));
        assert(first_dot(t, d as int) == d);
        if d < cs.len() {
            let ghost ip = out@;
            push_char(&mut out, '.');
            let mut k = d + 1;
            let ghost base = out@;
            while k < cs.len()
                invariant
                    cs@ == t,
                    d < k <= t.len(),
                    out@ == base + t.subrange(d + 1, k as int),
                decreases t.len() - k,
            {
                push_char(&mut out, cs[k]);
                k = k + 1;
                assert(out@ =~= base + t.subrange(d + 1, k as int));
            }
            assert(t.subrange(d + 1, t.len() as int) =~= t.skip(d + 1));
            assert(out@ =~= ip + seq!['.'] + t.skip(d + 1));
            trim_trailing('0', &mut out);
        }
        out
    }
}

impl Number {
    pub fn clone_box(&self) -> (r: Box<Expr>)
        ensures
            *r == Expr::Number(*self),
    {
        Box::new(Expr::Number(Number { text: self.text.clone() }))
    }

    /// Hands this node to the visitor's method for its kind.
    pub fn accept<V: ExprVisitor>(&self, visitor: &mut V)
        ensures
            V::number_step(*old(visitor), *final(visitor), *self),
    {
        visitor.visit_number(self);
    }
}

impl Symbol {
    pub closed spec fn name_view(&self) -> Seq<char> {
        self.name@
    }

    pub fn new(name: &str) -> (r: Symbol)
        ensures
            r.name_view() == name@,
    {
        Symbol { name: name.to_owned() }
    }

    pub fn name(&self) -> (r: &str)
        ensures
            r@ == self.name_view(),
    {
        self.name.as_str()
    }

    pub fn to_string(&self) -> (r: String)
        ensures
            r@ == expr_text(Expr::Symbol(*self)),
            r@ == self.name_view(),
    {
        self.name.clone()
    }

    pub fn clone_box(&self) -> (r: Box<Expr>)
        ensures
            *r == Expr::Symbol(*self),
    {
        Box::new(Expr::Symbol(Symbol { name: self.name.clone() }))
    }

    /// Hands this node to the visitor's method for its kind.
    pub fn accept<V: ExprVisitor>(&self, visitor: &mut V)
        ensures
            V::symbol_step(*old(visitor), *final(visitor), *self),
    {
        visitor.visit_symbol(self);
    }
}

impl BinaryOperation {
    pub closed spec fn left_view(&self) -> Expr {
        *self.left
    }

    pub closed spec fn right_view(&self) -> Expr {
        *self.right
    }

    pub closed spec fn operator_view(&self) -> OperatorType {
        self.operator
    }

    pub fn new(left: Box<Expr>, operator: OperatorType, right: Box<Expr>) -> (r: BinaryOperation)
        ensures
            r.left_view() == *left,
            r.operator_view() == operator,
            r.right_view() == *right,
    {
        BinaryOperation { left, operator, right }
    }

    pub fn left(&self) -> (r: &Expr)
        ensures
            *r == self.left_view(),
    {
        &self.left
    }

    pub fn right(&self) -> (r: &Expr)
        ensures
            *r == self.right_view(),
    {
        &self.right
    }

    pub fn operator(&self) -> (r: OperatorType)
        ensures
            r == self.operator_view(),
    {
        self.operator
    }

    pub fn to_string(&self) -> (r: String)
        ensures
            r@ == expr_text(Expr::BinaryOperation(*self)),
            r@ == seq!['('] + expr_text(self.left_view()) + seq![' '] + op_symbol(
                self.operator_view(),
            ) + seq![' '] + expr_text(self.right_view()) + seq![')'],
        decreases self,
    {
        let mut out = String::new();
        push_char(&mut out, '(');
        let l = self.left.to_string();
        push_text(&mut out, l.as_str());
        push_char(&mut out, ' ');
        let o = self.operator.to_string();
        push_text(&mut out, o.as_str());
        push_char(&mut out, ' ');
        let r = self.right.to_string();
        push_text(&mut out, r.as_str());
        push_char(&mut out, ')');
        assert(out@ =~= expr_text(Expr::BinaryOperation(*self)));
        out
    }

    pub fn clone_box(&self) -> (r: Box<Expr>)
        ensures
            *r == Expr::BinaryOperation(*self),
        decreases self,
    {
        let left = self.left.clone_box();
        let right = self.right.clone_box();
        Box::new(Expr::BinaryOperation(BinaryOperation { left, operator: self.operator, right }))
    }

    /// Hands this node to the visitor's method for its kind.
    pub fn accept<V: ExprVisitor>(&self, visitor: &mut V)
        ensures
            V::binary_op_step(*old(visitor), *final(visitor), *self),
    {
        visitor.visit_binary_op(self);
    }
}

impl Function {
    pub closed spec fn name_view(&self) -> Seq<char> {
        self.name@
    }

    pub closed spec fn argument_view(&self) -> Expr {
        *self.argument
    }

    pub fn new(name: &str, argument: Box<Expr>) -> (r: Function)
        ensures
            r.name_view() == name@,
            r.argument_view() == *argument,
    {
        Function { name: name.to_owned(), argument }
    }

    pub fn name(&self) -> (r: &str)
        ensures
            r@ == self.name_view(),
    {
        self.name.as_str()
    }

    pub fn argument(&self) -> (r: &Expr)
        ensures
            *r == self.argument_view(),
    {
        &self.argument
    }

    pub fn to_string(&self) -> (r: String)
        ensures
            r@ == expr_text(Expr::Function(*self)),
            r@ == self.name_view() + seq!['('] + expr_text(self.argument_view()) + seq![')'],
        decreases self,
    {
        let mut out = self.name.clone();
        push_char(&mut out, '(');
        let a = self.argument.to_string();
        push_text(&mut out, a.as_str());
        push_char(&mut out, ')');
        assert(out@ =~= expr_text(Expr::Function(*self)));
        out
    }

    pub fn clone_box(&self) -> (r: Box<Expr>)
        ensures
            *r == Expr::Function(*self),
        decreases self,
    {
        let argument = self.argument.clone_box();
        Box::new(Expr::Function(Function { name: self.name.clone(), argument }))
    }

    /// Hands this node to the visitor's method for its kind.
    pub fn accept<V: ExprVisitor>(&self, visitor: &mut V)
        ensures
            V::function_step(*old(visitor), *final(visitor), *self),
    {
        visitor.visit_function(self);
    }
}

impl Expr {
    /// Canonical text of the tree.
    pub fn to_string(&self) -> (r: String)
        ensures
            r@ == expr_text(*self),
        decreases self,
    {
        match self {
            Expr::Number(n) => n.to_string(),
            Expr::Symbol(s) => s.to_string(),
            Expr::BinaryOperation(b) => b.to_string(),
            Expr::Function(f) => f.to_string(),
        }
    }

    /// A structurally identical tree that shares no storage with this one.
    pub fn clone_box(&self) -> (r: Box<Expr>)
        ensures
            *r == *self,
        decreases self,
    {
        match self {
            Expr::Number(n) => n.clone_box(),
            Expr::Symbol(s) => s.clone_box(),
            Expr::BinaryOperation(b) => b.clone_box(),
            Expr::Function(f) => f.clone_box(),
        }
    }

    /// Hands the root node to the visitor method for its kind.
    pub fn accept<V: ExprVisitor>(&self, visitor: &mut V)
        ensures
            match *self {
                Expr::Number(n) => V::number_step(*old(visitor), *final(visitor), n),
                Expr::Symbol(n) => V::symbol_step(*old(visitor), *final(visitor), n),
                Expr::BinaryOperation(n) => V::binary_op_step(*old(visitor), *final(visitor), n),
                Expr::Function(n) => V::function_step(*old(visitor), *final(visitor), n),
            },
    {
        match self {
            Expr::Number(n) => n.accept(visitor),
            Expr::Symbol(s) => s.accept(visitor),
            Expr::BinaryOperation(b) => b.accept(visitor),
            Expr::Function(f) => f.accept(visitor),
        }
    }
}

/// Copying a tree and rendering the copy gives the same text as rendering
/// the tree itself.
pub proof fn lemma_clone_renders_same(t: Expr, copy: Expr)
    requires
        copy == t,
    ensures
        expr_text(copy) == expr_text(t),
{
}

} // verus!
