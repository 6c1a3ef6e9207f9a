use vstd::prelude::*;

use crate::text::chars_of;

verus! {

/// `s` without its trailing run of `c`.
pub open spec fn strip_end(s: Seq<char>, c: char) -> Seq<char>
    decreases s.len(),
{
    if s.len() > 0 && s.last() == c {
        strip_end(s.drop_last(), c)
    } else {
        s
    }
}

/// `s` without its trailing run of `c`, then without one dangling point.
pub open spec fn trimmed(s: Seq<char>, c: char) -> Seq<char> {
    let t = strip_end(s, c);
    if t.len() > 0 && t.last() == '.' {
        t.drop_last()
    } else {
        t
    }
}

/// Relies on `String::pop`: removes the last character, if any.
#[verifier::external_body]
fn pop_char(s: &mut String)
    ensures
        old(s)@.len() > 0 ==> final(s)@ == old(s)@.drop_last(),
        old(s)@.len() == 0 ==> final(s)@ == old(s)@,
{
    s.pop();
}

/// Removes every trailing `end` from `s`, then a trailing decimal point.
pub fn trim_trailing(end: char, s: &mut String)
    ensures
        final(s)@ == trimmed(old(s)@, end),
{
    let cs = chars_of(s.as_str());
    let ghost t = cs@;
    let mut k = cs.len();
    assert(t.take(k as int) =~= t);
    while k > 0 && cs[k - 1] == end
        invariant
            k <= t.len(),
            cs@ == t,
            strip_end(t.take(k as int), end) == strip_end(t, end),
        decreases k,
    {
        assert(t.take(k as int).drop_last() =~= t.take(k - 1));
        k = k - 1;
    }
    assert(strip_end(t, end) == t.take(k as int));
    if k > 0 && cs[k - 1] == '.' {
        assert(t.take(k as int).drop_last() =~= t.take(k - 1));
        k = k - 1;
    }
    assert(trimmed(t, end) == t.take(k as int));
    let mut n = cs.len();
    while n > k
        invariant
            k <= n <= t.len(),
            s@ == t.take(n as int),
        decreases n,
    {
        pop_char(s);
        assert(t.take(n as int).drop_last() =~= t.take(n - 1));
        n = n - 1;
    }
}

} // verus!
