//! The few operations on texts that the engine needs: prefix tests and
//! cutting a text at a position.

use vstd::prelude::*;

verus! {

/// Whether `text` begins with `prefix`.
pub fn starts_with(text: &str, prefix: &str) -> (yes: bool)
    ensures
        yes == prefix@.is_prefix_of(text@),
{
    let n = text.unicode_len();
    let m = prefix.unicode_len();
    if m > n {
        return false;
    }
    let mut i: usize = 0;
    while i < m
        invariant
            0 <= i <= m,
            m <= n,
            n == text@.len(),
            m == prefix@.len(),
            forall|k: int| 0 <= k < i ==> text@[k] == prefix@[k],
        decreases m - i,
    {
        if text.get_char(i) != prefix.get_char(i) {
            assert(text@.subrange(0, m as int)[i as int] != prefix@[i as int]);
            return false;
        }
        i += 1;
    }
    assert(prefix@ =~= text@.subrange(0, m as int));
    true
}

/// The characters of `text` from position `from` up to position `to`.
pub fn slice(text: &str, from: usize, to: usize) -> (part: String)
    requires
        from <= to <= text@.len(),
    ensures
        part@ == text@.subrange(from as int, to as int),
{
    String::from_str(text.substring_char(from, to))
}

/// The characters that count as blank at the end of a line.
pub open spec fn is_blank(c: char) -> bool {
    c == ' ' || c == '\n' || c == '\r' || c == '\t'
}

/// How many characters of `text` are left when the blanks at its end are cut.
pub open spec fn trimmed_len(text: Seq<char>) -> nat
    decreases text.len(),
{
    if text.len() > 0 && is_blank(text.last()) {
        trimmed_len(text.drop_last())
    } else {
        text.len()
    }
}

/// `text` without the blanks at its end.
pub open spec fn trim_end(text: Seq<char>) -> Seq<char> {
    text.take(trimmed_len(text) as int)
}

/// Cuts the blanks (space, tab, carriage return, line feed) off the end.
pub fn trim_blank_end(text: &str) -> (cut: String)
    ensures
        cut@ == trim_end(text@),
{
    let mut n = text.unicode_len();
    assert(text@.take(n as int) =~= text@);
    while n > 0 && is_blank_char(text.get_char(n - 1))
        invariant
            0 <= n <= text@.len(),
            trimmed_len(text@) == trimmed_len(text@.take(n as int)),
        decreases n,
    {
        assert(text@.take(n as int).last() == text@[n - 1]);
        assert(text@.take(n as int).drop_last() =~= text@.take(n - 1));
        n -= 1;
    }
    proof {
        if n > 0 {
            assert(text@.take(n as int).last() == text@[n - 1]);
        }
        assert(trimmed_len(text@.take(n as int)) == n);
    }
    slice(text, 0, n)
}

fn is_blank_char(c: char) -> (yes: bool)
    ensures
        yes == is_blank(c),
{
    c == ' ' || c == '\n' || c == '\r' || c == '\t'
}

/// `text` with every leading copy of `prefix` removed.
pub open spec fn strip_all(text: Seq<char>, prefix: Seq<char>) -> Seq<char>
    decreases text.len(),
{
    if prefix.len() > 0 && prefix.is_prefix_of(text) {
        strip_all(text.skip(prefix.len() as int), prefix)
    } else {
        text
    }
}

/// Removes every leading copy of `prefix`.
pub fn strip_leading(text: &str, prefix: &str) -> (rest: String)
    ensures
        rest@ == strip_all(text@, prefix@),
{
    let n = text.unicode_len();
    let m = prefix.unicode_len();
    if m == 0 {
        assert(text@.subrange(0, n as int) =~= text@);
        return slice(text, 0, n);
    }
    let mut from: usize = 0;
    assert(text@.skip(0) =~= text@);
    loop
        invariant
            0 <= from <= n,
            n == text@.len(),
            m == prefix@.len(),
            m > 0,
            strip_all(text@, prefix@) == strip_all(text@.skip(from as int), prefix@),
        decreases n - from,
    {
        let rest = text.substring_char(from, n);
        assert(rest@ =~= text@.skip(from as int));
        if !starts_with(rest, prefix) {
            return String::from_str(rest);
        }
        assert(text@.skip(from as int).skip(m as int) =~= text@.skip(from + m));
        from = from + m;
    }
}

} // verus!
