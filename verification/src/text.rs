//! Moving between strings and vectors of characters.

use vstd::prelude::*;

verus! {

/// The characters of `s`, in order.
pub fn chars_of(s: &str) -> (v: Vec<char>)
    ensures
        v@ == s@,
{
    let mut v: Vec<char> = Vec::new();
    for c in it: s.chars()
        invariant
            it.seq() == s@,
            v@ == it.seq().take(it.index() as int),
    {
        v.push(c);
    }
    v
}

/// `String::push` of the standard library appends the character to the end
/// of the string and leaves the rest as it was.
pub assume_specification[ String::push ](s: &mut String, c: char)
    ensures
        final(s)@ == old(s)@.push(c),
;

/// The string made of the characters of `text` from `from` on.
pub fn string_from(text: &[char], from: usize) -> (s: String)
    requires
        from <= text.len(),
    ensures
        s@ == text@.subrange(from as int, text.len() as int),
{
    let mut s = String::new();
    let mut i: usize = from;
    while i < text.len()
        invariant
            from <= i <= text.len(),
            s@ == text@.subrange(from as int, i as int),
        decreases text.len() - i,
    {
        s.push(text[i]);
        i += 1;
    }
    s
}

/// Whether the characters of `word` stand in `text` from `at` on.
pub fn has_at(text: &[char], at: usize, word: &str) -> (found: bool)
    requires
        at <= text.len(),
    ensures
        found == word@.is_prefix_of(text@.skip(at as int)),
{
    let letters = chars_of(word);
    let ghost rest = text@.skip(at as int);
    if letters.len() > text.len() - at {
        return false;
    }
    let mut i: usize = 0;
    while i < letters.len()
        invariant
            i <= letters.len() <= text.len() - at,
            letters@ == word@,
            rest == text@.skip(at as int),
            letters@.take(i as int) == rest.take(i as int),
        decreases letters.len() - i,
    {
        if letters[i] != text[at + i] {
            assert(word@[i as int] != rest.subrange(0, word@.len() as int)[i as int]);
            return false;
        }
        i += 1;
        proof {
            assert(letters@.take(i as int) =~= letters@.take(i - 1).push(letters@[i - 1]));
            assert(rest.take(i as int) =~= rest.take(i - 1).push(rest[i - 1]));
        }
    }
    proof {
        assert(letters@.take(letters.len() as int) =~= letters@);
        assert(rest.take(letters.len() as int) =~= rest.subrange(0, word@.len() as int));
    }
    true
}

/// Whether `a` and `b` hold the same characters.
pub fn same_text(a: &str, b: &str) -> (same: bool)
    ensures
        same == (a@ == b@),
{
    let left = chars_of(a);
    let right = chars_of(b);
    if left.len() != right.len() {
        return false;
    }
    let mut i: usize = 0;
    while i < left.len()
        invariant
            i <= left.len(),
            left@ == a@,
            right@ == b@,
            left.len() == right.len(),
            left@.take(i as int) == right@.take(i as int),
        decreases left.len() - i,
    {
        if left[i] != right[i] {
            assert(a@[i as int] != b@[i as int]);
            return false;
        }
        i += 1;
        proof {
            assert(left@.take(i as int) =~= left@.take(i - 1).push(left@[i - 1]));
            assert(right@.take(i as int) =~= right@.take(i - 1).push(right@[i - 1]));
        }
    }
    proof {
        assert(left@.take(left.len() as int) =~= left@);
        assert(right@.take(right.len() as int) =~= right@);
    }
    true
}

} // verus!
