//! Strings as sequences of characters.
use vstd::prelude::*;
use vstd::string::*;

verus! {

/// A copy of a string.
pub fn copy_chars(s: &Vec<char>) -> (r: Vec<char>)
    ensures
        r@ == s@,
{
    let mut r: Vec<char> = Vec::new();
    let mut i: usize = 0;
    while i < s.len()
        invariant
            i <= s.len(),
            r@ == s@.subrange(0, i as int),
        decreases s.len() - i,
    {
        r.push(s[i]);
        i = i + 1;
    }
    assert(s@.subrange(0, s.len() as int) =~= s@);
    r
}

/// Whether two strings are the same.
pub fn same_chars(a: &Vec<char>, b: &Vec<char>) -> (r: bool)
    ensures
        r == (a@ == b@),
{
    if a.len() != b.len() {
        return false;
    }
    let mut i: usize = 0;
    while i < a.len()
        invariant
            i <= a.len(),
            a.len() == b.len(),
            forall|j: int| 0 <= j < i ==> a@[j] == b@[j],
        decreases a.len() - i,
    {
        if a[i] != b[i] {
            return false;
        }
        i = i + 1;
    }
    assert(a@ =~= b@);
    true
}

/// The characters of `s` from `from` to `to`.
pub fn slice_chars(s: &Vec<char>, from: usize, to: usize) -> (r: Vec<char>)
    requires
        from <= to <= s.len(),
    ensures
        r@ == s@.subrange(from as int, to as int),
{
    let mut out: Vec<char> = Vec::new();
    let mut i: usize = from;
    while i < to
        invariant
            from <= i <= to <= s.len(),
            out@ == s@.subrange(from as int, i as int),
        decreases to - i,
    {
        out.push(s[i]);
        i = i + 1;
    }
    out
}

/// Whether `part` stands in `s` at `at`.
pub fn chars_at(s: &Vec<char>, at: usize, part: &Vec<char>) -> (r: bool)
    requires
        at + part.len() <= s.len(),
    ensures
        r == (s@.subrange(at as int, at + part.len()) == part@),
{
    let mut i: usize = 0;
    while i < part.len()
        invariant
            i <= part.len(),
            at + part.len() <= s.len(),
            forall|j: int| 0 <= j < i ==> s@[at + j] == part@[j],
        decreases part.len() - i,
    {
        if s[at + i] != part[i] {
            assert(s@.subrange(at as int, at + part.len())[i as int] != part@[i as int]);
            return false;
        }
        i = i + 1;
    }
    assert(s@.subrange(at as int, at + part.len()) =~= part@);
    true
}

/// What stands at `i` where `tile` is laid end to end.
pub open spec fn laid<A>(tile: Seq<A>, i: int) -> A {
    tile[i % (tile.len() as int)]
}

/// Whether every character of `s` is the one that `tile`, laid end to end,
/// has at that place.
pub fn chars_repeat(s: &Vec<char>, tile: &Vec<char>) -> (r: bool)
    requires
        tile.len() > 0,
    ensures
        r == (forall|i: int| 0 <= i < s.len() ==> #[trigger] laid(tile@, i) == s@[i]),
{
    let mut i: usize = 0;
    while i < s.len()
        invariant
            i <= s.len(),
            tile.len() > 0,
            forall|j: int| 0 <= j < i ==> #[trigger] laid(tile@, j) == s@[j],
        decreases s.len() - i,
    {
        if s[i] != tile[i % tile.len()] {
            assert(laid(tile@, i as int) != s@[i as int]);
            return false;
        }
        assert(laid(tile@, i as int) == s@[i as int]);
        i = i + 1;
    }
    true
}

/// Whether two pieces of text are the same.
pub fn same_text(a: &str, b: &str) -> (r: bool)
    ensures
        r == (a@ == b@),
{
    let n = a.unicode_len();
    if n != b.unicode_len() {
        return false;
    }
    let mut i: usize = 0;
    while i < n
        invariant
            i <= n,
            n == a@.len(),
            n == b@.len(),
            forall|j: int| 0 <= j < i ==> a@[j] == b@[j],
        decreases n - i,
    {
        if a.get_char(i) != b.get_char(i) {
            return false;
        }
        i = i + 1;
    }
    assert(a@ =~= b@);
    true
}

/// Whether the characters of `s` are those of `word`.
pub fn spells(s: &Vec<char>, word: &str) -> (r: bool)
    ensures
        r == (s@ == word@),
{
    let n = word.unicode_len();
    if n != s.len() {
        return false;
    }
    let mut i: usize = 0;
    while i < n
        invariant
            i <= n,
            n == s@.len(),
            n == word@.len(),
            forall|j: int| 0 <= j < i ==> s@[j] == word@[j],
        decreases n - i,
    {
        if s[i] != word.get_char(i) {
            return false;
        }
        i = i + 1;
    }
    assert(s@ =~= word@);
    true
}

} // verus!
