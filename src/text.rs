//! Small verified helpers over strings.
use vstd::prelude::*;

verus! {

/// Whether two strings hold the same characters.
pub fn str_eq(a: &str, b: &str) -> (r: bool)
    ensures
        r == (a@ == b@),
{
    let x = a.to_owned();
    let y = b.to_owned();
    x == y
}

/// The characters of `s`, one by one.
pub fn chars_of(s: &str) -> (r: Vec<char>)
    ensures
        r@ == s@,
{
    let n = s.unicode_len();
    let mut r: Vec<char> = Vec::new();
    let mut i: usize = 0;
    while i < n
        invariant
            n == s@.len(),
            i <= n,
            r@ == s@.subrange(0, i as int),
        decreases n - i,
    {
        r.push(s.get_char(i));
        i = i + 1;
    }
    assert(r@ =~= s@);
    r
}

/// Whether `s` holds `c` somewhere.
pub open spec fn has_char(s: Seq<char>, c: char) -> bool {
    exists|i: int| 0 <= i < s.len() && s[i] == c
}

/// Whether the characters of `p` from position `from` on hold `c`.
pub fn contains_char_from(p: &Vec<char>, from: usize, c: char) -> (r: bool)
    requires
        from <= p@.len(),
    ensures
        r == has_char(p@.subrange(from as int, p@.len() as int), c),
{
    let mut i: usize = from;
    while i < p.len()
        invariant
            from <= i <= p@.len(),
            forall|j: int| from <= j < i ==> p@[j] != c,
        decreases p@.len() - i,
    {
        if p[i] == c {
            assert(p@.subrange(from as int, p@.len() as int)[i - from] == c);
            return true;
        }
        i = i + 1;
    }
    assert forall|j: int| 0 <= j < p@.len() - from implies
        #[trigger] p@.subrange(from as int, p@.len() as int)[j] != c by {
        assert(p@[j + from] != c);
    }
    false
}

} // verus!
