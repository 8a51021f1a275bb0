use vstd::prelude::*;
use vstd::std_specs::iter::IteratorSpec;

verus! {

/// Whether `s` matches the pattern `p`: `%` stands for any run of characters,
/// `_` for exactly one character, and every other character for itself.
/// Characters compare exactly (case matters), and there is no escape
/// character: `%` and `_` always act as wildcards.
pub open spec fn like_match(p: Seq<char>, s: Seq<char>) -> bool
    decreases p.len() + s.len(),
{
    if p.len() == 0 {
        s.len() == 0
    } else if p[0] == '%' {
        like_match(p.drop_first(), s) || (s.len() > 0 && like_match(p, s.drop_first()))
    } else if p[0] == '_' {
        s.len() > 0 && like_match(p.drop_first(), s.drop_first())
    } else {
        s.len() > 0 && s[0] == p[0] && like_match(p.drop_first(), s.drop_first())
    }
}

/// The characters of `s`, in order.
pub fn chars_of(s: &String) -> (r: Vec<char>)
    ensures
        r@ == s@,
{
    let mut out: Vec<char> = Vec::new();
    for c in it: s.as_str().chars()
        invariant
            out@ == it.seq().take(it.index() as int),
    {
        out.push(c);
        assert(out@ =~= it.seq().take(it.index() as int + 1));
    }
    assert(out@ =~= s@);
    out
}

fn like_from(p: &Vec<char>, i: usize, s: &Vec<char>, j: usize) -> (r: bool)
    requires
        i <= p@.len(),
        j <= s@.len(),
    ensures
        r == like_match(p@.skip(i as int), s@.skip(j as int)),
    decreases p@.len() - i + s@.len() - j,
{
    let ghost ps = p@.skip(i as int);
    let ghost ss = s@.skip(j as int);
    if i == p.len() {
        return j == s.len();
    }
    assert(ps.drop_first() =~= p@.skip(i + 1));
    assert(j < s@.len() ==> ss.drop_first() =~= s@.skip(j + 1));
    if p[i] == '%' {
        if like_from(p, i + 1, s, j) {
            true
        } else if j < s.len() {
            like_from(p, i, s, j + 1)
        } else {
            false
        }
    } else if j == s.len() {
        false
    } else if p[i] == '_' {
        like_from(p, i + 1, s, j + 1)
    } else if p[i] == s[j] {
        like_from(p, i + 1, s, j + 1)
    } else {
        false
    }
}

/// Whether `key` matches `pattern` (see `like_match`).
pub fn matches_like(pattern: &String, key: &String) -> (r: bool)
    ensures
        r == like_match(pattern@, key@),
{
    let p = chars_of(pattern);
    let s = chars_of(key);
    assert(p@.skip(0) =~= p@);
    assert(s@.skip(0) =~= s@);
    like_from(&p, 0, &s, 0)
}

} // verus!
