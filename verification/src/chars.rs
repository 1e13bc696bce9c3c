use vstd::prelude::*;

verus! {

/// Relies on String's FromIterator: collecting characters yields a
/// string whose character sequence is exactly the input.
#[verifier::external_body]
pub(crate) fn chars_to_string(v: &[char]) -> (r: String)
    ensures
        r@ == v@,
{
    v.iter().collect()
}

/// Relies on str::chars: the characters of the string, in order.
#[verifier::external_body]
pub(crate) fn str_to_chars(s: &str) -> (r: Vec<char>)
    ensures
        r@ == s@,
{
    s.chars().collect()
}

/// A copy of `cs[a, b)`.
pub(crate) fn copy_range(cs: &Vec<char>, a: usize, b: usize) -> (r: Vec<char>)
    requires
        a <= b <= cs@.len(),
    ensures
        r@ == cs@.subrange(a as int, b as int),
{
    let mut out: Vec<char> = Vec::new();
    let mut i = a;
    while i < b
        invariant
            a <= i <= b <= cs@.len(),
            out@ =~= cs@.subrange(a as int, i as int),
        decreases b - i,
    {
        out.push(cs[i]);
        proof {
            assert(out@ =~= cs@.subrange(a as int, i + 1));
        }
        i = i + 1;
    }
    proof {
        assert(out@ =~= cs@.subrange(a as int, b as int));
    }
    out
}

/// Appends `src[a, b)` to `dest`.
pub(crate) fn append_range(dest: &mut Vec<char>, src: &Vec<char>, a: usize, b: usize)
    requires
        a <= b <= src@.len(),
    ensures
        final(dest)@ == old(dest)@ + src@.subrange(a as int, b as int),
{
    let ghost base = dest@;
    let mut i = a;
    while i < b
        invariant
            a <= i <= b <= src@.len(),
            dest@ =~= base + src@.subrange(a as int, i as int),
        decreases b - i,
    {
        dest.push(src[i]);
        proof {
            assert(dest@ =~= base + src@.subrange(a as int, i + 1));
        }
        i = i + 1;
    }
    proof {
        assert(dest@ =~= base + src@.subrange(a as int, b as int));
    }
}

} // verus!
