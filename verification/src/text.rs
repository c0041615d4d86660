//! Character-level helpers shared by the parser: the whitespace predicate,
//! span extraction and trimming over character slices, and conversion from
//! `&str` to a character vector.

use vstd::prelude::*;

verus! {

/// The Unicode `White_Space` code points, as `char::is_whitespace` recognises
/// them.
pub open spec fn spec_is_space(c: char) -> bool {
    let u = c as u32;
    (9 <= u && u <= 13) || u == 32 || u == 0x85 || u == 0xA0 || u == 0x1680 || (0x2000 <= u && u
        <= 0x200A) || u == 0x2028 || u == 0x2029 || u == 0x202F || u == 0x205F || u == 0x3000
}

/// Whitespace test over single characters.
pub fn is_space(c: char) -> (r: bool)
    ensures
        r == spec_is_space(c),
{
    let u = c as u32;
    (9 <= u && u <= 13) || u == 32 || u == 0x85 || u == 0xA0 || u == 0x1680 || (0x2000 <= u && u
        <= 0x200A) || u == 0x2028 || u == 0x2029 || u == 0x202F || u == 0x205F || u == 0x3000
}

/// A sequence with surrounding whitespace removed.
pub open spec fn spec_trim(s: Seq<char>) -> Seq<char>
    decreases s.len(),
{
    if s.len() == 0 {
        s
    } else if spec_is_space(s[0]) {
        spec_trim(s.subrange(1, s.len() as int))
    } else if spec_is_space(s[s.len() - 1]) {
        spec_trim(s.subrange(0, s.len() - 1))
    } else {
        s
    }
}

/// The characters of `h` from `a` (inclusive) to `b` (exclusive), copied out.
pub fn extract(h: &[char], a: usize, b: usize) -> (r: Vec<char>)
    requires
        a <= b <= h@.len(),
    ensures
        r@ == h@.subrange(a as int, b as int),
{
    let mut r: Vec<char> = Vec::new();
    let mut i = a;
    while i < b
        invariant
            a <= i <= b <= h@.len(),
            r@ == h@.subrange(a as int, i as int),
        decreases b - i,
    {
        r.push(h[i]);
        proof {
            assert(r@ =~= h@.subrange(a as int, i + 1 as int));
        }
        i = i + 1;
    }
    r
}

/// The characters of `h` from `a` to `b`, with surrounding whitespace removed.
pub fn trimmed(h: &[char], a: usize, b: usize) -> (r: Vec<char>)
    requires
        a <= b <= h@.len(),
    ensures
        r@ == spec_trim(h@.subrange(a as int, b as int)),
{
    let mut lo = a;
    let mut hi = b;
    while lo < hi && is_space(h[lo])
        invariant
            a <= lo <= hi <= h@.len(),
            hi == b,
            spec_trim(h@.subrange(a as int, b as int)) == spec_trim(
                h@.subrange(lo as int, hi as int),
            ),
        decreases hi - lo,
    {
        proof {
            assert(h@.subrange(lo as int, hi as int).subrange(
                1,
                h@.subrange(lo as int, hi as int).len() as int,
            ) =~= h@.subrange(lo + 1 as int, hi as int));
        }
        lo = lo + 1;
    }
    while lo < hi && is_space(h[hi - 1])
        invariant
            a <= lo <= hi <= h@.len(),
            spec_trim(h@.subrange(a as int, b as int)) == spec_trim(
                h@.subrange(lo as int, hi as int),
            ),
            lo < hi ==> !spec_is_space(h@[lo as int]),
        decreases hi - lo,
    {
        proof {
            assert(h@.subrange(lo as int, hi as int).subrange(
                0,
                h@.subrange(lo as int, hi as int).len() - 1,
            ) =~= h@.subrange(lo as int, hi - 1 as int));
        }
        hi = hi - 1;
    }
    proof {
        if lo == hi {
            assert(h@.subrange(lo as int, hi as int) =~= Seq::<char>::empty());
        }
    }
    extract(h, lo, hi)
}

} // verus!

verus! {

broadcast use vstd::string::axiom_spec_iter, vstd::string::next_postcondition;

/// Character-for-character equality of two character slices.
pub fn eq_chars(a: &[char], b: &[char]) -> (r: bool)
    ensures
        r == (a@ == b@),
{
    if a.len() != b.len() {
        proof {
            assert(a@ != b@);
        }
        return false;
    }
    let mut i: usize = 0;
    while i < a.len()
        invariant
            0 <= i <= a@.len(),
            a@.len() == b@.len(),
            forall|j: int| 0 <= j < i ==> a@[j] == b@[j],
        decreases a@.len() - i,
    {
        if a[i] != b[i] {
            return false;
        }
        i = i + 1;
    }
    proof {
        assert(a@ =~= b@);
    }
    true
}

/// The characters of a string, collected into a vector.
pub fn chars_of(s: &str) -> (r: Vec<char>)
    ensures
        r@ == s@,
{
    let mut r: Vec<char> = Vec::new();
    let mut it = s.chars();
    loop
        invariant
            vstd::std_specs::iter::IteratorSpec::obeys_prophetic_iter_laws(&it),
            r@ + vstd::std_specs::iter::IteratorSpec::remaining(&it) == s@,
            vstd::std_specs::iter::IteratorSpec::decrease(&it) is Some,
        decreases vstd::std_specs::iter::IteratorSpec::decrease(&it)->0,
    {
        match it.next() {
            Some(c) => {
                r.push(c);
            },
            None => {
                proof {
                    assert(r@ =~= s@);
                }
                return r;
            },
        }
    }
}

} // verus!

verus! {

/// The ASCII uppercase letters.
pub open spec fn spec_is_ascii_upper(c: char) -> bool {
    let u = c as u32;
    65 <= u && u <= 90
}

/// A camel-case name turned into a snake-case one: splitting on the ASCII
/// uppercase letters and joining the pieces with underscores replaces each
/// uppercase letter by an underscore.
pub open spec fn camel_snake_spec(s: Seq<char>) -> Seq<char> {
    s.map_values(
        |c: char|
            if spec_is_ascii_upper(c) {
                '_'
            } else {
                c
            },
    )
}

/// Split a camel-case name on its uppercase letters and join the pieces with
/// underscores.
pub fn camel_snake(camel: &str) -> (r: Vec<char>)
    ensures
        r@ == camel_snake_spec(camel@),
{
    let cs = chars_of(camel);
    let mut r: Vec<char> = Vec::new();
    let mut i: usize = 0;
    while i < cs.len()
        invariant
            0 <= i <= cs@.len(),
            cs@ == camel@,
            r@ == camel_snake_spec(camel@.subrange(0, i as int)),
        decreases cs@.len() - i,
    {
        let c = cs[i];
        let u = c as u32;
        if 65 <= u && u <= 90 {
            r.push('_');
        } else {
            r.push(c);
        }
        proof {
            assert(camel@.subrange(0, i as int) =~= camel@.subrange(0, i + 1 as int).drop_last());
            assert(r@ =~= camel_snake_spec(camel@.subrange(0, i + 1 as int)));
        }
        i = i + 1;
    }
    proof {
        assert(camel@.subrange(0, camel@.len() as int) =~= camel@);
    }
    r
}

} // verus!
