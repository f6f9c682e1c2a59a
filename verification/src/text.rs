//! Character-level access to borrowed strings.

use vstd::prelude::*;
use vstd::std_specs::iter::IteratorSpec;

verus! {

broadcast use vstd::string::group_string_axioms;

/// The characters of `s`, in order, as an indexable vector.
pub fn chars_of(s: &str) -> (v: Vec<char>)
    ensures
        v@ == s@,
{
    let n: usize = s.unicode_len();
    let mut it = s.chars();
    let mut v: Vec<char> = Vec::new();
    let mut i: usize = 0;
    proof {
        assert(s@.skip(0) =~= s@);
        assert(v@ =~= s@.take(0));
    }
    while i < n
        invariant
            n == s@.len(),
            i <= n,
            it.remaining() == s@.skip(i as int),
            v@ == s@.take(i as int),
        decreases n - i,
    {
        let ghost before = it.remaining();
        match it.next() {
            Some(c) => {
                v.push(c);
            },
            None => {
                proof {
                    assert(before.len() > 0);
                    assert(false);
                }
            },
        }
        proof {
            assert(before[0] == s@[i as int]);
            assert(before.drop_first() =~= s@.skip(i + 1));
            assert(v@ =~= s@.take(i + 1));
        }
        i = i + 1;
    }
    proof {
        assert(s@.take(n as int) =~= s@);
    }
    v
}

} // verus!
