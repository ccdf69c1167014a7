pub mod graph;
pub mod grid;

use vstd::prelude::*;

verus! {

/// The characters of `s` that occur in `allowed`, in order.
pub open spec fn spec_sanitised(s: Seq<char>, allowed: Seq<char>) -> Seq<char> {
    s.filter(|c: char| allowed.contains(c))
}

/// Remove from `string` every character that does not occur in `allowed_chars`.
pub fn sanitise_string(string: &str, allowed_chars: &str) -> (r: Vec<char>)
    ensures
        r@ == spec_sanitised(string@, allowed_chars@),
{
    let ghost f = |c: char| allowed_chars@.contains(c);
    let n = string.unicode_len();
    let mut out: Vec<char> = Vec::new();
    let mut i: usize = 0;
    proof {
        assert(string@.take(0int).filter(f) =~= Seq::<char>::empty());
    }
    while i < n
        invariant
            n == string@.len(),
            i <= n,
            f == (|c: char| allowed_chars@.contains(c)),
            out@ == string@.take(i as int).filter(f),
        decreases n - i,
    {
        let c = string.get_char(i);
        let mut j: usize = 0;
        let m = allowed_chars.unicode_len();
        let mut found = false;
        while j < m
            invariant
                m == allowed_chars@.len(),
                j <= m,
                found == exists|k: int| 0 <= k < j && allowed_chars@[k] == c,
            decreases m - j,
        {
            if allowed_chars.get_char(j) == c {
                found = true;
            }
            j += 1;
        }
        assert(found == f(c));
        if found {
            out.push(c);
        }
        i += 1;
        proof {
            reveal(Seq::filter);
            let s1 = string@.take(i as int);
            assert(s1.drop_last() =~= string@.take(i - 1));
            assert(s1.last() == c);
            if f(c) {
                assert(s1.filter(f) == string@.take(i - 1).filter(f).push(c));
            } else {
                assert(s1.filter(f) == string@.take(i - 1).filter(f));
            }
        }
    }
    proof {
        assert(string@.take(n as int) =~= string@);
    }
    out
}

} // verus!
