//! The computation behind a line-comparison utility: which lines two files
//! share. The surrounding program reads the files and prints the result;
//! the intersection itself is computed here.

use vstd::prelude::*;

verus! {

/// Whether some string in `v` has the character content `s`.
pub open spec fn holds_line(v: Seq<String>, s: Seq<char>) -> bool {
    exists|i: int| 0 <= i < v.len() && v[i]@ == s
}

/// Whether `v` holds a string with the same content as `s`.
fn contains_line(v: &Vec<String>, s: &String) -> (b: bool)
    ensures
        b == holds_line(v@, s@),
{
    let mut i: usize = 0;
    while i < v.len()
        invariant
            i <= v@.len(),
            forall|k: int| 0 <= k < i ==> (#[trigger] v@[k])@ != s@,
        decreases v@.len() - i,
    {
        if v[i] == *s {
            proof {
                assert(v@[i as int]@ == s@);
            }
            return true;
        }
        i = i + 1;
    }
    false
}

/// The line contents that occur in both `a` and `b`: every shared content
/// exactly once, in the order of its first occurrence in `a`.
pub fn common_lines(a: &Vec<String>, b: &Vec<String>) -> (r: Vec<String>)
    ensures
        forall|k: int|
            0 <= k < r@.len() ==> holds_line(a@, (#[trigger] r@[k])@) && holds_line(b@, r@[k]@),
        forall|s: Seq<char>|
            #[trigger] holds_line(a@, s) && holds_line(b@, s) ==> holds_line(r@, s),
        forall|k1: int, k2: int| 0 <= k1 < k2 < r@.len() ==> r@[k1]@ != r@[k2]@,
{
    let mut r: Vec<String> = Vec::new();
    let mut i: usize = 0;
    while i < a.len()
        invariant
            i <= a@.len(),
            forall|k: int|
                0 <= k < r@.len() ==> holds_line(a@, (#[trigger] r@[k])@) && holds_line(
                    b@,
                    r@[k]@,
                ),
            forall|s: Seq<char>|
                #[trigger] holds_line(a@.take(i as int), s) && holds_line(b@, s) ==> holds_line(
                    r@,
                    s,
                ),
            forall|k1: int, k2: int| 0 <= k1 < k2 < r@.len() ==> r@[k1]@ != r@[k2]@,
        decreases a@.len() - i,
    {
        let candidate = &a[i];
        let ghost r_before = r@;
        let in_b = contains_line(b, candidate);
        let seen = if in_b {
            contains_line(&r, candidate)
        } else {
            false
        };
        if in_b && !seen {
            r.push(candidate.clone());
        }
        proof {
            assert(forall|k: int| 0 <= k < r_before.len() ==> #[trigger] r@[k] == r_before[k]);
            if in_b && !seen {
                assert(r@[r@.len() - 1]@ == a@[i as int]@);
                assert(holds_line(a@, r@[r@.len() - 1]@)) by {
                    assert(a@[i as int]@ == r@[r@.len() - 1]@);
                }
            }
            assert forall|s: Seq<char>|
                #[trigger] holds_line(a@.take(i as int + 1), s) && holds_line(
                    b@,
                    s,
                ) implies holds_line(r@, s) by {
                let w = choose|k: int|
                    0 <= k < a@.take(i as int + 1).len() && (#[trigger] a@.take(i as int + 1)[k])@
                        == s;
                if w < i {
                    assert(a@.take(i as int)[w]@ == s);
                    assert(holds_line(a@.take(i as int), s));
                    let w2 = choose|k: int| 0 <= k < r_before.len() && r_before[k]@ == s;
                    assert(r@[w2]@ == s);
                } else {
                    assert(a@[i as int]@ == s);
                    if seen {
                        let w3 = choose|k: int| 0 <= k < r_before.len() && r_before[k]@
                            == a@[i as int]@;
                        assert(r@[w3]@ == s);
                    } else {
                        assert(r@[r@.len() - 1]@ == s);
                    }
                }
            }
        }
        i = i + 1;
    }
    proof {
        assert(a@.take(a@.len() as int) =~= a@);
    }
    r
}

} // verus!
