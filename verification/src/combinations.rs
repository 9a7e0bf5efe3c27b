//! All k-element combinations of a slice, in the order a first-element
//! split produces them: the combinations that keep the first element come
//! before those that skip it.

use vstd::prelude::*;

verus! {

/// The sequence of all `k`-element combinations of `s`, each keeping the
/// order of `s`: the empty choice for `k == 0`, nothing from an empty
/// sequence otherwise, and else every combination holding the first element
/// followed by every combination that skips it.
pub open spec fn combinations_spec(s: Seq<i32>, k: nat) -> Seq<Seq<i32>>
    decreases s.len(),
{
    if k == 0 {
        seq![Seq::empty()]
    } else if s.len() == 0 {
        Seq::empty()
    } else {
        combinations_spec(s.drop_first(), (k - 1) as nat).map_values(
            |suffix: Seq<i32>| seq![s[0]] + suffix,
        ) + combinations_spec(s.drop_first(), k)
    }
}

/// Asking for more elements than the sequence holds leaves no combination.
pub proof fn lemma_combinations_spec_empty(s: Seq<i32>, k: nat)
    requires
        k > s.len(),
    ensures
        combinations_spec(s, k) == Seq::<Seq<i32>>::empty(),
    decreases s.len(),
{
    if s.len() > 0 {
        lemma_combinations_spec_empty(s.drop_first(), (k - 1) as nat);
        lemma_combinations_spec_empty(s.drop_first(), k);
        assert(combinations_spec(s.drop_first(), (k - 1) as nat).map_values(
            |suffix: Seq<i32>| seq![s[0]] + suffix,
        ) =~= Seq::<Seq<i32>>::empty());
    }
}

/// All `k`-element combinations of the elements of `arr`, in order.
pub fn combinations(arr: &[i32], k: usize) -> (r: Vec<Vec<i32>>)
    ensures
        r.deep_view() == combinations_spec(arr@, k as nat),
{
    let r = combinations_from(arr, 0, k);
    proof {
        assert(arr@.skip(0) =~= arr@);
    }
    r
}

/// All `k`-element combinations of the suffix of `arr` that starts at `i`.
fn combinations_from(arr: &[i32], i: usize, k: usize) -> (r: Vec<Vec<i32>>)
    requires
        i <= arr@.len(),
    ensures
        r.deep_view() == combinations_spec(arr@.skip(i as int), k as nat),
    decreases arr@.len() - i,
{
    let ghost s = arr@.skip(i as int);

    // base cases
    if k == 0 {
        let mut r: Vec<Vec<i32>> = Vec::new();
        r.push(Vec::new());
        proof {
            assert(r.deep_view() =~~= combinations_spec(s, 0));
        }
        return r;
    }
    if i == arr.len() {
        let r: Vec<Vec<i32>> = Vec::new();
        proof {
            assert(r.deep_view() =~~= combinations_spec(s, k as nat));
        }
        return r;
    }
    if k > arr.len() - i {
        let r: Vec<Vec<i32>> = Vec::new();
        proof {
            lemma_combinations_spec_empty(s, k as nat);
            assert(r.deep_view() =~~= combinations_spec(s, k as nat));
        }
        return r;
    }
    // combinations that keep the first element of the suffix
    let first = arr[i];
    let rest = combinations_from(arr, i + 1, k - 1);
    let ghost prepended = combinations_spec(s.drop_first(), (k - 1) as nat).map_values(
        |suffix: Seq<i32>| seq![s[0]] + suffix,
    );
    proof {
        assert(s.drop_first() =~= arr@.skip(i as int + 1));
    }
    let mut with_first: Vec<Vec<i32>> = Vec::new();
    let mut j: usize = 0;
    while j < rest.len()
        invariant
            j <= rest@.len(),
            first == s[0],
            rest.deep_view() == combinations_spec(s.drop_first(), (k - 1) as nat),
            prepended == combinations_spec(s.drop_first(), (k - 1) as nat).map_values(
                |suffix: Seq<i32>| seq![s[0]] + suffix,
            ),
            with_first@.len() == j,
            forall|m: int| 0 <= m < j ==> #[trigger] with_first.deep_view()[m] == prepended[m],
        decreases rest@.len() - j,
    {
        let source = &rest[j];
        let mut combination: Vec<i32> = Vec::new();
        combination.push(first);
        let mut m: usize = 0;
        while m < source.len()
            invariant
                m <= source@.len(),
                combination@ == seq![first] + source@.take(m as int),
            decreases source@.len() - m,
        {
            combination.push(source[m]);
            proof {
                assert(source@.take(m as int).push(source@[m as int]) =~= source@.take(
                    m as int + 1,
                ));
            }
            m = m + 1;
        }
        proof {
            assert(source@.take(source@.len() as int) =~= source@);
            assert(combination.deep_view() =~= combination@);
            assert(combination@ == seq![s[0]] + rest.deep_view()[j as int]);
        }
        let ghost with_first_before = with_first;
        with_first.push(combination);
        proof {
            assert(with_first.deep_view()[j as int] == seq![s[0]] + rest.deep_view()[j as int]);
            assert(prepended[j as int] == seq![s[0]] + rest.deep_view()[j as int]);
            assert forall|m: int| 0 <= m < j implies #[trigger] with_first.deep_view()[m]
                == prepended[m] by {
                assert(with_first@[m] == with_first_before@.push(combination)[m]);
                assert(with_first@[m] == with_first_before@[m]);
                assert(with_first.deep_view()[m] == with_first@[m].deep_view());
                assert(with_first_before.deep_view()[m] == with_first_before@[m].deep_view());
                assert(with_first_before.deep_view()[m] == prepended[m]);
            }
        }
        j = j + 1;
    }
    proof {
        assert(with_first.deep_view() =~~= prepended);
    }
    // combinations that skip the first element of the suffix
    let mut r = with_first;
    let mut without_first = combinations_from(arr, i + 1, k);
    let ghost left = r.deep_view();
    r.append(&mut without_first);
    proof {
        assert(r.deep_view() =~~= left + combinations_spec(s.drop_first(), k as nat));
        assert(combinations_spec(s, k as nat) == prepended + combinations_spec(
            s.drop_first(),
            k as nat,
        ));
    }
    r
}

} // verus!
