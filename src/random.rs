//! Random draws for the camouflage choices, and a verified Fisher-Yates
//! shuffle built on them.
use vstd::prelude::*;
use rand::Rng;

verus! {

/// Relies on `rand::thread_rng().gen_range(0..n)`: a uniform draw below
/// `n`; the range must not be empty.
#[verifier::external_body]
pub(crate) fn random_below(n: usize) -> (r: usize)
    requires
        n > 0,
    ensures
        r < n,
{
    rand::thread_rng().gen_range(0..n)
}

/// `x` stands somewhere in `v`.
pub open spec fn occurs(v: Seq<usize>, x: int) -> bool {
    exists|t: int| 0 <= t < v.len() && #[trigger] v[t] == x
}

/// `v` holds each of `0..n` exactly once.
pub open spec fn is_permutation(v: Seq<usize>, n: nat) -> bool {
    &&& v.len() == n
    &&& forall|t: int| 0 <= t < n ==> #[trigger] v[t] < n
    &&& forall|x: int| 0 <= x < n ==> #[trigger] occurs(v, x)
}

/// A uniformly shuffled order of `0..n` (Fisher-Yates).
pub fn random_permutation(n: usize) -> (r: Vec<usize>)
    ensures
        is_permutation(r@, n as nat),
{
    let mut v: Vec<usize> = Vec::new();
    let mut k: usize = 0;
    while k < n
        invariant
            k <= n,
            v@.len() == k,
            forall|t: int| 0 <= t < k ==> #[trigger] v@[t] == t,
        decreases n - k,
    {
        v.push(k);
        k = k + 1;
    }
    assert forall|x: int| 0 <= x < n implies #[trigger] occurs(v@, x) by {
        assert(v@[x] == x);
    }
    let mut i: usize = n;
    while i > 1
        invariant
            i <= n,
            is_permutation(v@, n as nat),
        decreases i,
    {
        let j = random_below(i);
        let a = v[i - 1];
        let b = v[j];
        let ghost old_v = v@;
        v.set(i - 1, b);
        v.set(j, a);
        proof {
            assert forall|x: int| 0 <= x < n implies #[trigger] occurs(v@, x) by {
                assert(occurs(old_v, x));
                let t0 = choose|t: int| 0 <= t < old_v.len() && #[trigger] old_v[t] == x;
                if t0 == i - 1 {
                    assert(v@[j as int] == x);
                } else if t0 == j {
                    assert(v@[i - 1] == x);
                } else {
                    assert(v@[t0] == x);
                }
            }
        }
        i = i - 1;
    }
    v
}

} // verus!
