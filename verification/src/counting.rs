//! Counting arguments: how many states a list can hold without repeating one,
//! and how many different sets of states there are.

use vstd::prelude::*;

verus! {

/// A one-to-one map from `n` places into `m` places needs `n <= m`.
pub proof fn lemma_injection_bound(n: int, m: int, f: spec_fn(int) -> int)
    requires
        0 <= n,
        0 <= m,
        forall|i: int| 0 <= i < n ==> 0 <= #[trigger] f(i) < m,
        forall|i: int, j: int| 0 <= i < j < n ==> #[trigger] f(i) != #[trigger] f(j),
    ensures
        n <= m,
    decreases n,
{
    if n > 0 {
        assert(0 <= f(0) < m);
        let last = f(n - 1);
        let h = |i: int|
            if f(i) == m - 1 {
                last
            } else {
                f(i)
            };
        assert forall|i: int| 0 <= i < n - 1 implies 0 <= #[trigger] h(i) < m - 1 by {
            assert(0 <= f(i) < m);
            assert(f(i) != f(n - 1));
        }
        assert forall|i: int, j: int| 0 <= i < j < n - 1 implies #[trigger] h(i) != #[trigger] h(
            j,
        ) by {
            assert(f(i) != f(j));
            assert(f(i) != f(n - 1));
            assert(f(j) != f(n - 1));
        }
        lemma_injection_bound(n - 1, m - 1, h);
    }
}

/// A list of states of the first `n`, none of them twice.
pub open spec fn state_list(v: Seq<usize>, n: nat) -> bool {
    &&& v.no_duplicates()
    &&& forall|k: int| 0 <= k < v.len() ==> (#[trigger] v[k]) < n
}

/// A list that holds no state twice holds at most as many as there are.
pub proof fn lemma_state_list_len(v: Seq<usize>, n: nat)
    requires
        state_list(v, n),
    ensures
        v.len() <= n,
{
    let f = |i: int| v[i] as int;
    lemma_injection_bound(v.len() as int, n as int, f);
}

/// 2 to the power `n`.
pub open spec fn two_to(n: nat) -> nat
    decreases n,
{
    if n == 0 {
        1
    } else {
        2 * two_to((n - 1) as nat)
    }
}

/// The number whose binary digit `x` says whether `x` is in `s`, for `x` below `n`.
pub open spec fn code(s: Set<usize>, n: nat) -> nat
    decreases n,
{
    if n == 0 {
        0
    } else if s.contains((n - 1) as usize) {
        code(s, (n - 1) as nat) + two_to((n - 1) as nat)
    } else {
        code(s, (n - 1) as nat)
    }
}

proof fn lemma_code_bound(s: Set<usize>, n: nat)
    ensures
        code(s, n) < two_to(n),
    decreases n,
{
    if n > 0 {
        lemma_code_bound(s, (n - 1) as nat);
    }
}

/// Sets with the same code hold the same states below `n`.
proof fn lemma_code_tells(s: Set<usize>, t: Set<usize>, n: nat)
    requires
        code(s, n) == code(t, n),
        n <= usize::MAX + 1,
    ensures
        forall|x: usize| x < n ==> s.contains(x) == t.contains(x),
    decreases n,
{
    if n > 0 {
        let m = (n - 1) as nat;
        lemma_code_bound(s, m);
        lemma_code_bound(t, m);
        lemma_code_tells(s, t, m);
        assert forall|x: usize| x < n implies s.contains(x) == t.contains(x) by {
            if x == m {
                assert(x == (n - 1) as usize);
            }
        }
    }
}

/// Lists whose sets differ, over the first `n` states, have different codes.
proof fn lemma_code_differs(a: Seq<usize>, b: Seq<usize>, n: nat)
    requires
        state_list(a, n),
        state_list(b, n),
        n <= usize::MAX + 1,
        a.to_set() != b.to_set(),
    ensures
        code(a.to_set(), n) != code(b.to_set(), n),
{
    if code(a.to_set(), n) == code(b.to_set(), n) {
        lemma_code_tells(a.to_set(), b.to_set(), n);
        assert forall|x: usize| a.to_set().contains(x) == b.to_set().contains(x) by {
            if a.contains(x) {
                let k = choose|k: int| 0 <= k < a.len() && a[k] == x;
                assert(a[k] < n);
            }
            if b.contains(x) {
                let k = choose|k: int| 0 <= k < b.len() && b[k] == x;
                assert(b[k] < n);
            }
        }
        assert(a.to_set() =~= b.to_set());
    }
}

/// Lists over the first `n` states, no two of them with the same set, are at
/// most 2 to the power `n`.
pub proof fn lemma_distinct_sets_bound(lists: Seq<Seq<usize>>, n: nat)
    requires
        n <= usize::MAX + 1,
        forall|i: int| 0 <= i < lists.len() ==> state_list(#[trigger] lists[i], n),
        forall|i: int, j: int|
            0 <= i < j < lists.len() ==> (#[trigger] lists[i]).to_set() != (
            #[trigger] lists[j]).to_set(),
    ensures
        lists.len() <= two_to(n),
{
    let f = |i: int| code(lists[i].to_set(), n) as int;
    assert forall|i: int| 0 <= i < lists.len() implies 0 <= #[trigger] f(i) < two_to(n) by {
        lemma_code_bound(lists[i].to_set(), n);
    }
    assert forall|i: int, j: int| 0 <= i < j < lists.len() implies #[trigger] f(i) != #[trigger] f(
        j,
    ) by {
        assert(lists[i].to_set() != lists[j].to_set());
        lemma_code_differs(lists[i], lists[j], n);
    }
    lemma_injection_bound(lists.len() as int, two_to(n) as int, f);
}

} // verus!
