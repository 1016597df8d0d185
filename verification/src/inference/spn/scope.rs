//! Sets of variables as increasing lists.

use vstd::prelude::*;

verus! {

pub open spec fn increasing(s: Seq<u64>) -> bool {
    forall|i: int, j: int| 0 <= i < j < s.len() ==> s[i] < s[j]
}

/// No variable is in both sets.
pub open spec fn apart(a: Set<u64>, b: Set<u64>) -> bool {
    forall|n: u64| !(#[trigger] a.contains(n) && b.contains(n))
}

/// The union of two sets of variables.
pub fn merge_scopes(a: &Vec<u64>, b: &Vec<u64>) -> (r: Vec<u64>)
    requires
        increasing(a@),
        increasing(b@),
    ensures
        increasing(r@),
        r@.to_set() == a@.to_set().union(b@.to_set()),
{
    let mut out: Vec<u64> = Vec::new();
    let mut i: usize = 0;
    let mut j: usize = 0;
    while i < a.len() || j < b.len()
        invariant
            i <= a@.len(),
            j <= b@.len(),
            increasing(a@),
            increasing(b@),
            increasing(out@),
            forall|k: int, m: int| 0 <= k < out@.len() && i <= m < a@.len() ==> out@[k] < a@[m],
            forall|k: int, m: int| 0 <= k < out@.len() && j <= m < b@.len() ==> out@[k] < b@[m],
            forall|n: u64| #[trigger] out@.contains(n) <==> (a@.take(i as int).contains(n) || b@.take(j as int).contains(n)),
        decreases a@.len() - i + b@.len() - j,
    {
        let ghost had = out@;
        let ghost (i0, j0) = (i as int, j as int);
        let take_a: bool = j >= b.len() || (i < a.len() && a[i] <= b[j]);
        let take_b: bool = i >= a.len() || (j < b.len() && b[j] <= a[i]);
        let n: u64 = if take_a {
            a[i]
        } else {
            b[j]
        };
        out.push(n);
        if take_a {
            i = i + 1;
        }
        if take_b {
            j = j + 1;
        }
        proof {
            lemma_push_contains(had, n);
            if take_a {
                assert(a@.take(i as int) =~= a@.take(i0).push(n));
                lemma_push_contains(a@.take(i0), n);
            }
            if take_b {
                assert(b@.take(j as int) =~= b@.take(j0).push(b@[j0]));
                lemma_push_contains(b@.take(j0), b@[j0]);
            }
        }
    }
    proof {
        assert(a@.take(a@.len() as int) =~= a@);
        assert(b@.take(b@.len() as int) =~= b@);
        assert(out@.to_set() =~= a@.to_set().union(b@.to_set()));
    }
    out
}

proof fn lemma_push_contains(s: Seq<u64>, n: u64)
    ensures
        forall|m: u64| #[trigger] s.push(n).contains(m) <==> (s.contains(m) || m == n),
{
    let t = s.push(n);
    assert forall|m: u64| #[trigger] t.contains(m) <==> (s.contains(m) || m == n) by {
        if s.contains(m) {
            let i = choose|i: int| 0 <= i < s.len() && s[i] == m;
            assert(t[i] == m);
        }
        assert(t[s.len() as int] == n);
        if t.contains(m) {
            let i = choose|i: int| 0 <= i < t.len() && t[i] == m;
            if i < s.len() {
                assert(s[i] == m);
            }
        }
    }
}

/// Have the two sets no variable in common?
pub fn is_disjoint(a: &Vec<u64>, b: &Vec<u64>) -> (r: bool)
    requires
        increasing(a@),
        increasing(b@),
    ensures
        r == apart(a@.to_set(), b@.to_set()),
{
    let mut i: usize = 0;
    let mut j: usize = 0;
    while i < a.len() && j < b.len()
        invariant
            i <= a@.len(),
            j <= b@.len(),
            increasing(a@),
            increasing(b@),
            forall|k: int, m: int| 0 <= k < i && 0 <= m < b@.len() ==> a@[k] != b@[m],
            forall|k: int, m: int| 0 <= k < a@.len() && 0 <= m < j ==> a@[k] != b@[m],
        decreases a@.len() - i + b@.len() - j,
    {
        if a[i] == b[j] {
            proof {
                let n = a@[i as int];
                assert(b@[j as int] == n);
                assert(a@.to_set().contains(n) && b@.to_set().contains(n));
            }
            return false;
        }
        if a[i] < b[j] {
            assert forall|k: int, m: int| 0 <= k < i + 1 && 0 <= m < b@.len() implies a@[k] != b@[m] by {
                if k == i && m >= j {
                    assert(b@[m] >= b@[j as int]);
                }
            }
            i = i + 1;
        } else {
            assert forall|k: int, m: int| 0 <= k < a@.len() && 0 <= m < j + 1 implies a@[k] != b@[m] by {
                if m == j && k >= i {
                    assert(a@[k] >= a@[i as int]);
                }
            }
            j = j + 1;
        }
    }
    proof {
        assert forall|n: u64| !(#[trigger] a@.to_set().contains(n) && b@.to_set().contains(n)) by {
            if a@.to_set().contains(n) && b@.to_set().contains(n) {
                let k = choose|k: int| 0 <= k < a@.len() && a@[k] == n;
                let m = choose|m: int| 0 <= m < b@.len() && b@[m] == n;
                assert(a@[k] != b@[m]);
            }
        }
    }
    true
}

/// The list in increasing order, each variable once.
pub fn sorted_scope(names: &Vec<u64>) -> (r: Vec<u64>)
    ensures
        increasing(r@),
        r@.to_set() == names@.to_set(),
{
    let mut out: Vec<u64> = Vec::new();
    let mut i: usize = 0;
    assert(out@.to_set() =~= names@.take(0).to_set());
    while i < names.len()
        invariant
            i <= names@.len(),
            increasing(out@),
            out@.to_set() == names@.take(i as int).to_set(),
        decreases names@.len() - i,
    {
        let mut one: Vec<u64> = Vec::new();
        one.push(names[i]);
        let ghost had = out@;
        out = merge_scopes(&out, &one);
        proof {
            let n = names@[i as int];
            assert(names@.take(i + 1) =~= names@.take(i as int).push(n));
            lemma_push_contains(names@.take(i as int), n);
            lemma_push_contains(Seq::<u64>::empty(), n);
            assert(one@ =~= Seq::<u64>::empty().push(n));
            assert forall|m: u64| #[trigger] out@.to_set().contains(m) <==> names@.take(i + 1).to_set().contains(m) by {
                assert(out@.to_set().contains(m) <==> (had.to_set().contains(m) || one@.to_set().contains(m)));
                assert(one@.contains(m) <==> m == n);
                assert(had.to_set().contains(m) <==> names@.take(i as int).to_set().contains(m));
            }
            assert(out@.to_set() =~= names@.take(i + 1).to_set());
        }
        i = i + 1;
    }
    assert(names@.take(names@.len() as int) =~= names@);
    out
}

} // verus!
