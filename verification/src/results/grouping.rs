//! Expressions that share blocks of variables.

use vstd::prelude::*;

use crate::utils::union_find::UnionFind;

verus! {

/// Which rows have which columns.
pub type Grid = Seq<Seq<bool>>;

pub open spec fn grid(s: Seq<Vec<bool>>) -> Grid {
    Seq::new(s.len(), |i: int| s[i]@)
}

/// All rows are `n` wide.
pub open spec fn of_width(t: Grid, n: int) -> bool {
    forall|i: int| 0 <= i < t.len() ==> (#[trigger] t[i]).len() == n
}

/// The row has the column.
pub open spec fn marked(t: Grid, i: int, k: int) -> bool {
    0 <= i < t.len() && 0 <= k < t[i].len() && t[i][k]
}

/// The rows have a column in common.
pub open spec fn meets(t: Grid, i: int, j: int) -> bool {
    exists|k: int| #[trigger] marked(t, i, k) && marked(t, j, k)
}

/// A way from one row to another over rows with common columns.
pub open spec fn leads(t: Grid, p: Seq<int>, i: int, j: int) -> bool {
    &&& p.len() > 0
    &&& p[0] == i
    &&& p.last() == j
    &&& forall|k: int| 0 <= k < p.len() ==> 0 <= #[trigger] p[k] < t.len()
    &&& forall|k: int| 0 < k < p.len() ==> meets(t, p[k - 1], #[trigger] p[k])
}

/// The rows are connected.
pub open spec fn linked(t: Grid, i: int, j: int) -> bool {
    exists|p: Seq<int>| #[trigger] leads(t, p, i, j)
}

/// The rows from `from` on that are connected with a row.
pub open spec fn members_from(t: Grid, i: int, from: int) -> Seq<int>
    decreases t.len() - from,
{
    if from < 0 || from >= t.len() {
        Seq::empty()
    } else if linked(t, i, from) {
        seq![from] + members_from(t, i, from + 1)
    } else {
        members_from(t, i, from + 1)
    }
}

/// The first row from `from` on that has a column.
pub open spec fn first_with(t: Grid, k: int, from: int) -> int
    decreases t.len() - from,
{
    if from < 0 || from >= t.len() || marked(t, from, k) {
        from
    } else {
        first_with(t, k, from + 1)
    }
}

/// The column is the first of the rows that are connected over it.
pub open spec fn opens(t: Grid, k: int) -> bool {
    let i = first_with(t, k, 0);
    i < t.len() && !earlier(t, i, k)
}

/// A row connected with `i` has a column before `k`.
pub open spec fn earlier(t: Grid, i: int, k: int) -> bool {
    exists|j: int, b: int| b < k && #[trigger] marked(t, j, b) && linked(t, i, j)
}

/// The connected rows, each set of them once, by the first of their columns
/// among the first `k`.
pub open spec fn classes(t: Grid, k: nat) -> Seq<Seq<int>>
    decreases k,
{
    if k == 0 {
        Seq::empty()
    } else {
        let s = classes(t, (k - 1) as nat);
        if opens(t, k - 1) {
            s.push(members_from(t, first_with(t, k - 1, 0), 0))
        } else {
            s
        }
    }
}

/// The row has no column.
pub open spec fn bare(t: Grid, i: int) -> bool {
    forall|k: int| !#[trigger] marked(t, i, k)
}

/// Those of the first `n` rows that have no column, each by itself.
pub open spec fn loners(t: Grid, n: nat) -> Seq<Seq<int>>
    decreases n,
{
    if n == 0 {
        Seq::empty()
    } else {
        let s = loners(t, (n - 1) as nat);
        if bare(t, n - 1) {
            s.push(seq![n - 1])
        } else {
            s
        }
    }
}

/// All connected sets of rows: those with columns by the first of their
/// columns, and then the rows without any.
pub open spec fn components(t: Grid, width: nat) -> Seq<Seq<int>> {
    classes(t, width) + loners(t, t.len())
}

/// Every row is connected with itself.
pub proof fn lemma_linked_self(t: Grid, i: int)
    requires
        0 <= i < t.len(),
    ensures
        linked(t, i, i),
{
    assert(leads(t, seq![i], i, i));
}

/// Connection goes both ways.
pub proof fn lemma_linked_back(t: Grid, i: int, j: int)
    requires
        linked(t, i, j),
    ensures
        linked(t, j, i),
{
    let p = choose|p: Seq<int>| #[trigger] leads(t, p, i, j);
    let q = p.reverse();
    assert forall|k: int| 0 < k < q.len() implies meets(t, q[k - 1], #[trigger] q[k]) by {
        let m = p.len() - k;
        assert(meets(t, p[m - 1], p[m]));
        let c = choose|c: int| #[trigger] marked(t, p[m - 1], c) && marked(t, p[m], c);
        assert(marked(t, p[m], c) && marked(t, p[m - 1], c));
    }
    assert(leads(t, q, j, i));
}

/// Connections can be put together.
pub proof fn lemma_linked_on(t: Grid, i: int, j: int, k: int)
    requires
        linked(t, i, j),
        linked(t, j, k),
    ensures
        linked(t, i, k),
{
    let p = choose|p: Seq<int>| #[trigger] leads(t, p, i, j);
    let q = choose|q: Seq<int>| #[trigger] leads(t, q, j, k);
    let r = p + q.drop_first();
    assert forall|m: int| 0 < m < r.len() implies meets(t, r[m - 1], #[trigger] r[m]) by {
        if m < p.len() {
            assert(meets(t, p[m - 1], p[m]));
        } else {
            let n = m - p.len() + 1;
            assert(r[m] == q[n]);
            assert(meets(t, q[n - 1], q[n]));
            if m == p.len() {
                assert(r[m - 1] == p.last());
            } else {
                assert(r[m - 1] == q[n - 1]);
            }
        }
    }
    assert forall|m: int| 0 <= m < r.len() implies 0 <= #[trigger] r[m] < t.len() by {
        if m < p.len() {
            assert(0 <= p[m] < t.len());
        } else {
            assert(0 <= q[m - p.len() + 1] < t.len());
        }
    }
    assert(r.last() == k) by {
        if q.len() > 1 {
            assert(r.last() == q.last());
        } else {
            assert(r =~= p);
            assert(q[0] == q.last());
        }
    }
    assert(leads(t, r, i, k));
}

/// Rows with a common column are connected.
pub proof fn lemma_linked_meets(t: Grid, i: int, j: int)
    requires
        0 <= i < t.len(),
        0 <= j < t.len(),
        meets(t, i, j),
    ensures
        linked(t, i, j),
{
    let p = seq![i, j];
    assert(leads(t, p, i, j));
}

/// What joins all rows with common columns joins all connected rows.
proof fn lemma_same_if_linked(t: Grid, uf: UnionFind, p: Seq<int>, i: int, j: int)
    requires
        leads(t, p, i, j),
        uf.size() == t.len(),
        forall|a: int, b: int|
            0 <= a < t.len() && 0 <= b < t.len() && #[trigger] meets(t, a, b) ==> uf.same(a, b),
    ensures
        uf.same(i, j),
    decreases p.len(),
{
    if p.len() > 1 {
        let q = p.drop_last();
        let m = q.last();
        assert(meets(t, p[p.len() - 2], p[p.len() - 1]));
        assert(leads(t, q, i, m)) by {
            assert forall|k: int| 0 < k < q.len() implies meets(t, q[k - 1], #[trigger] q[k]) by {
                assert(meets(t, p[k - 1], p[k]));
            }
        }
        lemma_same_if_linked(t, uf, q, i, m);
        assert(uf.same(m, j));
    }
}

fn share(a: &Vec<bool>, b: &Vec<bool>) -> (r: bool)
    ensures
        r == exists|k: int| 0 <= k < a@.len() && k < b@.len() && #[trigger] a@[k] && b@[k],
{
    let mut k: usize = 0;
    while k < a.len() && k < b.len()
        invariant
            k <= a@.len(),
            k <= b@.len(),
            forall|m: int| 0 <= m < k ==> !(#[trigger] a@[m] && b@[m]),
        decreases a@.len() - k,
    {
        if a[k] && b[k] {
            assert(a@[k as int] && b@[k as int]);
            return true;
        }
        k = k + 1;
    }
    false
}

proof fn lemma_share(t: Grid, i: int, j: int)
    requires
        0 <= i < t.len(),
        0 <= j < t.len(),
    ensures
        meets(t, i, j) == exists|k: int|
            0 <= k < t[i].len() && k < t[j].len() && #[trigger] t[i][k] && t[j][k],
{
    if meets(t, i, j) {
        let k = choose|k: int| #[trigger] marked(t, i, k) && marked(t, j, k);
        assert(t[i][k] && t[j][k]);
    }
    if exists|k: int| 0 <= k < t[i].len() && k < t[j].len() && #[trigger] t[i][k] && t[j][k] {
        let k = choose|k: int|
            0 <= k < t[i].len() && k < t[j].len() && #[trigger] t[i][k] && t[j][k];
        assert(marked(t, i, k) && marked(t, j, k));
    }
}

/// Join the rows that have a column in common.
#[verifier::rlimit(30)]
fn join_rows(touched: &Vec<Vec<bool>>) -> (r: UnionFind)
    ensures
        r.wf(),
        r.size() == touched@.len(),
        forall|i: int, j: int|
            0 <= i < touched@.len() && 0 <= j < touched@.len() ==> (#[trigger] r.same(i, j)
                <==> linked(grid(touched@), i, j)),
{
    let n: usize = touched.len();
    let ghost t = grid(touched@);
    let mut uf = UnionFind::new(n);
    proof {
        assert forall|i: int, j: int| 0 <= i < n && 0 <= j < n && #[trigger] uf.same(
            i,
            j,
        ) implies linked(t, i, j) by {
            assert(uf.rep(i) == i && uf.rep(j) == j);
            lemma_linked_self(t, i);
        }
    }
    let mut i: usize = 0;
    while i < n
        invariant
            i <= n,
            n == touched@.len(),
            t == grid(touched@),
            uf.wf(),
            uf.size() == n,
            forall|a: int, b: int|
                0 <= a < n && 0 <= b < n && #[trigger] uf.same(a, b) ==> linked(t, a, b),
            forall|a: int, b: int|
                0 <= a < b < n && a < i && #[trigger] meets(t, a, b) ==> uf.same(a, b),
        decreases n - i,
    {
        let mut j: usize = i + 1;
        while j < n
            invariant
                i < j <= n,
                n == touched@.len(),
                t == grid(touched@),
                uf.wf(),
                uf.size() == n,
                forall|a: int, b: int|
                    0 <= a < n && 0 <= b < n && #[trigger] uf.same(a, b) ==> linked(t, a, b),
                forall|a: int, b: int|
                    0 <= a < b < n && (a < i || (a == i && b < j)) && #[trigger] meets(t, a, b)
                        ==> uf.same(a, b),
            decreases n - j,
        {
            let ghost before = uf;
            proof {
                lemma_share(t, i as int, j as int);
            }
            if share(&touched[i], &touched[j]) {
                uf.union(i, j);
                proof {
                    assert(meets(t, i as int, j as int));
                    lemma_linked_meets(t, i as int, j as int);
                    lemma_linked_back(t, i as int, j as int);
                    assert forall|a: int, b: int| 0 <= a < n && 0 <= b < n && #[trigger] uf.same(
                        a,
                        b,
                    ) implies linked(t, a, b) by {
                        if before.same(a, i as int) && before.same(j as int, b) {
                            lemma_linked_on(t, a, i as int, j as int);
                            lemma_linked_on(t, a, j as int, b);
                        }
                        if before.same(a, j as int) && before.same(i as int, b) {
                            lemma_linked_on(t, a, j as int, i as int);
                            lemma_linked_on(t, a, i as int, b);
                        }
                    }
                    assert forall|a: int, b: int|
                        0 <= a < b < n && (a < i || (a == i && b <= j)) && #[trigger] meets(
                            t,
                            a,
                            b,
                        ) implies uf.same(a, b) by {
                        if a == i && b == j {
                            assert(before.same(a, i as int) && before.same(j as int, b));
                        } else {
                            assert(before.same(a, b));
                        }
                    }
                }
            } else {
                assert(!meets(t, i as int, j as int));
            }
            j = j + 1;
        }
        i = i + 1;
    }
    proof {
        assert forall|a: int, b: int| 0 <= a < t.len() && 0 <= b < t.len() && #[trigger] meets(
            t,
            a,
            b,
        ) implies uf.same(a, b) by {
            if b < a {
                let c = choose|c: int| #[trigger] marked(t, a, c) && marked(t, b, c);
                assert(marked(t, b, c) && marked(t, a, c));
                assert(meets(t, b, a));
                assert(uf.same(b, a));
            }
        }
        assert forall|a: int, b: int| 0 <= a < n && 0 <= b < n implies (#[trigger] uf.same(a, b)
            <==> linked(t, a, b)) by {
            if linked(t, a, b) {
                let p = choose|p: Seq<int>| #[trigger] leads(t, p, a, b);
                lemma_same_if_linked(t, uf, p, a, b);
            }
        }
    }
    uf
}

/// The representatives of all rows.
fn roots(uf: &mut UnionFind, n: usize) -> (r: Vec<usize>)
    requires
        old(uf).wf(),
        old(uf).size() == n,
    ensures
        r@.len() == n,
        forall|i: int| 0 <= i < n ==> #[trigger] r@[i] == old(uf).rep(i) && r@[i] < n,
{
    let mut out: Vec<usize> = Vec::new();
    let mut i: usize = 0;
    while i < n
        invariant
            i <= n,
            uf.wf(),
            uf.size() == n,
            old(uf).size() == n,
            forall|j: int| 0 <= j < n ==> #[trigger] uf.rep(j) == old(uf).rep(j),
            out@.len() == i,
            forall|j: int| 0 <= j < i ==> #[trigger] out@[j] == old(uf).rep(j) && out@[j] < n,
        decreases n - i,
    {
        let r: usize = uf.find(i);
        out.push(r);
        i = i + 1;
    }
    out
}

/// The rows with the representative of row `i`.
fn members(reps: &Vec<usize>, i: usize, Ghost(t): Ghost<Grid>) -> (r: Vec<usize>)
    requires
        i < reps@.len(),
        t.len() == reps@.len(),
        forall|a: int, b: int|
            0 <= a < reps@.len() && 0 <= b < reps@.len() ==> ((#[trigger] reps@[a]) == (
            #[trigger] reps@[b]) <==> linked(t, a, b)),
    ensures
        as_ints(r@) == members_from(t, i as int, 0),
        forall|k: int| 0 <= k < r@.len() ==> (#[trigger] r@[k]) < reps@.len(),
{
    let mut out: Vec<usize> = Vec::new();
    let mut j: usize = 0;
    assert(as_ints(out@) + members_from(t, i as int, 0) =~= members_from(t, i as int, 0));
    while j < reps.len()
        invariant
            j <= reps@.len(),
            i < reps@.len(),
            t.len() == reps@.len(),
            forall|a: int, b: int|
                0 <= a < reps@.len() && 0 <= b < reps@.len() ==> ((#[trigger] reps@[a]) == (
                #[trigger] reps@[b]) <==> linked(t, a, b)),
            as_ints(out@) + members_from(t, i as int, j as int) == members_from(t, i as int, 0),
            forall|k: int| 0 <= k < out@.len() ==> (#[trigger] out@[k]) < reps@.len(),
        decreases reps@.len() - j,
    {
        let ghost before = as_ints(out@);
        let ghost rest = members_from(t, i as int, j + 1);
        if reps[i] == reps[j] {
            out.push(j);
            assert(as_ints(out@) =~= before.push(j as int));
            assert(before + (seq![j as int] + rest) =~= before.push(j as int) + rest);
        }
        j = j + 1;
    }
    assert(as_ints(out@) + members_from(t, i as int, j as int) =~= as_ints(out@));
    out
}

pub open spec fn as_ints(s: Seq<usize>) -> Seq<int> {
    Seq::new(s.len(), |i: int| s[i] as int)
}

pub open spec fn as_classes(s: Seq<Vec<usize>>) -> Seq<Seq<int>> {
    Seq::new(s.len(), |i: int| as_ints(s[i]@))
}

fn find_with(touched: &Vec<Vec<bool>>, k: usize) -> (r: usize)
    requires
        forall|i: int| 0 <= i < touched@.len() ==> k < (#[trigger] touched@[i])@.len(),
    ensures
        r == first_with(grid(touched@), k as int, 0),
        r <= touched@.len(),
        r < touched@.len() ==> marked(grid(touched@), r as int, k as int),
{
    let ghost t = grid(touched@);
    let mut i: usize = 0;
    while i < touched.len() && !touched[i][k]
        invariant
            i <= touched@.len(),
            t == grid(touched@),
            forall|i: int| 0 <= i < touched@.len() ==> k < (#[trigger] touched@[i])@.len(),
            first_with(t, k as int, 0) == first_with(t, k as int, i as int),
        decreases touched@.len() - i,
    {
        assert(!marked(t, i as int, k as int));
        i = i + 1;
    }
    if i < touched.len() {
        assert(marked(t, i as int, k as int));
    }
    i
}

proof fn lemma_first_with(t: Grid, k: int, from: int, j: int)
    requires
        0 <= from <= j,
        marked(t, j, k),
    ensures
        first_with(t, k, from) <= j,
        marked(t, first_with(t, k, from), k),
    decreases j - from,
{
    if !marked(t, from, k) {
        lemma_first_with(t, k, from + 1, j);
    }
}

/// Two rows are connected iff they share columns, themselves or over other
/// rows. Returns one list per connected set of rows, ordered by the first
/// column of the set; rows without a column come last, each by itself. Within
/// each list, rows come in increasing order.
#[verifier::rlimit(30)]
pub fn group_exprs_by_shared_blocks(touched: &Vec<Vec<bool>>, width: usize) -> (r: Vec<Vec<usize>>)
    requires
        of_width(grid(touched@), width as int),
    ensures
        as_classes(r@) == components(grid(touched@), width as nat),
        forall|c: int, k: int|
            0 <= c < r@.len() && 0 <= k < r@[c]@.len() ==> (#[trigger] r@[c]@[k]) < touched@.len(),
{
    let n: usize = touched.len();
    let ghost t = grid(touched@);
    let mut uf = join_rows(touched);
    let ghost joined = uf;
    let reps: Vec<usize> = roots(&mut uf, n);
    let mut done: Vec<bool> = Vec::new();
    let mut i: usize = 0;
    while i < n
        invariant
            i <= n,
            done@.len() == i,
            forall|j: int| 0 <= j < i ==> !(#[trigger] done@[j]),
        decreases n - i,
    {
        done.push(false);
        i = i + 1;
    }
    let mut out: Vec<Vec<usize>> = Vec::new();
    let mut k: usize = 0;
    proof {
        assert(as_classes(out@) =~= Seq::empty());
        assert forall|i: int| 0 <= i < touched@.len() implies (#[trigger] touched@[i])@.len()
            == width by {
            assert(t[i].len() == width);
        }
        assert forall|a: int, b: int| 0 <= a < n && 0 <= b < n implies ((#[trigger] reps@[a]) == (
        #[trigger] reps@[b]) <==> linked(t, a, b)) by {
            assert(joined.same(a, b) <==> linked(t, a, b));
            assert(reps@[a] == joined.rep(a) && reps@[b] == joined.rep(b));
        }
        assert forall|a: int| 0 <= a < n implies (#[trigger] done@[reps@[a] as int] <==> earlier(
            t,
            a,
            0,
        )) by {}
    }
    while k < width
        invariant
            k <= width,
            n == touched@.len(),
            t == grid(touched@),
            reps@.len() == n,
            done@.len() == n,
            forall|i: int| 0 <= i < touched@.len() ==> (#[trigger] touched@[i])@.len() == width,
            forall|a: int| 0 <= a < n ==> (#[trigger] reps@[a]) < n,
            forall|a: int, b: int|
                0 <= a < n && 0 <= b < n ==> ((#[trigger] reps@[a]) == (#[trigger] reps@[b])
                    <==> linked(t, a, b)),
            forall|a: int|
                0 <= a < n ==> (#[trigger] done@[reps@[a] as int] <==> earlier(t, a, k as int)),
            as_classes(out@) == classes(t, k as nat),
            forall|c: int, m: int|
                0 <= c < out@.len() && 0 <= m < out@[c]@.len() ==> (#[trigger] out@[c]@[m]) < n,
        decreases width - k,
    {
        let ghost before = as_classes(out@);
        let ghost marks = done@;
        let i: usize = find_with(touched, k);
        if i < n {
            let root: usize = reps[i];
            if !done[root] {
                let c: Vec<usize> = members(&reps, i, Ghost(t));
                let ghost cs = as_ints(c@);
                out.push(c);
                done.set(root, true);
                assert(as_classes(out@) =~= before.push(cs));
                assert(opens(t, k as int));
            } else {
                assert(!opens(t, k as int));
            }
            proof {
                assert forall|a: int| 0 <= a < n implies (#[trigger] done@[reps@[a] as int]
                    <==> earlier(t, a, k + 1)) by {
                    lemma_earlier_next(t, a, i as int, k as int);
                    assert(reps@[a] == reps@[i as int] <==> linked(t, a, i as int));
                    assert(marks[reps@[a] as int] <==> earlier(t, a, k as int));
                    if reps@[a] == root {
                        assert(done@[reps@[a] as int]);
                    } else {
                        assert(done@[reps@[a] as int] == marks[reps@[a] as int]);
                    }
                }
            }
        } else {
            assert(!opens(t, k as int));
            proof {
                assert forall|a: int| 0 <= a < n implies (#[trigger] done@[reps@[a] as int]
                    <==> earlier(t, a, k + 1)) by {
                    assert(marks[reps@[a] as int] <==> earlier(t, a, k as int));
                    if earlier(t, a, k + 1) {
                        let (j, b) = choose|j: int, b: int|
                            b < k + 1 && #[trigger] marked(t, j, b) && linked(t, a, j);
                        if b == k {
                            lemma_first_with(t, k as int, 0, j);
                        }
                    }
                }
            }
        }
        k = k + 1;
    }
    let ghost all = classes(t, width as nat);
    let mut i: usize = 0;
    assert(all + loners(t, 0) =~= all);
    while i < n
        invariant
            i <= n,
            n == touched@.len(),
            t == grid(touched@),
            forall|i: int| 0 <= i < touched@.len() ==> (#[trigger] touched@[i])@.len() == width,
            as_classes(out@) == all + loners(t, i as nat),
            forall|c: int, m: int|
                0 <= c < out@.len() && 0 <= m < out@[c]@.len() ==> (#[trigger] out@[c]@[m]) < n,
        decreases n - i,
    {
        let ghost before = as_classes(out@);
        if !has_column(&touched[i]) {
            let mut c: Vec<usize> = Vec::new();
            c.push(i);
            let ghost cs = as_ints(c@);
            out.push(c);
            proof {
                assert(cs =~= seq![i as int]);
                assert forall|k: int| !#[trigger] marked(t, i as int, k) by {
                    if marked(t, i as int, k) {
                        assert(touched@[i as int]@[k]);
                    }
                }
                assert(as_classes(out@) =~= before.push(cs));
                assert(before.push(cs) =~= all + loners(t, i as nat).push(cs));
            }
        } else {
            assert(!bare(t, i as int)) by {
                let k = choose|k: int| 0 <= k < touched@[i as int]@.len() && touched@[i as int]@[k];
                assert(marked(t, i as int, k));
            }
        }
        i = i + 1;
    }
    out
}

fn has_column(row: &Vec<bool>) -> (r: bool)
    ensures
        r == exists|k: int| 0 <= k < row@.len() && row@[k],
{
    let mut k: usize = 0;
    while k < row.len()
        invariant
            k <= row@.len(),
            forall|j: int| 0 <= j < k ==> !row@[j],
        decreases row@.len() - k,
    {
        if row[k] {
            return true;
        }
        k = k + 1;
    }
    false
}

proof fn lemma_earlier_next(t: Grid, a: int, i: int, k: int)
    requires
        0 <= a < t.len(),
        i == first_with(t, k, 0),
        0 <= i < t.len(),
        marked(t, i, k),
    ensures
        earlier(t, a, k + 1) <==> (earlier(t, a, k) || linked(t, a, i)),
{
    if linked(t, a, i) {
        assert(k < k + 1 && marked(t, i, k) && linked(t, a, i));
    }
    if earlier(t, a, k + 1) && !earlier(t, a, k) {
        let (j, b) = choose|j: int, b: int|
            b < k + 1 && #[trigger] marked(t, j, b) && linked(t, a, j);
        assert(b == k);
        assert(marked(t, i, k) && marked(t, j, k));
        assert(meets(t, j, i)) by {
            assert(marked(t, j, k) && marked(t, i, k));
        }
        lemma_linked_meets(t, j, i);
        lemma_linked_on(t, a, j, i);
    }
}

/// The rows of a class are those that are connected with the row that the
/// class is of.
pub proof fn lemma_members(t: Grid, i: int, from: int, j: int)
    requires
        0 <= from <= t.len(),
    ensures
        members_from(t, i, from).contains(j) <==> (from <= j < t.len() && linked(t, i, j)),
    decreases t.len() - from,
{
    if from < t.len() {
        lemma_members(t, i, from + 1, j);
        let rest = members_from(t, i, from + 1);
        if linked(t, i, from) {
            let all = seq![from] + rest;
            if rest.contains(j) {
                let m = choose|m: int| 0 <= m < rest.len() && rest[m] == j;
                assert(all[m + 1] == j);
            }
            if j == from {
                assert(all[0] == j);
            }
            if all.contains(j) && j != from {
                let m = choose|m: int| 0 <= m < all.len() && all[m] == j;
                assert(rest[m - 1] == j);
            }
        }
    }
}

/// The rows of a class come in increasing order.
pub proof fn lemma_members_ascend(t: Grid, i: int, from: int)
    requires
        0 <= from <= t.len(),
    ensures
        forall|a: int, b: int|
            0 <= a < b < members_from(t, i, from).len() ==> (#[trigger] members_from(t, i, from)[a])
                < (#[trigger] members_from(t, i, from)[b]),
        forall|a: int|
            0 <= a < members_from(t, i, from).len() ==> from <= #[trigger] members_from(t, i, from)[a],
    decreases t.len() - from,
{
    if from < t.len() {
        lemma_members_ascend(t, i, from + 1);
        let rest = members_from(t, i, from + 1);
        let all = members_from(t, i, from);
        if linked(t, i, from) {
            assert(all == seq![from] + rest);
            assert forall|a: int| 0 <= a < all.len() implies from <= #[trigger] all[a] && (a > 0
                ==> from < all[a]) by {
                if a > 0 {
                    assert(all[a] == rest[a - 1]);
                }
            }
            assert forall|a: int, b: int| 0 <= a < b < all.len() implies (#[trigger] all[a]) < (
            #[trigger] all[b]) by {
                assert(all[b] == rest[b - 1]);
                if a > 0 {
                    assert(all[a] == rest[a - 1]);
                }
            }
        } else {
            assert(all == rest);
            assert forall|a: int| 0 <= a < all.len() implies from <= #[trigger] all[a] by {
                assert(from + 1 <= rest[a]);
            }
        }
    }
}

/// The row is in the set with that number, and in no other.
pub open spec fn once(s: Seq<Seq<int>>, j: int, c: int) -> bool {
    &&& 0 <= c < s.len()
    &&& s[c].contains(j)
    &&& forall|d: int| 0 <= d < s.len() && (#[trigger] s[d]).contains(j) ==> d == c
}

/// A row is in a class iff it is connected with a column so far, and then in
/// one class only.
proof fn lemma_in_class(t: Grid, k: nat, j: int)
    requires
        0 <= j < t.len(),
    ensures
        earlier(t, j, k as int) ==> exists|c: int| #[trigger] once(classes(t, k), j, c),
        !earlier(t, j, k as int) ==> forall|c: int|
            0 <= c < classes(t, k).len() ==> !(#[trigger] classes(t, k)[c]).contains(j),
    decreases k,
{
    if k == 0 {
        assert(!earlier(t, j, 0));
    } else {
        let p = k - 1;
        lemma_in_class(t, p as nat, j);
        let s = classes(t, p as nat);
        let i = first_with(t, p, 0);
        if i < t.len() {
            lemma_first_at(t, p, 0);
            lemma_earlier_next(t, j, i, p);
            if opens(t, p) {
                let c = members_from(t, i, 0);
                lemma_members(t, i, 0, j);
                let all = s.push(c);
                assert(classes(t, k) == all);
                if c.contains(j) {
                    lemma_linked_back(t, i, j);
                    if earlier(t, j, p) {
                        let (m, b) = choose|m: int, b: int|
                            b < p && #[trigger] marked(t, m, b) && linked(t, j, m);
                        lemma_linked_on(t, i, j, m);
                    }
                    assert forall|d: int| 0 <= d < all.len() && (#[trigger] all[d]).contains(j) implies d
                        == s.len() by {
                        if d < s.len() {
                            assert(s[d].contains(j));
                        }
                    }
                    assert(all[s.len() as int] == c);
                    assert(once(all, j, s.len() as int));
                } else {
                    if linked(t, j, i) {
                        lemma_linked_back(t, j, i);
                    }
                    if earlier(t, j, p) {
                        let e = choose|e: int| #[trigger] once(s, j, e);
                        assert forall|d: int| 0 <= d < all.len() && (#[trigger] all[d]).contains(j) implies d
                            == e by {
                            if d < s.len() {
                                assert(s[d].contains(j));
                            }
                        }
                        assert(all[e] == s[e]);
                        assert(once(all, j, e));
                    } else {
                        assert forall|d: int| 0 <= d < all.len() implies !(#[trigger] all[d]).contains(
                            j,
                        ) by {
                            if d < s.len() {
                                assert(!s[d].contains(j));
                            }
                        }
                    }
                }
            } else {
                assert(classes(t, k) == s);
                if linked(t, j, i) {
                    let (m, b) = choose|m: int, b: int|
                        b < p && #[trigger] marked(t, m, b) && linked(t, i, m);
                    lemma_linked_on(t, j, i, m);
                    assert(earlier(t, j, p));
                }
            }
        } else {
            assert(!opens(t, p));
            assert(classes(t, k) == s);
            assert(earlier(t, j, k as int) ==> earlier(t, j, p)) by {
                if earlier(t, j, k as int) {
                    let (m, b) = choose|m: int, b: int|
                        b < k && #[trigger] marked(t, m, b) && linked(t, j, m);
                    if b == p {
                        lemma_first_with(t, p, 0, m);
                    }
                }
            }
        }
    }
}

proof fn lemma_first_at(t: Grid, k: int, from: int)
    requires
        0 <= from <= t.len(),
        first_with(t, k, from) < t.len(),
    ensures
        0 <= first_with(t, k, from),
        marked(t, first_with(t, k, from), k),
    decreases t.len() - from,
{
    if !marked(t, from, k) {
        lemma_first_at(t, k, from + 1);
    }
}

proof fn lemma_lonely(t: Grid, n: nat, j: int)
    requires
        0 <= j < t.len(),
    ensures
        bare(t, j) && j < n ==> exists|c: int| #[trigger] once(loners(t, n), j, c),
        !(bare(t, j) && j < n) ==> forall|c: int|
            0 <= c < loners(t, n).len() ==> !(#[trigger] loners(t, n)[c]).contains(j),
    decreases n,
{
    if n > 0 {
        let p = (n - 1) as nat;
        lemma_lonely(t, p, j);
        let s = loners(t, p);
        if bare(t, n - 1) {
            let one = seq![n - 1];
            let all = s.push(one);
            assert(loners(t, n) == all);
            assert(one.contains(j) <==> j == n - 1) by {
                assert(one[0] == n - 1);
            }
            if j == n - 1 {
                assert forall|d: int| 0 <= d < all.len() && (#[trigger] all[d]).contains(j) implies d
                    == s.len() by {
                    if d < s.len() {
                        assert(!s[d].contains(j));
                    }
                }
                assert(once(all, j, s.len() as int));
            } else if bare(t, j) && j < n {
                let e = choose|e: int| #[trigger] once(s, j, e);
                assert forall|d: int| 0 <= d < all.len() && (#[trigger] all[d]).contains(j) implies d
                    == e by {
                    if d < s.len() {
                        assert(s[d].contains(j));
                    }
                }
                assert(all[e] == s[e]);
                assert(once(all, j, e));
            } else {
                assert forall|d: int| 0 <= d < all.len() implies !(#[trigger] all[d]).contains(j) by {
                    if d < s.len() {
                        assert(!s[d].contains(j));
                    }
                }
            }
        } else {
            assert(loners(t, n) == s);
            assert(bare(t, j) ==> j != n - 1);
        }
    }
}

/// Every row is in exactly one of the connected sets.
pub proof fn lemma_every_row_once(t: Grid, width: nat, j: int)
    requires
        of_width(t, width as int),
        0 <= j < t.len(),
    ensures
        exists|c: int| #[trigger] once(components(t, width), j, c),
{
    let s = classes(t, width);
    let l = loners(t, t.len());
    let all = components(t, width);
    lemma_in_class(t, width, j);
    lemma_lonely(t, t.len(), j);
    assert forall|d: int| 0 <= d < all.len() implies (#[trigger] all[d]) == (if d < s.len() {
        s[d]
    } else {
        l[d - s.len()]
    }) by {}
    if bare(t, j) {
        assert(!earlier(t, j, width as int)) by {
            if earlier(t, j, width as int) {
                let (m, b) = choose|m: int, b: int|
                    b < width && #[trigger] marked(t, m, b) && linked(t, j, m);
                let p = choose|p: Seq<int>| #[trigger] leads(t, p, j, m);
                if p.len() > 1 {
                    assert(meets(t, p[1 - 1], p[1]));
                    let k = choose|k: int| #[trigger] marked(t, p[0], k) && marked(t, p[1], k);
                    assert(marked(t, j, k));
                } else {
                    assert(m == j);
                }
            }
        }
        let c = choose|c: int| #[trigger] once(l, j, c);
        assert(all[c + s.len()] == l[c]);
        assert forall|d: int| 0 <= d < all.len() && (#[trigger] all[d]).contains(j) implies d == c
            + s.len() by {
            if d < s.len() {
                assert(!s[d].contains(j));
            } else {
                assert(l[d - s.len()].contains(j));
            }
        }
        assert(once(all, j, c + s.len()));
    } else {
        let k = choose|k: int| #[trigger] marked(t, j, k);
        assert(t[j].len() == width);
        lemma_linked_self(t, j);
        assert(earlier(t, j, width as int)) by {
            assert(k < width && marked(t, j, k) && linked(t, j, j));
        }
        let c = choose|c: int| #[trigger] once(s, j, c);
        assert(all[c] == s[c]);
        assert forall|d: int| 0 <= d < all.len() && (#[trigger] all[d]).contains(j) implies d == c by {
            if d < s.len() {
                assert(s[d].contains(j));
            } else {
                assert(!l[d - s.len()].contains(j));
            }
        }
        assert(once(all, j, c));
    }
}

} // verus!
