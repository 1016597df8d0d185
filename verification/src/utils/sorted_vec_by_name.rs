//! Vectors of named items, in strictly increasing order of their names.

use std::collections::BTreeSet;

use vstd::prelude::*;

verus! {

broadcast use vstd::std_specs::btree::group_btree_axioms;

/// `f` can be called on all items and answers equal calls alike.
pub open spec fn names<P, F: Fn(&P) -> u64>(f: F) -> bool {
    &&& forall|p: &P| #[trigger] call_requires(f, (p,))
    &&& forall|p: &P, a: u64, b: u64| #[trigger]
        call_ensures(f, (p,), a) && #[trigger] call_ensures(f, (p,), b) ==> a == b
}

/// The name that `f` gives an item.
pub open spec fn name_by<P, F: Fn(&P) -> u64>(f: F, p: P) -> u64 {
    choose|k: u64| call_ensures(f, (&p,), k)
}

/// The names increase.
pub open spec fn increasing<P, F: Fn(&P) -> u64>(f: F, s: Seq<P>) -> bool {
    forall|i: int, j: int|
        0 <= i < j < s.len() ==> #[trigger] name_by(f, s[i]) < #[trigger] name_by(f, s[j])
}

/// Some item has the name.
pub open spec fn holds_name<P, F: Fn(&P) -> u64>(f: F, s: Seq<P>, name: u64) -> bool {
    exists|i: int| 0 <= i < s.len() && #[trigger] name_by(f, s[i]) == name
}

fn name_of<P, F: Fn(&P) -> u64>(f: &F, p: &P) -> (r: u64)
    requires
        names::<P, F>(*f),
    ensures
        r == name_by(*f, *p),
{
    let r: u64 = f(p);
    assert(call_ensures(*f, (p,), r));
    r
}

/// Append `item`, whose name is greater than all others, or leave the vector
/// as it is if the name is in it already.
pub fn add_to_sorted_by_name<P, F: Fn(&P) -> u64>(vec: &mut Vec<P>, item: P, key_of: &F)
    requires
        names::<P, F>(*key_of),
        increasing(*key_of, old(vec)@),
        holds_name(*key_of, old(vec)@, name_by(*key_of, item)) || forall|i: int|
            0 <= i < old(vec)@.len() ==> #[trigger] name_by(*key_of, old(vec)@[i]) < name_by(
                *key_of,
                item,
            ),
    ensures
        final(vec)@ == (if holds_name(*key_of, old(vec)@, name_by(*key_of, item)) {
            old(vec)@
        } else {
            old(vec)@.push(item)
        }),
        increasing(*key_of, final(vec)@),
        holds_name(*key_of, final(vec)@, name_by(*key_of, item)),
{
    let key: u64 = name_of(key_of, &item);
    let mut i: usize = 0;
    while i < vec.len()
        invariant
            i <= vec@.len(),
            vec@ == old(vec)@,
            names::<P, F>(*key_of),
            increasing(*key_of, vec@),
            key == name_by(*key_of, item),
            forall|j: int| 0 <= j < i ==> #[trigger] name_by(*key_of, vec@[j]) != key,
        decreases vec@.len() - i,
    {
        if name_of(key_of, &vec[i]) == key {
            return;
        }
        i = i + 1;
    }
    vec.push(item);
    assert(vec@.last() == item);
    assert(name_by(*key_of, vec@[vec@.len() - 1]) == key);
}

/// Find an item by its name, by halving.
pub fn lookup_sorted_by_name<'a, P, F: Fn(&P) -> u64>(vec: &'a Vec<P>, name: u64, key_of: &F) -> (r: &'a P)
    requires
        names::<P, F>(*key_of),
        increasing(*key_of, vec@),
        holds_name(*key_of, vec@, name),
    ensures
        vec@.contains(*r),
        name_by(*key_of, *r) == name,
{
    let mut low: usize = 0;
    let mut high: usize = vec.len();
    while low + 1 < high
        invariant
            low <= high <= vec@.len(),
            names::<P, F>(*key_of),
            increasing(*key_of, vec@),
            exists|i: int| low <= i < high && #[trigger] name_by(*key_of, vec@[i]) == name,
        decreases high - low,
    {
        let mid: usize = low + (high - low) / 2;
        if name_of(key_of, &vec[mid]) <= name {
            low = mid;
        } else {
            high = mid;
        }
    }
    &vec[low]
}

/// Filter a sorted vec to entries whose key is in `scope`. Preserves
/// order.
pub fn slice_sorted_by_name<P: Clone, F: Fn(&P) -> u64>(
    vec: &Vec<P>,
    scope: &BTreeSet<u64>,
    key_of: &F,
) -> (r: Vec<P>)
    requires
        names::<P, F>(*key_of),
    ensures
        ({
            let kept = vec@.filter(|p: P| scope@.contains(name_by(*key_of, p)));
            &&& r@.len() == kept.len()
            &&& forall|i: int| 0 <= i < r@.len() ==> cloned(kept[i], #[trigger] r@[i])
        }),
{
    let mut out: Vec<P> = Vec::new();
    let mut i: usize = 0;
    let ghost wanted = |p: P| scope@.contains(name_by(*key_of, p));
    assert(vec@.take(0).filter(wanted).len() == 0) by {
        reveal(Seq::filter);
    }
    while i < vec.len()
        invariant
            i <= vec@.len(),
            names::<P, F>(*key_of),
            wanted == (|p: P| scope@.contains(name_by(*key_of, p))),
            out@.len() == vec@.take(i as int).filter(wanted).len(),
            forall|j: int|
                0 <= j < out@.len() ==> cloned(
                    vec@.take(i as int).filter(wanted)[j],
                    #[trigger] out@[j],
                ),
        decreases vec@.len() - i,
    {
        proof {
            let before = vec@.take(i as int);
            let after = vec@.take(i + 1);
            assert(after.drop_last() =~= before);
            reveal(Seq::filter);
        }
        let key: u64 = name_of(key_of, &vec[i]);
        if scope.contains(&key) {
            out.push(vec[i].clone());
        }
        i = i + 1;
    }
    assert(vec@.take(i as int) =~= vec@);
    out
}

/// Every name that was to be found before an item was added is found after.
pub proof fn lemma_name_kept<P, F: Fn(&P) -> u64>(f: F, s: Seq<P>, item: P, name: u64)
    requires
        holds_name(f, s, name),
    ensures
        holds_name(f, s.push(item), name),
{
    let i = choose|i: int| 0 <= i < s.len() && #[trigger] name_by(f, s[i]) == name;
    assert(s.push(item)[i] == s[i]);
}

} // verus!
