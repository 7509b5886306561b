//! Sorting captures by position.
use vstd::prelude::*;
use crate::model::{DefCapture, RefCapture, ScopeCapture};

verus! {

/// Lexicographic order on sort keys.
pub open spec fn key_le(a: (usize, usize, usize), b: (usize, usize, usize)) -> bool {
    a.0 < b.0 || (a.0 == b.0 && (a.1 < b.1 || (a.1 == b.1 && a.2 <= b.2)))
}

pub open spec fn keys_sorted(s: Seq<(usize, usize, usize)>) -> bool {
    forall|i: int, j: int| 0 <= i < j < s.len() ==> key_le(#[trigger] s[i], #[trigger] s[j])
}

/// `p` lists each index below `n` exactly once.
pub open spec fn is_permutation(p: Seq<int>, n: nat) -> bool {
    &&& p.len() == n
    &&& forall|k: int| 0 <= k < n ==> 0 <= #[trigger] p[k] < n
    &&& forall|k: int, l: int| 0 <= k < l < n ==> #[trigger] p[k] != #[trigger] p[l]
    &&& forall|i: int| 0 <= i < n ==> #[trigger] p.contains(i)
}

/// `new` holds the elements of `old` rearranged.
pub open spec fn rearranges<T>(new: Seq<T>, old: Seq<T>) -> bool {
    exists|p: Seq<int>|
        is_permutation(p, old.len()) && new.len() == old.len() && forall|k: int|
            0 <= k < new.len() ==> #[trigger] new[k] == old[p[k]]
}

/// Relies on `slice::sort`: it rearranges the elements into ascending order,
/// and tuples of integers are ordered lexicographically.
#[verifier::external_body]
fn sort_keys(v: &mut Vec<(usize, usize, usize)>)
    ensures
        rearranges(final(v)@, old(v)@),
        keys_sorted(final(v)@),
{
    v.sort();
}

/// The order of `o` is a permutation of the indices below `n` such that the
/// keys `key(i)` ascend, ties broken by the index itself.
pub open spec fn sorted_order(o: Seq<usize>, n: nat, key: spec_fn(int) -> (usize, usize)) -> bool {
    &&& is_permutation(o.map_values(|i: usize| i as int), n)
    &&& forall|k: int, l: int|
        0 <= k < l < n ==> {
            let a = key(#[trigger] o[k] as int);
            let b = key(#[trigger] o[l] as int);
            a.0 < b.0 || (a.0 == b.0 && (a.1 < b.1 || (a.1 == b.1 && o[k] < o[l])))
        }
}

/// Sorts indices by the keys given, ties broken by index.
fn order_by_keys(keys: Vec<(usize, usize)>) -> (r: Vec<usize>)
    ensures
        sorted_order(r@, keys@.len(), |i: int| keys@[i]),
{
    let n = keys.len();
    let mut v: Vec<(usize, usize, usize)> = Vec::new();
    let mut i: usize = 0;
    while i < n
        invariant
            n == keys@.len(),
            i <= n,
            v@.len() == i,
            forall|j: int| 0 <= j < i ==> #[trigger] v@[j] == (keys@[j].0, keys@[j].1, j as usize),
        decreases n - i,
    {
        v.push((keys[i].0, keys[i].1, i));
        i = i + 1;
    }
    let ghost before = v@;
    sort_keys(&mut v);
    let ghost p: Seq<int> = choose|p: Seq<int>|
        is_permutation(p, before.len()) && v@.len() == before.len() && forall|k: int|
            0 <= k < v@.len() ==> #[trigger] v@[k] == before[p[k]];
    let mut r: Vec<usize> = Vec::new();
    let mut k: usize = 0;
    while k < n
        invariant
            n == keys@.len(),
            v@.len() == n,
            k <= n,
            r@.len() == k,
            forall|j: int| 0 <= j < k ==> #[trigger] r@[j] as int == p[j],
            forall|j: int| 0 <= j < n ==> #[trigger] v@[j] == before[p[j]],
            is_permutation(p, n as nat),
            forall|j: int| 0 <= j < n ==> #[trigger] before[j] == (keys@[j].0, keys@[j].1, j as usize),
        decreases n - k,
    {
        proof {
            assert(v@[k as int] == before[p[k as int]]);
        }
        r.push(v[k].2);
        k = k + 1;
    }
    proof {
        let q = r@.map_values(|i: usize| i as int);
        assert(q =~= p) by {
            assert forall|j: int| 0 <= j < n implies q[j] == p[j] by {
                assert(r@[j] as int == p[j]);
            }
        }
        assert forall|k: int, l: int| 0 <= k < l < n implies {
            let a = keys@[#[trigger] r@[k] as int];
            let b = keys@[#[trigger] r@[l] as int];
            a.0 < b.0 || (a.0 == b.0 && (a.1 < b.1 || (a.1 == b.1 && r@[k] < r@[l])))
        } by {
            assert(key_le(v@[k], v@[l]));
            assert(v@[k] == before[p[k]]);
            assert(v@[l] == before[p[l]]);
            assert(r@[k] as int == p[k]);
            assert(r@[l] as int == p[l]);
            assert(p[k] != p[l]);
        }
    }
    r
}

/// The start byte of each definition capture.
pub open spec fn def_key(d: Seq<DefCapture>) -> spec_fn(int) -> (usize, usize) {
    |i: int| (d[i].range.start, 0usize)
}

/// The start byte of each reference capture.
pub open spec fn ref_key(d: Seq<RefCapture>) -> spec_fn(int) -> (usize, usize) {
    |i: int| (d[i].range.start, 0usize)
}

/// Scopes ascend by start; of two with the same start the wider comes
/// first, so that a scope precedes every scope it contains.
pub open spec fn scope_key(d: Seq<ScopeCapture>) -> spec_fn(int) -> (usize, usize) {
    |i: int| (d[i].range.start, (usize::MAX - d[i].range.end) as usize)
}

/// The order in which the sweep visits definitions: by start byte, then
/// by capture order.
pub fn definition_order(defs: &Vec<DefCapture>) -> (r: Vec<usize>)
    ensures
        sorted_order(r@, defs@.len(), def_key(defs@)),
{
    let mut keys: Vec<(usize, usize)> = Vec::new();
    let mut i: usize = 0;
    while i < defs.len()
        invariant
            i <= defs@.len(),
            keys@.len() == i,
            forall|j: int| 0 <= j < i ==> #[trigger] keys@[j] == def_key(defs@)(j),
        decreases defs@.len() - i,
    {
        keys.push((defs[i].range.start, 0));
        i = i + 1;
    }
    let r = order_by_keys(keys);
    proof {
        assert forall|k: int, l: int| 0 <= k < l < defs@.len() implies {
            let a = def_key(defs@)(#[trigger] r@[k] as int);
            let b = def_key(defs@)(#[trigger] r@[l] as int);
            a.0 < b.0 || (a.0 == b.0 && (a.1 < b.1 || (a.1 == b.1 && r@[k] < r@[l])))
        } by {
            let q = r@.map_values(|i: usize| i as int);
            assert(0 <= q[k] < defs@.len());
            assert(0 <= q[l] < defs@.len());
            assert(keys@[r@[k] as int] == def_key(defs@)(r@[k] as int));
            assert(keys@[r@[l] as int] == def_key(defs@)(r@[l] as int));
        }
    }
    r
}

/// The order in which the sweep visits references: by start byte, then
/// by capture order.
pub fn reference_order(refs: &Vec<RefCapture>) -> (r: Vec<usize>)
    ensures
        sorted_order(r@, refs@.len(), ref_key(refs@)),
{
    let mut keys: Vec<(usize, usize)> = Vec::new();
    let mut i: usize = 0;
    while i < refs.len()
        invariant
            i <= refs@.len(),
            keys@.len() == i,
            forall|j: int| 0 <= j < i ==> #[trigger] keys@[j] == ref_key(refs@)(j),
        decreases refs@.len() - i,
    {
        keys.push((refs[i].range.start, 0));
        i = i + 1;
    }
    let r = order_by_keys(keys);
    proof {
        assert forall|k: int, l: int| 0 <= k < l < refs@.len() implies {
            let a = ref_key(refs@)(#[trigger] r@[k] as int);
            let b = ref_key(refs@)(#[trigger] r@[l] as int);
            a.0 < b.0 || (a.0 == b.0 && (a.1 < b.1 || (a.1 == b.1 && r@[k] < r@[l])))
        } by {
            let q = r@.map_values(|i: usize| i as int);
            assert(0 <= q[k] < refs@.len());
            assert(0 <= q[l] < refs@.len());
            assert(keys@[r@[k] as int] == ref_key(refs@)(r@[k] as int));
            assert(keys@[r@[l] as int] == ref_key(refs@)(r@[l] as int));
        }
    }
    r
}

/// The order in which the sweep opens scopes: by start byte, wider first,
/// then by capture order, so that of two scopes with the same range the
/// one captured first becomes the parent of the other.
pub fn scope_order(scopes: &Vec<ScopeCapture>) -> (r: Vec<usize>)
    ensures
        sorted_order(r@, scopes@.len(), scope_key(scopes@)),
{
    let mut keys: Vec<(usize, usize)> = Vec::new();
    let mut i: usize = 0;
    while i < scopes.len()
        invariant
            i <= scopes@.len(),
            keys@.len() == i,
            forall|j: int| 0 <= j < i ==> #[trigger] keys@[j] == scope_key(scopes@)(j),
        decreases scopes@.len() - i,
    {
        keys.push((scopes[i].range.start, usize::MAX - scopes[i].range.end));
        i = i + 1;
    }
    let r = order_by_keys(keys);
    proof {
        assert forall|k: int, l: int| 0 <= k < l < scopes@.len() implies {
            let a = scope_key(scopes@)(#[trigger] r@[k] as int);
            let b = scope_key(scopes@)(#[trigger] r@[l] as int);
            a.0 < b.0 || (a.0 == b.0 && (a.1 < b.1 || (a.1 == b.1 && r@[k] < r@[l])))
        } by {
            let q = r@.map_values(|i: usize| i as int);
            assert(0 <= q[k] < scopes@.len());
            assert(0 <= q[l] < scopes@.len());
            assert(keys@[r@[k] as int] == scope_key(scopes@)(r@[k] as int));
            assert(keys@[r@[l] as int] == scope_key(scopes@)(r@[l] as int));
        }
    }
    r
}

} // verus!
