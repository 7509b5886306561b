//! Properties of resolution, proved over the specifications of the
//! builder and the resolver.
use vstd::prelude::*;
use crate::model::{definition_occurrence, tree_wf, ByteRange, Captures, DefCapture, Definition, Occurrence, ScopeTree};
use crate::order::{def_key, ref_key, scope_key, sorted_order};
use crate::resolve::{
    definition_in_scope, first_named, first_visible, lookup, reference_occurrence,
    reference_occurrences, references_upto, scope_reference_occurrences,
};
use crate::tree::{anc, def_at, defs_located, id_ok, ids_match, located, defs_placed, innermost, innermost_c, refs_placed, lemma_innermost_matches, captures_stored, captures_stored_with, last_container, laminar, range_contains, srange, definitions_emitted, distinct_entries, hoisted_from, hoists_land, named, text_of};
use crate::locals::{is_resolution, occurrence_starts};

verus! {

/// Some occurrence is the definition occurrence of `d`, numbered by its
/// position.
pub open spec fn emitted(occs: Seq<Occurrence>, d: DefCapture) -> bool {
    exists|k: int| 0 <= k < occs.len() && #[trigger] occs[k] == definition_occurrence(d, (k + 1) as usize)
}

/// Every definition capture yields exactly one definition occurrence: the
/// occurrences are as many as the captures, all are definitions, and each
/// capture's occurrence is among them.
pub proof fn lemma_no_dropped_definitions(
    occs: Seq<Occurrence>,
    starts: Seq<usize>,
    defs: Seq<DefCapture>,
)
    requires
        definitions_emitted(occs, starts, defs),
    ensures
        occs.len() == defs.len(),
        forall|k: int| 0 <= k < occs.len() ==> (#[trigger] occs[k]).is_definition,
        forall|i: int| 0 <= i < defs.len() ==> #[trigger] emitted(occs, defs[i]),
{
    let o = choose|o: Seq<usize>|
        {
            &&& sorted_order(o, defs.len(), def_key(defs))
            &&& occs.len() == defs.len()
            &&& starts.len() == defs.len()
            &&& forall|k: int|
                0 <= k < defs.len() ==> #[trigger] occs[k] == definition_occurrence(
                    defs[o[k] as int],
                    (k + 1) as usize,
                )
            &&& forall|k: int| 0 <= k < defs.len() ==> #[trigger] starts[k] == defs[o[k] as int].range.start
        };
    let q = o.map_values(|x: usize| x as int);
    assert forall|k: int| 0 <= k < occs.len() implies (#[trigger] occs[k]).is_definition by {
        assert(occs[k] == definition_occurrence(defs[o[k] as int], (k + 1) as usize));
    }
    assert forall|i: int| 0 <= i < defs.len() implies #[trigger] emitted(occs, defs[i]) by {
        assert(q.contains(i));
        let k = choose|k: int| 0 <= k < q.len() && q[k] == i;
        assert(q[k] == o[k] as int);
        assert(occs[k] == definition_occurrence(defs[o[k] as int], (k + 1) as usize));
        assert(occs[k] == definition_occurrence(defs[i], (k + 1) as usize));
    }
}

/// The ids of the definition occurrences are pairwise distinct.
pub proof fn lemma_unique_definition_ids(
    occs: Seq<Occurrence>,
    starts: Seq<usize>,
    defs: Seq<DefCapture>,
)
    requires
        definitions_emitted(occs, starts, defs),
        defs.len() <= usize::MAX,
    ensures
        forall|k: int, l: int|
            0 <= k < l < occs.len() ==> (#[trigger] occs[k]).id != (#[trigger] occs[l]).id,
{
    let o = choose|o: Seq<usize>|
        {
            &&& sorted_order(o, defs.len(), def_key(defs))
            &&& occs.len() == defs.len()
            &&& starts.len() == defs.len()
            &&& forall|k: int|
                0 <= k < defs.len() ==> #[trigger] occs[k] == definition_occurrence(
                    defs[o[k] as int],
                    (k + 1) as usize,
                )
            &&& forall|k: int| 0 <= k < defs.len() ==> #[trigger] starts[k] == defs[o[k] as int].range.start
        };
    let q = o.map_values(|x: usize| x as int);
    assert forall|k: int, l: int| 0 <= k < l < occs.len() implies (#[trigger] occs[k]).id != (
    #[trigger] occs[l]).id by {
        assert(0 <= q[k] < defs.len());
        assert(0 <= q[l] < defs.len());
        assert(occs[k] == definition_occurrence(defs[o[k] as int], (k + 1) as usize));
        assert(occs[l] == definition_occurrence(defs[o[l] as int], (l + 1) as usize));
    }
}

/// A definition visible in the scope that owns a reference binds it;
/// definitions of the same name in enclosing scopes are never consulted,
/// whatever their position.
pub proof fn lemma_inner_definition_shadows(t: ScopeTree, s: int, name: usize, pos: usize)
    requires
        0 <= s < t.scopes@.len(),
        definition_in_scope(t.scopes@[s], name, pos) is Some,
    ensures
        lookup(t, s, name, pos) == definition_in_scope(t.scopes@[s], name, pos),
{
}

proof fn lemma_first_visible_none(defs: Seq<Definition>, name: usize, pos: usize)
    requires
        forall|k: int| 0 <= k < defs.len() && (#[trigger] defs[k]).name == name ==> defs[k].range.start > pos,
    ensures
        first_visible(defs, name, pos) is None,
    decreases defs.len(),
{
    if defs.len() > 0 {
        assert forall|k: int| 0 <= k < defs.drop_first().len() && (#[trigger] defs.drop_first()[k]).name == name implies defs.drop_first()[k].range.start > pos by {
            assert(defs.drop_first()[k] == defs[k + 1]);
        }
        lemma_first_visible_none(defs.drop_first(), name, pos);
    }
}

/// A reference that precedes every ordinary definition of its name in
/// its own scope, where no definition of that name is hoisted, is not
/// bound to any of them: it resolves as if it stood in the parent scope,
/// and at the root it stays unbound.
pub proof fn lemma_forward_reference_rejected(t: ScopeTree, s: int, name: usize, pos: usize)
    requires
        tree_wf(t),
        0 <= s < t.scopes@.len(),
        first_named(t.scopes@[s].hoisted_definitions@, name) is None,
        forall|k: int|
            0 <= k < t.scopes@[s].definitions@.len() && (
            #[trigger] t.scopes@[s].definitions@[k]).name == name
                ==> t.scopes@[s].definitions@[k].range.start > pos,
    ensures
        lookup(t, s, name, pos) == match t.scopes@[s].parent {
            Some(p) => lookup(t, p as int, name, pos),
            None => None,
        },
{
    lemma_first_visible_none(t.scopes@[s].definitions@, name, pos);
}

/// A definition hoisted to a scope is visible to a reference owned by that
/// scope at any position, before the definition as well as after it.
pub proof fn lemma_hoisted_definition_visible(t: ScopeTree, s: int, name: usize, id: usize)
    requires
        0 <= s < t.scopes@.len(),
        first_named(t.scopes@[s].hoisted_definitions@, name) == Some(id),
    ensures
        forall|pos: usize| #[trigger] lookup(t, s, name, pos) == Some(id),
{
}

proof fn lemma_first_named_at(defs: Seq<Definition>, name: usize, k: int)
    requires
        0 <= k < defs.len(),
        defs[k].name == name,
        forall|j: int| 0 <= j < k ==> (#[trigger] defs[j]).name != name,
    ensures
        first_named(defs, name) == Some(defs[k].id),
    decreases k,
{
    if k > 0 {
        assert forall|j: int| 0 <= j < k - 1 implies (#[trigger] defs.drop_first()[j]).name != name by {
            assert(defs.drop_first()[j] == defs[j + 1]);
        }
        assert(defs[0].name != name);
        lemma_first_named_at(defs.drop_first(), name, k - 1);
    }
}

/// A definition hoisted to a kind of scope sits in a scope of that kind
/// (or in the root, where no enclosing scope has the kind), and there it
/// binds every reference of its name owned by that scope, at any position,
/// before the definition as well as after it. Of several hoisted
/// definitions of one name, the first binds.
pub proof fn lemma_hoisting_visibility(t: ScopeTree, defs: Seq<DefCapture>, s: int, k: int, pos: usize)
    requires
        hoists_land(t, defs),
        0 <= s < t.scopes@.len(),
        0 <= k < t.scopes@[s].hoisted_definitions@.len(),
        forall|j: int|
            0 <= j < k ==> (#[trigger] t.scopes@[s].hoisted_definitions@[j]).name
                != t.scopes@[s].hoisted_definitions@[k].name,
    ensures
        hoisted_from(t, defs, s, t.scopes@[s].hoisted_definitions@[k]),
        lookup(t, s, t.scopes@[s].hoisted_definitions@[k].name, pos) == Some(
            t.scopes@[s].hoisted_definitions@[k].id,
        ),
{
    let d = t.scopes@[s].hoisted_definitions@[k];
    lemma_first_named_at(t.scopes@[s].hoisted_definitions@, d.name, k);
    lemma_hoisted_definition_visible(t, s, d.name, d.id);
    assert(lookup(t, s, d.name, pos) == Some(d.id));
}

/// A definition hoisted to scope `s` binds a reference owned by `s` or by
/// any scope below it, at any position, as long as no scope on the way up
/// from the reference to `s` (`s` excluded) has its own visible definition
/// of that name.
pub proof fn lemma_hoisted_visible_below(t: ScopeTree, s: int, c: int, name: usize, id: usize, pos: usize)
    requires
        tree_wf(t),
        0 <= s < t.scopes@.len(),
        0 <= c < t.scopes@.len(),
        anc(t, s, c),
        first_named(t.scopes@[s].hoisted_definitions@, name) == Some(id),
        forall|y: int|
            0 <= y < t.scopes@.len() && y != s && anc(t, s, y) && anc(t, y, c) ==> definition_in_scope(
                #[trigger] t.scopes@[y],
                name,
                pos,
            ) is None,
    ensures
        lookup(t, c, name, pos) == Some(id),
    decreases c,
{
    if c != s {
        let p = t.scopes@[c].parent->0 as int;
        assert(anc(t, c, c));
        assert(definition_in_scope(t.scopes@[c], name, pos) is None);
        assert forall|y: int|
            0 <= y < t.scopes@.len() && y != s && anc(t, s, y) && anc(t, y, p) implies definition_in_scope(
                #[trigger] t.scopes@[y],
                name,
                pos,
            ) is None by {
            if y != c {
                assert(anc(t, y, c));
            }
        }
        lemma_hoisted_visible_below(t, s, p, name, id, pos);
    }
}

/// `id` is the id of a definition named `name` stored in scope `y`,
/// either hoisted there or starting no later than `pos`.
pub open spec fn visible_in(t: ScopeTree, y: int, name: usize, pos: usize, id: usize) -> bool {
    ||| exists|j: int|
        0 <= j < t.scopes@[y].hoisted_definitions@.len() && (#[trigger] t.scopes@[y].hoisted_definitions@[j]).id
            == id && t.scopes@[y].hoisted_definitions@[j].name == name
    ||| exists|j: int|
        0 <= j < t.scopes@[y].definitions@.len() && (#[trigger] t.scopes@[y].definitions@[j]).id == id
            && t.scopes@[y].definitions@[j].name == name && t.scopes@[y].definitions@[j].range.start <= pos
}

proof fn lemma_first_named_sound(defs: Seq<Definition>, name: usize, id: usize)
    requires
        first_named(defs, name) == Some(id),
    ensures
        exists|j: int| 0 <= j < defs.len() && (#[trigger] defs[j]).id == id && defs[j].name == name,
    decreases defs.len(),
{
    if defs[0].name != name {
        lemma_first_named_sound(defs.drop_first(), name, id);
        let j = choose|j: int|
            0 <= j < defs.drop_first().len() && (#[trigger] defs.drop_first()[j]).id == id
                && defs.drop_first()[j].name == name;
        assert(defs[j + 1] == defs.drop_first()[j]);
    } else {
        assert(defs[0].id == id);
    }
}

proof fn lemma_first_visible_sound(defs: Seq<Definition>, name: usize, pos: usize, id: usize)
    requires
        first_visible(defs, name, pos) == Some(id),
    ensures
        exists|j: int|
            0 <= j < defs.len() && (#[trigger] defs[j]).id == id && defs[j].name == name && defs[j].range.start
                <= pos,
    decreases defs.len(),
{
    if !(defs[0].name == name && defs[0].range.start <= pos) {
        lemma_first_visible_sound(defs.drop_first(), name, pos, id);
        let j = choose|j: int|
            0 <= j < defs.drop_first().len() && (#[trigger] defs.drop_first()[j]).id == id
                && defs.drop_first()[j].name == name && defs.drop_first()[j].range.start <= pos;
        assert(defs[j + 1] == defs.drop_first()[j]);
    } else {
        assert(defs[0].id == id);
    }
}

/// A reference binds only to a definition of its own name in its own
/// scope or an enclosing one, hoisted into that scope or starting no later
/// than the reference. So an ordinary definition never binds a reference
/// before it, and a hoisted one never binds outside the subtree of the
/// scope it was hoisted to. (Stored ids name their captures: `ids_match`.)
pub proof fn lemma_binding_is_visible(t: ScopeTree, s: int, name: usize, pos: usize, id: usize)
    requires
        0 <= s < t.scopes@.len(),
        lookup(t, s, name, pos) == Some(id),
    ensures
        exists|y: int| 0 <= y < t.scopes@.len() && anc(t, y, s) && #[trigger] visible_in(t, y, name, pos, id),
    decreases s,
{
    match definition_in_scope(t.scopes@[s], name, pos) {
        Some(i) => {
            assert(i == id);
            match first_named(t.scopes@[s].hoisted_definitions@, name) {
                Some(_) => lemma_first_named_sound(t.scopes@[s].hoisted_definitions@, name, id),
                None => lemma_first_visible_sound(t.scopes@[s].definitions@, name, pos, id),
            }
            assert(anc(t, s, s));
            assert(visible_in(t, s, name, pos, id));
        },
        None => {
            let p = t.scopes@[s].parent->0 as int;
            lemma_binding_is_visible(t, p, name, pos, id);
            let y = choose|y: int| 0 <= y < t.scopes@.len() && anc(t, y, p) && #[trigger] visible_in(t, y, name, pos, id);
            if y != s {
                assert(anc(t, y, s));
            }
        },
    }
}

/// With each id stored once: a reference that binds id `id` binds the
/// definition capture at sweep position `id - 1`. If that capture has no
/// hoist kind, it starts no later than the reference; if it has one, the
/// reference's scope lies in the subtree of the scope it was hoisted to.
pub proof fn lemma_binding_respects_capture(
    t: ScopeTree,
    c: Captures,
    o: Seq<usize>,
    dl: Seq<(int, bool, int)>,
    s: int,
    name: usize,
    pos: usize,
    id: usize,
)
    requires
        0 <= s < t.scopes@.len(),
        ids_match(t, c.definitions@, o, dl.len() as int),
        defs_located(t, c.definitions@, o, dl),
        lookup(t, s, name, pos) == Some(id),
    ensures
        1 <= id <= dl.len(),
        c.definitions@[o[id - 1] as int].hoist is None ==> c.definitions@[o[id - 1] as int].range.start <= pos,
        c.definitions@[o[id - 1] as int].hoist is Some ==> anc(t, dl[id - 1].0, s),
{
    lemma_binding_is_visible(t, s, name, pos, id);
    let y = choose|y: int| 0 <= y < t.scopes@.len() && anc(t, y, s) && #[trigger] visible_in(t, y, name, pos, id);
    if exists|j: int|
        0 <= j < t.scopes@[y].hoisted_definitions@.len() && (#[trigger] t.scopes@[y].hoisted_definitions@[j]).id == id
            && t.scopes@[y].hoisted_definitions@[j].name == name {
        let j = choose|j: int|
            0 <= j < t.scopes@[y].hoisted_definitions@.len() && (#[trigger] t.scopes@[y].hoisted_definitions@[j]).id
                == id && t.scopes@[y].hoisted_definitions@[j].name == name;
        let e = t.scopes@[y].hoisted_definitions@[j];
        assert(located(e, dl, y, true, j));
        assert(def_at(t, dl[id - 1], c.definitions@, o, id - 1));
    } else {
        let j = choose|j: int|
            0 <= j < t.scopes@[y].definitions@.len() && (#[trigger] t.scopes@[y].definitions@[j]).id == id
                && t.scopes@[y].definitions@[j].name == name && t.scopes@[y].definitions@[j].range.start <= pos;
        let e = t.scopes@[y].definitions@[j];
        assert(located(e, dl, y, false, j));
        assert(def_at(t, dl[id - 1], c.definitions@, o, id - 1));
        assert(id_ok(e, c.definitions@, o, dl.len() as int));
    }
}

proof fn lemma_scope_no_self_reference(t: ScopeTree, starts: Seq<usize>, s: int, j: int)
    ensures
        forall|k: int|
            0 <= k < scope_reference_occurrences(t, starts, s, j).len() ==> !starts.contains(
                (#[trigger] scope_reference_occurrences(t, starts, s, j)[k]).range.start,
            ) && !scope_reference_occurrences(t, starts, s, j)[k].is_definition,
    decreases j,
{
    if j > 0 {
        lemma_scope_no_self_reference(t, starts, s, j - 1);
        let a = scope_reference_occurrences(t, starts, s, j - 1);
        let b = reference_occurrence(t, starts, s, t.scopes@[s].references@[j - 1]);
        assert(scope_reference_occurrences(t, starts, s, j) == a + b);
        assert forall|k: int| 0 <= k < (a + b).len() implies !starts.contains(
            (#[trigger] (a + b)[k]).range.start,
        ) && !(a + b)[k].is_definition by {
            if k >= a.len() {
                assert((a + b)[k] == b[k - a.len()]);
            } else {
                assert((a + b)[k] == a[k]);
            }
        }
    }
}

proof fn lemma_upto_no_self_reference(t: ScopeTree, starts: Seq<usize>, i: int)
    ensures
        forall|k: int|
            0 <= k < references_upto(t, starts, i).len() ==> !starts.contains(
                (#[trigger] references_upto(t, starts, i)[k]).range.start,
            ) && !references_upto(t, starts, i)[k].is_definition,
    decreases i,
{
    if i > 0 {
        lemma_upto_no_self_reference(t, starts, i - 1);
        let a = references_upto(t, starts, i - 1);
        let b = scope_reference_occurrences(t, starts, i - 1, t.scopes@[i - 1].references@.len() as int);
        lemma_scope_no_self_reference(t, starts, i - 1, t.scopes@[i - 1].references@.len() as int);
        assert(references_upto(t, starts, i) == a + b);
        assert forall|k: int| 0 <= k < (a + b).len() implies !starts.contains(
            (#[trigger] (a + b)[k]).range.start,
        ) && !(a + b)[k].is_definition by {
            if k >= a.len() {
                assert((a + b)[k] == b[k - a.len()]);
            } else {
                assert((a + b)[k] == a[k]);
            }
        }
    }
}

/// No reference occurrence starts where a definition starts: a position
/// captured both as a definition and as a reference never binds to
/// itself. Reference occurrences never carry the definition role.
pub proof fn lemma_no_self_reference(t: ScopeTree, starts: Seq<usize>)
    ensures
        forall|k: int|
            0 <= k < reference_occurrences(t, starts).len() ==> !starts.contains(
                (#[trigger] reference_occurrences(t, starts)[k]).range.start,
            ) && !reference_occurrences(t, starts)[k].is_definition,
{
    lemma_upto_no_self_reference(t, starts, t.scopes@.len() as int);
}

/// Stored names are equal exactly when the texts they name are: names
/// from one table identify identifiers by their text.
pub proof fn lemma_same_name_same_text(
    table: Seq<Seq<char>>,
    source: Seq<u8>,
    r1: ByteRange,
    n1: usize,
    r2: ByteRange,
    n2: usize,
)
    requires
        distinct_entries(table),
        named(table, source, r1, n1),
        named(table, source, r2, n2),
    ensures
        (n1 == n2) <==> (text_of(source, r1) == text_of(source, r2)),
{
    if n1 != n2 {
        if n1 < n2 {
            assert(table[n1 as int] != table[n2 as int]);
        } else {
            assert(table[n2 as int] != table[n1 as int]);
        }
    }
}

/// `x` comes before `y` in the order that `sorted_order` asks for.
pub open spec fn precedes(key: spec_fn(int) -> (usize, usize), x: usize, y: usize) -> bool {
    let a = key(x as int);
    let b = key(y as int);
    a.0 < b.0 || (a.0 == b.0 && (a.1 < b.1 || (a.1 == b.1 && x < y)))
}

proof fn lemma_innermost_c_same(c: Captures, so1: Seq<usize>, so2: Seq<usize>, p: usize, n: int)
    requires
        forall|y: int| 1 <= y < n ==> #[trigger] srange(c, so1, y) == srange(c, so2, y),
    ensures
        innermost_c(c, so1, p, n) == innermost_c(c, so2, p, n),
    decreases n,
{
    if n > 1 {
        assert(srange(c, so1, n - 1) == srange(c, so2, n - 1));
        lemma_innermost_c_same(c, so1, so2, p, n - 1);
    }
}

proof fn lemma_sorted_prefix_equal(
    o1: Seq<usize>,
    o2: Seq<usize>,
    n: nat,
    key: spec_fn(int) -> (usize, usize),
    k: int,
)
    requires
        sorted_order(o1, n, key),
        sorted_order(o2, n, key),
        0 <= k <= n,
    ensures
        forall|j: int| 0 <= j < k ==> #[trigger] o1[j] == o2[j],
    decreases k,
{
    if k > 0 {
        lemma_sorted_prefix_equal(o1, o2, n, key, k - 1);
        let q1 = o1.map_values(|x: usize| x as int);
        let q2 = o2.map_values(|x: usize| x as int);
        let i = k - 1;
        let a = o1[i];
        let b = o2[i];
        if a != b {
            assert(0 <= q1[i] < n && 0 <= q2[i] < n);
            if precedes(key, a, b) {
                assert(q2.contains(a as int));
                let m = choose|m: int| 0 <= m < q2.len() && q2[m] == a as int;
                if m < i {
                    assert(o1[m] == o2[m]);
                    assert(q1[m] != q1[i]);
                } else {
                    assert(m != i);
                    assert(precedes(key, o2[i], o2[m]));
                }
            } else {
                assert(precedes(key, b, a));
                assert(q1.contains(b as int));
                let m = choose|m: int| 0 <= m < q1.len() && q1[m] == b as int;
                if m < i {
                    assert(o1[m] == o2[m]);
                    assert(q2[m] != q2[i]);
                } else {
                    assert(m != i);
                    assert(precedes(key, o1[i], o1[m]));
                }
            }
        }
    }
}

/// Definition occurrences are determined by the captures alone: any two
/// emissions for the same definition captures are identical, ids
/// included.
pub proof fn lemma_definitions_deterministic(
    occs1: Seq<Occurrence>,
    starts1: Seq<usize>,
    occs2: Seq<Occurrence>,
    starts2: Seq<usize>,
    defs: Seq<DefCapture>,
)
    requires
        definitions_emitted(occs1, starts1, defs),
        definitions_emitted(occs2, starts2, defs),
    ensures
        occs1 == occs2,
        starts1 == starts2,
{
    let o1 = choose|o: Seq<usize>|
        {
            &&& sorted_order(o, defs.len(), def_key(defs))
            &&& occs1.len() == defs.len()
            &&& starts1.len() == defs.len()
            &&& forall|k: int|
                0 <= k < defs.len() ==> #[trigger] occs1[k] == definition_occurrence(
                    defs[o[k] as int],
                    (k + 1) as usize,
                )
            &&& forall|k: int| 0 <= k < defs.len() ==> #[trigger] starts1[k] == defs[o[k] as int].range.start
        };
    let o2 = choose|o: Seq<usize>|
        {
            &&& sorted_order(o, defs.len(), def_key(defs))
            &&& occs2.len() == defs.len()
            &&& starts2.len() == defs.len()
            &&& forall|k: int|
                0 <= k < defs.len() ==> #[trigger] occs2[k] == definition_occurrence(
                    defs[o[k] as int],
                    (k + 1) as usize,
                )
            &&& forall|k: int| 0 <= k < defs.len() ==> #[trigger] starts2[k] == defs[o[k] as int].range.start
        };
    lemma_sorted_prefix_equal(o1, o2, defs.len(), def_key(defs), defs.len() as int);
    assert forall|k: int| 0 <= k < defs.len() implies occs1[k] == occs2[k] && starts1[k] == starts2[k] by {
        assert(o1[k] == o2[k]);
        assert(occs1[k] == definition_occurrence(defs[o1[k] as int], (k + 1) as usize));
        assert(occs2[k] == definition_occurrence(defs[o2[k] as int], (k + 1) as usize));
        assert(starts1[k] == defs[o1[k] as int].range.start);
        assert(starts2[k] == defs[o2[k] as int].range.start);
    }
    assert(occs1 == occs2);
    assert(starts1 == starts2);
}

/// The scope arena is determined by the captures: any two trees that store
/// the same captures, under roots with the same end, have the same scopes,
/// with the same ranges and kinds; with nested or disjoint scope captures,
/// every non-empty scope has the same parent in both, and every definition
/// and reference is drained into the same scope in both.
pub proof fn lemma_tree_shape_deterministic(t1: ScopeTree, t2: ScopeTree, c: Captures)
    requires
        captures_stored(t1, c),
        captures_stored(t2, c),
        tree_wf(t1),
        tree_wf(t2),
        t1.scopes@[0].range.end == t2.scopes@[0].range.end,
    ensures
        t1.scopes@.len() == t2.scopes@.len(),
        forall|x: int|
            1 <= x < t1.scopes@.len() ==> (#[trigger] t1.scopes@[x]).range == t2.scopes@[x].range
                && t1.scopes@[x].kind@ == t2.scopes@[x].kind@,
        laminar(c.scopes@) ==> forall|x: int|
            1 <= x < t1.scopes@.len() && t1.scopes@[x].range.start < t1.scopes@[x].range.end
                ==> (#[trigger] t1.scopes@[x]).parent == t2.scopes@[x].parent,
        laminar(c.scopes@) ==> exists|o: Seq<usize>, ro: Seq<usize>, dp: Seq<int>, rp: Seq<int>|
            {
                &&& defs_placed(t1, c.definitions@, o, dp) && defs_placed(t2, c.definitions@, o, dp)
                &&& refs_placed(t1, c.references@, ro, rp) && refs_placed(t2, c.references@, ro, rp)
                &&& dp.len() == c.definitions@.len()
                &&& forall|k: int| rp.len() <= k < c.references@.len() ==> #[trigger] c.references@[ro[k] as int].range.start
                    >= t1.scopes@[0].range.end
            },
{
    let (so1, o1, ro1, dp1, rp1, dl1, rl1) = choose|
        so: Seq<usize>,
        o: Seq<usize>,
        ro: Seq<usize>,
        dp: Seq<int>,
        rp: Seq<int>,
        dl: Seq<(int, bool, int)>,
        rl: Seq<(int, int)>,
    | captures_stored_with(t1, c, so, o, ro, dp, rp, dl, rl);
    let (so2, o2, ro2, dp2, rp2, dl2, rl2) = choose|
        so: Seq<usize>,
        o: Seq<usize>,
        ro: Seq<usize>,
        dp: Seq<int>,
        rp: Seq<int>,
        dl: Seq<(int, bool, int)>,
        rl: Seq<(int, int)>,
    | captures_stored_with(t2, c, so, o, ro, dp, rp, dl, rl);
    let m = c.scopes@.len();
    lemma_sorted_prefix_equal(so1, so2, m, scope_key(c.scopes@), m as int);
    assert forall|x: int| 1 <= x < t1.scopes@.len() implies (#[trigger] t1.scopes@[x]).range == t2.scopes@[x].range
        && t1.scopes@[x].kind@ == t2.scopes@[x].kind@ by {
        assert(so1[x - 1] == so2[x - 1]);
        assert(t2.scopes@[x].range == c.scopes@[so2[x - 1] as int].range);
    }
    if laminar(c.scopes@) {
        lemma_sorted_prefix_equal(o1, o2, c.definitions@.len(), def_key(c.definitions@), c.definitions@.len() as int);
        lemma_sorted_prefix_equal(ro1, ro2, c.references@.len(), ref_key(c.references@), c.references@.len() as int);
        assert(o1 =~= o2);
        assert(ro1 =~= ro2);
        let m1 = c.scopes@.len() + 1;
        assert forall|p: usize| #[trigger] innermost(t1, p) == innermost(t2, p) by {
            lemma_innermost_matches(t1, c, so1, p, m1 as int);
            lemma_innermost_matches(t2, c, so2, p, m1 as int);
            assert forall|y: int| 1 <= y < m1 implies #[trigger] srange(c, so1, y) == srange(c, so2, y) by {
                assert(so1[y - 1] == so2[y - 1]);
            }
            lemma_innermost_c_same(c, so1, so2, p, m1 as int);
        }
        if rp1.len() < rp2.len() {
            let k = rp1.len() as int;
            assert(c.references@[ro2[k] as int].range.start < t2.scopes@[0].range.end);
        } else if rp2.len() < rp1.len() {
            let k = rp2.len() as int;
            assert(c.references@[ro1[k] as int].range.start < t1.scopes@[0].range.end);
        }
        assert(dp1 =~= dp2);
        assert(rp1 =~= rp2);
        assert(defs_placed(t2, c.definitions@, o1, dp1));
        assert(refs_placed(t2, c.references@, ro1, rp1));
        assert forall|x: int|
            1 <= x < t1.scopes@.len() && t1.scopes@[x].range.start < t1.scopes@[x].range.end
                implies (#[trigger] t1.scopes@[x]).parent == t2.scopes@[x].parent by {
            assert(t2.scopes@[x].range == t1.scopes@[x].range);
            assert(srange(c, so1, x) == t1.scopes@[x].range);
            assert(last_container(t1, c, so1, x));
            assert(last_container(t2, c, so2, x));
            let p1 = t1.scopes@[x].parent->0 as int;
            let p2 = t2.scopes@[x].parent->0 as int;
            assert(forall|y: int| 1 <= y < t1.scopes@.len() ==> #[trigger] srange(c, so1, y) == srange(c, so2, y)
                && srange(c, so1, y) == t1.scopes@[y].range) by {
                assert forall|y: int| 1 <= y < t1.scopes@.len() implies #[trigger] srange(c, so1, y) == srange(c, so2, y)
                    && srange(c, so1, y) == t1.scopes@[y].range by {
                    assert(so1[y - 1] == so2[y - 1]);
                    assert(t1.scopes@[y].range == c.scopes@[so1[y - 1] as int].range);
                }
            }
            if p1 < p2 {
                assert(range_contains(t2.scopes@[p2].range, t2.scopes@[x].range));
                assert(t2.scopes@[p2].range == t1.scopes@[p2].range);
                assert(!range_contains(srange(c, so1, p2), srange(c, so1, x)));
            } else if p2 < p1 {
                assert(range_contains(t1.scopes@[p1].range, t1.scopes@[x].range));
                assert(t2.scopes@[p1].range == t1.scopes@[p1].range);
                assert(!range_contains(srange(c, so2, p1), srange(c, so2, x)));
            }
        }
    }
}

/// Resolving a file twice yields the same definition occurrences, ids
/// included.
pub proof fn lemma_resolution_deterministic(
    v1: Seq<Occurrence>,
    v2: Seq<Occurrence>,
    source: Seq<u8>,
    c: Captures,
)
    requires
        is_resolution(v1, source, c),
        is_resolution(v2, source, c),
    ensures
        v1.take(c.definitions@.len() as int) == v2.take(c.definitions@.len() as int),
{
    let defs = c.definitions@;
    let n = defs.len() as int;
    lemma_definitions_deterministic(
        v1.take(n),
        occurrence_starts(v1.take(n)),
        v2.take(n),
        occurrence_starts(v2.take(n)),
        defs,
    );
}

} // verus!
