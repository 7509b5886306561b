//! Binding each reference to the nearest visible definition.
use vstd::prelude::*;
use crate::model::{tree_wf, Definition, Occurrence, Reference, Scope, ScopeTree};
use crate::tree::LocalResolver;

verus! {

/// The id of the first definition in `defs` named `name`.
pub open spec fn first_named(defs: Seq<Definition>, name: usize) -> Option<usize>
    decreases defs.len(),
{
    if defs.len() == 0 {
        None
    } else if defs[0].name == name {
        Some(defs[0].id)
    } else {
        first_named(defs.drop_first(), name)
    }
}

/// The id of the first definition in `defs` named `name` that starts no
/// later than `pos`.
pub open spec fn first_visible(defs: Seq<Definition>, name: usize, pos: usize) -> Option<usize>
    decreases defs.len(),
{
    if defs.len() == 0 {
        None
    } else if defs[0].name == name && defs[0].range.start <= pos {
        Some(defs[0].id)
    } else {
        first_visible(defs.drop_first(), name, pos)
    }
}

/// What a reference named `name` at byte `pos` finds in scope `s` itself:
/// a hoisted definition wherever it stands, else an ordinary one that
/// does not start after the reference.
pub open spec fn definition_in_scope(s: Scope, name: usize, pos: usize) -> Option<usize> {
    match first_named(s.hoisted_definitions@, name) {
        Some(id) => Some(id),
        None => first_visible(s.definitions@, name, pos),
    }
}

/// The id that a reference named `name` at byte `pos`, owned by scope `s`,
/// binds to: the first scope on the way from `s` to the root that has a
/// visible definition decides.
pub open spec fn lookup(t: ScopeTree, s: int, name: usize, pos: usize) -> Option<usize>
    decreases s,
{
    if 0 <= s < t.scopes@.len() {
        match definition_in_scope(t.scopes@[s], name, pos) {
            Some(id) => Some(id),
            None => match t.scopes@[s].parent {
                Some(p) => if p < s {
                    lookup(t, p as int, name, pos)
                } else {
                    None
                },
                None => None,
            },
        }
    } else {
        None
    }
}

/// The occurrence a reference of scope `s` emits: none where a definition
/// starts at the same byte, or where nothing is visible.
pub open spec fn reference_occurrence(t: ScopeTree, starts: Seq<usize>, s: int, r: Reference) -> Seq<
    Occurrence,
> {
    if starts.contains(r.range.start) {
        Seq::empty()
    } else {
        match lookup(t, s, r.name, r.range.start) {
            Some(id) => seq![Occurrence { range: r.range, span: r.span, id, is_definition: false }],
            None => Seq::empty(),
        }
    }
}

/// The occurrences of the first `j` references of scope `s`.
pub open spec fn scope_reference_occurrences(t: ScopeTree, starts: Seq<usize>, s: int, j: int) -> Seq<
    Occurrence,
>
    decreases j,
{
    if j <= 0 {
        Seq::empty()
    } else {
        scope_reference_occurrences(t, starts, s, j - 1) + reference_occurrence(
            t,
            starts,
            s,
            t.scopes@[s].references@[j - 1],
        )
    }
}

/// The reference occurrences of the first `i` scopes of the arena.
pub open spec fn references_upto(t: ScopeTree, starts: Seq<usize>, i: int) -> Seq<Occurrence>
    decreases i,
{
    if i <= 0 {
        Seq::empty()
    } else {
        references_upto(t, starts, i - 1) + scope_reference_occurrences(
            t,
            starts,
            i - 1,
            t.scopes@[i - 1].references@.len() as int,
        )
    }
}

/// The reference occurrences of the whole tree, scope by scope in arena
/// order, each scope's references in order; `starts` holds the start
/// bytes of all definitions.
pub open spec fn reference_occurrences(t: ScopeTree, starts: Seq<usize>) -> Seq<Occurrence> {
    references_upto(t, starts, t.scopes@.len() as int)
}

impl Scope {
    /// The id of the definition that a reference named `name` at byte
    /// `start_byte` finds in this scope itself.
    pub fn find_def(&self, name: usize, start_byte: usize) -> (r: Option<usize>)
        ensures
            r == definition_in_scope(*self, name, start_byte),
    {
        assert(self.hoisted_definitions@.subrange(0, self.hoisted_definitions@.len() as int) == self.hoisted_definitions@);
        let mut i: usize = 0;
        while i < self.hoisted_definitions.len()
            invariant
                i <= self.hoisted_definitions@.len(),
                first_named(self.hoisted_definitions@, name) == first_named(
                    self.hoisted_definitions@.subrange(i as int, self.hoisted_definitions@.len() as int),
                    name,
                ),
            decreases self.hoisted_definitions@.len() - i,
        {
            let ghost rest = self.hoisted_definitions@.subrange(i as int, self.hoisted_definitions@.len() as int);
            assert(rest.drop_first() == self.hoisted_definitions@.subrange(i + 1, self.hoisted_definitions@.len() as int));
            assert(rest[0] == self.hoisted_definitions@[i as int]);
            if self.hoisted_definitions[i].name == name {
                return Some(self.hoisted_definitions[i].id);
            }
            i = i + 1;
        }
        assert(self.definitions@.subrange(0, self.definitions@.len() as int) == self.definitions@);
        let mut j: usize = 0;
        while j < self.definitions.len()
            invariant
                j <= self.definitions@.len(),
                first_named(self.hoisted_definitions@, name) is None,
                first_visible(self.definitions@, name, start_byte) == first_visible(
                    self.definitions@.subrange(j as int, self.definitions@.len() as int),
                    name,
                    start_byte,
                ),
            decreases self.definitions@.len() - j,
        {
            let ghost rest = self.definitions@.subrange(j as int, self.definitions@.len() as int);
            assert(rest.drop_first() == self.definitions@.subrange(j + 1, self.definitions@.len() as int));
            assert(rest[0] == self.definitions@[j as int]);
            if self.definitions[j].name == name && self.definitions[j].range.start <= start_byte {
                return Some(self.definitions[j].id);
            }
            j = j + 1;
        }
        None
    }
}

pub open spec fn ascending(v: Seq<usize>) -> bool {
    forall|i: int, j: int| 0 <= i < j < v.len() ==> #[trigger] v[i] <= #[trigger] v[j]
}

/// Whether the ascending sequence `v` holds `x`, by binary search.
fn holds(v: &Vec<usize>, x: usize) -> (r: bool)
    requires
        ascending(v@),
    ensures
        r == v@.contains(x),
{
    let mut lo: usize = 0;
    let mut hi: usize = v.len();
    while lo < hi
        invariant
            0 <= lo <= hi <= v@.len(),
            ascending(v@),
            forall|k: int| 0 <= k < lo ==> #[trigger] v@[k] < x,
            forall|k: int| hi <= k < v@.len() ==> #[trigger] v@[k] > x,
        decreases hi - lo,
    {
        let mid = lo + (hi - lo) / 2;
        if v[mid] == x {
            return true;
        } else if v[mid] < x {
            lo = mid + 1;
        } else {
            hi = mid;
        }
    }
    false
}

impl LocalResolver {
    /// The id that a reference named `name` at byte `start_byte`, owned by
    /// scope `scope`, binds to.
    pub fn lookup_from(&self, scope: usize, name: usize, start_byte: usize) -> (r: Option<usize>)
        requires
            tree_wf(self.tree),
            scope < self.tree.scopes@.len(),
        ensures
            r == lookup(self.tree, scope as int, name, start_byte),
    {
        let mut cur = scope;
        loop
            invariant
                tree_wf(self.tree),
                cur < self.tree.scopes@.len(),
                lookup(self.tree, cur as int, name, start_byte) == lookup(
                    self.tree,
                    scope as int,
                    name,
                    start_byte,
                ),
            decreases cur,
        {
            match self.tree.scopes[cur].find_def(name, start_byte) {
                Some(id) => {
                    return Some(id);
                },
                None => match self.tree.scopes[cur].parent {
                    Some(p) => {
                        cur = p;
                    },
                    None => {
                        return None;
                    },
                },
            }
        }
    }

    /// Binds every reference of the tree and appends the reference
    /// occurrences after those already emitted.
    pub fn resolve_references(&mut self)
        requires
            tree_wf(old(self).tree),
            ascending(old(self).definition_start_bytes@),
        ensures
            final(self).tree == old(self).tree,
            final(self).definition_start_bytes@ == old(self).definition_start_bytes@,
            final(self).definition_id_supply == old(self).definition_id_supply,
            final(self).occurrences@ == old(self).occurrences@ + reference_occurrences(
                old(self).tree,
                old(self).definition_start_bytes@,
            ),
    {
        let ghost t = self.tree;
        let ghost starts = self.definition_start_bytes@;
        let ghost supply = self.definition_id_supply;
        let mut ref_occurrences: Vec<Occurrence> = Vec::new();
        let n = self.tree.scopes.len();
        let mut i: usize = 0;
        while i < n
            invariant
                self.tree == t,
                self.definition_start_bytes@ == starts,
                self.definition_id_supply == supply,
                ascending(starts),
                tree_wf(t),
                n == t.scopes@.len(),
                i <= n,
                ref_occurrences@ == references_upto(t, starts, i as int),
            decreases n - i,
        {
            let m = self.tree.scopes[i].references.len();
            let mut j: usize = 0;
            while j < m
                invariant
                    self.tree == t,
                    self.definition_start_bytes@ == starts,
                    self.definition_id_supply == supply,
                    ascending(starts),
                    tree_wf(t),
                    n == t.scopes@.len(),
                    i < n,
                    m == t.scopes@[i as int].references@.len(),
                    j <= m,
                    ref_occurrences@ == references_upto(t, starts, i as int)
                        + scope_reference_occurrences(t, starts, i as int, j as int),
                decreases m - j,
            {
                let r = &self.tree.scopes[i].references[j];
                let ghost before = ref_occurrences@;
                if !holds(&self.definition_start_bytes, r.range.start) {
                    match self.lookup_from(i, r.name, r.range.start) {
                        Some(id) => {
                            ref_occurrences.push(
                                Occurrence { range: r.range, span: r.span, id, is_definition: false },
                            );
                        },
                        None => {},
                    }
                }
                proof {
                    let add = reference_occurrence(t, starts, i as int, t.scopes@[i as int].references@[j as int]);
                    assert(ref_occurrences@ == before + add);
                    assert(references_upto(t, starts, i as int) + scope_reference_occurrences(t, starts, i as int, j + 1)
                        == references_upto(t, starts, i as int) + scope_reference_occurrences(t, starts, i as int, j as int) + add);
                }
                j = j + 1;
            }
            i = i + 1;
        }
        let mut k: usize = 0;
        let ghost before = self.occurrences@;
        while k < ref_occurrences.len()
            invariant
                self.tree == t,
                self.definition_start_bytes@ == starts,
                self.definition_id_supply == supply,
                k <= ref_occurrences@.len(),
                self.occurrences@ == before + ref_occurrences@.subrange(0, k as int),
            decreases ref_occurrences@.len() - k,
        {
            self.occurrences.push(ref_occurrences[k]);
            assert(ref_occurrences@.subrange(0, k + 1) == ref_occurrences@.subrange(0, k as int).push(ref_occurrences@[k as int]));
            k = k + 1;
        }
        assert(ref_occurrences@.subrange(0, ref_occurrences@.len() as int) == ref_occurrences@);
    }
}

} // verus!
