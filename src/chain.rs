//! The mathematical model of a chain of layers: the logical triple set it
//! stands for, and how strings and ids resolve across it.
//!
//! A chain is a sequence of layer deltas, base first. The functions here take
//! a prefix length `n`: `f(c, n, ..)` speaks of the chain made of the first `n`
//! layers of `c`, whose head is `c[n - 1]`.
use vstd::prelude::*;

use crate::dictionary::{lemma_str_lt_order, sorted_strings};
use crate::triple::{IdTriple, ObjectTerm};
use crate::triple_set::sorted_triples;

verus! {

/// What one layer holds, as mathematical values.
pub struct DeltaView {
    pub name: Seq<u32>,
    /// Node and value ids of this layer start above this number.
    pub nv_offset: int,
    /// Predicate ids of this layer start above this number.
    pub p_offset: int,
    pub nodes: Seq<Seq<char>>,
    pub predicates: Seq<Seq<char>>,
    pub values: Seq<Seq<char>>,
    pub additions: Seq<IdTriple>,
    pub removals: Seq<IdTriple>,
}

/// The largest node or value id that the layer `d` and its ancestors use.
pub open spec fn nv_end(d: DeltaView) -> int {
    d.nv_offset + d.nodes.len() + d.values.len()
}

/// The largest predicate id that the layer `d` and its ancestors use.
pub open spec fn p_end(d: DeltaView) -> int {
    d.p_offset + d.predicates.len()
}

/// A single layer is well formed: sorted dictionaries and indices, and no
/// triple both added and removed.
pub open spec fn delta_wf(d: DeltaView) -> bool {
    &&& d.name.len() == 5
    &&& sorted_strings(d.nodes)
    &&& sorted_strings(d.predicates)
    &&& sorted_strings(d.values)
    &&& sorted_triples(d.additions)
    &&& sorted_triples(d.removals)
    &&& forall|t: IdTriple| #[trigger] d.additions.contains(t) ==> !d.removals.contains(t)
}

/// Each layer's id ranges start where its parent's end.
pub open spec fn ranges_follow(c: Seq<DeltaView>) -> bool {
    &&& forall|i: int| 0 <= i < c.len() ==> (#[trigger] c[i]).nv_offset >= 0 && c[i].p_offset >= 0
    &&& forall|i: int| 0 < i < c.len() ==> (#[trigger] c[i]).nv_offset == nv_end(c[i - 1])
        && c[i].p_offset == p_end(c[i - 1])
}

/// A chain is well formed: a base layer without removals at the bottom, id
/// ranges that follow each other without gaps, ids that fit in 64 bits, and
/// distinct layer names.
pub open spec fn chain_wf(c: Seq<DeltaView>) -> bool {
    &&& c.len() > 0
    &&& c[0].nv_offset == 0
    &&& c[0].p_offset == 0
    &&& c[0].removals.len() == 0
    &&& ranges_follow(c)
    &&& forall|i: int| 0 <= i < c.len() ==> delta_wf(#[trigger] c[i])
    &&& forall|i: int| 0 <= i < c.len() ==> nv_end(#[trigger] c[i]) <= u64::MAX && p_end(c[i]) <= u64::MAX
    &&& forall|i: int, j: int| 0 <= i < j < c.len() ==> (#[trigger] c[i]).name != (#[trigger] c[j]).name
    &&& forall|i: int| 0 <= i < c.len() ==> #[trigger] layer_fresh(c, i)
}

/// All three ids of `t` are ids that layer `d` or its ancestors gave out.
pub open spec fn ids_in_range(d: DeltaView, t: IdTriple) -> bool {
    &&& 0 < t.subject <= nv_end(d)
    &&& 0 < t.predicate <= p_end(d)
    &&& 0 < t.object <= nv_end(d)
}

/// Layer `i` of `c` introduces only strings that its ancestors do not know,
/// and its indices use only ids that it or its ancestors gave out.
pub open spec fn layer_fresh(c: Seq<DeltaView>, i: int) -> bool {
    &&& forall|x: Seq<char>| #[trigger] c[i].nodes.contains(x) ==> node_id(c, i, x) is None
    &&& forall|x: Seq<char>| #[trigger] c[i].values.contains(x) ==> value_id(c, i, x) is None
    &&& forall|x: Seq<char>| #[trigger] c[i].predicates.contains(x) ==> predicate_id(c, i, x) is None
    &&& forall|t: IdTriple| #[trigger] c[i].additions.contains(t) ==> ids_in_range(c[i], t)
    &&& forall|t: IdTriple| #[trigger] c[i].removals.contains(t) ==> ids_in_range(c[i], t)
}

/// The logical set of the first `n` layers, folded from the base:
/// each layer takes away its removals, then adds its additions.
pub open spec fn logical_set(c: Seq<DeltaView>, n: int) -> Set<IdTriple>
    decreases n,
{
    if n <= 0 {
        Set::empty()
    } else {
        logical_set(c, n - 1).difference(c[n - 1].removals.to_set()).union(
            c[n - 1].additions.to_set(),
        )
    }
}

/// Whether `t` is present, looking from the head down: the layer closest to
/// the head that touches `t` decides.
pub open spec fn present(c: Seq<DeltaView>, n: int, t: IdTriple) -> bool
    decreases n,
{
    if n <= 0 {
        false
    } else if c[n - 1].removals.contains(t) {
        false
    } else if c[n - 1].additions.contains(t) {
        true
    } else {
        present(c, n - 1, t)
    }
}

/// The id of node string `s`, from the layer closest to the head that has it.
pub open spec fn node_id(c: Seq<DeltaView>, n: int, s: Seq<char>) -> Option<int>
    decreases n,
{
    if n <= 0 {
        None
    } else if c[n - 1].nodes.contains(s) {
        Some(c[n - 1].nv_offset + c[n - 1].nodes.index_of(s) + 1)
    } else {
        node_id(c, n - 1, s)
    }
}

/// The id of value string `s`; value ids of a layer follow its node ids.
pub open spec fn value_id(c: Seq<DeltaView>, n: int, s: Seq<char>) -> Option<int>
    decreases n,
{
    if n <= 0 {
        None
    } else if c[n - 1].values.contains(s) {
        Some(c[n - 1].nv_offset + c[n - 1].nodes.len() + c[n - 1].values.index_of(s) + 1)
    } else {
        value_id(c, n - 1, s)
    }
}

/// The id of predicate string `s`.
pub open spec fn predicate_id(c: Seq<DeltaView>, n: int, s: Seq<char>) -> Option<int>
    decreases n,
{
    if n <= 0 {
        None
    } else if c[n - 1].predicates.contains(s) {
        Some(c[n - 1].p_offset + c[n - 1].predicates.index_of(s) + 1)
    } else {
        predicate_id(c, n - 1, s)
    }
}

/// The object that `id` stands for, routed by id range.
pub open spec fn id_object(c: Seq<DeltaView>, n: int, id: int) -> Option<ObjectTerm>
    decreases n,
{
    if n <= 0 {
        None
    } else {
        let d = c[n - 1];
        if d.nv_offset < id <= d.nv_offset + d.nodes.len() {
            Some(ObjectTerm::Node(d.nodes[id - d.nv_offset - 1]))
        } else if d.nv_offset + d.nodes.len() < id <= nv_end(d) {
            Some(ObjectTerm::Value(d.values[id - d.nv_offset - d.nodes.len() - 1]))
        } else if id > d.nv_offset {
            None
        } else {
            id_object(c, n - 1, id)
        }
    }
}

/// The node string that `id` stands for; values are no subjects.
pub open spec fn id_node(c: Seq<DeltaView>, n: int, id: int) -> Option<Seq<char>> {
    match id_object(c, n, id) {
        Some(ObjectTerm::Node(s)) => Some(s),
        _ => None,
    }
}

/// The predicate string that `id` stands for.
pub open spec fn id_predicate(c: Seq<DeltaView>, n: int, id: int) -> Option<Seq<char>>
    decreases n,
{
    if n <= 0 {
        None
    } else {
        let d = c[n - 1];
        if d.p_offset < id <= p_end(d) {
            Some(d.predicates[id - d.p_offset - 1])
        } else if id > d.p_offset {
            None
        } else {
            id_predicate(c, n - 1, id)
        }
    }
}

/// Whether `t` is in the logical set of the whole chain.
pub open spec fn chain_contains(c: Seq<DeltaView>, t: IdTriple) -> bool {
    logical_set(c, c.len() as int).contains(t)
}

/// `a` is a proper ancestor of `b`: the head name of `a` names a layer of
/// `b` below its head.
pub open spec fn is_ancestor(a: Seq<DeltaView>, b: Seq<DeltaView>) -> bool {
    exists|i: int| 0 <= i < b.len() - 1 && #[trigger] b[i].name == a[a.len() - 1].name
}

/// Layer names are globally unique: a name stands at the same depth in
/// every chain that holds it.
pub open spec fn names_consistent(a: Seq<DeltaView>, b: Seq<DeltaView>) -> bool {
    forall|i: int, j: int|
        0 <= i < a.len() && 0 <= j < b.len() && #[trigger] a[i].name == #[trigger] b[j].name ==> i
            == j
}

/// In a sorted dictionary each string has one position.
pub proof fn lemma_sorted_position(d: Seq<Seq<char>>, i: int)
    requires
        sorted_strings(d),
        0 <= i < d.len(),
    ensures
        d.contains(d[i]),
        d.index_of(d[i]) == i,
{
    assert(d.contains(d[i]));
    let k = d.index_of(d[i]);
    if k != i {
        lemma_str_lt_order(d[i], d[i], d[i]);
        if k < i {
            assert(sorted_strings(d) ==> crate::dictionary::str_lt(d[k], d[i]));
        } else {
            assert(sorted_strings(d) ==> crate::dictionary::str_lt(d[i], d[k]));
        }
    }
}

/// The existence check from the head down agrees with the fold of
/// additions and removals from the base up.
pub proof fn lemma_present_is_fold(c: Seq<DeltaView>, n: int, t: IdTriple)
    requires
        0 <= n <= c.len(),
        forall|i: int| 0 <= i < n ==> delta_wf(#[trigger] c[i]),
    ensures
        present(c, n, t) == logical_set(c, n).contains(t),
    decreases n,
{
    if n > 0 {
        lemma_present_is_fold(c, n - 1, t);
        assert(delta_wf(c[n - 1]));
        if c[n - 1].additions.contains(t) {
            assert(c[n - 1].additions.to_set().contains(t));
        }
        if c[n - 1].removals.contains(t) {
            assert(c[n - 1].removals.to_set().contains(t));
        }
    }
}

/// Node ids of the first `n` layers lie in `1..=nv_end(c[n - 1])`.
pub proof fn lemma_node_id_bound(c: Seq<DeltaView>, n: int, s: Seq<char>)
    requires
        ranges_follow(c),
        1 <= n <= c.len(),
        node_id(c, n, s) is Some,
    ensures
        c[n - 1].nv_offset < node_id(c, n, s)->0 <= c[n - 1].nv_offset + c[n - 1].nodes.len()
            || 0 < node_id(c, n, s)->0 <= c[n - 1].nv_offset,
    decreases n,
{
    let d = c[n - 1];
    if !d.nodes.contains(s) {
        if n == 1 {
            assert(node_id(c, 0, s) is None);
        } else {
            lemma_node_id_bound(c, n - 1, s);
            assert(c[n - 1].nv_offset == nv_end(c[n - 2]));
        }
    }
}

/// Value ids of the first `n` layers lie in `1..=nv_end(c[n - 1])`.
pub proof fn lemma_value_id_bound(c: Seq<DeltaView>, n: int, s: Seq<char>)
    requires
        ranges_follow(c),
        1 <= n <= c.len(),
        value_id(c, n, s) is Some,
    ensures
        c[n - 1].nv_offset + c[n - 1].nodes.len() < value_id(c, n, s)->0 <= nv_end(c[n - 1])
            || 0 < value_id(c, n, s)->0 <= c[n - 1].nv_offset,
    decreases n,
{
    let d = c[n - 1];
    if !d.values.contains(s) {
        if n == 1 {
            assert(value_id(c, 0, s) is None);
        } else {
            lemma_value_id_bound(c, n - 1, s);
            assert(c[n - 1].nv_offset == nv_end(c[n - 2]));
        }
    }
}

/// Predicate ids of the first `n` layers lie in `1..=p_end(c[n - 1])`.
pub proof fn lemma_predicate_id_bound(c: Seq<DeltaView>, n: int, s: Seq<char>)
    requires
        ranges_follow(c),
        1 <= n <= c.len(),
        predicate_id(c, n, s) is Some,
    ensures
        c[n - 1].p_offset < predicate_id(c, n, s)->0 <= p_end(c[n - 1])
            || 0 < predicate_id(c, n, s)->0 <= c[n - 1].p_offset,
    decreases n,
{
    let d = c[n - 1];
    if !d.predicates.contains(s) {
        if n == 1 {
            assert(predicate_id(c, 0, s) is None);
        } else {
            lemma_predicate_id_bound(c, n - 1, s);
            assert(c[n - 1].p_offset == p_end(c[n - 2]));
        }
    }
}

/// A node string's id leads back to the same string.
pub proof fn lemma_node_round_trip(c: Seq<DeltaView>, n: int, s: Seq<char>)
    requires
        chain_wf(c),
        0 <= n <= c.len(),
        node_id(c, n, s) is Some,
    ensures
        id_object(c, n, node_id(c, n, s)->0) == Some(ObjectTerm::Node(s)),
        id_node(c, n, node_id(c, n, s)->0) == Some(s),
    decreases n,
{
    let d = c[n - 1];
    if d.nodes.contains(s) {
        let k = d.nodes.index_of(s);
        assert(delta_wf(c[n - 1]));
        lemma_sorted_position(d.nodes, k);
    } else {
        lemma_node_round_trip(c, n - 1, s);
        lemma_node_id_bound(c, n - 1, s);
        assert(c[n - 1].nv_offset == nv_end(c[n - 2]));
    }
}

/// A value string's id leads back to the same string, as a value.
pub proof fn lemma_value_round_trip(c: Seq<DeltaView>, n: int, s: Seq<char>)
    requires
        chain_wf(c),
        0 <= n <= c.len(),
        value_id(c, n, s) is Some,
    ensures
        id_object(c, n, value_id(c, n, s)->0) == Some(ObjectTerm::Value(s)),
    decreases n,
{
    let d = c[n - 1];
    if d.values.contains(s) {
        let k = d.values.index_of(s);
        assert(delta_wf(c[n - 1]));
        lemma_sorted_position(d.values, k);
    } else {
        lemma_value_round_trip(c, n - 1, s);
        lemma_value_id_bound(c, n - 1, s);
        assert(c[n - 1].nv_offset == nv_end(c[n - 2]));
    }
}

/// A predicate string's id leads back to the same string.
pub proof fn lemma_predicate_round_trip(c: Seq<DeltaView>, n: int, s: Seq<char>)
    requires
        chain_wf(c),
        0 <= n <= c.len(),
        predicate_id(c, n, s) is Some,
    ensures
        id_predicate(c, n, predicate_id(c, n, s)->0) == Some(s),
    decreases n,
{
    let d = c[n - 1];
    if d.predicates.contains(s) {
        let k = d.predicates.index_of(s);
        assert(delta_wf(c[n - 1]));
        lemma_sorted_position(d.predicates, k);
    } else {
        lemma_predicate_round_trip(c, n - 1, s);
        lemma_predicate_id_bound(c, n - 1, s);
        assert(c[n - 1].p_offset == p_end(c[n - 2]));
    }
}

/// No layer is its own ancestor, and of two layers whose names are
/// globally unique at most one is an ancestor of the other.
pub proof fn lemma_ancestor_antisymmetric(a: Seq<DeltaView>, b: Seq<DeltaView>)
    requires
        chain_wf(a),
        chain_wf(b),
        names_consistent(a, b),
    ensures
        !is_ancestor(a, a),
        !(is_ancestor(a, b) && is_ancestor(b, a)),
{
    if is_ancestor(a, a) {
        let i = choose|i: int| 0 <= i < a.len() - 1 && #[trigger] a[i].name == a[a.len() - 1].name;
        assert(a[i].name != a[a.len() - 1].name);
    }
    if is_ancestor(a, b) && is_ancestor(b, a) {
        let i = choose|i: int| 0 <= i < b.len() - 1 && #[trigger] b[i].name == a[a.len() - 1].name;
        let j = choose|j: int| 0 <= j < a.len() - 1 && #[trigger] a[j].name == b[b.len() - 1].name;
        assert(a[a.len() - 1].name == b[i].name);
        assert(a[j].name == b[b.len() - 1].name);
    }
}

/// Two layers that agree on their dictionaries and id offsets.
pub open spec fn same_dictionaries(a: DeltaView, b: DeltaView) -> bool {
    &&& a.nv_offset == b.nv_offset
    &&& a.p_offset == b.p_offset
    &&& a.nodes == b.nodes
    &&& a.predicates == b.predicates
    &&& a.values == b.values
}

/// String resolution reads dictionaries and offsets only.
pub proof fn lemma_resolution_agrees(c1: Seq<DeltaView>, c2: Seq<DeltaView>, n: int, s: Seq<char>)
    requires
        0 <= n <= c1.len(),
        n <= c2.len(),
        forall|i: int| 0 <= i < n ==> same_dictionaries(#[trigger] c1[i], c2[i]),
    ensures
        node_id(c1, n, s) == node_id(c2, n, s),
        value_id(c1, n, s) == value_id(c2, n, s),
        predicate_id(c1, n, s) == predicate_id(c2, n, s),
    decreases n,
{
    if n > 0 {
        assert(same_dictionaries(c1[n - 1], c2[n - 1]));
        lemma_resolution_agrees(c1, c2, n - 1, s);
    }
}

/// The largest node or value id of a chain; zero for no chain.
pub open spec fn chain_nv_end(c: Seq<DeltaView>) -> int {
    if c.len() == 0 {
        0
    } else {
        nv_end(c[c.len() - 1])
    }
}

/// The largest predicate id of a chain; zero for no chain.
pub open spec fn chain_p_end(c: Seq<DeltaView>) -> int {
    if c.len() == 0 {
        0
    } else {
        p_end(c[c.len() - 1])
    }
}

/// Putting a well-formed layer with a fresh name and the next id ranges on
/// top of a chain (or on nothing) gives a well-formed chain.
pub proof fn lemma_push_wf(pc: Seq<DeltaView>, d: DeltaView)
    requires
        pc.len() == 0 || chain_wf(pc),
        pc.len() == 0 ==> d.removals.len() == 0,
        d.nv_offset == chain_nv_end(pc),
        d.p_offset == chain_p_end(pc),
        delta_wf(d),
        nv_end(d) <= u64::MAX,
        p_end(d) <= u64::MAX,
        forall|i: int| 0 <= i < pc.len() ==> (#[trigger] pc[i]).name != d.name,
        forall|x: Seq<char>| #[trigger] d.nodes.contains(x) ==> node_id(pc, pc.len() as int, x) is None,
        forall|x: Seq<char>| #[trigger] d.values.contains(x) ==> value_id(pc, pc.len() as int, x) is None,
        forall|x: Seq<char>| #[trigger] d.predicates.contains(x) ==> predicate_id(pc, pc.len() as int, x) is None,
        forall|t: IdTriple| #[trigger] d.additions.contains(t) ==> ids_in_range(d, t),
        forall|t: IdTriple| #[trigger] d.removals.contains(t) ==> ids_in_range(d, t),
    ensures
        chain_wf(pc.push(d)),
{
    lemma_prefix_fresh(pc.push(d), pc);
    let c = pc.push(d);
    assert forall|i: int| 0 <= i < c.len() implies #[trigger] c[i] == (if i < pc.len() { pc[i] } else { d }) by {}
    assert(c[0].nv_offset == 0 && c[0].p_offset == 0 && c[0].removals.len() == 0);
    assert forall|i: int| 0 <= i < c.len() implies (#[trigger] c[i]).nv_offset >= 0 && c[i].p_offset >= 0 by {
        if i == pc.len() && pc.len() > 0 {
            assert(nv_end(pc[pc.len() - 1]) >= 0) by {
                assert(pc[pc.len() - 1].nv_offset >= 0);
            }
        }
    }
    assert forall|i: int| 0 < i < c.len() implies (#[trigger] c[i]).nv_offset == nv_end(c[i - 1])
        && c[i].p_offset == p_end(c[i - 1]) by {
        if i < pc.len() {
            assert(pc[i].nv_offset == nv_end(pc[i - 1]));
        }
    }
    assert(ranges_follow(c));
    assert forall|i: int| 0 <= i < c.len() implies delta_wf(#[trigger] c[i]) by {
        if i < pc.len() {
            assert(delta_wf(pc[i]));
        }
    }
    assert forall|i: int| 0 <= i < c.len() implies nv_end(#[trigger] c[i]) <= u64::MAX && p_end(c[i]) <= u64::MAX by {
        if i < pc.len() {
            assert(nv_end(pc[i]) <= u64::MAX);
        }
    }
    assert forall|i: int, j: int| 0 <= i < j < c.len() implies (#[trigger] c[i]).name != (#[trigger] c[j]).name by {
        if j < pc.len() {
            assert(pc[i].name != pc[j].name);
        } else {
            assert(pc[i].name != d.name);
        }
    }
}

/// No layer of a well-formed chain both adds and removes the same triple.
pub proof fn lemma_additions_removals_disjoint(c: Seq<DeltaView>, i: int, t: IdTriple)
    requires
        chain_wf(c),
        0 <= i < c.len(),
    ensures
        !(c[i].additions.contains(t) && c[i].removals.contains(t)),
{
    assert(delta_wf(c[i]));
}

/// Freshness of the layers of `p` carries over to a chain `c` that starts
/// with `p`, and a layer on top of `p` reads `p`'s resolution.
pub proof fn lemma_prefix_fresh(c: Seq<DeltaView>, p: Seq<DeltaView>)
    requires
        p.len() <= c.len(),
        forall|i: int| 0 <= i < p.len() ==> #[trigger] c[i] == p[i],
        forall|i: int| 0 <= i < p.len() ==> #[trigger] layer_fresh(p, i),
    ensures
        forall|i: int| 0 <= i < p.len() ==> #[trigger] layer_fresh(c, i),
        forall|x: Seq<char>| #[trigger] node_id(c, p.len() as int, x) == node_id(p, p.len() as int, x),
        forall|x: Seq<char>| #[trigger] value_id(c, p.len() as int, x) == value_id(p, p.len() as int, x),
        forall|x: Seq<char>| #[trigger] predicate_id(c, p.len() as int, x) == predicate_id(p, p.len() as int, x),
{
    assert forall|i: int| 0 <= i < p.len() implies #[trigger] layer_fresh(c, i) by {
        assert(layer_fresh(p, i));
        assert(c[i] == p[i]);
        assert forall|j: int| 0 <= j < i implies same_dictionaries(#[trigger] c[j], p[j]) by {
            assert(c[j] == p[j]);
        }
        assert forall|x: Seq<char>| #[trigger] c[i].nodes.contains(x) implies node_id(c, i, x) is None by {
            lemma_resolution_agrees(c, p, i, x);
        }
        assert forall|x: Seq<char>| #[trigger] c[i].values.contains(x) implies value_id(c, i, x) is None by {
            lemma_resolution_agrees(c, p, i, x);
        }
        assert forall|x: Seq<char>| #[trigger] c[i].predicates.contains(x) implies predicate_id(c, i, x) is None by {
            lemma_resolution_agrees(c, p, i, x);
        }
    }
    assert forall|j: int| 0 <= j < p.len() implies same_dictionaries(#[trigger] c[j], p[j]) by {
        assert(c[j] == p[j]);
    }
    assert forall|x: Seq<char>| #[trigger] node_id(c, p.len() as int, x) == node_id(p, p.len() as int, x) by {
        lemma_resolution_agrees(c, p, p.len() as int, x);
    }
    assert forall|x: Seq<char>| #[trigger] value_id(c, p.len() as int, x) == value_id(p, p.len() as int, x) by {
        lemma_resolution_agrees(c, p, p.len() as int, x);
    }
    assert forall|x: Seq<char>| #[trigger] predicate_id(c, p.len() as int, x) == predicate_id(p, p.len() as int, x) by {
        lemma_resolution_agrees(c, p, p.len() as int, x);
    }
}

/// A prefix of a chain keeps the freshness of its layers.
pub proof fn lemma_fresh_of_prefix(c: Seq<DeltaView>, p: Seq<DeltaView>)
    requires
        p.len() <= c.len(),
        forall|i: int| 0 <= i < p.len() ==> #[trigger] c[i] == p[i],
        forall|i: int| 0 <= i < c.len() ==> #[trigger] layer_fresh(c, i),
    ensures
        forall|i: int| 0 <= i < p.len() ==> #[trigger] layer_fresh(p, i),
{
    assert forall|i: int| 0 <= i < p.len() implies #[trigger] layer_fresh(p, i) by {
        assert(layer_fresh(c, i));
        assert(c[i] == p[i]);
        assert forall|j: int| 0 <= j < i implies same_dictionaries(#[trigger] p[j], c[j]) by {
            assert(c[j] == p[j]);
        }
        assert forall|x: Seq<char>| #[trigger] p[i].nodes.contains(x) implies node_id(p, i, x) is None by {
            lemma_resolution_agrees(p, c, i, x);
        }
        assert forall|x: Seq<char>| #[trigger] p[i].values.contains(x) implies value_id(p, i, x) is None by {
            lemma_resolution_agrees(p, c, i, x);
        }
        assert forall|x: Seq<char>| #[trigger] p[i].predicates.contains(x) implies predicate_id(p, i, x) is None by {
            lemma_resolution_agrees(p, c, i, x);
        }
    }
}

/// Node and value ids that resolve in the first `n` layers are at most the
/// largest one these layers gave out.
pub proof fn lemma_id_object_bound(c: Seq<DeltaView>, n: int, id: int)
    requires
        ranges_follow(c),
        0 <= n <= c.len(),
        id_object(c, n, id) is Some,
    ensures
        n >= 1,
        0 < id <= nv_end(c[n - 1]),
    decreases n,
{
    let d = c[n - 1];
    if !(d.nv_offset < id <= nv_end(d)) {
        lemma_id_object_bound(c, n - 1, id);
        assert(c[n - 1].nv_offset == nv_end(c[n - 2]));
    }
}

/// Predicate ids that resolve in the first `n` layers are at most the
/// largest one these layers gave out.
pub proof fn lemma_id_predicate_bound(c: Seq<DeltaView>, n: int, id: int)
    requires
        ranges_follow(c),
        0 <= n <= c.len(),
        id_predicate(c, n, id) is Some,
    ensures
        n >= 1,
        0 < id <= p_end(c[n - 1]),
    decreases n,
{
    let d = c[n - 1];
    if !(d.p_offset < id <= p_end(d)) {
        lemma_id_predicate_bound(c, n - 1, id);
        assert(c[n - 1].p_offset == p_end(c[n - 2]));
    }
}

/// An id that names an object leads back to itself: the string of a node
/// id has that id as its node id, and the string of a value id has that id
/// as its value id.
pub proof fn lemma_object_id_round_trip(c: Seq<DeltaView>, n: int, id: int)
    requires
        chain_wf(c),
        0 <= n <= c.len(),
    ensures
        id_object(c, n, id) matches Some(ObjectTerm::Node(s)) ==> node_id(c, n, s) == Some(id),
        id_object(c, n, id) matches Some(ObjectTerm::Value(s)) ==> value_id(c, n, s) == Some(id),
    decreases n,
{
    if n > 0 {
        let d = c[n - 1];
        assert(delta_wf(d));
        assert(layer_fresh(c, n - 1));
        if d.nv_offset < id <= d.nv_offset + d.nodes.len() {
            lemma_sorted_position(d.nodes, id - d.nv_offset - 1);
        } else if d.nv_offset + d.nodes.len() < id <= nv_end(d) {
            lemma_sorted_position(d.values, id - d.nv_offset - d.nodes.len() - 1);
        } else if id <= d.nv_offset {
            lemma_object_id_round_trip(c, n - 1, id);
        }
    }
}

/// A predicate id leads back to itself through its string.
pub proof fn lemma_predicate_id_round_trip(c: Seq<DeltaView>, n: int, id: int)
    requires
        chain_wf(c),
        0 <= n <= c.len(),
    ensures
        id_predicate(c, n, id) matches Some(s) ==> predicate_id(c, n, s) == Some(id),
    decreases n,
{
    if n > 0 {
        let d = c[n - 1];
        assert(delta_wf(d));
        assert(layer_fresh(c, n - 1));
        if d.p_offset < id <= p_end(d) {
            lemma_sorted_position(d.predicates, id - d.p_offset - 1);
        } else if id <= d.p_offset {
            lemma_predicate_id_round_trip(c, n - 1, id);
        }
    }
}

} // verus!
