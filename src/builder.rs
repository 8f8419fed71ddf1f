//! Building a new layer: staging additions and removals, then committing
//! them as one immutable layer on top of the parent chain.
use vstd::prelude::*;

use crate::chain::{
    ids_in_range, lemma_id_object_bound, lemma_id_predicate_bound, lemma_node_id_bound,
    lemma_predicate_id_bound, lemma_value_id_bound, nv_end, p_end, ranges_follow,
    chain_contains, chain_nv_end, chain_p_end, chain_wf, delta_wf, id_node, id_object,
    id_predicate, lemma_present_is_fold, lemma_push_wf, lemma_resolution_agrees, node_id,
    predicate_id, present, same_dictionaries, value_id, DeltaView,
};
use crate::dictionary::{lemma_sorted_strings_unique, Dictionary};
use crate::error::StoreError;
use crate::layer::{names_equal, string_triple_ids, Layer, LayerDelta};
use crate::triple::{IdTriple, ObjectTerm, ObjectType, StringTriple};
use crate::triple_set::{insert_triple, lemma_sorted_triples_unique, sorted_triples, subtract_triples};

verus! {

/// The chain under a builder: its parent's chain, or none for a base layer.
pub open spec fn chain_of(parent: Option<Layer>) -> Seq<DeltaView> {
    match parent {
        Some(p) => p@,
        None => Seq::empty(),
    }
}

/// Two string triples with the same strings and object tag.
pub open spec fn same_strings(a: StringTriple, b: StringTriple) -> bool {
    a.subject@ == b.subject@ && a.predicate@ == b.predicate@ && a.object.term() == b.object.term()
}

/// `t` uses `s` as a node: as its subject or as a node object.
pub open spec fn uses_node(t: StringTriple, s: Seq<char>) -> bool {
    t.subject@ == s || t.object.term() == ObjectTerm::Node(s)
}

/// Node strings that the staged additions use and the chain `pc` does not know.
pub open spec fn new_nodes(pc: Seq<DeltaView>, adds: Seq<StringTriple>, s: Seq<char>) -> bool {
    node_id(pc, pc.len() as int, s) is None && exists|k: int| 0 <= k < adds.len() && uses_node(#[trigger] adds[k], s)
}

/// Value strings that the staged additions use and the chain `pc` does not know.
pub open spec fn new_values(pc: Seq<DeltaView>, adds: Seq<StringTriple>, s: Seq<char>) -> bool {
    value_id(pc, pc.len() as int, s) is None && exists|k: int|
        0 <= k < adds.len() && (#[trigger] adds[k]).object.term() == ObjectTerm::Value(s)
}

/// Predicate strings that the staged additions use and the chain `pc` does not know.
pub open spec fn new_predicates(pc: Seq<DeltaView>, adds: Seq<StringTriple>, s: Seq<char>) -> bool {
    predicate_id(pc, pc.len() as int, s) is None && exists|k: int|
        0 <= k < adds.len() && (#[trigger] adds[k]).predicate@ == s
}

/// The id triples that staged operations stand for in chain `c`: the staged
/// id triples, and the string triples whose parts all resolve.
pub open spec fn resolved_ops(c: Seq<DeltaView>, strs: Seq<StringTriple>, ids: Seq<IdTriple>, t: IdTriple) -> bool {
    ids.contains(t) || exists|k: int| 0 <= k < strs.len() && string_triple_ids(c, #[trigger] strs[k]) == Some(t)
}

/// Whether all three ids of `t` are known to the chain `c`.
pub open spec fn ids_known(c: Seq<DeltaView>, t: IdTriple) -> bool {
    &&& id_node(c, c.len() as int, t.subject as int) is Some
    &&& id_predicate(c, c.len() as int, t.predicate as int) is Some
    &&& id_object(c, c.len() as int, t.object as int) is Some
}

/// `c` is the chain that committing the staged operations gives over `pc`:
/// one new layer named `name` whose dictionaries hold exactly the new
/// strings, whose additions are the staged additions that are not also
/// staged removals, and whose removals (on a child layer only) are the staged
/// removals that are not also staged additions.
pub open spec fn committed_from(
    name: Seq<u32>,
    pc: Seq<DeltaView>,
    sa: Seq<StringTriple>,
    ia: Seq<IdTriple>,
    sr: Seq<StringTriple>,
    ir: Seq<IdTriple>,
    c: Seq<DeltaView>,
) -> bool {
    &&& c.len() == pc.len() + 1
    &&& c.drop_last() == pc
    &&& c.last().name == name
    &&& c.last().nv_offset == chain_nv_end(pc)
    &&& c.last().p_offset == chain_p_end(pc)
    &&& forall|x: Seq<char>| #[trigger] c.last().nodes.contains(x) <==> new_nodes(pc, sa, x)
    &&& forall|x: Seq<char>| #[trigger] c.last().predicates.contains(x) <==> new_predicates(pc, sa, x)
    &&& forall|x: Seq<char>| #[trigger] c.last().values.contains(x) <==> new_values(pc, sa, x)
    &&& forall|t: IdTriple| #[trigger] c.last().additions.contains(t) <==> resolved_ops(c, sa, ia, t)
        && !resolved_ops(c, sr, ir, t)
    &&& forall|t: IdTriple| #[trigger] c.last().removals.contains(t) <==> pc.len() > 0
        && resolved_ops(c, sr, ir, t) && !resolved_ops(c, sa, ia, t)
}

/// Resolving string triples reads only dictionaries and id offsets.
pub proof fn lemma_string_triple_ids_agree(c1: Seq<DeltaView>, c2: Seq<DeltaView>, t: StringTriple)
    requires
        c1.len() == c2.len(),
        forall|i: int| 0 <= i < c1.len() ==> same_dictionaries(#[trigger] c1[i], c2[i]),
    ensures
        string_triple_ids(c1, t) == string_triple_ids(c2, t),
{
    let n = c1.len() as int;
    lemma_resolution_agrees(c1, c2, n, t.subject@);
    lemma_resolution_agrees(c1, c2, n, t.predicate@);
    match t.object.term() {
        ObjectTerm::Node(s) => lemma_resolution_agrees(c1, c2, n, s),
        ObjectTerm::Value(s) => lemma_resolution_agrees(c1, c2, n, s),
    }
}

/// Accumulates additions and removals for a new layer
pub struct LayerBuilder {
    name: [u32; 5],
    parent: Option<Layer>,
    committed: bool,
    string_additions: Vec<StringTriple>,
    id_additions: Vec<IdTriple>,
    string_removals: Vec<StringTriple>,
    id_removals: Vec<IdTriple>,
}

impl LayerBuilder {
    pub closed spec fn spec_name(&self) -> Seq<u32> {
        self.name@
    }

    /// The chain that the new layer goes on top of
    pub closed spec fn parent_chain(&self) -> Seq<DeltaView> {
        chain_of(self.parent)
    }

    pub closed spec fn is_committed(&self) -> bool {
        self.committed
    }

    pub closed spec fn staged_string_additions(&self) -> Seq<StringTriple> {
        self.string_additions@
    }

    pub closed spec fn staged_id_additions(&self) -> Seq<IdTriple> {
        self.id_additions@
    }

    pub closed spec fn staged_string_removals(&self) -> Seq<StringTriple> {
        self.string_removals@
    }

    pub closed spec fn staged_id_removals(&self) -> Seq<IdTriple> {
        self.id_removals@
    }

    pub closed spec fn wf(&self) -> bool {
        &&& self.parent matches Some(p) ==> p.wf()
        &&& self.spec_name().len() == 5
        &&& forall|i: int| 0 <= i < self.parent_chain().len() ==> (#[trigger] self.parent_chain()[i]).name != self.spec_name()
        &&& forall|t: IdTriple| #[trigger] self.id_additions@.contains(t) ==> ids_known(self.parent_chain(), t)
        &&& forall|t: IdTriple| #[trigger] self.id_removals@.contains(t) ==> ids_known(self.parent_chain(), t)
    }

    /// Same name, parent chain and commit state
    pub open spec fn same_but_for(&self, other: &LayerBuilder) -> bool {
        &&& self.spec_name() == other.spec_name()
        &&& self.parent_chain() == other.parent_chain()
        &&& self.is_committed() == other.is_committed()
    }

    /// A builder for a base layer
    pub fn new_base(name: [u32; 5]) -> (r: LayerBuilder)
        ensures
            r.wf(),
            r.spec_name() == name@,
            r.parent_chain().len() == 0,
            !r.is_committed(),
            r.staged_string_additions().len() == 0,
            r.staged_id_additions().len() == 0,
            r.staged_string_removals().len() == 0,
            r.staged_id_removals().len() == 0,
    {
        LayerBuilder {
            name,
            parent: None,
            committed: false,
            string_additions: Vec::new(),
            id_additions: Vec::new(),
            string_removals: Vec::new(),
            id_removals: Vec::new(),
        }
    }

    /// A builder for a child layer of `parent`, or None if `name` is already
    /// the name of a layer in the parent's chain
    pub fn new_child(name: [u32; 5], parent: Layer) -> (r: Option<LayerBuilder>)
        requires
            parent.wf(),
        ensures
            match r {
                Some(b) => {
                    &&& b.wf()
                    &&& b.spec_name() == name@
                    &&& b.parent_chain() == parent@
                    &&& !b.is_committed()
                    &&& b.staged_string_additions().len() == 0
                    &&& b.staged_id_additions().len() == 0
                    &&& b.staged_string_removals().len() == 0
                    &&& b.staged_id_removals().len() == 0
                },
                None => exists|i: int| 0 <= i < parent@.len() && (#[trigger] parent@[i]).name == name@,
            },
    {
        let mut i: usize = 0;
        while i < parent.chain_length()
            invariant
                0 <= i <= parent@.len(),
                parent.wf(),
                forall|k: int| 0 <= k < i ==> (#[trigger] parent@[k]).name != name@,
            decreases parent@.len() - i,
        {
            let n = parent.name_at(i);
            if names_equal(&n, &name) {
                return None;
            }
            i = i + 1;
        }
        Some(
            LayerBuilder {
                name,
                parent: Some(parent),
                committed: false,
                string_additions: Vec::new(),
                id_additions: Vec::new(),
                string_removals: Vec::new(),
                id_removals: Vec::new(),
            },
        )
    }

    /// The name of the layer being built
    pub fn name(&self) -> (r: [u32; 5])
        ensures
            r@ == self.spec_name(),
    {
        self.name
    }

    /// Stage the addition of a string triple
    pub fn add_string_triple(&mut self, triple: &StringTriple) -> (r: Result<(), StoreError>)
        requires
            old(self).wf(),
        ensures
            final(self).wf(),
            final(self).same_but_for(old(self)),
            final(self).staged_id_additions() == old(self).staged_id_additions(),
            final(self).staged_string_removals() == old(self).staged_string_removals(),
            final(self).staged_id_removals() == old(self).staged_id_removals(),
            old(self).is_committed() ==> r == Err::<(), StoreError>(StoreError::BuilderConsumed)
                && final(self).staged_string_additions() == old(self).staged_string_additions(),
            !old(self).is_committed() ==> r is Ok && final(self).staged_string_additions().len()
                == old(self).staged_string_additions().len() + 1
                && final(self).staged_string_additions().drop_last() == old(self).staged_string_additions()
                && same_strings(final(self).staged_string_additions().last(), *triple),
    {
        if self.committed {
            return Err(StoreError::BuilderConsumed);
        }
        let t = triple.duplicate();
        self.string_additions.push(t);
        assert(self.string_additions@.drop_last() =~= old(self).string_additions@);
        assert(self.parent matches Some(p) ==> p.wf());
        assert(self.parent_chain() == old(self).parent_chain());
        Ok(())
    }

    /// Stage the removal of a string triple
    pub fn remove_string_triple(&mut self, triple: &StringTriple) -> (r: Result<(), StoreError>)
        requires
            old(self).wf(),
        ensures
            final(self).wf(),
            final(self).same_but_for(old(self)),
            final(self).staged_string_additions() == old(self).staged_string_additions(),
            final(self).staged_id_additions() == old(self).staged_id_additions(),
            final(self).staged_id_removals() == old(self).staged_id_removals(),
            old(self).is_committed() ==> r == Err::<(), StoreError>(StoreError::BuilderConsumed)
                && final(self).staged_string_removals() == old(self).staged_string_removals(),
            !old(self).is_committed() ==> r is Ok && final(self).staged_string_removals().len()
                == old(self).staged_string_removals().len() + 1
                && final(self).staged_string_removals().drop_last() == old(self).staged_string_removals()
                && same_strings(final(self).staged_string_removals().last(), *triple),
    {
        if self.committed {
            return Err(StoreError::BuilderConsumed);
        }
        let t = triple.duplicate();
        self.string_removals.push(t);
        assert(self.string_removals@.drop_last() =~= old(self).string_removals@);
        assert(self.parent matches Some(p) ==> p.wf());
        assert(self.parent_chain() == old(self).parent_chain());
        Ok(())
    }

    fn check_ids(&self, triple: IdTriple) -> (r: bool)
        requires
            self.wf(),
        ensures
            r == ids_known(self.parent_chain(), triple),
    {
        match &self.parent {
            None => false,
            Some(p) => p.id_subject(triple.subject).is_some() && p.id_predicate(triple.predicate).is_some()
                && p.id_object(triple.object).is_some(),
        }
    }

    /// Stage the addition of an id triple whose ids the parent chain knows
    pub fn add_id_triple(&mut self, triple: IdTriple) -> (r: Result<(), StoreError>)
        requires
            old(self).wf(),
        ensures
            final(self).wf(),
            final(self).same_but_for(old(self)),
            final(self).staged_string_additions() == old(self).staged_string_additions(),
            final(self).staged_string_removals() == old(self).staged_string_removals(),
            final(self).staged_id_removals() == old(self).staged_id_removals(),
            old(self).is_committed() ==> r == Err::<(), StoreError>(StoreError::BuilderConsumed),
            !old(self).is_committed() && !ids_known(old(self).parent_chain(), triple) ==> r == Err::<
                (),
                StoreError,
            >(StoreError::UnresolvedId),
            r is Err ==> final(self).staged_id_additions() == old(self).staged_id_additions(),
            !old(self).is_committed() && ids_known(old(self).parent_chain(), triple) ==> r is Ok
                && final(self).staged_id_additions() == old(self).staged_id_additions().push(triple),
    {
        if self.committed {
            return Err(StoreError::BuilderConsumed);
        }
        if !self.check_ids(triple) {
            return Err(StoreError::UnresolvedId);
        }
        let ghost before = self.id_additions@;
        self.id_additions.push(triple);
        proof {
            assert forall|t: IdTriple| #[trigger] self.id_additions@.contains(t) implies ids_known(self.parent_chain(), t) by {
                let k = choose|k: int| 0 <= k < self.id_additions@.len() && self.id_additions@[k] == t;
                if k < before.len() {
                    assert(before[k] == t);
                    assert(before.contains(t));
                }
            }
        }
        assert(self.parent matches Some(p) ==> p.wf());
        Ok(())
    }

    /// Stage the removal of an id triple whose ids the parent chain knows
    pub fn remove_id_triple(&mut self, triple: IdTriple) -> (r: Result<(), StoreError>)
        requires
            old(self).wf(),
        ensures
            final(self).wf(),
            final(self).same_but_for(old(self)),
            final(self).staged_string_additions() == old(self).staged_string_additions(),
            final(self).staged_id_additions() == old(self).staged_id_additions(),
            final(self).staged_string_removals() == old(self).staged_string_removals(),
            old(self).is_committed() ==> r == Err::<(), StoreError>(StoreError::BuilderConsumed),
            !old(self).is_committed() && !ids_known(old(self).parent_chain(), triple) ==> r == Err::<
                (),
                StoreError,
            >(StoreError::UnresolvedId),
            r is Err ==> final(self).staged_id_removals() == old(self).staged_id_removals(),
            !old(self).is_committed() && ids_known(old(self).parent_chain(), triple) ==> r is Ok
                && final(self).staged_id_removals() == old(self).staged_id_removals().push(triple),
    {
        if self.committed {
            return Err(StoreError::BuilderConsumed);
        }
        if !self.check_ids(triple) {
            return Err(StoreError::UnresolvedId);
        }
        let ghost before = self.id_removals@;
        self.id_removals.push(triple);
        proof {
            assert forall|t: IdTriple| #[trigger] self.id_removals@.contains(t) implies ids_known(self.parent_chain(), t) by {
                let k = choose|k: int| 0 <= k < self.id_removals@.len() && self.id_removals@[k] == t;
                if k < before.len() {
                    assert(before[k] == t);
                    assert(before.contains(t));
                }
            }
        }
        assert(self.parent matches Some(p) ==> p.wf());
        Ok(())
    }

    /// Commit the staged operations as a new layer. The builder is consumed:
    /// every later operation fails.
    pub fn commit(&mut self) -> (r: Result<Layer, StoreError>)
        requires
            old(self).wf(),
        ensures
            final(self).wf(),
            final(self).is_committed(),
            final(self).spec_name() == old(self).spec_name(),
            final(self).parent_chain() == old(self).parent_chain(),
            final(self).staged_string_additions() == old(self).staged_string_additions(),
            final(self).staged_id_additions() == old(self).staged_id_additions(),
            final(self).staged_string_removals() == old(self).staged_string_removals(),
            final(self).staged_id_removals() == old(self).staged_id_removals(),
            old(self).is_committed() ==> r == Err::<Layer, StoreError>(StoreError::BuilderConsumed),
            !old(self).is_committed() && r is Err ==> r == Err::<Layer, StoreError>(StoreError::IdsExhausted)
                && (chain_nv_end(old(self).parent_chain()) + 2 * old(self).staged_string_additions().len() > u64::MAX
                || chain_p_end(old(self).parent_chain()) + old(self).staged_string_additions().len() > u64::MAX),
            r matches Ok(l) ==> l.wf() && committed_from(
                old(self).spec_name(),
                old(self).parent_chain(),
                old(self).staged_string_additions(),
                old(self).staged_id_additions(),
                old(self).staged_string_removals(),
                old(self).staged_id_removals(),
                l@,
            ),
    {
        if self.committed {
            return Err(StoreError::BuilderConsumed);
        }
        self.committed = true;
        assert(self.parent matches Some(p) ==> p.wf());
        let ghost pc = self.parent_chain();
        let (nodes, predicates, values) = self.new_strings();
        let nv_off: u64 = match &self.parent {
            Some(p) => p.node_and_value_count(),
            None => 0,
        };
        let p_off: u64 = match &self.parent {
            Some(p) => p.predicate_count(),
            None => 0,
        };
        let n_nodes = nodes.len() as u64;
        let n_values = values.len() as u64;
        let n_predicates = predicates.len() as u64;
        if n_nodes > u64::MAX - nv_off || n_values > u64::MAX - nv_off - n_nodes || n_predicates
            > u64::MAX - p_off {
            return Err(StoreError::IdsExhausted);
        }
        let draft = LayerDelta::new(
            self.name,
            nv_off,
            p_off,
            nodes.duplicate(),
            predicates.duplicate(),
            values.duplicate(),
            Vec::new(),
            Vec::new(),
        );
        proof {
            lemma_push_wf(pc, draft@);
            if pc.len() == 0 {
                assert(pc.push(draft@) =~= seq![draft@]);
            }
        }
        let draft_layer = match &self.parent {
            Some(p) => p.child(draft),
            None => Layer::base(draft),
        };
        let adds = resolve_ops(&draft_layer, &self.string_additions, &self.id_additions);
        let rems = resolve_ops(&draft_layer, &self.string_removals, &self.id_removals);
        proof {
            let c = draft_layer@;
            assert(c.drop_last() =~= pc);
            assert(c[c.len() - 1] == draft@);
            assert forall|t: IdTriple| #[trigger] adds@.contains(t) implies ids_in_range(draft@, t) by {
                lemma_resolved_in_range(c, self.string_additions@, self.id_additions@, t);
            }
            assert forall|t: IdTriple| #[trigger] rems@.contains(t) implies ids_in_range(draft@, t) by {
                lemma_resolved_in_range(c, self.string_removals@, self.id_removals@, t);
            }
        }
        let additions = subtract_triples(&adds, &rems);
        let removals = if self.parent.is_some() {
            subtract_triples(&rems, &adds)
        } else {
            Vec::new()
        };
        let delta = LayerDelta::new(self.name, nv_off, p_off, nodes, predicates, values, additions, removals);
        proof {
            lemma_push_wf(pc, delta@);
            if pc.len() == 0 {
                assert(pc.push(delta@) =~= seq![delta@]);
            }
        }
        let layer = match &self.parent {
            Some(p) => p.child(delta),
            None => Layer::base(delta),
        };
        proof {
            let c1 = draft_layer@;
            let c2 = layer@;
            assert forall|i: int| 0 <= i < c1.len() implies same_dictionaries(#[trigger] c1[i], c2[i]) by {
                if i < pc.len() {
                    assert(c1[i] == pc[i]);
                    assert(c2[i] == pc[i]);
                }
            }
            assert forall|st: StringTriple| string_triple_ids(c1, st) == string_triple_ids(c2, st) by {
                lemma_string_triple_ids_agree(c1, c2, st);
            }
            assert forall|t: IdTriple| resolved_ops(c1, self.string_additions@, self.id_additions@, t)
                == resolved_ops(c2, self.string_additions@, self.id_additions@, t) by {
                let strs = self.string_additions@;
                if exists|k: int| 0 <= k < strs.len() && string_triple_ids(c1, #[trigger] strs[k]) == Some(t) {
                    let k = choose|k: int| 0 <= k < strs.len() && string_triple_ids(c1, #[trigger] strs[k]) == Some(t);
                    assert(string_triple_ids(c2, strs[k]) == Some(t));
                }
                if exists|k: int| 0 <= k < strs.len() && string_triple_ids(c2, #[trigger] strs[k]) == Some(t) {
                    let k = choose|k: int| 0 <= k < strs.len() && string_triple_ids(c2, #[trigger] strs[k]) == Some(t);
                    assert(string_triple_ids(c1, strs[k]) == Some(t));
                }
            }
            assert forall|t: IdTriple| resolved_ops(c1, self.string_removals@, self.id_removals@, t)
                == resolved_ops(c2, self.string_removals@, self.id_removals@, t) by {
                let strs = self.string_removals@;
                if exists|k: int| 0 <= k < strs.len() && string_triple_ids(c1, #[trigger] strs[k]) == Some(t) {
                    let k = choose|k: int| 0 <= k < strs.len() && string_triple_ids(c1, #[trigger] strs[k]) == Some(t);
                    assert(string_triple_ids(c2, strs[k]) == Some(t));
                }
                if exists|k: int| 0 <= k < strs.len() && string_triple_ids(c2, #[trigger] strs[k]) == Some(t) {
                    let k = choose|k: int| 0 <= k < strs.len() && string_triple_ids(c2, #[trigger] strs[k]) == Some(t);
                    assert(string_triple_ids(c1, strs[k]) == Some(t));
                }
            }
            assert(c2.drop_last() =~= pc);
        }
        Ok(layer)
    }

    fn node_known(&self, s: &str) -> (r: bool)
        requires
            self.wf(),
        ensures
            r == (node_id(self.parent_chain(), self.parent_chain().len() as int, s@) is Some),
    {
        match &self.parent {
            Some(p) => p.subject_id(s).is_some(),
            None => false,
        }
    }

    fn value_known(&self, s: &str) -> (r: bool)
        requires
            self.wf(),
        ensures
            r == (value_id(self.parent_chain(), self.parent_chain().len() as int, s@) is Some),
    {
        match &self.parent {
            Some(p) => p.object_value_id(s).is_some(),
            None => false,
        }
    }

    fn predicate_known(&self, s: &str) -> (r: bool)
        requires
            self.wf(),
        ensures
            r == (predicate_id(self.parent_chain(), self.parent_chain().len() as int, s@) is Some),
    {
        match &self.parent {
            Some(p) => p.predicate_id(s).is_some(),
            None => false,
        }
    }

    /// The strings that the staged additions introduce, one sorted dictionary
    /// per id space
    fn new_strings(&self) -> (r: (Dictionary, Dictionary, Dictionary))
        requires
            self.wf(),
        ensures
            r.0.wf(),
            r.1.wf(),
            r.2.wf(),
            forall|x: Seq<char>| #[trigger] r.0@.contains(x) <==> new_nodes(self.parent_chain(), self.staged_string_additions(), x),
            forall|x: Seq<char>| #[trigger] r.1@.contains(x) <==> new_predicates(self.parent_chain(), self.staged_string_additions(), x),
            forall|x: Seq<char>| #[trigger] r.2@.contains(x) <==> new_values(self.parent_chain(), self.staged_string_additions(), x),
            r.0@.len() + r.2@.len() <= 2 * self.staged_string_additions().len(),
            r.1@.len() <= self.staged_string_additions().len(),
    {
        let ghost pc = self.parent_chain();
        let ghost adds = self.staged_string_additions();
        let mut nodes = Dictionary::new();
        let mut predicates = Dictionary::new();
        let mut values = Dictionary::new();
        let mut i: usize = 0;
        while i < self.string_additions.len()
            invariant
                0 <= i <= adds.len(),
                self.wf(),
                pc == self.parent_chain(),
                adds == self.staged_string_additions(),
                nodes.wf(),
                predicates.wf(),
                values.wf(),
                nodes@.len() + values@.len() <= 2 * i,
                predicates@.len() <= i,
                forall|x: Seq<char>| #[trigger] nodes@.contains(x) <==> node_id(pc, pc.len() as int, x) is None
                    && exists|k: int| 0 <= k < i && uses_node(#[trigger] adds[k], x),
                forall|x: Seq<char>| #[trigger] predicates@.contains(x) <==> predicate_id(pc, pc.len() as int, x) is None
                    && exists|k: int| 0 <= k < i && (#[trigger] adds[k]).predicate@ == x,
                forall|x: Seq<char>| #[trigger] values@.contains(x) <==> value_id(pc, pc.len() as int, x) is None
                    && exists|k: int| 0 <= k < i && (#[trigger] adds[k]).object.term() == ObjectTerm::Value(x),
            decreases adds.len() - i,
        {
            let t = &self.string_additions[i];
            let ghost old_nodes = nodes@;
            let ghost old_predicates = predicates@;
            let ghost old_values = values@;
            if !self.node_known(t.subject.as_str()) {
                nodes.insert(t.subject.as_str());
            }
            if !self.predicate_known(t.predicate.as_str()) {
                predicates.insert(t.predicate.as_str());
            }
            match &t.object {
                ObjectType::Node(n) => {
                    if !self.node_known(n.as_str()) {
                        nodes.insert(n.as_str());
                    }
                },
                ObjectType::Value(v) => {
                    if !self.value_known(v.as_str()) {
                        values.insert(v.as_str());
                    }
                },
            }
            proof {
                assert(adds[i as int] == *t);
                assert forall|x: Seq<char>| #[trigger] nodes@.contains(x) <==> node_id(pc, pc.len() as int, x) is None
                    && exists|k: int| 0 <= k < i + 1 && uses_node(#[trigger] adds[k], x) by {
                    if node_id(pc, pc.len() as int, x) is None && exists|k: int| 0 <= k < i + 1 && uses_node(#[trigger] adds[k], x) {
                        let k = choose|k: int| 0 <= k < i + 1 && uses_node(#[trigger] adds[k], x);
                        if k < i {
                            assert(old_nodes.contains(x));
                        }
                    }
                    if nodes@.contains(x) && !old_nodes.contains(x) {
                        assert(uses_node(adds[i as int], x));
                    }
                }
                assert forall|x: Seq<char>| #[trigger] predicates@.contains(x) <==> predicate_id(pc, pc.len() as int, x) is None
                    && exists|k: int| 0 <= k < i + 1 && (#[trigger] adds[k]).predicate@ == x by {
                    if predicate_id(pc, pc.len() as int, x) is None && exists|k: int| 0 <= k < i + 1 && (#[trigger] adds[k]).predicate@ == x {
                        let k = choose|k: int| 0 <= k < i + 1 && (#[trigger] adds[k]).predicate@ == x;
                        if k < i {
                            assert(old_predicates.contains(x));
                        }
                    }
                    if predicates@.contains(x) && !old_predicates.contains(x) {
                        assert(adds[i as int].predicate@ == x);
                    }
                }
                assert forall|x: Seq<char>| #[trigger] values@.contains(x) <==> value_id(pc, pc.len() as int, x) is None
                    && exists|k: int| 0 <= k < i + 1 && (#[trigger] adds[k]).object.term() == ObjectTerm::Value(x) by {
                    if value_id(pc, pc.len() as int, x) is None && exists|k: int| 0 <= k < i + 1 && (#[trigger] adds[k]).object.term() == ObjectTerm::Value(x) {
                        let k = choose|k: int| 0 <= k < i + 1 && (#[trigger] adds[k]).object.term() == ObjectTerm::Value(x);
                        if k < i {
                            assert(old_values.contains(x));
                        }
                    }
                    if values@.contains(x) && !old_values.contains(x) {
                        assert(adds[i as int].object.term() == ObjectTerm::Value(x));
                    }
                }
            }
            i = i + 1;
        }
        (nodes, predicates, values)
    }
}

/// The id triples that `strs` and `ids` stand for in the chain of `layer`, in
/// ascending order.
fn resolve_ops(layer: &Layer, strs: &Vec<StringTriple>, ids: &Vec<IdTriple>) -> (r: Vec<IdTriple>)
    requires
        layer.wf(),
    ensures
        sorted_triples(r@),
        forall|t: IdTriple| #[trigger] r@.contains(t) <==> resolved_ops(layer@, strs@, ids@, t),
{
    let mut r: Vec<IdTriple> = Vec::new();
    let mut j: usize = 0;
    while j < ids.len()
        invariant
            0 <= j <= ids@.len(),
            sorted_triples(r@),
            forall|t: IdTriple| #[trigger] r@.contains(t) <==> exists|k: int| 0 <= k < j && ids@[k] == t,
        decreases ids@.len() - j,
    {
        insert_triple(&mut r, ids[j]);
        proof {
            assert forall|t: IdTriple| #[trigger] r@.contains(t) <==> exists|k: int| 0 <= k < j + 1 && ids@[k] == t by {
                if t == ids@[j as int] {
                    assert(ids@[j as int] == t);
                }
                if exists|k: int| 0 <= k < j + 1 && ids@[k] == t {
                    let k = choose|k: int| 0 <= k < j + 1 && ids@[k] == t;
                    if k < j {
                        assert(exists|k: int| 0 <= k < j && ids@[k] == t);
                    }
                }
            }
        }
        j = j + 1;
    }
    let mut i: usize = 0;
    while i < strs.len()
        invariant
            0 <= i <= strs@.len(),
            layer.wf(),
            sorted_triples(r@),
            forall|t: IdTriple| #[trigger] r@.contains(t) <==> ids@.contains(t) || exists|k: int| 0 <= k < i && string_triple_ids(layer@, #[trigger] strs@[k]) == Some(t),
        decreases strs@.len() - i,
    {
        match layer.string_triple_to_id(&strs[i]) {
            Some(t) => {
                insert_triple(&mut r, t);
            },
            None => {},
        }
        proof {
            assert forall|t: IdTriple| #[trigger] r@.contains(t) <==> ids@.contains(t) || exists|k: int| 0 <= k < i + 1 && string_triple_ids(layer@, #[trigger] strs@[k]) == Some(t) by {
                if exists|k: int| 0 <= k < i + 1 && string_triple_ids(layer@, #[trigger] strs@[k]) == Some(t) {
                    let k = choose|k: int| 0 <= k < i + 1 && string_triple_ids(layer@, #[trigger] strs@[k]) == Some(t);
                    if k < i {
                        assert(exists|k: int| 0 <= k < i && string_triple_ids(layer@, #[trigger] strs@[k]) == Some(t));
                    }
                }
            }
        }
        i = i + 1;
    }
    r
}

/// Two lists of staged string triples that hold the same triples, read as
/// strings, whatever their order and repetitions.
pub open spec fn same_staged(a: Seq<StringTriple>, b: Seq<StringTriple>) -> bool {
    &&& forall|k: int| 0 <= k < a.len() ==> exists|j: int| 0 <= j < b.len() && same_strings(#[trigger] a[k], b[j])
    &&& forall|j: int| 0 <= j < b.len() ==> exists|k: int| 0 <= k < a.len() && same_strings(a[k], #[trigger] b[j])
}

proof fn lemma_resolved_same(
    c1: Seq<DeltaView>,
    c2: Seq<DeltaView>,
    s1: Seq<StringTriple>,
    i1: Seq<IdTriple>,
    s2: Seq<StringTriple>,
    i2: Seq<IdTriple>,
    t: IdTriple,
)
    requires
        forall|st: StringTriple| string_triple_ids(c1, st) == string_triple_ids(c2, st),
        same_staged(s1, s2),
        forall|x: IdTriple| #[trigger] i1.contains(x) <==> i2.contains(x),
    ensures
        resolved_ops(c1, s1, i1, t) == resolved_ops(c2, s2, i2, t),
{
    if exists|k: int| 0 <= k < s1.len() && string_triple_ids(c1, #[trigger] s1[k]) == Some(t) {
        let k = choose|k: int| 0 <= k < s1.len() && string_triple_ids(c1, #[trigger] s1[k]) == Some(t);
        let j = choose|j: int| 0 <= j < s2.len() && same_strings(s1[k], #[trigger] s2[j]);
        assert(string_triple_ids(c2, s2[j]) == string_triple_ids(c2, s1[k]));
        assert(string_triple_ids(c2, s2[j]) == Some(t));
    }
    if exists|j: int| 0 <= j < s2.len() && string_triple_ids(c2, #[trigger] s2[j]) == Some(t) {
        let j = choose|j: int| 0 <= j < s2.len() && string_triple_ids(c2, #[trigger] s2[j]) == Some(t);
        let k = choose|k: int| 0 <= k < s1.len() && same_strings(#[trigger] s1[k], s2[j]);
        assert(string_triple_ids(c1, s1[k]) == string_triple_ids(c1, s2[j]));
        assert(string_triple_ids(c1, s1[k]) == Some(t));
    }
}

/// Committing is deterministic: the same staged operations (as sets) over
/// the same parent chain give the same dictionaries and the same additions
/// and removals, whatever the new layer is called.
pub proof fn lemma_commit_deterministic(
    pc: Seq<DeltaView>,
    name1: Seq<u32>,
    sa1: Seq<StringTriple>,
    ia1: Seq<IdTriple>,
    sr1: Seq<StringTriple>,
    ir1: Seq<IdTriple>,
    c1: Seq<DeltaView>,
    name2: Seq<u32>,
    sa2: Seq<StringTriple>,
    ia2: Seq<IdTriple>,
    sr2: Seq<StringTriple>,
    ir2: Seq<IdTriple>,
    c2: Seq<DeltaView>,
)
    requires
        chain_wf(c1),
        chain_wf(c2),
        committed_from(name1, pc, sa1, ia1, sr1, ir1, c1),
        committed_from(name2, pc, sa2, ia2, sr2, ir2, c2),
        same_staged(sa1, sa2),
        same_staged(sr1, sr2),
        forall|t: IdTriple| #[trigger] ia1.contains(t) <==> ia2.contains(t),
        forall|t: IdTriple| #[trigger] ir1.contains(t) <==> ir2.contains(t),
    ensures
        c1.last().nodes == c2.last().nodes,
        c1.last().predicates == c2.last().predicates,
        c1.last().values == c2.last().values,
        c1.last().additions == c2.last().additions,
        c1.last().removals == c2.last().removals,
{
    let d1 = c1.last();
    let d2 = c2.last();
    assert(d1 == c1[c1.len() - 1]);
    assert(d2 == c2[c2.len() - 1]);
    assert(delta_wf(c1[c1.len() - 1]));
    assert(delta_wf(c2[c2.len() - 1]));
    assert forall|x: Seq<char>| #[trigger] d1.nodes.contains(x) <==> d2.nodes.contains(x) by {
        if exists|k: int| 0 <= k < sa1.len() && uses_node(#[trigger] sa1[k], x) {
            let k = choose|k: int| 0 <= k < sa1.len() && uses_node(#[trigger] sa1[k], x);
            let j = choose|j: int| 0 <= j < sa2.len() && same_strings(sa1[k], #[trigger] sa2[j]);
            assert(uses_node(sa2[j], x));
        }
        if exists|j: int| 0 <= j < sa2.len() && uses_node(#[trigger] sa2[j], x) {
            let j = choose|j: int| 0 <= j < sa2.len() && uses_node(#[trigger] sa2[j], x);
            let k = choose|k: int| 0 <= k < sa1.len() && same_strings(#[trigger] sa1[k], sa2[j]);
            assert(uses_node(sa1[k], x));
        }
    }
    assert forall|x: Seq<char>| #[trigger] d1.predicates.contains(x) <==> d2.predicates.contains(x) by {
        if exists|k: int| 0 <= k < sa1.len() && (#[trigger] sa1[k]).predicate@ == x {
            let k = choose|k: int| 0 <= k < sa1.len() && (#[trigger] sa1[k]).predicate@ == x;
            let j = choose|j: int| 0 <= j < sa2.len() && same_strings(sa1[k], #[trigger] sa2[j]);
            assert(sa2[j].predicate@ == x);
        }
        if exists|j: int| 0 <= j < sa2.len() && (#[trigger] sa2[j]).predicate@ == x {
            let j = choose|j: int| 0 <= j < sa2.len() && (#[trigger] sa2[j]).predicate@ == x;
            let k = choose|k: int| 0 <= k < sa1.len() && same_strings(#[trigger] sa1[k], sa2[j]);
            assert(sa1[k].predicate@ == x);
        }
    }
    assert forall|x: Seq<char>| #[trigger] d1.values.contains(x) <==> d2.values.contains(x) by {
        if exists|k: int| 0 <= k < sa1.len() && (#[trigger] sa1[k]).object.term() == ObjectTerm::Value(x) {
            let k = choose|k: int| 0 <= k < sa1.len() && (#[trigger] sa1[k]).object.term() == ObjectTerm::Value(x);
            let j = choose|j: int| 0 <= j < sa2.len() && same_strings(sa1[k], #[trigger] sa2[j]);
            assert(sa2[j].object.term() == ObjectTerm::Value(x));
        }
        if exists|j: int| 0 <= j < sa2.len() && (#[trigger] sa2[j]).object.term() == ObjectTerm::Value(x) {
            let j = choose|j: int| 0 <= j < sa2.len() && (#[trigger] sa2[j]).object.term() == ObjectTerm::Value(x);
            let k = choose|k: int| 0 <= k < sa1.len() && same_strings(#[trigger] sa1[k], sa2[j]);
            assert(sa1[k].object.term() == ObjectTerm::Value(x));
        }
    }
    lemma_sorted_strings_unique(d1.nodes, d2.nodes);
    lemma_sorted_strings_unique(d1.predicates, d2.predicates);
    lemma_sorted_strings_unique(d1.values, d2.values);
    assert forall|i: int| 0 <= i < c1.len() implies same_dictionaries(#[trigger] c1[i], c2[i]) by {
        if i < pc.len() {
            assert(c1.drop_last()[i] == c2.drop_last()[i]);
        }
    }
    assert forall|st: StringTriple| string_triple_ids(c1, st) == string_triple_ids(c2, st) by {
        lemma_string_triple_ids_agree(c1, c2, st);
    }
    assert forall|t: IdTriple| #[trigger] d1.additions.contains(t) <==> d2.additions.contains(t) by {
        lemma_resolved_same(c1, c2, sa1, ia1, sa2, ia2, t);
        lemma_resolved_same(c1, c2, sr1, ir1, sr2, ir2, t);
    }
    assert forall|t: IdTriple| #[trigger] d1.removals.contains(t) <==> d2.removals.contains(t) by {
        lemma_resolved_same(c1, c2, sa1, ia1, sa2, ia2, t);
        lemma_resolved_same(c1, c2, sr1, ir1, sr2, ir2, t);
    }
    lemma_sorted_triples_unique(d1.additions, d2.additions);
    lemma_sorted_triples_unique(d1.removals, d2.removals);
}

/// Every string that a staged addition uses has an id in the committed chain.
proof fn lemma_committed_strings_resolve(
    name: Seq<u32>,
    pc: Seq<DeltaView>,
    sa: Seq<StringTriple>,
    ia: Seq<IdTriple>,
    sr: Seq<StringTriple>,
    ir: Seq<IdTriple>,
    c: Seq<DeltaView>,
    k: int,
)
    requires
        committed_from(name, pc, sa, ia, sr, ir, c),
        0 <= k < sa.len(),
    ensures
        string_triple_ids(c, sa[k]) is Some,
{
    let n = pc.len() as int;
    let t = sa[k];
    assert(c.last() == c[n]);
    assert forall|i: int| 0 <= i < n implies same_dictionaries(#[trigger] c[i], pc[i]) by {
        assert(c.drop_last()[i] == c[i]);
    }
    lemma_resolution_agrees(c, pc, n, t.subject@);
    lemma_resolution_agrees(c, pc, n, t.predicate@);
    assert(uses_node(sa[k], t.subject@));
    if node_id(pc, n, t.subject@) is None {
        assert(new_nodes(pc, sa, t.subject@));
        assert(c.last().nodes.contains(t.subject@));
    }
    if predicate_id(pc, n, t.predicate@) is None {
        assert(new_predicates(pc, sa, t.predicate@));
        assert(c.last().predicates.contains(t.predicate@));
    }
    match t.object.term() {
        ObjectTerm::Node(o) => {
            lemma_resolution_agrees(c, pc, n, o);
            assert(uses_node(sa[k], o));
            if node_id(pc, n, o) is None {
                assert(new_nodes(pc, sa, o));
                assert(c.last().nodes.contains(o));
            }
        },
        ObjectTerm::Value(o) => {
            lemma_resolution_agrees(c, pc, n, o);
            if value_id(pc, n, o) is None {
                assert(new_values(pc, sa, o));
                assert(c.last().values.contains(o));
            }
        },
    }
}

/// What a commit does to the logical set: every staged string addition
/// resolves, and is present afterwards unless it was also staged for
/// removal; every staged removal that resolves is absent afterwards unless
/// it was also staged for addition; any other triple is present exactly when
/// it was present in the parent chain.
pub proof fn lemma_commit_effect(
    name: Seq<u32>,
    pc: Seq<DeltaView>,
    sa: Seq<StringTriple>,
    ia: Seq<IdTriple>,
    sr: Seq<StringTriple>,
    ir: Seq<IdTriple>,
    c: Seq<DeltaView>,
)
    requires
        chain_wf(c),
        committed_from(name, pc, sa, ia, sr, ir, c),
    ensures
        forall|k: int| 0 <= k < sa.len() ==> #[trigger] string_triple_ids(c, sa[k]) is Some,
        forall|k: int| 0 <= k < sa.len() ==> !resolved_ops(c, sr, ir, string_triple_ids(c, #[trigger] sa[k])->0)
            ==> chain_contains(c, string_triple_ids(c, sa[k])->0),
        forall|t: IdTriple| #[trigger] resolved_ops(c, sr, ir, t) && !resolved_ops(c, sa, ia, t) ==> !chain_contains(c, t),
        forall|t: IdTriple| #[trigger] resolved_ops(c, sa, ia, t) && !resolved_ops(c, sr, ir, t) ==> chain_contains(c, t),
        forall|t: IdTriple| !resolved_ops(c, sa, ia, t) && !resolved_ops(c, sr, ir, t) ==> (#[trigger] chain_contains(c, t)
            <==> pc.len() > 0 && chain_contains(pc, t)),
{
    let n = c.len() - 1;
    assert(c.last() == c[n]);
    assert(delta_wf(c[n]));
    assert forall|t: IdTriple| #[trigger] resolved_ops(c, sa, ia, t) && !resolved_ops(c, sr, ir, t) implies chain_contains(c, t) by {
        assert(c[n].additions.contains(t));
        assert(!c[n].removals.contains(t));
        assert(present(c, c.len() as int, t));
        lemma_present_is_fold(c, c.len() as int, t);
    }
    assert forall|t: IdTriple| #[trigger] resolved_ops(c, sr, ir, t) && !resolved_ops(c, sa, ia, t) implies !chain_contains(c, t) by {
        assert(!c[n].additions.contains(t));
        lemma_present_is_fold(c, c.len() as int, t);
        if pc.len() > 0 {
            assert(c[n].removals.contains(t));
        } else {
            assert(present(c, 0, t) == false);
        }
    }
    assert forall|t: IdTriple| !resolved_ops(c, sa, ia, t) && !resolved_ops(c, sr, ir, t) implies (#[trigger] chain_contains(c, t)
        <==> pc.len() > 0 && chain_contains(pc, t)) by {
        assert(!c[n].additions.contains(t) && !c[n].removals.contains(t));
        lemma_present_is_fold(c, c.len() as int, t);
        lemma_present_prefix(c, pc, n, t);
        if pc.len() > 0 {
            assert forall|i: int| 0 <= i < pc.len() implies delta_wf(#[trigger] pc[i]) by {
                assert(pc[i] == c[i]);
            }
            lemma_present_is_fold(pc, pc.len() as int, t);
        }
    }
    assert forall|k: int| 0 <= k < sa.len() implies #[trigger] string_triple_ids(c, sa[k]) is Some by {
        lemma_committed_strings_resolve(name, pc, sa, ia, sr, ir, c, k);
    }
    assert forall|k: int| 0 <= k < sa.len() implies !resolved_ops(c, sr, ir, string_triple_ids(c, #[trigger] sa[k])->0)
        ==> chain_contains(c, string_triple_ids(c, sa[k])->0) by {
        lemma_committed_strings_resolve(name, pc, sa, ia, sr, ir, c, k);
        let t = string_triple_ids(c, sa[k])->0;
        assert(resolved_ops(c, sa, ia, t));
    }
}

/// A staged operation resolves to ids that the committed layer or its
/// ancestors gave out.
proof fn lemma_resolved_in_range(c: Seq<DeltaView>, strs: Seq<StringTriple>, ids: Seq<IdTriple>, t: IdTriple)
    requires
        chain_wf(c),
        forall|u: IdTriple| #[trigger] ids.contains(u) ==> ids_known(c.drop_last(), u),
        resolved_ops(c, strs, ids, t),
    ensures
        ids_in_range(c[c.len() - 1], t),
{
    let n = c.len() - 1;
    let pc = c.drop_last();
    assert(c[n].nv_offset >= 0 && c[n].p_offset >= 0);
    if ids.contains(t) {
        assert(ids_known(pc, t));
        assert(ranges_follow(pc)) by {
            assert forall|i: int| 0 <= i < pc.len() implies #[trigger] pc[i] == c[i] by {}
            assert forall|i: int| 0 < i < pc.len() implies (#[trigger] pc[i]).nv_offset == nv_end(pc[i - 1])
                && pc[i].p_offset == p_end(pc[i - 1]) by {
                assert(c[i].nv_offset == nv_end(c[i - 1]));
            }
        }
        lemma_id_object_bound(pc, pc.len() as int, t.subject as int);
        lemma_id_predicate_bound(pc, pc.len() as int, t.predicate as int);
        lemma_id_object_bound(pc, pc.len() as int, t.object as int);
        assert(pc[n - 1] == c[n - 1]);
        assert(c[n].nv_offset == nv_end(c[n - 1]));
        assert(c[n].p_offset == p_end(c[n - 1]));
    } else {
        let k = choose|k: int| 0 <= k < strs.len() && string_triple_ids(c, #[trigger] strs[k]) == Some(t);
        let st = strs[k];
        let m = c.len() as int;
        assert(nv_end(c[n]) <= u64::MAX && p_end(c[n]) <= u64::MAX);
        lemma_node_id_bound(c, m, st.subject@);
        lemma_predicate_id_bound(c, m, st.predicate@);
        match st.object.term() {
            ObjectTerm::Node(o) => lemma_node_id_bound(c, m, o),
            ObjectTerm::Value(o) => lemma_value_id_bound(c, m, o),
        }
    }
}

/// Existence over the first `n` layers reads only those layers.
proof fn lemma_present_prefix(c: Seq<DeltaView>, p: Seq<DeltaView>, n: int, t: IdTriple)
    requires
        0 <= n <= c.len(),
        n <= p.len(),
        forall|i: int| 0 <= i < n ==> #[trigger] c[i] == p[i],
    ensures
        present(c, n, t) == present(p, n, t),
    decreases n,
{
    if n > 0 {
        assert(c[n - 1] == p[n - 1]);
        lemma_present_prefix(c, p, n - 1, t);
    }
}

} // verus!
