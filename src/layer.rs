//! Immutable layers and the chain resolver that answers queries over a
//! layer and all its ancestors.
use vstd::prelude::*;

use crate::chain::{
    chain_contains, chain_wf, delta_wf, id_node, id_object, id_predicate, is_ancestor,
    lemma_fresh_of_prefix, lemma_present_is_fold, lemma_sorted_position, logical_set, node_id, nv_end, p_end,
    predicate_id, present, value_id, DeltaView,
};
use crate::dictionary::Dictionary;
use crate::triple::{
    IdTriple, ObjectTerm, ObjectType, PartiallyResolvedTriple, PossiblyResolved, StringTriple,
};
use crate::lookup::{distinct_subjects, ObjectLookup, SubjectLookup};
use crate::triple_set::{
    contains_triple, insert_id, sorted_ids, sorted_triples, subtract_triples, union_triples,
};

verus! {

/// The type of a layer - either base or child
#[derive(Debug, Clone, Copy, PartialEq, Eq, Structural)]
pub enum LayerType {
    Base,
    Child,
}

/// Whether two layer names are equal.
pub fn names_equal(a: &[u32; 5], b: &[u32; 5]) -> (r: bool)
    ensures
        r == (a@ == b@),
{
    let r = a[0] == b[0] && a[1] == b[1] && a[2] == b[2] && a[3] == b[3] && a[4] == b[4];
    if r {
        assert(a@ =~= b@);
    }
    r
}

/// The delta that one layer records over its parent.
pub struct LayerDelta {
    name: [u32; 5],
    node_value_offset: u64,
    predicate_offset: u64,
    nodes: Dictionary,
    predicates: Dictionary,
    values: Dictionary,
    additions: Vec<IdTriple>,
    removals: Vec<IdTriple>,
}

impl View for LayerDelta {
    type V = DeltaView;

    closed spec fn view(&self) -> DeltaView {
        DeltaView {
            name: self.name@,
            nv_offset: self.node_value_offset as int,
            p_offset: self.predicate_offset as int,
            nodes: self.nodes@,
            predicates: self.predicates@,
            values: self.values@,
            additions: self.additions@,
            removals: self.removals@,
        }
    }
}

impl LayerDelta {
    /// Assemble a delta from its parts
    pub fn new(
        name: [u32; 5],
        node_value_offset: u64,
        predicate_offset: u64,
        nodes: Dictionary,
        predicates: Dictionary,
        values: Dictionary,
        additions: Vec<IdTriple>,
        removals: Vec<IdTriple>,
    ) -> (r: LayerDelta)
        ensures
            r@ == (DeltaView {
                name: name@,
                nv_offset: node_value_offset as int,
                p_offset: predicate_offset as int,
                nodes: nodes@,
                predicates: predicates@,
                values: values@,
                additions: additions@,
                removals: removals@,
            }),
    {
        LayerDelta {
            name,
            node_value_offset,
            predicate_offset,
            nodes,
            predicates,
            values,
            additions,
            removals,
        }
    }

    /// A copy of this delta
    pub fn duplicate(&self) -> (r: LayerDelta)
        ensures
            r@ == self@,
    {
        LayerDelta {
            name: self.name,
            node_value_offset: self.node_value_offset,
            predicate_offset: self.predicate_offset,
            nodes: self.nodes.duplicate(),
            predicates: self.predicates.duplicate(),
            values: self.values.duplicate(),
            additions: self.additions.clone(),
            removals: self.removals.clone(),
        }
    }
}

/// The id of a string triple's object, by its tag.
pub open spec fn object_id(c: Seq<DeltaView>, n: int, o: ObjectTerm) -> Option<int> {
    match o {
        ObjectTerm::Node(s) => node_id(c, n, s),
        ObjectTerm::Value(s) => value_id(c, n, s),
    }
}

/// The id triple that a string triple stands for, if all three parts are known.
pub open spec fn string_triple_ids(c: Seq<DeltaView>, t: StringTriple) -> Option<IdTriple> {
    let n = c.len() as int;
    match (node_id(c, n, t.subject@), predicate_id(c, n, t.predicate@), object_id(c, n, t.object.term())) {
        (Some(s), Some(p), Some(o)) => Some(
            IdTriple { subject: s as u64, predicate: p as u64, object: o as u64 },
        ),
        _ => None,
    }
}

/// Some layer of the chain records an addition with this subject.
pub open spec fn subject_added(c: Seq<DeltaView>, s: u64) -> bool {
    exists|i: int, t: IdTriple| 0 <= i < c.len() && #[trigger] c[i].additions.contains(t) && t.subject == s
}

/// Some layer of the chain records an addition with this object.
pub open spec fn object_added(c: Seq<DeltaView>, o: u64) -> bool {
    exists|i: int, t: IdTriple| 0 <= i < c.len() && #[trigger] c[i].additions.contains(t) && t.object == o
}

/// The id triple that a partially resolved triple stands for in chain `c`:
/// resolved parts as they are, the others looked up, if all are known.
pub open spec fn partially_resolved_ids(c: Seq<DeltaView>, t: PartiallyResolvedTriple) -> Option<IdTriple> {
    let n = c.len() as int;
    let s = match t.subject {
        PossiblyResolved::Resolved(id) => Some(id as int),
        PossiblyResolved::Unresolved(x) => node_id(c, n, x@),
    };
    let p = match t.predicate {
        PossiblyResolved::Resolved(id) => Some(id as int),
        PossiblyResolved::Unresolved(x) => predicate_id(c, n, x@),
    };
    let o = match t.object {
        PossiblyResolved::Resolved(id) => Some(id as int),
        PossiblyResolved::Unresolved(x) => object_id(c, n, x.term()),
    };
    match (s, p, o) {
        (Some(s), Some(p), Some(o)) => Some(IdTriple { subject: s as u64, predicate: p as u64, object: o as u64 }),
        _ => None,
    }
}

impl PartiallyResolvedTriple {
    /// The id triple, with the unresolved parts looked up in `layer`'s
    /// chain, or None if one of them is unknown there
    pub fn resolve_with(&self, layer: &Layer) -> (r: Option<IdTriple>)
        requires
            layer.wf(),
        ensures
            r == partially_resolved_ids(layer@, *self),
    {
        let subject = match &self.subject {
            PossiblyResolved::Resolved(id) => *id,
            PossiblyResolved::Unresolved(s) => match layer.subject_id(s.as_str()) {
                Some(id) => id,
                None => return None,
            },
        };
        let predicate = match &self.predicate {
            PossiblyResolved::Resolved(id) => *id,
            PossiblyResolved::Unresolved(p) => match layer.predicate_id(p.as_str()) {
                Some(id) => id,
                None => return None,
            },
        };
        let object = match &self.object {
            PossiblyResolved::Resolved(id) => *id,
            PossiblyResolved::Unresolved(o) => match layer.object_id_of(o) {
                Some(id) => id,
                None => return None,
            },
        };
        Some(IdTriple { subject, predicate, object })
    }
}

/// A layer, seen with all its ancestors: a chain of deltas, base first.
pub struct Layer {
    deltas: Vec<LayerDelta>,
}

impl View for Layer {
    type V = Seq<DeltaView>;

    closed spec fn view(&self) -> Seq<DeltaView> {
        self.deltas@.map_values(|d: LayerDelta| d@)
    }
}

impl Layer {
    pub open spec fn wf(&self) -> bool {
        chain_wf(self@)
    }

    /// A chain of one base layer
    pub fn base(delta: LayerDelta) -> (r: Layer)
        requires
            chain_wf(seq![delta@]),
        ensures
            r@ == seq![delta@],
            r.wf(),
    {
        let mut deltas: Vec<LayerDelta> = Vec::new();
        deltas.push(delta);
        let r = Layer { deltas };
        assert(r@ =~= seq![delta@]);
        r
    }

    /// This chain with `delta` on top
    pub fn child(&self, delta: LayerDelta) -> (r: Layer)
        requires
            chain_wf(self@.push(delta@)),
        ensures
            r@ == self@.push(delta@),
            r.wf(),
    {
        let mut deltas = self.copy_deltas(self.deltas.len());
        deltas.push(delta);
        let r = Layer { deltas };
        assert(r@ =~= self@.push(delta@)) by {
            assert forall|k: int| 0 <= k < r@.len() implies r@[k] == self@.push(delta@)[k] by {
                assert(r@[k] == r.deltas@[k]@);
            }
        }
        r
    }

    fn copy_deltas(&self, n: usize) -> (r: Vec<LayerDelta>)
        requires
            n <= self@.len(),
        ensures
            r@.len() == n,
            forall|k: int| 0 <= k < n ==> (#[trigger] r@[k])@ == self@[k],
    {
        let mut deltas: Vec<LayerDelta> = Vec::new();
        let mut i: usize = 0;
        while i < n
            invariant
                0 <= i <= n <= self@.len(),
                deltas@.len() == i,
                forall|k: int| 0 <= k < i ==> (#[trigger] deltas@[k])@ == self@[k],
            decreases n - i,
        {
            deltas.push(self.deltas[i].duplicate());
            i = i + 1;
        }
        deltas
    }

    /// A copy of this layer and its chain
    pub fn duplicate(&self) -> (r: Layer)
        ensures
            r@ == self@,
    {
        let deltas = self.copy_deltas(self.deltas.len());
        let r = Layer { deltas };
        assert(r@ =~= self@) by {
            assert forall|k: int| 0 <= k < r@.len() implies r@[k] == self@[k] by {
                assert(r@[k] == r.deltas@[k]@);
            }
        }
        r
    }

    /// The number of layers in the chain, this one included
    pub fn chain_length(&self) -> (r: usize)
        ensures
            r == self@.len(),
    {
        self.deltas.len()
    }

    /// The name of the layer at depth `i` of the chain, the base being at depth 0
    pub fn name_at(&self, i: usize) -> (r: [u32; 5])
        requires
            i < self@.len(),
        ensures
            r@ == self@[i as int].name,
    {
        self.deltas[i].name
    }

    /// The name of this layer
    pub fn name(&self) -> (r: [u32; 5])
        requires
            self.wf(),
        ensures
            r@ == self@.last().name,
    {
        self.deltas[self.deltas.len() - 1].name
    }

    /// Whether this is a base or a child layer
    pub fn layer_type(&self) -> (r: LayerType)
        requires
            self.wf(),
        ensures
            (r == LayerType::Base) == (self@.len() == 1),
    {
        if self.deltas.len() == 1 {
            LayerType::Base
        } else {
            LayerType::Child
        }
    }

    /// The parent of this layer, or None if this is a base layer
    pub fn parent(&self) -> (r: Option<Layer>)
        requires
            self.wf(),
        ensures
            match r {
                Some(p) => self@.len() > 1 && p@ == self@.drop_last() && p.wf(),
                None => self@.len() == 1,
            },
    {
        if self.deltas.len() == 1 {
            None
        } else {
            let deltas = self.copy_deltas(self.deltas.len() - 1);
            let p = Layer { deltas };
            assert(p@ =~= self@.drop_last()) by {
                assert forall|k: int| 0 <= k < p@.len() implies p@[k] == self@.drop_last()[k] by {
                    assert(p@[k] == p.deltas@[k]@);
                }
            }
            proof {
                let c = self@;
                let q = p@;
                assert forall|i: int| 0 < i < q.len() implies (#[trigger] q[i]).nv_offset == nv_end(q[i - 1])
                    && q[i].p_offset == p_end(q[i - 1]) by {
                    assert(c[i].nv_offset == nv_end(c[i - 1]));
                }
                assert forall|i: int, j: int| 0 <= i < j < q.len() implies (#[trigger] q[i]).name != (#[trigger] q[j]).name by {
                    assert(c[i].name != c[j].name);
                }
                lemma_fresh_of_prefix(c, q);
            }
            Some(p)
        }
    }

    /// The number of nodes and values known to this layer and its ancestors
    pub fn node_and_value_count(&self) -> (r: u64)
        requires
            self.wf(),
        ensures
            r == nv_end(self@.last()),
    {
        let d = &self.deltas[self.deltas.len() - 1];
        assert(d@ == self@[self@.len() - 1]);
        assert(nv_end(self@[self@.len() - 1]) <= u64::MAX);
        d.node_value_offset + d.nodes.len() as u64 + d.values.len() as u64
    }

    /// The number of predicates known to this layer and its ancestors
    pub fn predicate_count(&self) -> (r: u64)
        requires
            self.wf(),
        ensures
            r == p_end(self@.last()),
    {
        let d = &self.deltas[self.deltas.len() - 1];
        assert(d@ == self@[self@.len() - 1]);
        assert(p_end(self@[self@.len() - 1]) <= u64::MAX);
        d.predicate_offset + d.predicates.len() as u64
    }

    /// The id of a subject, or None if the subject cannot be found
    pub fn subject_id(&self, subject: &str) -> (r: Option<u64>)
        requires
            self.wf(),
        ensures
            match r {
                Some(id) => node_id(self@, self@.len() as int, subject@) == Some(id as int),
                None => node_id(self@, self@.len() as int, subject@) is None,
            },
    {
        self.node_id_of(subject)
    }

    /// The id of a node object, or None if the node cannot be found
    pub fn object_node_id(&self, object: &str) -> (r: Option<u64>)
        requires
            self.wf(),
        ensures
            match r {
                Some(id) => node_id(self@, self@.len() as int, object@) == Some(id as int),
                None => node_id(self@, self@.len() as int, object@) is None,
            },
    {
        self.node_id_of(object)
    }

    fn node_id_of(&self, s: &str) -> (r: Option<u64>)
        requires
            self.wf(),
        ensures
            match r {
                Some(id) => node_id(self@, self@.len() as int, s@) == Some(id as int),
                None => node_id(self@, self@.len() as int, s@) is None,
            },
    {
        let ghost c = self@;
        let mut i: usize = self.deltas.len();
        while i > 0
            invariant
                0 <= i <= c.len(),
                c == self@,
                chain_wf(c),
                node_id(c, c.len() as int, s@) == node_id(c, i as int, s@),
            decreases i,
        {
            let d = &self.deltas[i - 1];
            assert(d@ == c[i - 1]);
            assert(delta_wf(c[i - 1]));
            match d.nodes.index_of(s) {
                Some(k) => {
                    proof {
                        lemma_sorted_position(c[i - 1].nodes, k as int);
                        assert(nv_end(c[i - 1]) <= u64::MAX);
                    }
                    return Some(d.node_value_offset + k as u64 + 1);
                },
                None => {},
            }
            i = i - 1;
        }
        None
    }

    /// The id of a value object, or None if the value cannot be found
    pub fn object_value_id(&self, object: &str) -> (r: Option<u64>)
        requires
            self.wf(),
        ensures
            match r {
                Some(id) => value_id(self@, self@.len() as int, object@) == Some(id as int),
                None => value_id(self@, self@.len() as int, object@) is None,
            },
    {
        let ghost c = self@;
        let mut i: usize = self.deltas.len();
        while i > 0
            invariant
                0 <= i <= c.len(),
                c == self@,
                chain_wf(c),
                value_id(c, c.len() as int, object@) == value_id(c, i as int, object@),
            decreases i,
        {
            let d = &self.deltas[i - 1];
            assert(d@ == c[i - 1]);
            assert(delta_wf(c[i - 1]));
            match d.values.index_of(object) {
                Some(k) => {
                    proof {
                        lemma_sorted_position(c[i - 1].values, k as int);
                        assert(nv_end(c[i - 1]) <= u64::MAX);
                    }
                    return Some(d.node_value_offset + d.nodes.len() as u64 + k as u64 + 1);
                },
                None => {},
            }
            i = i - 1;
        }
        None
    }

    /// The id of a predicate, or None if the predicate cannot be found
    pub fn predicate_id(&self, predicate: &str) -> (r: Option<u64>)
        requires
            self.wf(),
        ensures
            match r {
                Some(id) => predicate_id(self@, self@.len() as int, predicate@) == Some(id as int),
                None => predicate_id(self@, self@.len() as int, predicate@) is None,
            },
    {
        let ghost c = self@;
        let mut i: usize = self.deltas.len();
        while i > 0
            invariant
                0 <= i <= c.len(),
                c == self@,
                chain_wf(c),
                predicate_id(c, c.len() as int, predicate@) == predicate_id(c, i as int, predicate@),
            decreases i,
        {
            let d = &self.deltas[i - 1];
            assert(d@ == c[i - 1]);
            assert(delta_wf(c[i - 1]));
            match d.predicates.index_of(predicate) {
                Some(k) => {
                    proof {
                        lemma_sorted_position(c[i - 1].predicates, k as int);
                        assert(p_end(c[i - 1]) <= u64::MAX);
                    }
                    return Some(d.predicate_offset + k as u64 + 1);
                },
                None => {},
            }
            i = i - 1;
        }
        None
    }

    /// The object for an id, or None if no layer of the chain gave out that id
    pub fn id_object(&self, id: u64) -> (r: Option<ObjectType>)
        requires
            self.wf(),
        ensures
            match r {
                Some(o) => id_object(self@, self@.len() as int, id as int) == Some(o.term()),
                None => id_object(self@, self@.len() as int, id as int) is None,
            },
    {
        let ghost c = self@;
        let mut i: usize = self.deltas.len();
        while i > 0
            invariant
                0 <= i <= c.len(),
                c == self@,
                chain_wf(c),
                id_object(c, c.len() as int, id as int) == id_object(c, i as int, id as int),
            decreases i,
        {
            let d = &self.deltas[i - 1];
            assert(d@ == c[i - 1]);
            let off = d.node_value_offset;
            let nodes = d.nodes.len() as u64;
            let values = d.values.len() as u64;
            assert(nv_end(c[i - 1]) <= u64::MAX);
            if id > off && id <= off + nodes {
                match d.nodes.string_at((id - off - 1) as usize) {
                    Some(s) => return Some(ObjectType::Node(s)),
                    None => return None,
                }
            } else if id > off + nodes && id <= off + nodes + values {
                match d.values.string_at((id - off - nodes - 1) as usize) {
                    Some(s) => return Some(ObjectType::Value(s)),
                    None => return None,
                }
            } else if id > off {
                return None;
            }
            i = i - 1;
        }
        None
    }

    /// The subject for an id, or None if the id is not that of a node
    pub fn id_subject(&self, id: u64) -> (r: Option<String>)
        requires
            self.wf(),
        ensures
            match r {
                Some(s) => id_node(self@, self@.len() as int, id as int) == Some(s@),
                None => id_node(self@, self@.len() as int, id as int) is None,
            },
    {
        match self.id_object(id) {
            Some(ObjectType::Node(s)) => Some(s),
            _ => None,
        }
    }

    /// The predicate for an id, or None if no layer of the chain gave out that id
    pub fn id_predicate(&self, id: u64) -> (r: Option<String>)
        requires
            self.wf(),
        ensures
            match r {
                Some(s) => id_predicate(self@, self@.len() as int, id as int) == Some(s@),
                None => id_predicate(self@, self@.len() as int, id as int) is None,
            },
    {
        let ghost c = self@;
        let mut i: usize = self.deltas.len();
        while i > 0
            invariant
                0 <= i <= c.len(),
                c == self@,
                chain_wf(c),
                id_predicate(c, c.len() as int, id as int) == id_predicate(c, i as int, id as int),
            decreases i,
        {
            let d = &self.deltas[i - 1];
            assert(d@ == c[i - 1]);
            let off = d.predicate_offset;
            let count = d.predicates.len() as u64;
            assert(p_end(c[i - 1]) <= u64::MAX);
            if id > off && id <= off + count {
                return d.predicates.string_at((id - off - 1) as usize);
            } else if id > off {
                return None;
            }
            i = i - 1;
        }
        None
    }

    /// Returns true if the given triple exists, and false otherwise
    pub fn triple_exists(&self, subject: u64, predicate: u64, object: u64) -> (r: bool)
        requires
            self.wf(),
        ensures
            r == chain_contains(self@, IdTriple { subject, predicate, object }),
    {
        let t = IdTriple { subject, predicate, object };
        let ghost c = self@;
        proof {
            lemma_present_is_fold(c, c.len() as int, t);
        }
        let mut i: usize = self.deltas.len();
        while i > 0
            invariant
                0 <= i <= c.len(),
                c == self@,
                chain_wf(c),
                present(c, c.len() as int, t) == present(c, i as int, t),
                present(c, c.len() as int, t) == chain_contains(c, t),
                t == (IdTriple { subject, predicate, object }),
            decreases i,
        {
            let d = &self.deltas[i - 1];
            assert(d@ == c[i - 1]);
            assert(delta_wf(c[i - 1]));
            if contains_triple(&d.removals, t) {
                assert(c[i - 1].removals.contains(t));
                assert(!present(c, i as int, t));
                return false;
            }
            if contains_triple(&d.additions, t) {
                assert(c[i - 1].additions.contains(t));
                assert(present(c, i as int, t));
                return true;
            }
            i = i - 1;
        }
        false
    }

    /// Returns true if the given triple exists, and false otherwise
    pub fn id_triple_exists(&self, triple: IdTriple) -> (r: bool)
        requires
            self.wf(),
        ensures
            r == chain_contains(self@, triple),
    {
        self.triple_exists(triple.subject, triple.predicate, triple.object)
    }

    /// Returns true if all parts of the string triple are known and the
    /// triple they name exists, and false otherwise
    pub fn string_triple_exists(&self, triple: &StringTriple) -> (r: bool)
        requires
            self.wf(),
        ensures
            r == match string_triple_ids(self@, *triple) {
                Some(t) => chain_contains(self@, t),
                None => false,
            },
    {
        match self.string_triple_to_id(triple) {
            Some(t) => self.id_triple_exists(t),
            None => false,
        }
    }

    fn object_id_of(&self, object: &ObjectType) -> (r: Option<u64>)
        requires
            self.wf(),
        ensures
            match r {
                Some(id) => object_id(self@, self@.len() as int, object.term()) == Some(id as int),
                None => object_id(self@, self@.len() as int, object.term()) is None,
            },
    {
        match object {
            ObjectType::Node(n) => self.node_id_of(n.as_str()),
            ObjectType::Value(v) => self.object_value_id(v.as_str()),
        }
    }

    /// The id triple for a string triple, or None if any part is unknown
    pub fn string_triple_to_id(&self, triple: &StringTriple) -> (r: Option<IdTriple>)
        requires
            self.wf(),
        ensures
            r == string_triple_ids(self@, *triple),
    {
        match self.node_id_of(triple.subject.as_str()) {
            None => None,
            Some(subject) => match self.predicate_id(triple.predicate.as_str()) {
                None => None,
                Some(predicate) => match self.object_id_of(&triple.object) {
                    None => None,
                    Some(object) => Some(IdTriple { subject, predicate, object }),
                },
            },
        }
    }

    /// Convert all known strings in the given string triple to ids
    pub fn string_triple_to_partially_resolved(&self, triple: &StringTriple) -> (r:
        PartiallyResolvedTriple)
        requires
            self.wf(),
        ensures
            match r.subject {
                PossiblyResolved::Resolved(id) => node_id(self@, self@.len() as int, triple.subject@)
                    == Some(id as int),
                PossiblyResolved::Unresolved(s) => node_id(self@, self@.len() as int, triple.subject@)
                    is None && s@ == triple.subject@,
            },
            match r.predicate {
                PossiblyResolved::Resolved(id) => predicate_id(self@, self@.len() as int, triple.predicate@)
                    == Some(id as int),
                PossiblyResolved::Unresolved(s) => predicate_id(self@, self@.len() as int, triple.predicate@)
                    is None && s@ == triple.predicate@,
            },
            match r.object {
                PossiblyResolved::Resolved(id) => object_id(self@, self@.len() as int, triple.object.term())
                    == Some(id as int),
                PossiblyResolved::Unresolved(o) => object_id(self@, self@.len() as int, triple.object.term())
                    is None && o.term() == triple.object.term(),
            },
    {
        let subject = match self.node_id_of(triple.subject.as_str()) {
            Some(id) => PossiblyResolved::Resolved(id),
            None => PossiblyResolved::Unresolved(triple.subject.clone()),
        };
        let predicate = match self.predicate_id(triple.predicate.as_str()) {
            Some(id) => PossiblyResolved::Resolved(id),
            None => PossiblyResolved::Unresolved(triple.predicate.clone()),
        };
        let object = match self.object_id_of(&triple.object) {
            Some(id) => PossiblyResolved::Resolved(id),
            None => PossiblyResolved::Unresolved(triple.object.duplicate()),
        };
        PartiallyResolvedTriple { subject, predicate, object }
    }

    /// Convert an id triple to strings, or None if any id is unknown
    pub fn id_triple_to_string(&self, triple: &IdTriple) -> (r: Option<StringTriple>)
        requires
            self.wf(),
        ensures
            match r {
                Some(t) => id_node(self@, self@.len() as int, triple.subject as int) == Some(t.subject@)
                    && id_predicate(self@, self@.len() as int, triple.predicate as int) == Some(
                    t.predicate@,
                ) && id_object(self@, self@.len() as int, triple.object as int) == Some(
                    t.object.term(),
                ),
                None => id_node(self@, self@.len() as int, triple.subject as int) is None
                    || id_predicate(self@, self@.len() as int, triple.predicate as int) is None
                    || id_object(self@, self@.len() as int, triple.object as int) is None,
            },
    {
        match self.id_subject(triple.subject) {
            None => None,
            Some(subject) => match self.id_predicate(triple.predicate) {
                None => None,
                Some(predicate) => match self.id_object(triple.object) {
                    None => None,
                    Some(object) => Some(StringTriple { subject, predicate, object }),
                },
            },
        }
    }

    /// Returns true if this layer is a proper ancestor of `other`
    pub fn is_ancestor_of(&self, other: &Layer) -> (r: bool)
        requires
            self.wf(),
            other.wf(),
        ensures
            r == is_ancestor(self@, other@),
    {
        let name = self.name();
        let mut i: usize = 0;
        while i < other.deltas.len() - 1
            invariant
                0 <= i <= other@.len(),
                self.wf(),
                other.wf(),
                name@ == self@.last().name,
                self@.last() == self@[self@.len() - 1],
                forall|k: int| 0 <= k < i ==> (#[trigger] other@[k]).name != self@[self@.len() - 1].name,
            decreases other@.len() - i,
        {
            assert(other.deltas@[i as int]@ == other@[i as int]);
            if names_equal(&other.deltas[i].name, &name) {
                assert(other@[i as int].name == self@[self@.len() - 1].name);
                return true;
            }
            i = i + 1;
        }
        false
    }

    /// All triples of the logical set, in ascending (subject, predicate, object) order
    pub fn triples(&self) -> (r: Vec<IdTriple>)
        requires
            self.wf(),
        ensures
            sorted_triples(r@),
            forall|t: IdTriple| #[trigger] r@.contains(t) <==> chain_contains(self@, t),
    {
        let ghost c = self@;
        let mut acc: Vec<IdTriple> = Vec::new();
        let mut i: usize = 0;
        while i < self.deltas.len()
            invariant
                0 <= i <= c.len(),
                c == self@,
                chain_wf(c),
                sorted_triples(acc@),
                forall|t: IdTriple| #[trigger] acc@.contains(t) <==> logical_set(c, i as int).contains(t),
            decreases c.len() - i,
        {
            let d = &self.deltas[i];
            assert(d@ == c[i as int]);
            assert(delta_wf(c[i as int]));
            let rest = subtract_triples(&acc, &d.removals);
            acc = union_triples(&rest, &d.additions);
            i = i + 1;
        }
        acc
    }

    /// One lookup for each subject of the logical set, in ascending order of subject
    pub fn subjects(&self) -> (r: Vec<SubjectLookup>)
        requires
            self.wf(),
        ensures
            forall|i: int, j: int| 0 <= i < j < r@.len() ==> (#[trigger] r@[i]).spec_subject() < (#[trigger] r@[j]).spec_subject(),
            forall|t: IdTriple| #[trigger] chain_contains(self@, t) ==> exists|i: int| 0 <= i < r@.len() && #[trigger] r@[i].spec_subject() == t.subject,
            forall|i: int| 0 <= i < r@.len() ==> {
                &&& (#[trigger] r@[i]).wf()
                &&& exists|t: IdTriple| #[trigger] chain_contains(self@, t) && t.subject == r@[i].spec_subject()
                &&& forall|t: IdTriple| #[trigger] r@[i].spec_triples().contains(t) <==> chain_contains(self@, t) && t.subject == r@[i].spec_subject()
            },
    {
        let ts = self.triples();
        let ids = distinct_subjects(&ts);
        let mut r: Vec<SubjectLookup> = Vec::new();
        let mut k: usize = 0;
        while k < ids.len()
            invariant
                0 <= k <= ids@.len(),
                sorted_triples(ts@),
                sorted_ids(ids@),
                r@.len() == k,
                forall|m: int| 0 <= m < k ==> {
                    &&& (#[trigger] r@[m]).wf()
                    &&& r@[m].spec_subject() == ids@[m]
                    &&& forall|t: IdTriple| #[trigger] r@[m].spec_triples().contains(t) <==> ts@.contains(t) && t.subject == ids@[m]
                },
            decreases ids@.len() - k,
        {
            r.push(SubjectLookup::from_triples(ids[k], &ts));
            k = k + 1;
        }
        proof {
            assert forall|i: int, j: int| 0 <= i < j < r@.len() implies (#[trigger] r@[i]).spec_subject() < (#[trigger] r@[j]).spec_subject() by {
                assert(ids@[i] < ids@[j]);
            }
            assert forall|t: IdTriple| #[trigger] chain_contains(self@, t) implies exists|i: int| 0 <= i < r@.len() && #[trigger] r@[i].spec_subject() == t.subject by {
                assert(ts@.contains(t));
                assert(ids@.contains(t.subject));
                let m = choose|m: int| 0 <= m < ids@.len() && ids@[m] == t.subject;
                assert(r@[m].spec_subject() == t.subject);
            }
            assert forall|i: int| 0 <= i < r@.len() implies exists|t: IdTriple| #[trigger] chain_contains(self@, t) && t.subject == (#[trigger] r@[i]).spec_subject() by {
                assert(ids@.contains(ids@[i]));
                let t = choose|t: IdTriple| ts@.contains(t) && t.subject == ids@[i];
                assert(chain_contains(self@, t));
            }
        }
        r
    }

    fn subject_added_exec(&self, subject: u64) -> (r: bool)
        requires
            self.wf(),
        ensures
            r == subject_added(self@, subject),
    {
        let mut i: usize = 0;
        while i < self.deltas.len()
            invariant
                0 <= i <= self@.len(),
                forall|k: int, t: IdTriple| 0 <= k < i && #[trigger] self@[k].additions.contains(t) ==> t.subject != subject,
            decreases self@.len() - i,
        {
            let adds = &self.deltas[i].additions;
            assert(adds@ == self@[i as int].additions);
            let mut j: usize = 0;
            while j < adds.len()
                invariant
                    0 <= j <= adds@.len(),
                    i < self@.len(),
                    adds@ == self@[i as int].additions,
                    forall|m: int| 0 <= m < j ==> (#[trigger] adds@[m]).subject != subject,
                decreases adds@.len() - j,
            {
                if adds[j].subject == subject {
                    assert(self@[i as int].additions.contains(adds@[j as int]));
                    return true;
                }
                j = j + 1;
            }
            i = i + 1;
        }
        false
    }

    fn object_added_exec(&self, object: u64) -> (r: bool)
        requires
            self.wf(),
        ensures
            r == object_added(self@, object),
    {
        let mut i: usize = 0;
        while i < self.deltas.len()
            invariant
                0 <= i <= self@.len(),
                forall|k: int, t: IdTriple| 0 <= k < i && #[trigger] self@[k].additions.contains(t) ==> t.object != object,
            decreases self@.len() - i,
        {
            let adds = &self.deltas[i].additions;
            assert(adds@ == self@[i as int].additions);
            let mut j: usize = 0;
            while j < adds.len()
                invariant
                    0 <= j <= adds@.len(),
                    i < self@.len(),
                    adds@ == self@[i as int].additions,
                    forall|m: int| 0 <= m < j ==> (#[trigger] adds@[m]).object != object,
                decreases adds@.len() - j,
            {
                if adds[j].object == object {
                    assert(self@[i as int].additions.contains(adds@[j as int]));
                    return true;
                }
                j = j + 1;
            }
            i = i + 1;
        }
        false
    }

    /// A lookup for the given subject, or None if no layer of the chain ever
    /// added a triple with it. A lookup may hold no triples: later layers may
    /// have removed them all.
    pub fn lookup_subject(&self, subject: u64) -> (r: Option<SubjectLookup>)
        requires
            self.wf(),
        ensures
            match r {
                Some(l) => {
                    &&& subject_added(self@, subject)
                    &&& l.wf()
                    &&& l.spec_subject() == subject
                    &&& forall|t: IdTriple| #[trigger] l.spec_triples().contains(t) <==> chain_contains(self@, t) && t.subject == subject
                },
                None => !subject_added(self@, subject),
            },
    {
        if self.subject_added_exec(subject) {
            let ts = self.triples();
            Some(SubjectLookup::from_triples(subject, &ts))
        } else {
            None
        }
    }

    /// One lookup for each object of the logical set, in ascending order of object
    pub fn objects(&self) -> (r: Vec<ObjectLookup>)
        requires
            self.wf(),
        ensures
            forall|i: int, j: int| 0 <= i < j < r@.len() ==> (#[trigger] r@[i]).spec_object() < (#[trigger] r@[j]).spec_object(),
            forall|t: IdTriple| #[trigger] chain_contains(self@, t) ==> exists|i: int| 0 <= i < r@.len() && #[trigger] r@[i].spec_object() == t.object,
            forall|i: int| 0 <= i < r@.len() ==> {
                &&& (#[trigger] r@[i]).wf()
                &&& exists|t: IdTriple| #[trigger] chain_contains(self@, t) && t.object == r@[i].spec_object()
                &&& forall|s: u64, p: u64| #[trigger] r@[i].spec_pairs().contains((s, p)) <==> chain_contains(
                    self@,
                    IdTriple { subject: s, predicate: p, object: r@[i].spec_object() },
                )
            },
    {
        let ts = self.triples();
        let mut ids: Vec<u64> = Vec::new();
        let mut i: usize = 0;
        while i < ts.len()
            invariant
                0 <= i <= ts@.len(),
                sorted_ids(ids@),
                forall|x: u64| #[trigger] ids@.contains(x) <==> exists|j: int| 0 <= j < i && ts@[j].object == x,
            decreases ts@.len() - i,
        {
            let ghost before = ids@;
            insert_id(&mut ids, ts[i].object);
            proof {
                assert forall|x: u64| #[trigger] ids@.contains(x) <==> exists|j: int| 0 <= j < i + 1 && ts@[j].object == x by {
                    if exists|j: int| 0 <= j < i + 1 && ts@[j].object == x {
                        let j = choose|j: int| 0 <= j < i + 1 && ts@[j].object == x;
                        if j < i {
                            assert(before.contains(x));
                        }
                    }
                }
            }
            i = i + 1;
        }
        let mut r: Vec<ObjectLookup> = Vec::new();
        let mut k: usize = 0;
        while k < ids.len()
            invariant
                0 <= k <= ids@.len(),
                sorted_triples(ts@),
                sorted_ids(ids@),
                r@.len() == k,
                forall|m: int| 0 <= m < k ==> {
                    &&& (#[trigger] r@[m]).wf()
                    &&& r@[m].spec_object() == ids@[m]
                    &&& forall|s: u64, p: u64| #[trigger] r@[m].spec_pairs().contains((s, p)) <==> ts@.contains(
                        IdTriple { subject: s, predicate: p, object: ids@[m] },
                    )
                },
            decreases ids@.len() - k,
        {
            r.push(ObjectLookup::from_triples(ids[k], &ts));
            k = k + 1;
        }
        proof {
            assert forall|i: int, j: int| 0 <= i < j < r@.len() implies (#[trigger] r@[i]).spec_object() < (#[trigger] r@[j]).spec_object() by {
                assert(ids@[i] < ids@[j]);
            }
            assert forall|t: IdTriple| #[trigger] chain_contains(self@, t) implies exists|i: int| 0 <= i < r@.len() && #[trigger] r@[i].spec_object() == t.object by {
                assert(ts@.contains(t));
                let j = choose|j: int| 0 <= j < ts@.len() && ts@[j] == t;
                assert(ids@.contains(t.object));
                let m = choose|m: int| 0 <= m < ids@.len() && ids@[m] == t.object;
                assert(r@[m].spec_object() == t.object);
            }
            assert forall|i: int| 0 <= i < r@.len() implies exists|t: IdTriple| #[trigger] chain_contains(self@, t) && t.object == (#[trigger] r@[i]).spec_object() by {
                assert(ids@.contains(ids@[i]));
                let j = choose|j: int| 0 <= j < ts@.len() && ts@[j].object == ids@[i];
                assert(ts@.contains(ts@[j]));
                assert(chain_contains(self@, ts@[j]));
            }
        }
        r
    }

    /// A lookup for the given object, or None if no layer of the chain ever
    /// added a triple with it. A lookup may hold no pairs: later layers may
    /// have removed them all.
    pub fn lookup_object(&self, object: u64) -> (r: Option<ObjectLookup>)
        requires
            self.wf(),
        ensures
            match r {
                Some(l) => {
                    &&& object_added(self@, object)
                    &&& l.wf()
                    &&& l.spec_object() == object
                    &&& forall|s: u64, p: u64| #[trigger] l.spec_pairs().contains((s, p)) <==> chain_contains(
                        self@,
                        IdTriple { subject: s, predicate: p, object },
                    )
                },
                None => !object_added(self@, object),
            },
    {
        if self.object_added_exec(object) {
            let ts = self.triples();
            Some(ObjectLookup::from_triples(object, &ts))
        } else {
            None
        }
    }
}

} // verus!
