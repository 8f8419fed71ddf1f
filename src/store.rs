//! The store: databases (labels) pointing at layers, layers kept by name,
//! and builders that commit new layers into it.
use vstd::prelude::*;

use crate::builder::{committed_from, ids_known, same_strings, LayerBuilder};
use crate::chain::{chain_contains, chain_nv_end, chain_p_end, is_ancestor, DeltaView};
use crate::error::StoreError;
use crate::label::{cas_step, MemoryLabelStore};
use crate::layer::{names_equal, string_triple_ids, Layer};
use crate::triple::{IdTriple, StringTriple};

verus! {

/// The first of the stored layers whose head is named `name`, among the
/// first `n` of them.
pub open spec fn find_layer(ls: Seq<Seq<DeltaView>>, name: Seq<u32>, n: int) -> Option<Seq<DeltaView>>
    decreases n,
{
    if n <= 0 {
        None
    } else if find_layer(ls, name, n - 1) is Some {
        find_layer(ls, name, n - 1)
    } else if ls[n - 1].last().name == name {
        Some(ls[n - 1])
    } else {
        None
    }
}

/// The layer name that a store gives out as its `k`-th.
pub open spec fn name_of(k: u64) -> Seq<u32> {
    seq![0u32, 0u32, 0u32, (k >> 32u64) as u32, (k & 0xffff_ffffu64) as u32]
}

/// Whether the layer of `name` is among the stored ones.
pub proof fn lemma_find_layer_none(ls: Seq<Seq<DeltaView>>, name: Seq<u32>, n: int)
    requires
        0 <= n <= ls.len(),
    ensures
        find_layer(ls, name, n) is None <==> forall|i: int| 0 <= i < n ==> (#[trigger] ls[i]).last().name != name,
    decreases n,
{
    if n > 0 {
        lemma_find_layer_none(ls, name, n - 1);
    }
}

/// A store of layers and of database labels pointing at them, in memory
pub struct Store {
    labels: MemoryLabelStore,
    layers: Vec<Layer>,
    next_name: u64,
}

impl Store {
    pub closed spec fn label_store(&self) -> MemoryLabelStore {
        self.labels
    }

    pub closed spec fn spec_layers(&self) -> Seq<Seq<DeltaView>> {
        self.layers@.map_values(|l: Layer| l@)
    }

    pub closed spec fn wf(&self) -> bool {
        &&& self.labels.wf()
        &&& forall|i: int| 0 <= i < self.layers@.len() ==> (#[trigger] self.layers@[i]).wf()
        &&& self.spec_layers().len() == self.layers@.len()
        &&& forall|i: int, j: int| 0 <= i < j < self.spec_layers().len() ==> (#[trigger] self.spec_layers()[i]).last().name
            != (#[trigger] self.spec_layers()[j]).last().name
        &&& forall|i: int, k: u64| #![trigger self.spec_layers()[i], name_of(k)] 0 <= i < self.spec_layers().len() && k
            >= self.next_name ==> self.spec_layers()[i].last().name != name_of(k)
    }

    /// Whether `name` is the name of a stored layer, or one that the store
    /// has still to give out
    pub closed spec fn name_taken(&self, name: Seq<u32>) -> bool {
        self.layer_named(name) is Some || exists|k: u64| k >= self.next_name && name == #[trigger] name_of(k)
    }

    fn reserved_name(&self, name: &[u32; 5]) -> (r: bool)
        ensures
            r == exists|k: u64| k >= self.next_name && name@ == #[trigger] name_of(k),
    {
        if name[0] == 0 && name[1] == 0 && name[2] == 0 {
            let a = name[3];
            let b = name[4];
            let k: u64 = ((a as u64) << 32u64) | (b as u64);
            assert((k >> 32u64) as u32 == a && (k & 0xffff_ffffu64) as u32 == b) by (bit_vector)
                requires
                    k == ((a as u64) << 32u64) | (b as u64),
            ;
            assert(name@ =~= name_of(k));
            proof {
                assert forall|j: u64| name@ == #[trigger] name_of(j) implies j == k by {
                    assert(name_of(j)[3] == a && name_of(j)[4] == b);
                    assert(j == k) by (bit_vector)
                        requires
                            (j >> 32u64) as u32 == a,
                            (j & 0xffff_ffffu64) as u32 == b,
                            k == ((a as u64) << 32u64) | (b as u64),
                    ;
                }
            }
            k >= self.next_name
        } else {
            proof {
                assert forall|j: u64| name@ != #[trigger] name_of(j) by {
                    if name@ == name_of(j) {
                        assert(name@[0] == name_of(j)[0]);
                    }
                }
            }
            false
        }
    }

    /// Whether the store can still give out a fresh layer name
    pub closed spec fn has_fresh_name(&self) -> bool {
        self.next_name < u64::MAX
    }

    /// The name that the store gives the next layer it builds
    pub closed spec fn next_layer_name(&self) -> Seq<u32> {
        name_of(self.next_name)
    }

    /// The layer stored under `name`, if any.
    pub open spec fn layer_named(&self, name: Seq<u32>) -> Option<Seq<DeltaView>> {
        find_layer(self.spec_layers(), name, self.spec_layers().len() as int)
    }

    /// An empty store
    pub fn new() -> (r: Store)
        ensures
            r.wf(),
            forall|n: Seq<char>| r.label_store().lookup(n) is None,
            r.spec_layers().len() == 0,
            r.has_fresh_name(),
    {
        let r = Store { labels: MemoryLabelStore::new(), layers: Vec::new(), next_name: 1 };
        assert(r.spec_layers() =~= Seq::<Seq<DeltaView>>::empty());
        r
    }

    fn fresh_name(&mut self) -> (r: Option<[u32; 5]>)
        requires
            old(self).wf(),
        ensures
            final(self).wf(),
            final(self).label_store() == old(self).label_store(),
            final(self).spec_layers() == old(self).spec_layers(),
            r is Some <==> old(self).has_fresh_name(),
            r matches Some(n) ==> n@ == old(self).next_layer_name() && !final(self).name_taken(n@),
    {
        if self.next_name == u64::MAX {
            return None;
        }
        let n = self.next_name;
        self.next_name = n + 1;
        let name: [u32; 5] = [0, 0, 0, (n >> 32) as u32, (n & 0xffff_ffff) as u32];
        assert(name@ =~= old(self).next_layer_name());
        proof {
            let ls = self.spec_layers();
            lemma_find_layer_none(ls, name@, ls.len() as int);
            assert forall|i: int| 0 <= i < ls.len() implies (#[trigger] ls[i]).last().name != name@ by {
                assert(ls[i].last().name != name_of(n));
            }
            assert forall|j: u64| j >= self.next_name implies name@ != #[trigger] name_of(j) by {
                if name@ == name_of(j) {
                    assert(name_of(j)[3] == name_of(n)[3] && name_of(j)[4] == name_of(n)[4]);
                    assert(j == n) by (bit_vector)
                        requires
                            (j >> 32u64) as u32 == (n >> 32u64) as u32,
                            (j & 0xffff_ffffu64) as u32 == (n & 0xffff_ffffu64) as u32,
                    ;
                }
            }
        }
        Some(name)
    }

    /// Create a new database with the given name; fails if it exists already
    pub fn create(&mut self, label: &str) -> (r: Result<Database, StoreError>)
        requires
            old(self).wf(),
        ensures
            final(self).wf(),
            final(self).spec_layers() == old(self).spec_layers(),
            r matches Ok(db) ==> db.spec_label() == label@,
            r is Ok ==> old(self).label_store().lookup(label@) is None,
            r is Ok ==> final(self).label_store().lookup(label@) == Some((None::<Seq<u32>>, 0u64)),
            forall|n: Seq<char>| n != label@ ==> final(self).label_store().lookup(n) == old(self).label_store().lookup(n),
            r is Err ==> r == Err::<Database, StoreError>(StoreError::AlreadyExists)
                && old(self).label_store().lookup(label@) is Some
                && final(self).label_store().entries() == old(self).label_store().entries(),
    {
        match self.labels.create_label(label) {
            Ok(l) => {
                Ok(Database { label: l.name })
            },
            Err(e) => Err(e),
        }
    }

    /// Open an existing database, or None if it does not exist
    pub fn open(&self, label: &str) -> (r: Option<Database>)
        requires
            self.wf(),
        ensures
            match r {
                Some(db) => db.spec_label() == label@ && self.label_store().lookup(label@) is Some,
                None => self.label_store().lookup(label@) is None,
            },
    {
        match self.labels.get_label(label) {
            Some(l) => Some(Database { label: l.name }),
            None => None,
        }
    }

    /// A builder for a base layer, unattached to any database; None once the
    /// store has run out of layer names
    pub fn create_base_layer(&mut self) -> (r: Result<DatabaseLayerBuilder, StoreError>)
        requires
            old(self).wf(),
        ensures
            final(self).wf(),
            final(self).label_store() == old(self).label_store(),
            final(self).spec_layers() == old(self).spec_layers(),
            match r {
                Ok(b) => b.builder().wf() && b.builder().parent_chain().len() == 0 && !b.builder().is_committed()
                    && b.builder().staged_string_additions().len() == 0
                    && b.builder().staged_id_additions().len() == 0
                    && b.builder().staged_string_removals().len() == 0
                    && b.builder().staged_id_removals().len() == 0,
                Err(e) => e == StoreError::IdsExhausted,
            },
            r is Ok <==> old(self).has_fresh_name(),
            r matches Ok(b) ==> b.builder().spec_name() == old(self).next_layer_name()
                && !final(self).name_taken(b.builder().spec_name()),
    {
        match self.fresh_name() {
            Some(name) => Ok(DatabaseLayerBuilder { builder: LayerBuilder::new_base(name) }),
            None => Err(StoreError::IdsExhausted),
        }
    }

    /// The layer stored under `name`, or None if there is none
    pub fn get_layer(&self, name: &[u32; 5]) -> (r: Option<Layer>)
        requires
            self.wf(),
        ensures
            match r {
                Some(l) => self.layer_named(name@) == Some(l@) && l.wf(),
                None => self.layer_named(name@) is None,
            },
    {
        let ghost ls = self.spec_layers();
        let mut i: usize = 0;
        while i < self.layers.len()
            invariant
                0 <= i <= self.layers@.len(),
                ls == self.spec_layers(),
                self.wf(),
                find_layer(ls, name@, i as int) is None,
            decreases self.layers@.len() - i,
        {
            let l = &self.layers[i];
            assert(ls[i as int] == l@);
            if names_equal(&l.name(), name) {
                proof {
                    assert(find_layer(ls, name@, i + 1) == Some(ls[i as int]));
                    assert forall|m: int| i + 1 <= m <= ls.len() implies find_layer(ls, name@, m) == Some(ls[i as int]) by {
                        lemma_find_layer_stays(ls, name@, i + 1, m);
                    }
                }
                return Some(l.duplicate());
            }
            i = i + 1;
        }
        None
    }

    /// A builder for a child layer of the stored layer called `parent`
    pub fn create_child_layer(&mut self, parent: &[u32; 5]) -> (r: Result<DatabaseLayerBuilder, StoreError>)
        requires
            old(self).wf(),
        ensures
            final(self).wf(),
            final(self).label_store() == old(self).label_store(),
            final(self).spec_layers() == old(self).spec_layers(),
            match old(self).layer_named(parent@) {
                None => r == Err::<DatabaseLayerBuilder, StoreError>(StoreError::NotFound),
                Some(c) => match r {
                    Ok(b) => b.builder().wf() && b.builder().parent_chain() == c
                        && !b.builder().is_committed()
                        && b.builder().staged_string_additions().len() == 0
                        && b.builder().staged_id_additions().len() == 0
                        && b.builder().staged_string_removals().len() == 0
                        && b.builder().staged_id_removals().len() == 0,
                    Err(e) => e == StoreError::IdsExhausted && !old(self).has_fresh_name()
                        || e == StoreError::AlreadyExists && old(self).has_fresh_name(),
                },
            },
            r matches Ok(b) ==> b.builder().spec_name() == old(self).next_layer_name()
                && !final(self).name_taken(b.builder().spec_name()),
            r is Err && old(self).layer_named(parent@) is Some ==> !old(self).has_fresh_name() || exists|i: int|
                0 <= i < old(self).layer_named(parent@)->0.len()
                && (#[trigger] old(self).layer_named(parent@)->0[i]).name == old(self).next_layer_name(),
    {
        match self.get_layer(parent) {
            None => Err(StoreError::NotFound),
            Some(layer) => {
                let l = DatabaseLayer { layer };
                let ghost c = l.layer()@;
                let ghost next = self.next_layer_name();
                let r = l.open_write(self);
                proof {
                    if r is Err && exists|i: int| 0 <= i < c.len() && (#[trigger] c[i]).name == next {
                        let i = choose|i: int| 0 <= i < c.len() && (#[trigger] c[i]).name == next;
                        assert(old(self).layer_named(parent@)->0[i].name == next);
                    }
                }
                r
            },
        }
    }

    fn register(&mut self, layer: &Layer)
        requires
            old(self).wf(),
            layer.wf(),
            !old(self).name_taken(layer@.last().name),
        ensures
            final(self).wf(),
            final(self).label_store() == old(self).label_store(),
            final(self).spec_layers() == old(self).spec_layers().push(layer@),
    {
        let ghost ls = old(self).spec_layers();
        proof {
            lemma_find_layer_none(ls, layer@.last().name, ls.len() as int);
        }
        self.layers.push(layer.duplicate());
        assert(self.spec_layers() =~= old(self).spec_layers().push(layer@));
        proof {
            let ns = self.spec_layers();
            assert forall|i: int| 0 <= i < ls.len() implies #[trigger] ns[i] == ls[i] by {}
            assert forall|i: int, j: int| 0 <= i < j < ns.len() implies (#[trigger] ns[i]).last().name
                != (#[trigger] ns[j]).last().name by {
                if j < ls.len() {
                    assert(ls[i].last().name != ls[j].last().name);
                } else {
                    assert(ls[i].last().name != layer@.last().name);
                }
            }
            assert forall|i: int, k: u64| #![trigger ns[i], name_of(k)] 0 <= i < ns.len() && k >= self.next_name
                implies ns[i].last().name != name_of(k) by {
                if i < ls.len() {
                    assert(ls[i].last().name != name_of(k));
                }
            }
        }
    }
}

proof fn lemma_find_layer_stays(ls: Seq<Seq<DeltaView>>, name: Seq<u32>, a: int, b: int)
    requires
        0 <= a <= b <= ls.len(),
        find_layer(ls, name, a) is Some,
    ensures
        find_layer(ls, name, b) == find_layer(ls, name, a),
    decreases b - a,
{
    if a < b {
        lemma_find_layer_stays(ls, name, a, b - 1);
    }
}

/// Open a store that is entirely in memory
pub fn open_memory_store() -> (r: Store)
    ensures
        r.wf(),
        forall|n: Seq<char>| r.label_store().lookup(n) is None,
        r.spec_layers().len() == 0,
        r.has_fresh_name(),
{
    Store::new()
}

/// A builder for a layer of a store. Once committed, every operation fails.
pub struct DatabaseLayerBuilder {
    builder: LayerBuilder,
}

impl DatabaseLayerBuilder {
    pub closed spec fn builder(&self) -> LayerBuilder {
        self.builder
    }

    /// The name of the layer being built
    pub fn name(&self) -> (r: [u32; 5])
        ensures
            r@ == self.builder().spec_name(),
    {
        self.builder.name()
    }

    /// Stage the addition of a string triple
    pub fn add_string_triple(&mut self, triple: &StringTriple) -> (r: Result<(), StoreError>)
        requires
            old(self).builder().wf(),
        ensures
            final(self).builder().wf(),
            final(self).builder().same_but_for(&old(self).builder()),
            final(self).builder().staged_id_additions() == old(self).builder().staged_id_additions(),
            final(self).builder().staged_string_removals() == old(self).builder().staged_string_removals(),
            final(self).builder().staged_id_removals() == old(self).builder().staged_id_removals(),
            r is Err ==> final(self).builder().staged_string_additions() == old(self).builder().staged_string_additions(),
            old(self).builder().is_committed() <==> r == Err::<(), StoreError>(StoreError::BuilderConsumed),
            !old(self).builder().is_committed() ==> r is Ok && final(self).builder().staged_string_additions().drop_last()
                == old(self).builder().staged_string_additions() && same_strings(
                final(self).builder().staged_string_additions().last(),
                *triple,
            ),
    {
        self.builder.add_string_triple(triple)
    }

    /// Stage the addition of an id triple; the parent chain must know its ids
    pub fn add_id_triple(&mut self, triple: IdTriple) -> (r: Result<(), StoreError>)
        requires
            old(self).builder().wf(),
        ensures
            final(self).builder().wf(),
            final(self).builder().same_but_for(&old(self).builder()),
            final(self).builder().staged_string_additions() == old(self).builder().staged_string_additions(),
            final(self).builder().staged_string_removals() == old(self).builder().staged_string_removals(),
            final(self).builder().staged_id_removals() == old(self).builder().staged_id_removals(),
            r is Err ==> final(self).builder().staged_id_additions() == old(self).builder().staged_id_additions(),
            old(self).builder().is_committed() ==> r == Err::<(), StoreError>(StoreError::BuilderConsumed),
            !old(self).builder().is_committed() && !ids_known(old(self).builder().parent_chain(), triple)
                ==> r == Err::<(), StoreError>(StoreError::UnresolvedId),
            !old(self).builder().is_committed() && ids_known(old(self).builder().parent_chain(), triple)
                ==> r is Ok && final(self).builder().staged_id_additions() == old(self).builder().staged_id_additions().push(triple),
    {
        self.builder.add_id_triple(triple)
    }

    /// Stage the removal of a string triple
    pub fn remove_string_triple(&mut self, triple: &StringTriple) -> (r: Result<(), StoreError>)
        requires
            old(self).builder().wf(),
        ensures
            final(self).builder().wf(),
            final(self).builder().same_but_for(&old(self).builder()),
            final(self).builder().staged_string_additions() == old(self).builder().staged_string_additions(),
            final(self).builder().staged_id_additions() == old(self).builder().staged_id_additions(),
            final(self).builder().staged_id_removals() == old(self).builder().staged_id_removals(),
            r is Err ==> final(self).builder().staged_string_removals() == old(self).builder().staged_string_removals(),
            old(self).builder().is_committed() <==> r == Err::<(), StoreError>(StoreError::BuilderConsumed),
            !old(self).builder().is_committed() ==> r is Ok && final(self).builder().staged_string_removals().drop_last()
                == old(self).builder().staged_string_removals() && same_strings(
                final(self).builder().staged_string_removals().last(),
                *triple,
            ),
    {
        self.builder.remove_string_triple(triple)
    }

    /// Stage the removal of an id triple; the parent chain must know its ids
    pub fn remove_id_triple(&mut self, triple: IdTriple) -> (r: Result<(), StoreError>)
        requires
            old(self).builder().wf(),
        ensures
            final(self).builder().wf(),
            final(self).builder().same_but_for(&old(self).builder()),
            final(self).builder().staged_string_additions() == old(self).builder().staged_string_additions(),
            final(self).builder().staged_id_additions() == old(self).builder().staged_id_additions(),
            final(self).builder().staged_string_removals() == old(self).builder().staged_string_removals(),
            r is Err ==> final(self).builder().staged_id_removals() == old(self).builder().staged_id_removals(),
            old(self).builder().is_committed() ==> r == Err::<(), StoreError>(StoreError::BuilderConsumed),
            !old(self).builder().is_committed() && !ids_known(old(self).builder().parent_chain(), triple)
                ==> r == Err::<(), StoreError>(StoreError::UnresolvedId),
            !old(self).builder().is_committed() && ids_known(old(self).builder().parent_chain(), triple)
                ==> r is Ok && final(self).builder().staged_id_removals() == old(self).builder().staged_id_removals().push(triple),
    {
        self.builder.remove_id_triple(triple)
    }

    /// Commit the layer and keep it in the store
    pub fn commit(&mut self, store: &mut Store) -> (r: Result<DatabaseLayer, StoreError>)
        requires
            old(self).builder().wf(),
            old(store).wf(),
        ensures
            final(self).builder().wf(),
            final(self).builder().is_committed(),
            final(self).builder().spec_name() == old(self).builder().spec_name(),
            final(self).builder().parent_chain() == old(self).builder().parent_chain(),
            final(self).builder().staged_string_additions() == old(self).builder().staged_string_additions(),
            final(self).builder().staged_id_additions() == old(self).builder().staged_id_additions(),
            final(self).builder().staged_string_removals() == old(self).builder().staged_string_removals(),
            final(self).builder().staged_id_removals() == old(self).builder().staged_id_removals(),
            final(store).wf(),
            final(store).label_store() == old(store).label_store(),
            old(self).builder().is_committed() ==> r == Err::<DatabaseLayer, StoreError>(StoreError::BuilderConsumed),
            !old(self).builder().is_committed() && r is Err ==> r == Err::<DatabaseLayer, StoreError>(
                StoreError::IdsExhausted,
            ) && (chain_nv_end(old(self).builder().parent_chain()) + 2
                * old(self).builder().staged_string_additions().len() > u64::MAX || chain_p_end(
                old(self).builder().parent_chain(),
            ) + old(self).builder().staged_string_additions().len() > u64::MAX)
                || r == Err::<DatabaseLayer, StoreError>(StoreError::AlreadyExists) && old(store).name_taken(
                old(self).builder().spec_name(),
            ),
            r is Ok ==> !old(store).name_taken(old(self).builder().spec_name()),
            match r {
                Ok(l) => l.layer().wf() && committed_from(
                    old(self).builder().spec_name(),
                    old(self).builder().parent_chain(),
                    old(self).builder().staged_string_additions(),
                    old(self).builder().staged_id_additions(),
                    old(self).builder().staged_string_removals(),
                    old(self).builder().staged_id_removals(),
                    l.layer()@,
                ) && final(store).spec_layers() == old(store).spec_layers().push(l.layer()@),
                Err(_) => final(store).spec_layers() == old(store).spec_layers(),
            },
    {
        match self.builder.commit() {
            Ok(layer) => {
                let name = layer.name();
                if store.get_layer(&name).is_some() || store.reserved_name(&name) {
                    return Err(StoreError::AlreadyExists);
                }
                store.register(&layer);
                Ok(DatabaseLayer { layer })
            },
            Err(e) => Err(e),
        }
    }
}

/// A committed layer of a store
pub struct DatabaseLayer {
    layer: Layer,
}

impl DatabaseLayer {
    pub closed spec fn layer(&self) -> Layer {
        self.layer
    }

    /// The layer with its chain
    pub fn as_layer(&self) -> (r: &Layer)
        ensures
            *r == self.layer(),
    {
        &self.layer
    }

    /// The name of this layer
    pub fn name(&self) -> (r: [u32; 5])
        requires
            self.layer().wf(),
        ensures
            r@ == self.layer()@.last().name,
    {
        self.layer.name()
    }

    /// Returns true if the given triple exists, and false otherwise
    pub fn triple_exists(&self, subject: u64, predicate: u64, object: u64) -> (r: bool)
        requires
            self.layer().wf(),
        ensures
            r == chain_contains(self.layer()@, IdTriple { subject, predicate, object }),
    {
        self.layer.triple_exists(subject, predicate, object)
    }

    /// Returns true if all parts of the string triple are known and the
    /// triple they name exists, and false otherwise
    pub fn string_triple_exists(&self, triple: &StringTriple) -> (r: bool)
        requires
            self.layer().wf(),
        ensures
            r == match string_triple_ids(self.layer()@, *triple) {
                Some(t) => chain_contains(self.layer()@, t),
                None => false,
            },
    {
        self.layer.string_triple_exists(triple)
    }

    /// A builder for a child layer of this layer
    pub fn open_write(&self, store: &mut Store) -> (r: Result<DatabaseLayerBuilder, StoreError>)
        requires
            self.layer().wf(),
            old(store).wf(),
        ensures
            final(store).wf(),
            final(store).label_store() == old(store).label_store(),
            final(store).spec_layers() == old(store).spec_layers(),
            match r {
                Ok(b) => b.builder().wf() && b.builder().parent_chain() == self.layer()@
                    && !b.builder().is_committed()
                    && b.builder().staged_string_additions().len() == 0
                    && b.builder().staged_id_additions().len() == 0
                    && b.builder().staged_string_removals().len() == 0
                    && b.builder().staged_id_removals().len() == 0,
                Err(e) => e == StoreError::IdsExhausted && !old(store).has_fresh_name()
                    || e == StoreError::AlreadyExists && old(store).has_fresh_name(),
            },
            r matches Ok(b) ==> b.builder().spec_name() == old(store).next_layer_name()
                && !final(store).name_taken(b.builder().spec_name()),
            r is Err ==> !old(store).has_fresh_name() || exists|i: int|
                0 <= i < self.layer()@.len() && (#[trigger] self.layer()@[i]).name == old(store).next_layer_name(),
    {
        match store.fresh_name() {
            None => Err(StoreError::IdsExhausted),
            Some(name) => match LayerBuilder::new_child(name, self.layer.duplicate()) {
                Some(b) => Ok(DatabaseLayerBuilder { builder: b }),
                None => Err(StoreError::AlreadyExists),
            },
        }
    }
}

/// A database: a label pointing at a layer of a store
pub struct Database {
    label: String,
}

impl Database {
    pub closed spec fn spec_label(&self) -> Seq<char> {
        self.label@
    }

    /// The layer this database points at: None if it points at none, or at
    /// one that the store does not hold
    pub fn head(&self, store: &Store) -> (r: Result<Option<DatabaseLayer>, StoreError>)
        requires
            store.wf(),
        ensures
            match store.label_store().lookup(self.spec_label()) {
                None => r == Err::<Option<DatabaseLayer>, StoreError>(StoreError::NotFound),
                Some(st) => match st.0 {
                    None => r matches Ok(None),
                    Some(n) => match store.layer_named(n) {
                        None => r matches Ok(None),
                        Some(c) => r matches Ok(Some(l)) && l.layer()@ == c && l.layer().wf(),
                    },
                },
            },
    {
        match store.labels.get_label(self.label.as_str()) {
            None => Err(StoreError::NotFound),
            Some(label) => match label.layer {
                None => Ok(None),
                Some(name) => match store.get_layer(&name) {
                    None => Ok(None),
                    Some(layer) => Ok(Some(DatabaseLayer { layer })),
                },
            },
        }
    }

    /// Point the database at `layer` if it has no head yet or its head is a
    /// proper ancestor of `layer`, by a compare-and-swap on the label's
    /// version; returns whether the label moved
    pub fn set_head(&self, store: &mut Store, layer: &DatabaseLayer) -> (r: Result<bool, StoreError>)
        requires
            old(store).wf(),
            layer.layer().wf(),
        ensures
            final(store).wf(),
            final(store).spec_layers() == old(store).spec_layers(),
            forall|n: Seq<char>| n != self.spec_label() ==> final(store).label_store().lookup(n) == old(store).label_store().lookup(n),
            match old(store).label_store().lookup(self.spec_label()) {
                None => r == Err::<bool, StoreError>(StoreError::NotFound)
                    && final(store).label_store().lookup(self.spec_label()) is None,
                Some(st) => {
                    let allowed = match st.0 {
                        None => true,
                        Some(n) => match old(store).layer_named(n) {
                            Some(c) => is_ancestor(c, layer.layer()@),
                            None => false,
                        },
                    };
                    let step = cas_step(st, st.1, layer.layer()@.last().name);
                    &&& allowed ==> r == Ok::<bool, StoreError>(step.0)
                        && final(store).label_store().lookup(self.spec_label()) == Some(step.1)
                    &&& !allowed ==> r == Ok::<bool, StoreError>(false)
                        && final(store).label_store().lookup(self.spec_label()) == Some(st)
                },
            },
    {
        let label = match store.labels.get_label(self.label.as_str()) {
            None => {
                return Err(StoreError::NotFound);
            },
            Some(l) => l,
        };
        let allowed = match label.layer {
            None => true,
            Some(name) => match store.get_layer(&name) {
                Some(current) => current.is_ancestor_of(&layer.layer),
                None => false,
            },
        };
        if !allowed {
            return Ok(false);
        }
        let moved = store.labels.set_label(&label, layer.layer.name());
        Ok(moved.is_some())
    }
}

} // verus!
