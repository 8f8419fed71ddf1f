use terminus_store::{IdTriple, Layer, LayerBuilder, LayerType, ObjectType, StoreError, StringTriple};

fn base(name: u32, adds: &[StringTriple]) -> Layer {
    let mut b = LayerBuilder::new_base([0, 0, 0, 0, name]);
    for t in adds {
        b.add_string_triple(t).unwrap();
    }
    b.commit().unwrap()
}

fn child(name: u32, parent: &Layer, adds: &[StringTriple], removes: &[StringTriple]) -> Layer {
    let mut b = LayerBuilder::new_child([0, 0, 0, 0, name], parent.duplicate()).unwrap();
    for t in adds {
        b.add_string_triple(t).unwrap();
    }
    for t in removes {
        b.remove_string_triple(t).unwrap();
    }
    b.commit().unwrap()
}

fn node(s: &str, p: &str, o: &str) -> StringTriple {
    StringTriple::new_node(s, p, o)
}

fn id(layer: &Layer, t: &StringTriple) -> IdTriple {
    layer.string_triple_to_id(t).unwrap()
}

#[test]
fn base_layer_single_triple_round_trip() {
    let layer = base(1, &[StringTriple::new_value("cow", "says", "moo")]);
    assert!(layer.string_triple_exists(&StringTriple::new_value("cow", "says", "moo")));
    assert!(!layer.string_triple_exists(&StringTriple::new_node("cow", "says", "moo")));
    let subjects = layer.subjects();
    assert_eq!(subjects.len(), 1);
    assert_eq!(Some(subjects[0].subject()), layer.subject_id("cow"));
    assert_eq!(layer.layer_type(), LayerType::Base);
    assert!(layer.parent().is_none());
}

#[test]
fn child_adds_and_masks() {
    let l0 = base(1, &[node("a", "p", "b"), node("a", "p", "c")]);
    let l1 = child(2, &l0, &[node("a", "p", "d")], &[node("a", "p", "b")]);
    let expected = vec![id(&l1, &node("a", "p", "c")), id(&l1, &node("a", "p", "d"))];
    assert_eq!(l1.triples(), expected);
    assert!(!l1.string_triple_exists(&node("a", "p", "b")));
    let b = id(&l0, &node("a", "p", "b"));
    assert!(!l1.triple_exists(b.subject, b.predicate, b.object));
    assert!(l0.triple_exists(b.subject, b.predicate, b.object));
    assert_eq!(l1.layer_type(), LayerType::Child);
    assert_eq!(l1.parent().unwrap().name(), l0.name());
}

#[test]
fn re_adding_a_removed_triple() {
    let l0 = base(1, &[node("a", "p", "b")]);
    let l1 = child(2, &l0, &[], &[node("a", "p", "b")]);
    let l2 = child(3, &l1, &[node("a", "p", "b")], &[]);
    assert!(l2.string_triple_exists(&node("a", "p", "b")));
    assert!(!l1.string_triple_exists(&node("a", "p", "b")));
    assert!(l0.string_triple_exists(&node("a", "p", "b")));
}

#[test]
fn node_and_value_objects_are_distinct() {
    let layer = base(1, &[node("x", "rel", "y"), StringTriple::new_value("x", "rel", "y")]);
    let n = layer.object_node_id("y").unwrap();
    let v = layer.object_value_id("y").unwrap();
    assert_ne!(n, v);
    assert!(layer.string_triple_exists(&node("x", "rel", "y")));
    assert!(layer.string_triple_exists(&StringTriple::new_value("x", "rel", "y")));
    assert_eq!(layer.triples().len(), 2);
    assert_eq!(layer.id_object(n), Some(ObjectType::Node("y".to_string())));
    assert_eq!(layer.id_object(v), Some(ObjectType::Value("y".to_string())));
    assert_eq!(layer.id_subject(v), None);
}

#[test]
fn ids_follow_sorted_order_and_continue_in_children() {
    let l0 = base(1, &[node("b", "q", "a"), StringTriple::new_value("b", "p", "z")]);
    // nodes sorted: a, b; then values: z
    assert_eq!(l0.subject_id("a"), Some(1));
    assert_eq!(l0.subject_id("b"), Some(2));
    assert_eq!(l0.object_value_id("z"), Some(3));
    assert_eq!(l0.predicate_id("p"), Some(1));
    assert_eq!(l0.predicate_id("q"), Some(2));
    assert_eq!(l0.node_and_value_count(), 3);
    assert_eq!(l0.predicate_count(), 2);
    let l1 = child(2, &l0, &[node("c", "p", "a")], &[]);
    assert_eq!(l1.subject_id("c"), Some(4));
    assert_eq!(l1.subject_id("a"), Some(1));
    assert_eq!(l1.node_and_value_count(), 4);
    assert_eq!(l1.predicate_count(), 2);
    assert_eq!(l1.id_subject(4), Some("c".to_string()));
    assert_eq!(l1.id_subject(2), Some("b".to_string()));
    assert_eq!(l1.id_predicate(2), Some("q".to_string()));
    assert_eq!(l1.id_predicate(3), None);
    assert_eq!(l1.id_object(5), None);
}

#[test]
fn string_and_id_round_trip() {
    let l0 = base(1, &[node("cow", "says", "moo"), StringTriple::new_value("cow", "weight", "500")]);
    let l1 = child(2, &l0, &[node("pig", "says", "oink")], &[]);
    for s in ["cow", "moo", "pig", "oink"] {
        assert_eq!(l1.id_subject(l1.subject_id(s).unwrap()), Some(s.to_string()));
    }
    for p in ["says", "weight"] {
        assert_eq!(l1.id_predicate(l1.predicate_id(p).unwrap()), Some(p.to_string()));
    }
    assert_eq!(
        l1.id_object(l1.object_value_id("500").unwrap()),
        Some(ObjectType::Value("500".to_string()))
    );
    let t = node("pig", "says", "oink");
    assert_eq!(l1.id_triple_to_string(&id(&l1, &t)), Some(t));
    assert_eq!(l1.subject_id("horse"), None);
}

#[test]
fn adding_and_removing_in_one_commit_cancels() {
    let l0 = base(1, &[node("a", "p", "b")]);
    let l1 = child(2, &l0, &[node("a", "p", "c")], &[node("a", "p", "c"), node("a", "p", "b")]);
    assert!(!l1.string_triple_exists(&node("a", "p", "c")));
    assert!(!l1.string_triple_exists(&node("a", "p", "b")));
    assert!(l1.triples().is_empty());
}

#[test]
fn commit_is_deterministic_whatever_the_staging_order() {
    let l0 = base(1, &[node("a", "p", "b")]);
    let adds = [node("z", "r", "y"), node("m", "q", "a"), StringTriple::new_value("m", "r", "v")];
    let reversed = [adds[2].clone(), adds[1].clone(), adds[0].clone(), adds[0].clone()];
    let x = child(2, &l0, &adds, &[node("a", "p", "b")]);
    let y = child(3, &l0, &reversed, &[node("a", "p", "b")]);
    assert_eq!(x.triples(), y.triples());
    for s in ["z", "y", "m"] {
        assert_eq!(x.subject_id(s), y.subject_id(s));
    }
    assert_eq!(x.predicate_id("q"), y.predicate_id("q"));
    assert_eq!(x.object_value_id("v"), y.object_value_id("v"));
    assert_ne!(x.name(), y.name());
}

#[test]
fn ancestry_is_strict_and_one_way() {
    let l0 = base(1, &[node("a", "p", "b")]);
    let l1 = child(2, &l0, &[node("a", "p", "c")], &[]);
    let l2 = child(3, &l1, &[node("a", "p", "d")], &[]);
    assert!(l0.is_ancestor_of(&l1));
    assert!(l0.is_ancestor_of(&l2));
    assert!(l1.is_ancestor_of(&l2));
    assert!(!l1.is_ancestor_of(&l0));
    assert!(!l2.is_ancestor_of(&l0));
    assert!(!l0.is_ancestor_of(&l0));
    assert!(!l2.is_ancestor_of(&l2));
}

#[test]
fn enumerations_are_strictly_ascending() {
    let l0 = base(1, &[node("c", "q", "a"), node("a", "q", "c"), node("a", "p", "b"), node("b", "p", "b")]);
    let l1 = child(2, &l0, &[node("a", "p", "a")], &[node("b", "p", "b")]);
    let subjects: Vec<u64> = l1.subjects().iter().map(|s| s.subject()).collect();
    assert_eq!(subjects, vec![1, 3]);
    let a = l1.lookup_subject(1).unwrap();
    let preds: Vec<u64> = a.predicates().iter().map(|p| p.predicate()).collect();
    assert_eq!(preds, vec![1, 2]);
    let ap = a.lookup_predicate(1).unwrap();
    assert_eq!(ap.objects(), vec![1, 2]);
    assert!(ap.has_object(2));
    assert!(!ap.has_object(3));
    assert_eq!(ap.triple(1), Some(IdTriple::new(1, 1, 1)));
    assert_eq!(ap.triples(), vec![IdTriple::new(1, 1, 1), IdTriple::new(1, 1, 2)]);
    let objects: Vec<u64> = l1.objects().iter().map(|o| o.object()).collect();
    assert_eq!(objects, vec![1, 2, 3]);
    let all = l1.triples();
    for w in all.windows(2) {
        assert!(w[0] < w[1]);
    }
    // b was a subject in the base layer only; the lookup still exists but is empty
    let b = l1.lookup_subject(2).unwrap();
    assert!(b.triples().is_empty());
    assert!(l1.lookup_subject(9).is_none());
}

#[test]
fn object_lookup_finds_pairs() {
    let layer = base(1, &[node("a", "p", "x"), node("b", "q", "x"), node("a", "q", "x"), node("a", "p", "y")]);
    let x = layer.object_node_id("x").unwrap();
    let a = layer.subject_id("a").unwrap();
    let b = layer.subject_id("b").unwrap();
    let p = layer.predicate_id("p").unwrap();
    let q = layer.predicate_id("q").unwrap();
    let lookup = layer.lookup_object(x).unwrap();
    assert_eq!(lookup.subject_predicate_pairs(), vec![(a, p), (a, q), (b, q)]);
    assert!(lookup.has_subject_predicate_pair(a, q));
    assert!(!lookup.has_subject_predicate_pair(b, p));
    assert_eq!(lookup.triple(b, q), Some(IdTriple::new(b, q, x)));
    assert_eq!(lookup.triple(b, p), None);
    assert_eq!(lookup.triples().len(), 3);
    assert!(layer.lookup_object(1000).is_none());
}

#[test]
fn id_triples_need_known_ids() {
    let mut b = LayerBuilder::new_base([0, 0, 0, 0, 1]);
    assert_eq!(b.add_id_triple(IdTriple::new(1, 1, 1)), Err(StoreError::UnresolvedId));
    b.add_string_triple(&node("a", "p", "b")).unwrap();
    let l0 = b.commit().unwrap();
    let mut c = LayerBuilder::new_child([0, 0, 0, 0, 2], l0.duplicate()).unwrap();
    assert_eq!(c.add_id_triple(IdTriple::new(1, 1, 9)), Err(StoreError::UnresolvedId));
    assert_eq!(c.add_id_triple(IdTriple::new(2, 1, 1)), Ok(()));
    assert_eq!(c.remove_id_triple(IdTriple::new(1, 1, 2)), Ok(()));
    let l1 = c.commit().unwrap();
    assert!(l1.triple_exists(2, 1, 1));
    assert!(!l1.triple_exists(1, 1, 2));
    assert!(LayerBuilder::new_child([0, 0, 0, 0, 1], l1.duplicate()).is_none());
}

#[test]
fn partial_resolution_keeps_unknown_strings() {
    let layer = base(1, &[node("a", "p", "b")]);
    let r = layer.string_triple_to_partially_resolved(&node("a", "p", "zzz"));
    assert!(r.subject.is_resolved());
    assert!(r.predicate.is_resolved());
    assert!(!r.object.is_resolved());
    assert_eq!(r.object.unwrap_unresolved(), ObjectType::Node("zzz".to_string()));
    let all = IdTriple::new(1, 2, 3).to_resolved();
    assert_eq!(all.subject.unwrap_resolved(), 1);
    let none = node("a", "b", "c").to_unresolved();
    assert_eq!(none.predicate.unwrap_unresolved(), "b".to_string());
}

#[test]
fn partially_resolved_triples_resolve_against_a_chain() {
    let l0 = base(1, &[node("a", "p", "b")]);
    let l1 = child(2, &l0, &[node("c", "p", "a")], &[]);
    let staged = l0.string_triple_to_partially_resolved(&node("a", "p", "c"));
    assert!(!staged.object.is_resolved());
    assert_eq!(staged.resolve_with(&l0), None);
    let c = l1.subject_id("c").unwrap();
    assert_eq!(staged.resolve_with(&l1), Some(IdTriple::new(1, 1, c)));
    let all = IdTriple::new(7, 8, 9).to_resolved();
    assert_eq!(all.resolve_with(&l0), Some(IdTriple::new(7, 8, 9)));
}
