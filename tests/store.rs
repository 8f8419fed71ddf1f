use terminus_store::{open_memory_store, StoreError, StringTriple};

#[test]
fn create_and_manipulate_memory_database() {
    let mut store = open_memory_store();
    let database = store.create("foodb").unwrap();

    let head = database.head(&store).unwrap();
    assert!(head.is_none());

    let mut builder = store.create_base_layer().unwrap();
    builder.add_string_triple(&StringTriple::new_value("cow", "says", "moo")).unwrap();

    let layer = builder.commit(&mut store).unwrap();
    assert!(database.set_head(&mut store, &layer).unwrap());

    builder = layer.open_write(&mut store).unwrap();
    builder.add_string_triple(&StringTriple::new_value("pig", "says", "oink")).unwrap();

    let layer2 = builder.commit(&mut store).unwrap();
    assert!(database.set_head(&mut store, &layer2).unwrap());
    let layer2_name = layer2.name();

    let layer = database.head(&store).unwrap().unwrap();

    assert_eq!(layer2_name, layer.name());
    assert!(layer.string_triple_exists(&StringTriple::new_value("cow", "says", "moo")));
    assert!(layer.string_triple_exists(&StringTriple::new_value("pig", "says", "oink")));
}

#[test]
fn creating_a_database_twice_fails() {
    let mut store = open_memory_store();
    store.create("foodb").unwrap();
    assert_eq!(store.create("foodb").err(), Some(StoreError::AlreadyExists));
    assert!(store.open("foodb").is_some());
    assert!(store.open("bardb").is_none());
}

#[test]
fn head_of_unknown_database_is_not_found() {
    let mut store = open_memory_store();
    let other = open_memory_store();
    let database = store.create("foodb").unwrap();
    assert_eq!(database.head(&other).err(), Some(StoreError::NotFound));
    let mut builder = store.create_base_layer().unwrap();
    builder.add_string_triple(&StringTriple::new_node("a", "p", "b")).unwrap();
    let layer = builder.commit(&mut store).unwrap();
    let mut other = other;
    assert_eq!(database.set_head(&mut other, &layer).err(), Some(StoreError::NotFound));
}

#[test]
fn set_head_refuses_a_layer_that_does_not_descend_from_the_head() {
    let mut store = open_memory_store();
    let database = store.create("foodb").unwrap();
    let mut b1 = store.create_base_layer().unwrap();
    b1.add_string_triple(&StringTriple::new_node("a", "p", "b")).unwrap();
    let l1 = b1.commit(&mut store).unwrap();
    let mut b2 = store.create_base_layer().unwrap();
    b2.add_string_triple(&StringTriple::new_node("c", "p", "d")).unwrap();
    let l2 = b2.commit(&mut store).unwrap();
    assert!(database.set_head(&mut store, &l1).unwrap());
    assert!(!database.set_head(&mut store, &l2).unwrap());
    assert!(!database.set_head(&mut store, &l1).unwrap());
    let head = database.head(&store).unwrap().unwrap();
    assert_eq!(head.name(), l1.name());
}

#[test]
fn builder_refuses_work_after_commit() {
    let mut store = open_memory_store();
    let mut builder = store.create_base_layer().unwrap();
    builder.add_string_triple(&StringTriple::new_value("cow", "says", "moo")).unwrap();
    builder.commit(&mut store).unwrap();
    assert_eq!(
        builder.add_string_triple(&StringTriple::new_value("pig", "says", "oink")),
        Err(StoreError::BuilderConsumed)
    );
    assert_eq!(
        builder.remove_string_triple(&StringTriple::new_value("cow", "says", "moo")),
        Err(StoreError::BuilderConsumed)
    );
    assert_eq!(builder.commit(&mut store).err(), Some(StoreError::BuilderConsumed));
}

#[test]
fn child_layers_are_built_on_stored_layers() {
    let mut store = open_memory_store();
    let mut builder = store.create_base_layer().unwrap();
    builder.add_string_triple(&StringTriple::new_node("a", "p", "b")).unwrap();
    let base = builder.commit(&mut store).unwrap();
    assert!(store.get_layer(&base.name()).is_some());
    assert!(store.get_layer(&[9, 9, 9, 9, 9]).is_none());
    assert_eq!(store.create_child_layer(&[9, 9, 9, 9, 9]).err(), Some(StoreError::NotFound));
    let mut child = store.create_child_layer(&base.name()).unwrap();
    child.remove_string_triple(&StringTriple::new_node("a", "p", "b")).unwrap();
    child.add_string_triple(&StringTriple::new_node("a", "p", "c")).unwrap();
    let layer = child.commit(&mut store).unwrap();
    assert!(!layer.string_triple_exists(&StringTriple::new_node("a", "p", "b")));
    assert!(layer.string_triple_exists(&StringTriple::new_node("a", "p", "c")));
    assert!(base.string_triple_exists(&StringTriple::new_node("a", "p", "b")));
    assert_eq!(layer.as_layer().parent().unwrap().name(), base.name());
}

#[test]
fn commit_refuses_a_layer_name_the_store_already_holds() {
    let mut a = open_memory_store();
    let mut b = open_memory_store();
    let mut first = a.create_base_layer().unwrap();
    first.add_string_triple(&StringTriple::new_node("a", "p", "b")).unwrap();
    let layer = first.commit(&mut a).unwrap();
    let mut clash = b.create_base_layer().unwrap();
    assert_eq!(clash.name(), layer.name());
    clash.add_string_triple(&StringTriple::new_node("c", "p", "d")).unwrap();
    assert_eq!(clash.commit(&mut a).err(), Some(StoreError::AlreadyExists));
    let mut future = b.create_base_layer().unwrap();
    future.add_string_triple(&StringTriple::new_node("c", "p", "d")).unwrap();
    assert_eq!(future.commit(&mut a).err(), Some(StoreError::AlreadyExists));
    let mut ok = a.create_base_layer().unwrap();
    ok.add_string_triple(&StringTriple::new_node("e", "p", "f")).unwrap();
    assert!(ok.commit(&mut a).is_ok());
}
