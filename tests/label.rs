use terminus_store::{
    label_file_contents, name_to_hex, parse_label_file, swapped_label, Label, MemoryLabelStore, StoreError,
};

#[test]
fn label_without_layer_round_trips() {
    let l = Label { name: "db".to_string(), layer: None, version: 0 };
    let text = label_file_contents(&l);
    assert_eq!(text, b"0\n\n".to_vec());
    let back = parse_label_file(&text, "db").unwrap();
    assert_eq!(back.version, 0);
    assert_eq!(back.layer, None);
    assert_eq!(back.name, "db");
}

#[test]
fn label_with_layer_round_trips() {
    let name = [1, 2, 3, 0xdeadbeef, 0xffffffff];
    let l = Label { name: "db".to_string(), layer: Some(name), version: 1234 };
    let text = label_file_contents(&l);
    assert_eq!(
        String::from_utf8(text.clone()).unwrap(),
        "1234\n000000010000000200000003deadbeefffffffff\n"
    );
    let back = parse_label_file(&text, "db").unwrap();
    assert_eq!(back.version, 1234);
    assert_eq!(back.layer, Some(name));
}

#[test]
fn name_hex_is_forty_lowercase_digits() {
    let hex = name_to_hex(&[0, 0xabcdef01, 0, 0, 10]);
    assert_eq!(String::from_utf8(hex).unwrap(), "00000000abcdef0100000000000000000000000a");
}

#[test]
fn uppercase_hex_is_read() {
    let back = parse_label_file(b"7\n00000000ABCDEF0100000000000000000000000A\n", "x").unwrap();
    assert_eq!(back.layer, Some([0, 0xabcdef01, 0, 0, 10]));
    assert_eq!(back.version, 7);
}

#[test]
fn malformed_label_files_are_refused() {
    let bad: [&[u8]; 10] = [
        b"",
        b"\n\n",
        b"abc\n\n",
        b"5\n",
        b"5\n\nextra\n",
        b"5\nxyz\n",
        b"5\n0000000000000000000000000000000000000000",
        b"5\n000000000000000000000000000000000000000g\n",
        b"18446744073709551616\n\n",
        b"5 \n\n",
    ];
    for data in bad {
        assert_eq!(parse_label_file(data, "x").err(), Some(StoreError::InvalidFormat));
    }
    let max = parse_label_file(b"18446744073709551615\n\n", "x").unwrap();
    assert_eq!(max.version, u64::MAX);
}

#[test]
fn concurrent_set_label_has_one_winner() {
    let mut labels = MemoryLabelStore::new();
    let created = labels.create_label("db").unwrap();
    assert_eq!(labels.create_label("db").err(), Some(StoreError::AlreadyExists));
    let first = labels.set_label(&created, [0, 0, 0, 0, 1]);
    let second = labels.set_label(&created, [0, 0, 0, 0, 2]);
    assert!(first.is_some());
    assert!(second.is_none());
    let now = labels.get_label("db").unwrap();
    assert_eq!(now.version, 1);
    assert_eq!(now.layer, Some([0, 0, 0, 0, 1]));
    let third = labels.set_label(&now, [0, 0, 0, 0, 3]).unwrap();
    assert_eq!(third.version, 2);
}

#[test]
fn labels_can_be_deleted() {
    let mut labels = MemoryLabelStore::new();
    labels.create_label("a").unwrap();
    labels.create_label("b").unwrap();
    assert!(labels.delete_label("a"));
    assert!(!labels.delete_label("a"));
    assert!(labels.get_label("a").is_none());
    assert!(labels.get_label("b").is_some());
    let missing = Label { name: "a".to_string(), layer: None, version: 0 };
    assert!(labels.set_label(&missing, [0, 0, 0, 0, 1]).is_none());
}

#[test]
fn swapped_label_follows_the_version() {
    let current = Label { name: "db".to_string(), layer: None, version: 3 };
    let stale = Label { name: "db".to_string(), layer: None, version: 2 };
    let fresh = swapped_label(&current, &current, [0, 0, 0, 0, 9]).unwrap();
    assert_eq!(fresh.version, 4);
    assert_eq!(fresh.layer, Some([0, 0, 0, 0, 9]));
    assert!(swapped_label(&current, &stale, [0, 0, 0, 0, 9]).is_none());
    let top = Label { name: "db".to_string(), layer: None, version: u64::MAX };
    assert!(swapped_label(&top, &top, [0, 0, 0, 0, 9]).is_none());
}
