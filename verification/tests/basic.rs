use loro_core::ContainerType;
use loro_core::LoroDoc;
use loro_core::LoroValue;
use loro_core::Tracker;
use loro_core::TreeID;
use loro_core::VersionVector;

#[test]
fn test_turn_off() {
    let _tracker = Tracker::new();
}

#[test]
fn test() {
    let mut loro = LoroDoc::new_with_peer(1);
    loro.txn_begin().unwrap();
    let text = loro.get_text("hello");
    text.insert(&mut loro, 0, "hello").unwrap();
    assert_eq!(text.get_value(&loro).as_str(), "hello");
    text.insert(&mut loro, 2, " kk ").unwrap();
    assert_eq!(text.get_value(&loro).as_str(), "he kk llo");
    loro.abort();
    loro.txn_begin().unwrap();
    assert_eq!(text.get_value(&loro).as_str(), "");
    text.insert(&mut loro, 0, "hi").unwrap();
    loro.commit().unwrap();
    assert_eq!(text.get_value(&loro).as_str(), "hi");
}

#[test]
fn import() {
    let mut loro = LoroDoc::new_with_peer(1);
    let mut loro2 = LoroDoc::new_with_peer(2);

    loro.txn_begin().unwrap();
    let text = loro.get_text("hello");
    text.insert(&mut loro, 0, "hello").unwrap();
    loro.commit().unwrap();
    let exported = loro.export_from(&VersionVector::new());
    loro2.import(&exported).unwrap();
    loro2.txn_begin().unwrap();
    let text2 = loro2.get_text("hello");
    assert_eq!(text2.get_value(&loro2).as_str(), "hello");
    text2.insert(&mut loro2, 5, " world").unwrap();
    assert_eq!(text2.get_value(&loro2).as_str(), "hello world");
    loro2.commit().unwrap();
    loro.import(&loro2.export_from(&VersionVector::new())).unwrap();
    let text = loro.get_text("hello");
    assert_eq!(text.get_value(&loro).as_str(), "hello world");
}

#[test]
fn two_client_text_sync() {
    let mut store = LoroDoc::new_with_peer(10);
    store.txn_begin().unwrap();
    let text_container = store.get_text("haha");
    text_container.insert(&mut store, 0, "012").unwrap();
    text_container.insert(&mut store, 1, "34").unwrap();
    text_container.insert(&mut store, 1, "56").unwrap();
    assert_eq!(text_container.get_value(&store).as_str(), "0563412");
    store.commit().unwrap();

    let mut store_b = LoroDoc::new_with_peer(11);
    let exported = store.export_from(&VersionVector::new());
    store_b.import(&exported).unwrap();
    let text_container_b = store_b.get_text("haha");
    assert_eq!(text_container_b.get_value(&store_b).as_str(), "0563412");

    store_b.txn_begin().unwrap();
    text_container_b.delete(&mut store_b, 0, 2).unwrap();
    text_container_b.insert(&mut store_b, 4, "789").unwrap();
    assert_eq!(text_container_b.get_value(&store_b).as_str(), "63417892");
    store_b.commit().unwrap();

    store.import(&store_b.export_from(&store.oplog_vv())).unwrap();
    let text_container = store.get_text("haha");
    assert_eq!(text_container.get_value(&store).as_str(), "63417892");
    store.txn_begin().unwrap();
    text_container.delete(&mut store, 0, 8).unwrap();
    text_container.insert(&mut store, 0, "abc").unwrap();
    assert_eq!(text_container.get_value(&store).as_str(), "abc");
    store.commit().unwrap();

    store_b.import(&store.export_from(&VersionVector::new())).unwrap();
    let text_container_b = store_b.get_text("haha");
    assert_eq!(text_container_b.get_value(&store_b).as_str(), "abc");
}

#[test]
fn import_twice_is_idempotent() {
    let mut a = LoroDoc::new_with_peer(3);
    a.txn_begin().unwrap();
    let text = a.get_text("t");
    text.insert(&mut a, 0, "xyz").unwrap();
    a.commit().unwrap();
    let batch = a.export_from(&VersionVector::new());

    let mut b = LoroDoc::new_with_peer(4);
    b.import(&batch).unwrap();
    let once = b.get_text("t").get_value(&b);
    b.import(&batch).unwrap();
    let twice = b.get_text("t").get_value(&b);
    assert_eq!(once, twice);
    assert_eq!(once.as_str(), "xyz");
}

#[test]
fn convergence_either_order() {
    let mut a = LoroDoc::new_with_peer(20);
    a.txn_begin().unwrap();
    let ta = a.get_text("t");
    ta.insert(&mut a, 0, "left").unwrap();
    a.commit().unwrap();

    let mut b = LoroDoc::new_with_peer(21);
    b.txn_begin().unwrap();
    let tb = b.get_text("t");
    tb.insert(&mut b, 0, "right").unwrap();
    b.commit().unwrap();

    let ba = a.export_from(&VersionVector::new());
    let bb = b.export_from(&VersionVector::new());

    let mut c = LoroDoc::new_with_peer(22);
    c.import(&ba).unwrap();
    c.import(&bb).unwrap();
    let mut d = LoroDoc::new_with_peer(23);
    d.import(&bb).unwrap();
    d.import(&ba).unwrap();
    assert_eq!(
        c.get_text("t").get_value(&c),
        d.get_text("t").get_value(&d)
    );
}

#[test]
fn map_last_writer_wins() {
    let mut a = LoroDoc::new_with_peer(1);
    a.txn_begin().unwrap();
    let ma = a.get_map("m");
    ma.insert(&mut a, "k", LoroValue::I32(1)).unwrap();
    a.commit().unwrap();

    // peer 2 sees peer 1's write, so its own write carries a larger Lamport
    let mut b = LoroDoc::new_with_peer(2);
    b.import(&a.export_from(&VersionVector::new())).unwrap();
    b.txn_begin().unwrap();
    let mb = b.get_map("m");
    mb.insert(&mut b, "k", LoroValue::I32(2)).unwrap();
    b.commit().unwrap();

    a.import(&b.export_from(&VersionVector::new())).unwrap();
    let got = a.get_map("m").get(&a, "k").unwrap();
    match got {
        LoroValue::I32(v) => assert_eq!(v, 2),
        _ => panic!(),
    }
}

#[test]
fn map_equal_lamport_ties_by_peer() {
    // both writes happen at the same Lamport stamp on disjoint histories
    let mut a = LoroDoc::new_with_peer(7);
    a.txn_begin().unwrap();
    let ma = a.get_map("m");
    ma.insert(&mut a, "k", LoroValue::I32(70)).unwrap();
    a.commit().unwrap();

    let mut b = LoroDoc::new_with_peer(8);
    b.txn_begin().unwrap();
    let mb = b.get_map("m");
    mb.insert(&mut b, "k", LoroValue::I32(80)).unwrap();
    b.commit().unwrap();

    let ba = a.export_from(&VersionVector::new());
    let bb = b.export_from(&VersionVector::new());
    a.import(&bb).unwrap();
    b.import(&ba).unwrap();

    let va = a.get_map("m").get(&a, "k").unwrap();
    let vb = b.get_map("m").get(&b, "k").unwrap();
    match (va, vb) {
        (LoroValue::I32(x), LoroValue::I32(y)) => {
            assert_eq!(x, 80);
            assert_eq!(y, 80);
        }
        _ => panic!(),
    }
}

#[test]
fn tree_concurrent_cycle_moves() {
    let mut a = LoroDoc::new_with_peer(1);
    a.txn_begin().unwrap();
    let tree_a = a.get_tree("tr");
    let n1 = a.tree_create(tree_a).unwrap();
    let n2 = a.tree_create(tree_a).unwrap();
    a.commit().unwrap();

    let mut b = LoroDoc::new_with_peer(2);
    b.import(&a.export_from(&VersionVector::new())).unwrap();
    let tree_b = b.get_tree("tr");

    // concurrently: a puts n1 under n2, b puts n2 under n1
    a.txn_begin().unwrap();
    a.tree_mov(tree_a, n1, Some(n2)).unwrap();
    a.commit().unwrap();
    b.txn_begin().unwrap();
    b.tree_mov(tree_b, n2, Some(n1)).unwrap();
    b.commit().unwrap();

    let ba = a.export_from(&VersionVector::new());
    let bb = b.export_from(&VersionVector::new());
    a.import(&bb).unwrap();
    b.import(&ba).unwrap();

    let pa1 = a.tree_parent(tree_a, n1).unwrap();
    let pa2 = a.tree_parent(tree_a, n2).unwrap();
    let pb1 = b.tree_parent(tree_b, n1).unwrap();
    let pb2 = b.tree_parent(tree_b, n2).unwrap();
    assert_eq!(pa1, pb1);
    assert_eq!(pa2, pb2);
    // exactly one of the two moves won; the tree stays a forest
    let cycle = pa1 == Some(n2) && pa2 == Some(n1);
    assert!(!cycle);
    assert!(pa1 == Some(n2) || pa2 == Some(n1));
}

#[test]
fn delete_past_end_is_rejected() {
    let mut a = LoroDoc::new_with_peer(5);
    a.txn_begin().unwrap();
    let t = a.get_text("t");
    t.insert(&mut a, 0, "ab").unwrap();
    let r = t.delete(&mut a, 1, 5);
    assert!(r.is_err());
    assert_eq!(t.get_value(&a).as_str(), "ab");
    let r2 = t.insert(&mut a, 9, "x");
    assert!(r2.is_err());
    a.commit().unwrap();
}

#[test]
fn id_text_round_trip() {
    let id = loro_core::id::ID::new(7, 42);
    let s = id.to_text();
    assert_eq!(s.as_str(), "42@7");
    let back = loro_core::id::ID::try_from_str(&s).unwrap();
    assert_eq!(back, id);
    assert!(loro_core::id::ID::try_from_str("boom").is_err());
    assert!(loro_core::id::ID::try_from_str("1@2@3").is_err());
}

#[test]
fn container_id_text_round_trip() {
    let cid = loro_core::ContainerID::new_root("doc", ContainerType::Dict);
    let s = cid.to_text();
    assert_eq!(s.as_str(), "/doc:Map");
    let back = loro_core::ContainerID::try_from_str(&s).unwrap();
    assert!(back.same_as(&cid));
    assert!(loro_core::ContainerID::try_from_str("nope").is_err());
    assert_eq!(ContainerType::from_u8(ContainerType::Tree.to_u8()), ContainerType::Tree);
    // every kind's name decodes, the tree kind included
    assert_eq!(
        ContainerType::try_from_str("Tree").unwrap(),
        ContainerType::Tree
    );
    let tid = loro_core::ContainerID::new_normal(loro_core::id::ID::new(3, 0), ContainerType::Tree);
    let ts = tid.to_text();
    assert_eq!(ts.as_str(), "0@3:Tree");
    let back = loro_core::ContainerID::try_from_str(&ts).unwrap();
    assert!(back.same_as(&tid));
}

#[test]
fn tree_id_sentinels() {
    let root = TreeID::delete_root().unwrap();
    assert!(TreeID::is_deleted(Some(root)));
    assert!(!TreeID::is_deleted(None));
    let id = loro_core::id::ID::new(1, 2);
    assert_eq!(TreeID::from_id(id).id(), id);
}

#[test]
fn delta_rle_nums_collects() {
    let mut nums = loro_core::DeltaRleEncodedNums::new();
    nums.push(1);
    nums.push(2);
    nums.push(2);
    assert_eq!(nums.iter(), vec![1, 2, 2]);
}

#[test]
fn map() {
    // the original writes a floating-point value here; the verified value
    // model carries integers, so an integer stands in its place
    let mut loro = LoroDoc::new_with_peer(10);
    loro.txn_begin().unwrap();
    let root = loro.get_map("root");
    root.insert(&mut loro, "haha", LoroValue::I32(12)).unwrap();
    let value = root.get_value(&loro);
    match &value {
        LoroValue::Dict(es) => assert_eq!(es.len(), 1),
        _ => panic!(),
    }
    match root.get(&loro, "haha").unwrap() {
        LoroValue::I32(v) => assert_eq!(v, 12),
        _ => panic!(),
    }
    let sub = root
        .insert_container(&mut loro, "map", ContainerType::Dict)
        .unwrap();
    let sub_map = match sub {
        loro_core::Handler::Dict(m) => m,
        _ => panic!(),
    };
    sub_map.insert(&mut loro, "sub", LoroValue::Bool(false)).unwrap();
    loro.commit().unwrap();
    let root = loro.get_map("root");
    let value = root.get_value(&loro);
    match &value {
        LoroValue::Dict(es) => {
            assert_eq!(es.len(), 2);
            let haha = es.iter().find(|(k, _)| k == "haha").unwrap();
            match haha.1 {
                LoroValue::I32(v) => assert_eq!(v, 12),
                _ => panic!(),
            }
            let m = es.iter().find(|(k, _)| k == "map").unwrap();
            assert!(matches!(m.1, LoroValue::Container(_)));
        }
        _ => panic!(),
    }
}

#[test]
fn richtext_handler() {
    let mut loro = LoroDoc::new_with_peer(1);
    let mut loro2 = LoroDoc::new_with_peer(2);

    loro.txn_begin().unwrap();
    let text = loro.get_richtext("hello");
    text.insert(&mut loro, 0, "hello").unwrap();
    loro.commit().unwrap();
    let exported = loro.export_from(&VersionVector::new());

    loro2.import(&exported).unwrap();
    loro2.txn_begin().unwrap();
    let text2 = loro2.get_richtext("hello");
    assert_eq!(text2.get_value(&loro2).as_str(), "hello");
    text2.insert(&mut loro2, 5, " world").unwrap();
    assert_eq!(text2.get_value(&loro2).as_str(), "hello world");
    loro2.commit().unwrap();

    loro.import(&loro2.export_from(&VersionVector::new())).unwrap();
    let text = loro.get_richtext("hello");
    assert_eq!(text.get_value(&loro).as_str(), "hello world");

    // rewind to peer 2's second character
    loro.checkout(&loro_core::Frontiers::from_id(loro_core::id::ID::new(2, 1)))
        .unwrap();
    assert_eq!(text.get_value(&loro).as_str(), "hello w");
}

#[test]
fn richtext_handler_concurrent() {
    let mut loro = LoroDoc::new_with_peer(999);
    loro.txn_begin().unwrap();
    let handler = loro.get_richtext("richtext");
    handler.insert(&mut loro, 0, "hello").unwrap();
    loro.commit().unwrap();
    for i in 0..100usize {
        let mut new_loro = LoroDoc::new_with_peer(1000 + i as u64);
        new_loro
            .import(&loro.export_from(&VersionVector::new()))
            .unwrap();
        new_loro.txn_begin().unwrap();
        let handler = new_loro.get_richtext("richtext");
        handler
            .insert(&mut new_loro, i % 5, &i.to_string())
            .unwrap();
        new_loro.commit().unwrap();
        loro.import(&new_loro.export_from(&loro.oplog_vv())).unwrap();
    }
}

#[test]
fn checkout_round_trip() {
    let mut a = LoroDoc::new_with_peer(1);
    a.txn_begin().unwrap();
    let t = a.get_text("t");
    t.insert(&mut a, 0, "abc").unwrap();
    a.commit().unwrap();
    a.txn_begin().unwrap();
    t.insert(&mut a, 3, "def").unwrap();
    a.commit().unwrap();

    let here = a.frontier();
    a.checkout(&loro_core::Frontiers::from_id(loro_core::id::ID::new(1, 2)))
        .unwrap();
    assert_eq!(t.get_value(&a).as_str(), "abc");
    a.checkout(&here).unwrap();
    assert_eq!(t.get_value(&a).as_str(), "abcdef");
    // a frontier naming an unknown identifier is rejected
    assert!(a
        .checkout(&loro_core::Frontiers::from_id(loro_core::id::ID::new(9, 0)))
        .is_err());
}

#[test]
fn nested_containers_have_parents() {
    let mut a = LoroDoc::new_with_peer(1);
    a.txn_begin().unwrap();
    let list = a.get_list("l");
    let child = list
        .insert_container(&mut a, 0, ContainerType::Text)
        .unwrap();
    a.commit().unwrap();
    let child_idx = child.container_idx();
    assert_eq!(child_idx.get_type(), ContainerType::Text);
    let got = list.get_child_handler(&mut a, 0).unwrap();
    assert_eq!(got.container_idx(), child_idx);
    assert!(list.get(&a, 0).is_some());
    assert!(list.get(&a, 1).is_none());
}
