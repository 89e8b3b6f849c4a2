use blockdoc::keyed::KeyedVec;
use blockdoc::service::DocumentService;
use blockdoc::types::AttrMap;
use blockdoc::types::BlockActionDoc;
use blockdoc::types::BlockActionTypeDoc;
use blockdoc::types::BlockDoc;
use blockdoc::types::DocumentState;

fn attrs(device: &str, timestamp: &str) -> AttrMap {
    let mut a: AttrMap = KeyedVec::new();
    a.set("device".to_string(), device.to_string());
    a.set("timestamp".to_string(), timestamp.to_string());
    a
}

fn insert_action(
    id: &str,
    parent: Option<&str>,
    prev: Option<&str>,
    device: &str,
    timestamp: &str,
    delta: Option<&str>,
) -> BlockActionDoc {
    BlockActionDoc {
        action: BlockActionTypeDoc::Insert,
        block: BlockDoc {
            id: id.to_string(),
            ty: "paragraph".to_string(),
            attributes: attrs(device, timestamp),
            delta: delta.map(|s| s.to_string()),
            parent_id: parent.map(|s| s.to_string()),
            prev_id: prev.map(|s| s.to_string()),
            next_id: None,
            old_parent_id: None,
        },
        path: Vec::new(),
        old_path: None,
    }
}

fn children_of(state: &DocumentState, parent: &str) -> Vec<String> {
    match state.children_map.get(parent) {
        Some(v) => v.clone(),
        None => Vec::new(),
    }
}

fn states_agree(a: &DocumentState, b: &DocumentState) {
    assert_eq!(a.blocks.len(), b.blocks.len());
    let mut i = 0;
    while i < a.blocks.len() {
        let id = a.blocks.key_at(i).clone();
        let ab = a.blocks.get(&id).unwrap();
        let bb = b.blocks.get(&id).expect("block missing on the other replica");
        assert_eq!(ab.id, bb.id);
        assert_eq!(ab.ty, bb.ty);
        assert_eq!(ab.parent_id, bb.parent_id);
        assert_eq!(ab.prev_id, bb.prev_id);
        assert_eq!(ab.delta, bb.delta);
        assert_eq!(children_of(a, &id), children_of(b, &id));
        i += 1;
    }
    assert_eq!(children_of(a, "root"), children_of(b, "root"));
}

#[test]
fn test_device_priority_ordering() {
    // Device D1 inserts a1 then a2 after it; device D2, not having seen
    // a2, concurrently inserts b1 after a1. After merging, device
    // grouping wins over interleaving by timestamp.
    let mut r1 = DocumentService::new("doc".to_string());
    let init = r1.init_empty_doc().unwrap();
    let root_set = r1.set_root_node_id("root".to_string()).unwrap();

    let d_a1 = r1
        .apply_action(vec![insert_action("a1", Some("root"), None, "D1", "1", None)])
        .unwrap();
    let d_a2 = r1
        .apply_action(vec![insert_action("a2", Some("root"), Some("a1"), "D1", "2", None)])
        .unwrap();

    let mut r2 = DocumentService::new("doc".to_string());
    r2.apply_updates(vec![init.clone(), root_set.clone(), d_a1.clone()]).unwrap();
    let d_b1 = r2
        .apply_action(vec![insert_action("b1", Some("root"), Some("a1"), "D2", "1.5", None)])
        .unwrap();

    r1.apply_updates(vec![d_b1.clone()]).unwrap();
    r2.apply_updates(vec![d_a2.clone()]).unwrap();

    let s1 = r1.get_document_state().unwrap();
    let s2 = r2.get_document_state().unwrap();
    assert_eq!(children_of(&s1, "root"), vec!["a1", "a2", "b1"]);
    assert_eq!(children_of(&s2, "root"), vec!["a1", "a2", "b1"]);
}

#[test]
fn test_convergence_across_merge_orders() {
    let mut origin = DocumentService::new("doc".to_string());
    let init = origin.init_empty_doc().unwrap();
    let root_set = origin.set_root_node_id("root".to_string()).unwrap();
    let d1 = origin
        .apply_action(vec![insert_action("x1", Some("root"), None, "D1", "1", None)])
        .unwrap();
    let d2 = origin
        .apply_action(vec![insert_action("x2", Some("root"), Some("x1"), "D1", "2", None)])
        .unwrap();
    let d3 = origin
        .apply_action(vec![insert_action("y1", Some("root"), None, "D2", "3", None)])
        .unwrap();

    let mut ra = DocumentService::new("doc".to_string());
    ra.apply_updates(vec![init.clone(), root_set.clone(), d1.clone(), d2.clone(), d3.clone()])
        .unwrap();

    let mut rb = DocumentService::new("doc".to_string());
    rb.apply_updates(vec![d3.clone(), d2.clone()]).unwrap();
    rb.apply_updates(vec![root_set.clone()]).unwrap();
    rb.apply_updates(vec![d1.clone(), init.clone()]).unwrap();

    let sa = ra.get_document_state().unwrap();
    let sb = rb.get_document_state().unwrap();
    states_agree(&sa, &sb);
}

#[test]
fn test_idempotent_merge() {
    let mut origin = DocumentService::new("doc".to_string());
    let init = origin.init_empty_doc().unwrap();
    let root_set = origin.set_root_node_id("root".to_string()).unwrap();
    let d1 = origin
        .apply_action(vec![insert_action("x1", Some("root"), None, "D1", "1", None)])
        .unwrap();

    let doubled = origin.merge_updates(vec![d1.clone(), d1.clone()]).unwrap();

    let mut ra = DocumentService::new("doc".to_string());
    ra.apply_updates(vec![init.clone(), root_set.clone(), doubled]).unwrap();

    let mut rb = DocumentService::new("doc".to_string());
    rb.apply_updates(vec![init.clone(), root_set.clone(), d1.clone()]).unwrap();

    states_agree(&ra.get_document_state().unwrap(), &rb.get_document_state().unwrap());
}

#[test]
fn test_round_trip_replay() {
    let mut a = DocumentService::new("doc".to_string());
    let init = a.init_empty_doc().unwrap();
    let root_set = a.set_root_node_id("root".to_string()).unwrap();
    let d1 = a
        .apply_action(vec![insert_action(
            "t1",
            Some("root"),
            None,
            "D1",
            "1",
            Some("[{\"insert\":\"hello\"}]"),
        )])
        .unwrap();
    let d2 = a
        .apply_action(vec![insert_action("t2", Some("root"), Some("t1"), "D1", "2", None)])
        .unwrap();

    let mut b = DocumentService::new("doc".to_string());
    b.apply_updates(vec![init, root_set, d1, d2]).unwrap();

    let sa = a.get_document_state().unwrap();
    let sb = b.get_document_state().unwrap();
    states_agree(&sa, &sb);
    assert_eq!(children_of(&sa, "root"), vec!["t1", "t2"]);
    assert_eq!(
        sa.blocks.get("t1").unwrap().delta.as_deref(),
        Some("[{\"insert\":\"hello\"}]")
    );
}

#[test]
fn test_cascade_delete_scenario() {
    let mut a = DocumentService::new("doc".to_string());
    a.init_empty_doc().unwrap();
    a.set_root_node_id("root".to_string()).unwrap();
    a.apply_action(vec![
        insert_action("p", Some("root"), None, "D1", "1", None),
        insert_action("c1", Some("p"), None, "D1", "2", None),
        insert_action("c2", Some("p"), Some("c1"), "D1", "3", None),
        insert_action("g1", Some("c1"), None, "D1", "4", None),
        insert_action("s", Some("root"), Some("p"), "D1", "5", None),
    ])
    .unwrap();

    let del = BlockActionDoc {
        action: BlockActionTypeDoc::Delete,
        block: BlockDoc {
            id: "p".to_string(),
            ty: String::new(),
            attributes: KeyedVec::new(),
            delta: None,
            parent_id: Some("root".to_string()),
            prev_id: None,
            next_id: None,
            old_parent_id: None,
        },
        path: Vec::new(),
        old_path: None,
    };
    a.apply_action(vec![del]).unwrap();

    let s = a.get_document_state().unwrap();
    assert!(s.blocks.get("p").is_none());
    assert!(s.blocks.get("c1").is_none());
    assert!(s.blocks.get("c2").is_none());
    assert!(s.blocks.get("g1").is_none());
    assert!(s.blocks.get("s").is_some());
    // no extracted parent group references the deleted subtree
    let mut i = 0;
    while i < s.children_map.len() {
        let listed = s.children_map.val_at(i);
        assert!(!listed.contains(&"p".to_string()));
        assert!(!listed.contains(&"c1".to_string()));
        assert!(!listed.contains(&"c2".to_string()));
        assert!(!listed.contains(&"g1".to_string()));
        i += 1;
    }
    // the survivor was bridged onto the deleted block's hint (absent)
    assert_eq!(s.blocks.get("s").unwrap().prev_id, None);
}

#[test]
fn test_chain_repair_scenario() {
    // chain A <- B <- C; deleting B bridges C onto A
    let mut a = DocumentService::new("doc".to_string());
    a.init_empty_doc().unwrap();
    a.set_root_node_id("root".to_string()).unwrap();
    a.apply_action(vec![
        insert_action("a", Some("root"), None, "D1", "1", None),
        insert_action("b", Some("root"), Some("a"), "D1", "2", None),
        insert_action("c", Some("root"), Some("b"), "D1", "3", None),
    ])
    .unwrap();

    let del = BlockActionDoc {
        action: BlockActionTypeDoc::Delete,
        block: BlockDoc {
            id: "b".to_string(),
            ty: String::new(),
            attributes: KeyedVec::new(),
            delta: None,
            parent_id: Some("root".to_string()),
            prev_id: None,
            next_id: None,
            old_parent_id: None,
        },
        path: Vec::new(),
        old_path: None,
    };
    a.apply_action(vec![del]).unwrap();

    let s = a.get_document_state().unwrap();
    assert_eq!(s.blocks.get("c").unwrap().prev_id.as_deref(), Some("a"));
    assert_eq!(children_of(&s, "root"), vec!["a", "c"]);
}

#[test]
fn test_bounds_rejection_leaves_text() {
    let mut a = DocumentService::new("doc".to_string());
    a.init_empty_doc().unwrap();
    a.set_root_node_id("root".to_string()).unwrap();
    a.apply_action(vec![insert_action(
        "t",
        Some("root"),
        None,
        "D1",
        "1",
        Some("[{\"insert\":\"hello\"}]"),
    )])
    .unwrap();

    // Retain(100) against a text of length 5 is rejected...
    let upd = BlockActionDoc {
        action: BlockActionTypeDoc::Update,
        block: BlockDoc {
            id: "t".to_string(),
            ty: String::new(),
            attributes: KeyedVec::new(),
            delta: Some("[{\"retain\":100},{\"insert\":\"x\"}]".to_string()),
            parent_id: None,
            prev_id: None,
            next_id: None,
            old_parent_id: None,
        },
        path: Vec::new(),
        old_path: None,
    };
    let r = a.apply_action(vec![upd]);
    assert!(r.is_err());
    assert_eq!(r.unwrap_err().message, "Retain exceeds text length");

    // ...and the text is unchanged afterward.
    let s = a.get_document_state().unwrap();
    assert_eq!(
        s.blocks.get("t").unwrap().delta.as_deref(),
        Some("[{\"insert\":\"hello\"}]")
    );
}

#[test]
fn test_update_edits_text_and_attributes() {
    let mut a = DocumentService::new("doc".to_string());
    a.init_empty_doc().unwrap();
    a.set_root_node_id("root".to_string()).unwrap();
    a.apply_action(vec![insert_action(
        "t",
        Some("root"),
        None,
        "D1",
        "1",
        Some("[{\"insert\":\"hello\"}]"),
    )])
    .unwrap();

    let mut new_attrs: AttrMap = KeyedVec::new();
    new_attrs.set("align".to_string(), "center".to_string());
    let upd = BlockActionDoc {
        action: BlockActionTypeDoc::Update,
        block: BlockDoc {
            id: "t".to_string(),
            ty: String::new(),
            attributes: new_attrs,
            delta: Some("[{\"retain\":5},{\"insert\":\" world\"}]".to_string()),
            parent_id: None,
            prev_id: None,
            next_id: None,
            old_parent_id: None,
        },
        path: Vec::new(),
        old_path: None,
    };
    a.apply_action(vec![upd]).unwrap();

    let s = a.get_document_state().unwrap();
    let t = s.blocks.get("t").unwrap();
    assert_eq!(t.delta.as_deref(), Some("[{\"insert\":\"hello world\"}]"));
    assert_eq!(t.attributes.get("align").map(|v| v.as_str()), Some("center"));
    assert_eq!(t.attributes.get("device").map(|v| v.as_str()), Some("D1"));
}

#[test]
fn test_update_missing_block_fails() {
    let mut a = DocumentService::new("doc".to_string());
    a.init_empty_doc().unwrap();
    a.set_root_node_id("root".to_string()).unwrap();
    let upd = BlockActionDoc {
        action: BlockActionTypeDoc::Update,
        block: BlockDoc {
            id: "ghostly".to_string(),
            ty: String::new(),
            attributes: KeyedVec::new(),
            delta: None,
            parent_id: None,
            prev_id: None,
            next_id: None,
            old_parent_id: None,
        },
        path: Vec::new(),
        old_path: None,
    };
    let r = a.apply_action(vec![upd]);
    assert!(r.is_err());
    assert_eq!(r.unwrap_err().message, "Block not found");
}

#[test]
fn test_delete_missing_block_fails() {
    let mut a = DocumentService::new("doc".to_string());
    a.init_empty_doc().unwrap();
    a.set_root_node_id("root".to_string()).unwrap();
    let del = BlockActionDoc {
        action: BlockActionTypeDoc::Delete,
        block: BlockDoc {
            id: "absent".to_string(),
            ty: String::new(),
            attributes: KeyedVec::new(),
            delta: None,
            parent_id: Some("root".to_string()),
            prev_id: None,
            next_id: None,
            old_parent_id: None,
        },
        path: Vec::new(),
        old_path: None,
    };
    let r = a.apply_action(vec![del]);
    assert!(r.is_err());
    assert_eq!(r.unwrap_err().message, "Block not found in blocks map");
}

#[test]
fn test_move_missing_fields_fails() {
    let mut a = DocumentService::new("doc".to_string());
    a.init_empty_doc().unwrap();
    a.set_root_node_id("root".to_string()).unwrap();
    a.apply_action(vec![insert_action("m", Some("root"), None, "D1", "1", None)]).unwrap();
    let mv = BlockActionDoc {
        action: BlockActionTypeDoc::Move,
        block: BlockDoc {
            id: "m".to_string(),
            ty: String::new(),
            attributes: KeyedVec::new(),
            delta: None,
            parent_id: Some("root".to_string()),
            prev_id: None,
            next_id: None,
            old_parent_id: None, // required field missing
        },
        path: Vec::new(),
        old_path: None,
    };
    let r = a.apply_action(vec![mv]);
    assert!(r.is_err());
    assert_eq!(r.unwrap_err().message, "Missing required fields for move operation");
}

#[test]
fn test_move_between_parents() {
    let mut a = DocumentService::new("doc".to_string());
    a.init_empty_doc().unwrap();
    a.set_root_node_id("root".to_string()).unwrap();
    a.apply_action(vec![
        insert_action("p1", Some("root"), None, "D1", "1", None),
        insert_action("p2", Some("root"), Some("p1"), "D1", "2", None),
        insert_action("k1", Some("p1"), None, "D1", "3", None),
        insert_action("k2", Some("p1"), Some("k1"), "D1", "4", None),
    ])
    .unwrap();

    let mv = BlockActionDoc {
        action: BlockActionTypeDoc::Move,
        block: BlockDoc {
            id: "k1".to_string(),
            ty: String::new(),
            attributes: KeyedVec::new(),
            delta: None,
            parent_id: Some("p2".to_string()),
            prev_id: None,
            next_id: None,
            old_parent_id: Some("p1".to_string()),
        },
        path: Vec::new(),
        old_path: Some(Vec::new()),
    };
    a.apply_action(vec![mv]).unwrap();

    let s = a.get_document_state().unwrap();
    assert_eq!(s.blocks.get("k1").unwrap().parent_id.as_deref(), Some("p2"));
    assert_eq!(children_of(&s, "p2"), vec!["k1"]);
    // the follower in the old parent was bridged over the moved block
    assert_eq!(s.blocks.get("k2").unwrap().prev_id, None);
    assert_eq!(children_of(&s, "p1"), vec!["k2"]);
}

#[test]
fn test_cycle_safety_extraction() {
    // contrived mutual hints still extract both blocks exactly once
    let mut a = DocumentService::new("doc".to_string());
    a.init_empty_doc().unwrap();
    a.set_root_node_id("root".to_string()).unwrap();
    // inserting f2 after f1 repoints f1 onto f2 where hints collide;
    // build the cycle directly through two inserts claiming each other
    a.apply_action(vec![
        insert_action("f1", Some("root"), Some("f2"), "Df", "60", None),
        insert_action("f2", Some("root"), Some("f1"), "Df", "70", None),
    ])
    .unwrap();
    let s = a.get_document_state().unwrap();
    let listed = children_of(&s, "root");
    assert_eq!(listed.len(), 2);
    assert!(listed.contains(&"f1".to_string()));
    assert!(listed.contains(&"f2".to_string()));
}

#[test]
fn test_merge_garbage_fails() {
    let a = DocumentService::new("doc".to_string());
    let r = a.merge_updates(vec![vec![1u8, 2, 3, 255]]);
    assert!(r.is_err());
}

#[test]
fn test_apply_garbage_update_fails() {
    let mut a = DocumentService::new("doc".to_string());
    a.init_empty_doc().unwrap();
    let r = a.apply_updates(vec![vec![9u8, 9, 9, 9, 9]]);
    assert!(r.is_err());
}

#[test]
fn test_state_error_before_init() {
    let a = DocumentService::new("doc".to_string());
    let r = a.get_document_state();
    assert!(r.is_err());
    assert_eq!(r.unwrap_err().message, "Blocks map not found in document");
}

#[test]
fn test_insert_with_explicit_neighbor() {
    // an atomic splice: the new block repoints its explicit neighbor
    // and inherits the neighbor's origin attributes
    let mut a = DocumentService::new("doc".to_string());
    a.init_empty_doc().unwrap();
    a.set_root_node_id("root".to_string()).unwrap();
    a.apply_action(vec![
        insert_action("n1", Some("root"), None, "D1", "1", None),
        insert_action("n2", Some("root"), Some("n1"), "D1", "2", None),
    ])
    .unwrap();

    let mut spliced = insert_action("mid", Some("root"), Some("n1"), "D9", "9", None);
    spliced.block.next_id = Some("n2".to_string());
    a.apply_action(vec![spliced]).unwrap();

    let s = a.get_document_state().unwrap();
    assert_eq!(s.blocks.get("n2").unwrap().prev_id.as_deref(), Some("mid"));
    let mid = s.blocks.get("mid").unwrap();
    assert_eq!(mid.attributes.get("device").map(|v| v.as_str()), Some("D1"));
    assert_eq!(mid.attributes.get("timestamp").map(|v| v.as_str()), Some("2"));
    assert_eq!(children_of(&s, "root"), vec!["n1", "mid", "n2"]);
}

#[test]
fn test_malformed_delta_payload_fails() {
    let mut a = DocumentService::new("doc".to_string());
    a.init_empty_doc().unwrap();
    a.set_root_node_id("root".to_string()).unwrap();
    let r = a.apply_action(vec![insert_action(
        "t",
        Some("root"),
        None,
        "D1",
        "1",
        Some("this is not a delta"),
    )]);
    assert!(r.is_err());
    assert_eq!(r.unwrap_err().message, "Failed to parse delta diff");
    // the failing action aborted the batch: nothing was created
    let s = a.get_document_state().unwrap();
    assert!(s.blocks.get("t").is_none());
}

#[test]
fn test_formatting_attributes_round_trip() {
    // formatting attributes ride along: applied on insert, re-styled
    // by a formatted retain, and serialized back out of extraction
    let mut a = DocumentService::new("doc".to_string());
    a.init_empty_doc().unwrap();
    a.set_root_node_id("root".to_string()).unwrap();
    a.apply_action(vec![insert_action(
        "t",
        Some("root"),
        None,
        "D1",
        "1",
        Some("[{\"insert\":\"hello\",\"attributes\":{\"bold\":true}}]"),
    )])
    .unwrap();

    let s = a.get_document_state().unwrap();
    let delta = s.blocks.get("t").unwrap().delta.clone().unwrap();
    assert!(delta.contains("\"insert\":\"hello\""), "delta was: {}", delta);
    assert!(delta.contains("\"bold\":true"), "delta was: {}", delta);

    // re-style part of the text through a formatted retain
    let upd = BlockActionDoc {
        action: BlockActionTypeDoc::Update,
        block: BlockDoc {
            id: "t".to_string(),
            ty: String::new(),
            attributes: KeyedVec::new(),
            delta: Some("[{\"retain\":2,\"attributes\":{\"italic\":true}}]".to_string()),
            parent_id: None,
            prev_id: None,
            next_id: None,
            old_parent_id: None,
        },
        path: Vec::new(),
        old_path: None,
    };
    a.apply_action(vec![upd]).unwrap();
    let s2 = a.get_document_state().unwrap();
    let delta2 = s2.blocks.get("t").unwrap().delta.clone().unwrap();
    assert!(delta2.contains("\"italic\":true"), "delta was: {}", delta2);
}
