use blockdoc::keyed::KeyedVec;
use blockdoc::sorting::ChainSorting;
use blockdoc::types::AttrMap;
use blockdoc::types::BlockDoc;
use blockdoc::types::BlockMap;

fn create_test_block(
    id: &str,
    ty: &str,
    device: &str,
    timestamp: &str,
    prev_id: Option<&str>,
    parent_id: Option<&str>,
) -> BlockDoc {
    let mut attributes: AttrMap = KeyedVec::new();
    attributes.set("device".to_string(), device.to_string());
    attributes.set("timestamp".to_string(), timestamp.to_string());

    BlockDoc {
        id: id.to_string(),
        ty: ty.to_string(),
        attributes,
        delta: None,
        parent_id: parent_id.map(|s| s.to_string()),
        prev_id: prev_id.map(|s| s.to_string()),
        old_parent_id: None,
        next_id: None,
    }
}

#[test]
fn test_basic_device_grouping() {
    let mut blocks: BlockMap = KeyedVec::new();
    blocks.set(
        "a1".to_string(),
        create_test_block("a1", "paragraph", "device_a", "1", None, Some("root")),
    );
    blocks.set(
        "b1".to_string(),
        create_test_block("b1", "paragraph", "device_b", "2", None, Some("root")),
    );
    blocks.set(
        "a2".to_string(),
        create_test_block("a2", "paragraph", "device_a", "3", None, Some("root")),
    );
    blocks.set(
        "b2".to_string(),
        create_test_block("b2", "paragraph", "device_b", "4", None, Some("root")),
    );

    let sorted = ChainSorting::sort_blocks_by_chain(&blocks);
    let sorted_root = sorted.get("root").unwrap();

    let a1_pos = sorted_root.iter().position(|id| id == "a1").unwrap();
    let a2_pos = sorted_root.iter().position(|id| id == "a2").unwrap();
    let b1_pos = sorted_root.iter().position(|id| id == "b1").unwrap();
    let b2_pos = sorted_root.iter().position(|id| id == "b2").unwrap();

    assert!(
        (a1_pos < a2_pos && b1_pos < b2_pos) || (a2_pos < a1_pos && b2_pos < b1_pos),
        "Blocks from same device should be grouped together"
    );

    assert!(
        (a1_pos < b1_pos && a2_pos < b1_pos) || (b1_pos < a1_pos && b2_pos < a1_pos),
        "Blocks should be grouped by device"
    );
}

#[test]
fn test_prev_id_chain() {
    let mut blocks: BlockMap = KeyedVec::new();
    blocks.set(
        "a1".to_string(),
        create_test_block("a1", "paragraph", "device_a", "1", None, Some("root")),
    );
    blocks.set(
        "a2".to_string(),
        create_test_block("a2", "paragraph", "device_a", "2", Some("a1"), Some("root")),
    );
    blocks.set(
        "a3".to_string(),
        create_test_block("a3", "paragraph", "device_a", "3", Some("a2"), Some("root")),
    );

    let sorted = ChainSorting::sort_blocks_by_chain(&blocks);
    let sorted_root = sorted.get("root").unwrap();
    assert_eq!(sorted_root, &["a1", "a2", "a3"]);
}

#[test]
fn test_multiple_devices_with_chains() {
    let mut blocks: BlockMap = KeyedVec::new();
    blocks.set(
        "a1".to_string(),
        create_test_block("a1", "paragraph", "device_a", "1", None, Some("root")),
    );
    blocks.set(
        "a2".to_string(),
        create_test_block("a2", "paragraph", "device_a", "2", Some("a1"), Some("root")),
    );
    blocks.set(
        "a3".to_string(),
        create_test_block("a3", "paragraph", "device_a", "3", Some("a2"), Some("root")),
    );
    blocks.set(
        "b1".to_string(),
        create_test_block("b1", "paragraph", "device_b", "1", None, Some("root")),
    );
    blocks.set(
        "b2".to_string(),
        create_test_block("b2", "paragraph", "device_b", "2", Some("b1"), Some("root")),
    );

    let sorted = ChainSorting::sort_blocks_by_chain(&blocks);
    let sorted_root = sorted.get("root").unwrap();

    let a1_pos = sorted_root.iter().position(|id| id == "a1").unwrap();
    let a2_pos = sorted_root.iter().position(|id| id == "a2").unwrap();
    let a3_pos = sorted_root.iter().position(|id| id == "a3").unwrap();
    let b1_pos = sorted_root.iter().position(|id| id == "b1").unwrap();
    let b2_pos = sorted_root.iter().position(|id| id == "b2").unwrap();

    assert!(a1_pos < a2_pos && a2_pos < a3_pos, "Device A blocks should follow chain order");
    assert!(b1_pos < b2_pos, "Device B blocks should follow chain order");
    assert!(
        (a1_pos < b1_pos && a3_pos < b1_pos) || (b1_pos < a1_pos && b2_pos < a1_pos),
        "Blocks should be grouped by device"
    );
}

#[test]
fn test_no_lost_blocks() {
    let mut blocks: BlockMap = KeyedVec::new();
    blocks.set(
        "a1".to_string(),
        create_test_block("a1", "paragraph", "device_a", "1", None, Some("root")),
    );
    blocks.set(
        "a2".to_string(),
        create_test_block("a2", "paragraph", "device_a", "2", Some("a1"), Some("root")),
    );

    let mut orphan_block = create_test_block("orphan", "paragraph", "", "3", None, Some("root"));
    orphan_block.attributes.remove("device");
    blocks.set("orphan".to_string(), orphan_block);

    let sorted = ChainSorting::sort_blocks_by_chain(&blocks);
    let sorted_root = sorted.get("root").unwrap();

    assert_eq!(sorted_root.len(), 3, "No blocks should be lost during sorting");
    assert!(sorted_root.contains(&"a1".to_string()), "a1 should be present");
    assert!(sorted_root.contains(&"a2".to_string()), "a2 should be present");
    assert!(sorted_root.contains(&"orphan".to_string()), "orphan should be present");
}

#[test]
fn test_multiple_blocks_same_prev_id() {
    let mut blocks: BlockMap = KeyedVec::new();
    blocks.set(
        "a1".to_string(),
        create_test_block("a1", "paragraph", "device_a", "1", None, Some("root")),
    );
    blocks.set(
        "b1".to_string(),
        create_test_block("b1", "paragraph", "device_b", "2", Some("a1"), Some("root")),
    );
    blocks.set(
        "c1".to_string(),
        create_test_block("c1", "paragraph", "device_c", "3", Some("a1"), Some("root")),
    );

    let sorted = ChainSorting::sort_blocks_by_chain(&blocks);
    let sorted_root = sorted.get("root").unwrap();

    assert_eq!(sorted_root.len(), 3, "All blocks should be present");

    let a1_pos = sorted_root.iter().position(|id| id == "a1").unwrap();
    let b1_pos = sorted_root.iter().position(|id| id == "b1").unwrap();
    let c1_pos = sorted_root.iter().position(|id| id == "c1").unwrap();

    assert!(a1_pos < b1_pos, "a1 should come before b1");
    assert!(a1_pos < c1_pos, "a1 should come before c1");
}

#[test]
fn test_improved_block_sorting() {
    let mut blocks: BlockMap = KeyedVec::new();
    blocks.set(
        "a1".to_string(),
        create_test_block("a1", "paragraph", "device_a", "1", None, Some("root")),
    );
    blocks.set(
        "b1".to_string(),
        create_test_block("b1", "paragraph", "device_b", "2", Some("a1"), Some("root")),
    );
    blocks.set(
        "c1".to_string(),
        create_test_block("c1", "paragraph", "device_c", "3", Some("a1"), Some("root")),
    );
    blocks.set(
        "b2".to_string(),
        create_test_block("b2", "paragraph", "device_b", "4", Some("b1"), Some("root")),
    );

    let sorted = ChainSorting::sort_blocks_by_chain(&blocks);
    let sorted_root = sorted.get("root").unwrap();

    assert_eq!(sorted_root.len(), 4, "All blocks should be present");
    assert_eq!(sorted_root[0], "a1", "a1 should be first as it has no prev_id");

    let b1_pos = sorted_root.iter().position(|id| id == "b1").unwrap();
    let b2_pos = sorted_root.iter().position(|id| id == "b2").unwrap();
    assert!(b1_pos < b2_pos, "b2 should follow b1 in the chain");
}

#[test]
fn test_complex_document_structure() {
    let mut blocks: BlockMap = KeyedVec::new();

    blocks.set(
        "a1".to_string(),
        create_test_block("a1", "paragraph", "device_a", "10", None, Some("root")),
    );
    blocks.set(
        "a2".to_string(),
        create_test_block("a2", "paragraph", "device_a", "20", Some("a1"), Some("root")),
    );
    blocks.set(
        "a3".to_string(),
        create_test_block("a3", "paragraph", "device_a", "30", Some("a2"), Some("root")),
    );
    blocks.set(
        "a4".to_string(),
        create_test_block("a4", "paragraph", "device_a", "25", Some("a2"), Some("root")),
    );
    blocks.set(
        "a5".to_string(),
        create_test_block("a5", "paragraph", "device_a", "35", Some("a4"), Some("root")),
    );

    blocks.set(
        "b1".to_string(),
        create_test_block("b1", "paragraph", "device_b", "15", None, Some("root")),
    );
    blocks.set(
        "b2".to_string(),
        create_test_block("b2", "paragraph", "device_b", "25", Some("b1"), Some("root")),
    );
    blocks.set(
        "b3".to_string(),
        create_test_block("b3", "paragraph", "device_b", "35", Some("b1"), Some("root")),
    );
    blocks.set(
        "b4".to_string(),
        create_test_block("b4", "paragraph", "device_b", "45", Some("a3"), Some("root")),
    );
    blocks.set(
        "b5".to_string(),
        create_test_block("b5", "paragraph", "device_b", "55", Some("b3"), Some("root")),
    );

    blocks.set(
        "c1".to_string(),
        create_test_block("c1", "paragraph", "device_c", "22", None, Some("root")),
    );
    blocks.set(
        "c2".to_string(),
        create_test_block("c2", "paragraph", "device_c", "32", Some("b2"), Some("root")),
    );
    blocks.set(
        "c3".to_string(),
        create_test_block("c3", "paragraph", "device_c", "42", Some("a4"), Some("root")),
    );

    blocks.set(
        "d1".to_string(),
        create_test_block("d1", "paragraph", "device_d", "25", None, Some("root")),
    );
    blocks.set(
        "d2".to_string(),
        create_test_block("d2", "paragraph", "device_d", "25", Some("d1"), Some("root")),
    );

    blocks.set(
        "e1".to_string(),
        create_test_block("e1", "paragraph", "device_e", "40", Some("a3"), Some("root")),
    );
    blocks.set(
        "e2".to_string(),
        create_test_block("e2", "paragraph", "device_e", "42", Some("a3"), Some("root")),
    );

    blocks.set(
        "f1".to_string(),
        create_test_block("f1", "paragraph", "device_f", "60", Some("f2"), Some("root")),
    );
    blocks.set(
        "f2".to_string(),
        create_test_block("f2", "paragraph", "device_f", "70", Some("f1"), Some("root")),
    );

    blocks.set(
        "g1".to_string(),
        create_test_block("g1", "paragraph", "device_g", "80", Some("doesnt_exist"), Some("root")),
    );

    blocks.set(
        "parent".to_string(),
        create_test_block("parent", "container", "device_a", "5", None, Some("root")),
    );
    blocks.set(
        "child1".to_string(),
        create_test_block("child1", "paragraph", "device_a", "6", None, Some("parent")),
    );
    blocks.set(
        "child2".to_string(),
        create_test_block("child2", "paragraph", "device_b", "7", Some("child1"), Some("parent")),
    );
    blocks.set(
        "child3".to_string(),
        create_test_block("child3", "paragraph", "device_c", "8", Some("child1"), Some("parent")),
    );

    let sorted = ChainSorting::sort_blocks_by_chain(&blocks);
    let sorted_root = sorted.get("root").unwrap();

    assert_eq!(sorted_root.len(), 21, "All blocks should be present in the result");

    let a1_pos = sorted_root.iter().position(|id| id == "a1").unwrap();
    let a2_pos = sorted_root.iter().position(|id| id == "a2").unwrap();
    let a3_pos = sorted_root.iter().position(|id| id == "a3").unwrap();
    let b4_pos = sorted_root.iter().position(|id| id == "b4").unwrap();
    let e1_pos = sorted_root.iter().position(|id| id == "e1").unwrap();
    let e2_pos = sorted_root.iter().position(|id| id == "e2").unwrap();

    assert!(a1_pos < a2_pos && a2_pos < a3_pos, "Device A main chain should be preserved");
    assert!(a3_pos < b4_pos, "b4 should follow a3 as it points to it");
    assert!(
        a3_pos < b4_pos && a3_pos < e1_pos && a3_pos < e2_pos,
        "All blocks pointing to a3 should follow a3"
    );

    let a4_pos = sorted_root.iter().position(|id| id == "a4").unwrap();
    let a5_pos = sorted_root.iter().position(|id| id == "a5").unwrap();
    assert!(a2_pos < a4_pos && a4_pos < a5_pos, "Branch from a2->a4->a5 should be preserved");

    let sorted_parent = sorted.get("parent").unwrap();
    assert_eq!(sorted_parent.len(), 3, "Parent should have 3 children");

    let child1_pos = sorted_parent.iter().position(|id| id == "child1").unwrap();
    let child2_pos = sorted_parent.iter().position(|id| id == "child2").unwrap();
    let child3_pos = sorted_parent.iter().position(|id| id == "child3").unwrap();

    assert_eq!(child1_pos, 0, "child1 should be first as it has no prev_id");
    assert!(
        child1_pos < child2_pos && child1_pos < child3_pos,
        "child2 and child3 should follow child1 as they both point to it"
    );

    let f1_pos = sorted_root.iter().position(|id| id == "f1").unwrap();
    let f2_pos = sorted_root.iter().position(|id| id == "f2").unwrap();
    assert!(f1_pos != f2_pos, "f1 and f2 should be included in the result despite the cycle");

    assert!(
        sorted_root.contains(&"g1".to_string()),
        "Block with non-existent prev_id should still be included"
    );
}

#[test]
fn test_external_prev_id_becomes_root() {
    let mut blocks: BlockMap = KeyedVec::new();
    blocks.set(
        "a1".to_string(),
        create_test_block("a1", "para", "device_a", "1", None, Some("root")),
    );
    blocks.set(
        "b1".to_string(),
        create_test_block("b1", "para", "device_b", "2", Some("a2"), Some("root")),
    );

    let sorted = ChainSorting::sort_blocks_by_chain(&blocks);
    let sorted_root = sorted.get("root").unwrap();

    assert_eq!(sorted_root, &["a1", "b1"]);
}

#[test]
fn test_valid_prev_id_across_devices() {
    let mut blocks: BlockMap = KeyedVec::new();
    blocks.set(
        "a1".to_string(),
        create_test_block("a1", "para", "device_a", "1", None, Some("root")),
    );
    blocks.set(
        "b1".to_string(),
        create_test_block("b1", "para", "device_b", "2", Some("a1"), Some("root")),
    );

    let sorted = ChainSorting::sort_blocks_by_chain(&blocks);
    let sorted_root = sorted.get("root").unwrap();

    assert_eq!(sorted_root, &["a1", "b1"]);
}

#[test]
fn test_mixed_valid_and_invalid_prev_id() {
    let mut blocks: BlockMap = KeyedVec::new();
    blocks.set(
        "a1".to_string(),
        create_test_block("a1", "para", "device_a", "1", None, Some("root")),
    );
    blocks.set(
        "a2".to_string(),
        create_test_block("a2", "para", "device_a", "2", Some("a1"), Some("root")),
    );
    blocks.set(
        "a3".to_string(),
        create_test_block("a3", "para", "device_a", "3", Some("invalid"), Some("root")),
    );

    let sorted = ChainSorting::sort_blocks_by_chain(&blocks);
    let sorted_root = sorted.get("root").unwrap();

    assert_eq!(sorted_root, &["a1", "a2", "a3"]);
}

#[test]
fn test_multiple_roots_in_device() {
    let mut blocks: BlockMap = KeyedVec::new();
    blocks.set(
        "a1".to_string(),
        create_test_block("a1", "para", "device_a", "1", None, Some("root")),
    );
    blocks.set(
        "a2".to_string(),
        create_test_block("a2", "para", "device_a", "2", None, Some("root")),
    );
    blocks.set(
        "a3".to_string(),
        create_test_block("a3", "para", "device_a", "3", Some("a1"), Some("root")),
    );

    let sorted = ChainSorting::sort_blocks_by_chain(&blocks);
    let sorted_root = sorted.get("root").unwrap();

    assert_eq!(sorted_root, &["a1", "a3", "a2"]);
}

#[test]
fn test_deep_chain_with_device_groups() {
    let mut blocks: BlockMap = KeyedVec::new();
    blocks.set(
        "a1".to_string(),
        create_test_block("a1", "para", "device_a", "1", None, Some("root")),
    );
    blocks.set(
        "a2".to_string(),
        create_test_block("a2", "para", "device_a", "2", Some("a1"), Some("root")),
    );
    blocks.set(
        "b1".to_string(),
        create_test_block("b1", "para", "device_b", "3", Some("a2"), Some("root")),
    );
    blocks.set(
        "b2".to_string(),
        create_test_block("b2", "para", "device_b", "4", Some("b1"), Some("root")),
    );
    blocks.set(
        "c1".to_string(),
        create_test_block("c1", "para", "device_c", "5", None, Some("root")),
    );

    let sorted = ChainSorting::sort_blocks_by_chain(&blocks);
    let sorted_root = sorted.get("root").unwrap();

    assert!(sorted_root[0] == "a1" && sorted_root[1] == "a2");
    assert!(sorted_root[2] == "b1" && sorted_root[3] == "b2");
    assert_eq!(sorted_root[4], "c1");
}

#[test]
fn test_moved_block_with_new_parent() {
    let mut blocks: BlockMap = KeyedVec::new();
    blocks.set(
        "p1a".to_string(),
        create_test_block("p1a", "para", "device_a", "1", None, Some("parent1")),
    );
    blocks.set(
        "p1b".to_string(),
        create_test_block("p1b", "para", "device_a", "2", Some("p1a"), Some("parent1")),
    );
    blocks.set(
        "p2a".to_string(),
        create_test_block("p2a", "para", "device_b", "3", Some("p1b"), Some("parent2")),
    );

    let sorted = ChainSorting::sort_blocks_by_chain(&blocks);

    assert_eq!(sorted.get("parent2").unwrap(), &vec!["p2a".to_string()]);
}
