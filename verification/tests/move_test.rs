use blockdoc::keyed::KeyedVec;
use blockdoc::sorting::ChainSorting;
use blockdoc::types::AttrMap;
use blockdoc::types::BlockDoc;
use blockdoc::types::BlockMap;

// Note on the expected orders: sibling order groups blocks by the full
// device identifier and emits the groups in ascending lexicographic
// order; a hint whose target sits in another device group is treated as
// absent for chain walking. After the move below, the moved block's
// device string differs from every other block's, so it forms a group
// of its own, which sorts before the two abbreviated identifiers.

#[test]
fn test_complex_move_operations() {
    let mut blocks: BlockMap = KeyedVec::new();

    let mut parent_attrs: AttrMap = KeyedVec::new();
    parent_attrs.set(
        "device".to_string(),
        "7b2d08f0-59a4-4f51-b88b-1673d27a6d37".to_string(),
    );
    parent_attrs.set("timestamp".to_string(), "2025-03-25T20:18:15.200909".to_string());
    blocks.set(
        "j62VDi".to_string(),
        BlockDoc {
            id: "j62VDi".to_string(),
            ty: "page".to_string(),
            attributes: parent_attrs,
            delta: None,
            parent_id: None,
            prev_id: None,
            old_parent_id: None,
            next_id: None,
        },
    );

    let child_data = vec![
        ("I4098s", "7b2d08f0...", "2025-03-25T20:18:48.985091", None),
        ("UX_nxA", "d5612d23...", "2025-03-25T20:19:13.255235", None),
        ("1WVpT8", "7b2d08f0...", "2025-03-25T20:19:12.230850", Some("I4098s")),
        ("SXTmU4", "d5612d23...", "2025-03-25T20:22:48.866588", Some("UX_nxA")),
        ("jBMJf8", "7b2d08f0...", "2025-03-25T20:19:13.255235", Some("1WVpT8")),
        ("FcPUds", "d5612d23...", "2025-03-25T20:23:05.595778", Some("SXTmU4")),
        ("n9Bx2_", "7b2d08f0...", "2025-03-25T20:19:14.000000", Some("jBMJf8")),
        ("Zq4qVr", "d5612d23...", "2025-03-25T20:23:20.833103", Some("FcPUds")),
    ];

    for (id, device, timestamp, prev_id) in child_data {
        let mut attributes: AttrMap = KeyedVec::new();
        attributes.set("device".to_string(), device.to_string());
        attributes.set("timestamp".to_string(), timestamp.to_string());
        attributes.set("level".to_string(), "1".to_string());
        blocks.set(
            id.to_string(),
            BlockDoc {
                id: id.to_string(),
                ty: "paragraph".to_string(),
                attributes,
                delta: Some(format!("[{{\"insert\":\"{}\"}}]", id)),
                parent_id: Some("j62VDi".to_string()),
                prev_id: prev_id.map(|s| s.to_string()),
                old_parent_id: None,
                next_id: None,
            },
        );
    }

    let sorted = ChainSorting::sort_blocks_by_chain(&blocks);
    let parent_children = sorted.get("j62VDi").unwrap();

    let expected_order = vec![
        // Device 7b2d08f0... blocks in chain order
        "I4098s", "1WVpT8", "jBMJf8", "n9Bx2_",
        // Device d5612d23... blocks in chain order
        "UX_nxA", "SXTmU4", "FcPUds", "Zq4qVr",
    ];
    assert_eq!(
        parent_children, &expected_order,
        "Blocks not grouped by device and sorted by timestamp"
    );

    // Move SXTmU4 onto the first device's full identifier, behind its
    // last block.
    let mut moved = blocks.get("SXTmU4").unwrap().dup();
    moved.attributes.set(
        "device".to_string(),
        "7b2d08f0-59a4-4f51-b88b-1673d27a6d37".to_string(),
    );
    moved.prev_id = Some("n9Bx2_".to_string());
    blocks.set("SXTmU4".to_string(), moved);

    let sorted_after_move = ChainSorting::sort_blocks_by_chain(&blocks);
    let moved_children = sorted_after_move.get("j62VDi").unwrap();

    // The moved block's device group (the full identifier) sorts ahead
    // of both abbreviated identifiers, and its hint now points outside
    // its own group, so it opens the list; FcPUds becomes a group root
    // in its old device group, ordered behind UX_nxA by timestamp.
    let expected_after_move = vec![
        "SXTmU4", "I4098s", "1WVpT8", "jBMJf8", "n9Bx2_", "UX_nxA", "FcPUds", "Zq4qVr",
    ];
    assert_eq!(
        moved_children, &expected_after_move,
        "Moved block not inserted correctly in device group"
    );

    assert_eq!(
        blocks.get("SXTmU4").unwrap().prev_id.as_deref(),
        Some("n9Bx2_"),
        "prev_id not updated correctly"
    );
}
