use blockdoc::delta::DeltaOp;
use blockdoc::delta::DeltaOperations;
use blockdoc::delta::RawOp;
use blockdoc::delta::TextPrim;
use blockdoc::delta::utf16_units;

fn raw_insert(s: &str) -> RawOp {
    RawOp {
        has_insert: true,
        insert: Some(s.to_string()),
        has_retain: false,
        retain: None,
        has_delete: false,
        delete: None,
        attrs: None,
    }
}

fn raw_retain(n: u64) -> RawOp {
    RawOp {
        has_insert: false,
        insert: None,
        has_retain: true,
        retain: Some(n),
        has_delete: false,
        delete: None,
        attrs: None,
    }
}

fn raw_delete(n: u64) -> RawOp {
    RawOp {
        has_insert: false,
        insert: None,
        has_retain: false,
        retain: None,
        has_delete: true,
        delete: Some(n),
        attrs: None,
    }
}

#[test]
fn test_parse_delta_operation_insert() {
    let mut current_len = 0;
    let mut cursor_pos = 0;

    let operation = raw_insert("hello");

    let result = DeltaOperations::parse_delta_operation(&operation, &mut cursor_pos, &mut current_len);

    assert!(result.is_ok());
    if let Ok(DeltaOp::Inserted(text, _)) = result {
        assert_eq!(text, "hello");
        assert_eq!(current_len, 5);
        assert_eq!(cursor_pos, 5);
    } else {
        panic!("Expected Inserted delta");
    }
}

#[test]
fn test_parse_delta_operation_retain() {
    let mut current_len = 10;
    let mut cursor_pos = 2;

    let operation = raw_retain(3);

    let result = DeltaOperations::parse_delta_operation(&operation, &mut cursor_pos, &mut current_len);

    assert!(result.is_ok());
    if let Ok(DeltaOp::Retain(length, _)) = result {
        assert_eq!(length, 3);
        assert_eq!(current_len, 10); // Unchanged
        assert_eq!(cursor_pos, 5); // Advanced by 3
    } else {
        panic!("Expected Retain delta");
    }
}

#[test]
fn test_parse_delta_operation_delete() {
    let mut current_len = 10;
    let mut cursor_pos = 5;

    let operation = raw_delete(3);

    let result = DeltaOperations::parse_delta_operation(&operation, &mut cursor_pos, &mut current_len);

    assert!(result.is_ok());
    if let Ok(DeltaOp::Deleted(length)) = result {
        assert_eq!(length, 3);
        assert_eq!(current_len, 7); // Reduced by 3
        assert_eq!(cursor_pos, 2); // Reduced by 3
    } else {
        panic!("Expected Deleted delta");
    }
}

#[test]
fn test_retain_exceeds_length() {
    let mut current_len = 5;
    let mut cursor_pos = 3;

    let operation = raw_retain(10); // Too large

    let result = DeltaOperations::parse_delta_operation(&operation, &mut cursor_pos, &mut current_len);

    assert!(result.is_err());
}

#[test]
fn test_apply_ops_exact_text() {
    // "hello" then retain 2, delete 2, insert: h e [ll cut] "y" o
    let text = utf16_units("hello");
    let ops = vec![raw_retain(2), raw_delete(2), raw_insert("y")];
    let (t2, prims) = DeltaOperations::apply_delta_diff_to_text(&text, &ops).unwrap();
    assert_eq!(t2, utf16_units("heyo"));
    assert_eq!(prims.len(), 2);
    match &prims[0] {
        TextPrim::RemoveRange { pos, len } => {
            assert_eq!(*pos, 2);
            assert_eq!(*len, 2);
        },
        _ => panic!("expected a removal first"),
    }
    match &prims[1] {
        TextPrim::InsertAt { pos, chunk, attrs } => {
            assert_eq!(*pos, 2);
            assert_eq!(chunk, "y");
            assert!(attrs.is_none());
        },
        _ => panic!("expected an insertion second"),
    }
}

#[test]
fn test_apply_ops_rejects_whole_batch() {
    // the first operation is fine, the second overflows: nothing applies
    let text = utf16_units("hello");
    let ops = vec![raw_insert("x"), raw_retain(100)];
    let r = DeltaOperations::apply_delta_diff_to_text(&text, &ops);
    assert!(r.is_err());
    if let Err(e) = r {
        assert_eq!(e.message().as_str(), "Retain exceeds text length");
    }
}

#[test]
fn test_apply_ops_malformed_operation() {
    let text = utf16_units("hello");
    let empty_op = RawOp {
        has_insert: false,
        insert: None,
        has_retain: false,
        retain: None,
        has_delete: false,
        delete: None,
        attrs: None,
    };
    let r = DeltaOperations::apply_delta_diff_to_text(&text, &vec![empty_op]);
    assert!(r.is_err());
    if let Err(e) = r {
        assert_eq!(e.message().as_str(), "Invalid delta operation");
    }
}

#[test]
fn test_utf16_counts_non_ascii() {
    // one astral-plane character takes two UTF-16 units
    let units = utf16_units("a\u{1F600}b");
    assert_eq!(units.len(), 4);
    let mut current_len = 0;
    let mut cursor_pos = 0;
    let op = raw_insert("a\u{1F600}b");
    let r = DeltaOperations::parse_delta_operation(&op, &mut cursor_pos, &mut current_len);
    assert!(r.is_ok());
    assert_eq!(current_len, 4);
    assert_eq!(cursor_pos, 4);
}
