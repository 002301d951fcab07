use orchestration::context_rot::Segment;
use orchestration::continuation::{sanitize_snapshot_id, EditAction, FileContinuationStore, SegmentEditError, SegmentEditor};

#[test]
fn segment_editor_edits_non_core_and_preserves_order() {
    let seg1 = Segment::new("b1", "普通历史消息", 1);
    let seg2 = Segment::new("b2", "核心人设设定", 1).with_core(true);
    let seg3 = Segment::new("b3", "需替换的旧消息", 1);
    let segments = vec![seg1, seg2, seg3];
    let actions = vec![
        EditAction::Remove { block_id: "b1".into() },
        EditAction::Retain { block_id: "b2".into() },
        EditAction::Replace { block_id: "b3".into(), new_content: "已压缩的精炼消息".into() },
    ];
    let edited = SegmentEditor::apply(&segments, &actions).unwrap();
    assert_eq!(edited.len(), 2);
    assert_eq!(edited[0].name, "b2");
    assert_eq!(edited[0].content, "核心人设设定");
    assert_eq!(edited[1].name, "b3");
    assert_eq!(edited[1].content, "已压缩的精炼消息");
}

#[test]
fn core_segment_remove_is_denied() {
    let segments = vec![Segment::new("b1", "普通历史消息", 1), Segment::new("b2", "核心人设设定", 1).with_core(true)];
    let actions = vec![EditAction::Remove { block_id: "b2".into() }];
    let err = SegmentEditor::apply(&segments, &actions).unwrap_err();
    assert_eq!(err, SegmentEditError::CoreSegmentRemoveDenied { block_id: "b2".into() });
}

#[test]
fn core_segment_replace_is_denied() {
    let segments = vec![Segment::new("b2", "核心人设设定", 1).with_core(true)];
    let actions = vec![EditAction::Replace { block_id: "b2".into(), new_content: "偷换后的人设".into() }];
    let err = SegmentEditor::apply(&segments, &actions).unwrap_err();
    assert_eq!(err, SegmentEditError::CoreSegmentReplaceDenied { block_id: "b2".into() });
}

#[test]
fn core_segment_replace_empty_is_denied() {
    let segments = vec![Segment::new("b2", "核心人设设定", 1).with_core(true)];
    let actions = vec![EditAction::Replace { block_id: "b2".into(), new_content: String::new() }];
    let err = SegmentEditor::apply(&segments, &actions).unwrap_err();
    assert!(matches!(err, SegmentEditError::CoreSegmentReplaceDenied { .. }));
}

#[test]
fn failed_edit_preserves_original_segments() {
    let segments = vec![
        Segment::new("b1", "普通历史消息", 1),
        Segment::new("b2", "核心人设设定", 1).with_core(true),
        Segment::new("b3", "需替换的旧消息", 1),
    ];
    let snapshot = segments.clone();
    let actions = vec![
        EditAction::Replace { block_id: "b3".into(), new_content: "已压缩".into() },
        EditAction::Replace { block_id: "b2".into(), new_content: "偷换".into() },
    ];
    assert!(SegmentEditor::apply(&segments, &actions).is_err());
    assert_eq!(segments, snapshot);
    let remove_actions = vec![EditAction::Remove { block_id: "b2".into() }];
    assert!(SegmentEditor::apply(&segments, &remove_actions).is_err());
    assert_eq!(segments, snapshot);
}

#[test]
fn the_last_action_for_a_segment_wins() {
    let segments = vec![Segment::new("a", "x", 0), Segment::new("b", "y", 0)];
    let actions = vec![
        EditAction::Remove { block_id: "a".into() },
        EditAction::Replace { block_id: "a".into(), new_content: "z".into() },
        EditAction::Remove { block_id: "zz".into() },
    ];
    let edited = SegmentEditor::apply(&segments, &actions).unwrap();
    assert_eq!(edited.len(), 2);
    assert_eq!(edited[0].content, "z");
    assert_eq!(edited[1].content, "y");
}

#[test]
fn error_messages_name_the_block() {
    let err = SegmentEditError::CoreSegmentRemoveDenied { block_id: "b2".into() };
    assert_eq!(err.message(), "O-1 拒绝: 核心保护段 'b2' 不可被 Remove");
    let err = SegmentEditError::CoreSegmentReplaceDenied { block_id: "b2".into() };
    assert_eq!(err.message(), "O-1 拒绝: 核心保护段 'b2' 不可被 Replace (含替换为空)");
}

#[test]
fn malicious_snapshot_ids_cannot_escape_the_store_root() {
    assert_eq!(sanitize_snapshot_id("../../../etc/evil"), "etcevil");
    assert_eq!(sanitize_snapshot_id("..\\..\\..\\windows\\evil"), "windowsevil");
    assert_eq!(sanitize_snapshot_id("/absolute/escape"), "absoluteescape");
    assert_eq!(sanitize_snapshot_id("C:\\evil"), "Cevil");
    assert_eq!(sanitize_snapshot_id(".."), "snapshot");
    assert_eq!(sanitize_snapshot_id(""), "snapshot");
    assert_eq!(sanitize_snapshot_id(&"a".repeat(200)).len(), 120);
    let store = FileContinuationStore::new("/data/snaps");
    assert_eq!(store.path_for("../../x"), "/data/snaps/x.json");
    assert_eq!(FileContinuationStore::new("/d/").path_for("snap-1_a"), "/d/snap-1_a.json");
}
