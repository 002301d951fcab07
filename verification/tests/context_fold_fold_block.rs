use orchestration::context_fold::{has_fold_markers, parse_fold_blocks, render_selected, FoldBlock};

const DOC: &str =
    "[===vcp_fold:0.0===]\n基础信息 A\n[===vcp_fold: 0.35 ::desc: 中级===]\n进阶内容 B\n[===vcp_fold:0.7===]\n深度内容 C";

// The threshold a block reveals at; the preamble block has none and is always shown.
fn threshold(b: &FoldBlock) -> f32 {
    b.threshold.as_deref().map(|t| t.parse::<f32>().unwrap()).unwrap_or(0.0)
}

fn shown_at(blocks: &[FoldBlock], similarity: f32) -> Vec<bool> {
    let sim = if similarity.is_finite() { similarity } else { 0.0 };
    blocks.iter().map(|b| threshold(b) <= sim).collect()
}

#[test]
fn parse_three_blocks_with_desc() {
    let blocks = parse_fold_blocks(DOC);
    assert_eq!(blocks.len(), 3);
    assert_eq!(threshold(&blocks[0]), 0.0);
    assert_eq!(blocks[0].content, "基础信息 A");
    assert_eq!(threshold(&blocks[1]), 0.35);
    assert_eq!(blocks[1].description, "中级");
    assert_eq!(threshold(&blocks[2]), 0.7);
    assert!(blocks[2].description.is_empty());
}

#[test]
fn preamble_before_first_marker_is_zero_block() {
    let blocks = parse_fold_blocks("前言内容\n[===vcp_fold:0.5===]\n正文");
    assert_eq!(blocks.len(), 2);
    assert_eq!(threshold(&blocks[0]), 0.0);
    assert_eq!(blocks[0].threshold, None);
    assert_eq!(blocks[0].content, "前言内容");
    assert_eq!(blocks[1].content, "正文");
}

#[test]
fn no_markers_single_block() {
    let blocks = parse_fold_blocks("纯文本文档");
    assert_eq!(blocks.len(), 1);
    assert_eq!(threshold(&blocks[0]), 0.0);
    assert_eq!(blocks[0].content, "纯文本文档");
    assert!(!has_fold_markers("纯文本文档"));
    assert!(has_fold_markers(DOC));
}

#[test]
fn invalid_threshold_line_is_content() {
    let blocks = parse_fold_blocks("[===vcp_fold:abc===]\n内容");
    assert_eq!(blocks.len(), 1);
    assert!(blocks[0].content.contains("[===vcp_fold:abc===]"));
}

#[test]
fn empty_content_yields_empty_blocks() {
    assert!(parse_fold_blocks("").is_empty());
    assert!(!has_fold_markers(""));
}

#[test]
fn threshold_texts_read_as_the_standard_parser_reads_them() {
    for ok in ["1", "-1.5", "+.5", "1.", "1e3", "2.5E-3", "inf", "-Infinity", "NaN"] {
        let doc = format!("[==={}{ok}===]\nbody", "vcp_fold:");
        assert!(has_fold_markers(&doc), "{ok} should read as a threshold");
        assert!(ok.parse::<f32>().is_ok());
    }
    for bad in ["", ".", "e5", "1e", "1.2.3", "0x10", "1_0", "infinit"] {
        let doc = format!("[===vcp_fold:{bad}===]\nbody");
        assert!(!has_fold_markers(&doc), "{bad} should not read as a threshold");
        assert!(bad.parse::<f32>().is_err());
    }
}

#[test]
fn render_expands_by_threshold() {
    let blocks = parse_fold_blocks(DOC);
    let r = render_selected(&blocks, &shown_at(&blocks, 0.5));
    assert_eq!(r.expanded, 2);
    assert_eq!(r.hidden, 1);
    assert!(r.rendered.contains("基础信息 A"));
    assert!(r.rendered.contains("进阶内容 B"));
    assert!(!r.rendered.contains("深度内容 C"));
    assert!(r.rendered.contains("还收纳了 1 组"));
    assert_eq!(r.rendered, "基础信息 A\n\n进阶内容 B\n\n[已折叠] 还收纳了 1 组内容 (相似度未达阈值)");
}

#[test]
fn threshold_boundary_equal_expands() {
    let blocks = parse_fold_blocks(DOC);
    let r = render_selected(&blocks, &shown_at(&blocks, 0.7));
    assert_eq!(r.expanded, 3);
    assert_eq!(r.hidden, 0);
    assert!(r.stash_hint.is_empty());
    assert!(r.rendered.contains("深度内容 C"));
}

#[test]
fn low_similarity_hides_all_but_zero() {
    let blocks = parse_fold_blocks(DOC);
    let r = render_selected(&blocks, &shown_at(&blocks, 0.0));
    assert_eq!(r.expanded, 1);
    assert_eq!(r.hidden, 2);
    assert!(r.rendered.contains("还收纳了 2 组"));
}

#[test]
fn empty_blocks_render_empty() {
    let r = render_selected(&[], &[]);
    assert_eq!(r.rendered, "");
    assert_eq!(r.expanded, 0);
    assert_eq!(r.hidden, 0);
    assert!(r.stash_hint.is_empty());
}

#[test]
fn all_hidden_renders_the_hint_alone() {
    let blocks = parse_fold_blocks(DOC);
    let r = render_selected(&blocks, &[false, false, false]);
    assert_eq!(r.rendered, "[已折叠] 还收纳了 3 组内容 (相似度未达阈值)");
    assert_eq!(r.stash_hint, r.rendered);
}
