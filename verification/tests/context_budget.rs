use orchestration::context_budget::{
    omission_marker, retrieval_guide, spill_file_name, split_head_tail, truncate_with_spill, CatalogEntry,
    ContextAssembler, ContextBlock, ProgressiveCatalog, SpillWriter,
};

#[test]
fn core_blocks_never_truncated() {
    let a = ContextAssembler::new(300)
        .push(ContextBlock::new("persona", &"核心人格内容".repeat(30)).with_core(true))
        .push(ContextBlock::new("mem", &"记忆内容".repeat(50)))
        .push(ContextBlock::new("prefs", &"偏好内容".repeat(20)));
    let out = a.assemble_budgeted();
    let total: usize = out.iter().map(|s| s.chars().count()).sum();
    assert!(total <= 300, "total must respect the budget, got {total}");
    assert!(out[0].contains("核心人格内容"));
    assert!(out[1].chars().count() < "记忆内容".repeat(50).chars().count());
    assert_eq!(out[1].chars().count(), 40);
}

#[test]
fn per_block_cap() {
    let a = ContextAssembler::new(100_000).push(ContextBlock::new("x", &"abc".repeat(10)).with_cap(12));
    let out = a.assemble_budgeted();
    assert_eq!(out[0], "abcabcabcabc");
}

#[test]
fn empty_blocks_filtered() {
    let a = ContextAssembler::new(1000)
        .push(ContextBlock::new("a", "hello"))
        .push(ContextBlock::new("b", "   "));
    let out = a.assemble_budgeted();
    assert_eq!(out.len(), 1);
    assert_eq!(out[0], "hello");
}

#[test]
fn budget_floor_is_one_hundred() {
    let a = ContextAssembler::new(10);
    assert_eq!(a.total_budget_chars(), 100);
}

#[test]
fn greedy_cut_skips_core_even_if_largest() {
    let a = ContextAssembler::new(120)
        .push(ContextBlock::new("core", &"C".repeat(80)).with_core(true))
        .push(ContextBlock::new("small", &"s".repeat(30)))
        .push(ContextBlock::new("big", &"b".repeat(50)));
    let blocks = a.assemble_budgeted_blocks();
    let core = blocks.iter().find(|b| b.name == "core").unwrap();
    assert_eq!(core.content.chars().count(), 80);
    let total: usize = blocks.iter().map(|b| b.content.chars().count()).sum();
    assert!(total <= 120);
}

fn sample_entries() -> Vec<CatalogEntry> {
    vec![
        CatalogEntry::new("主人的工作", "投资套件开发进展", 42),
        CatalogEntry::new("熬夜规律", "深夜活跃 + 次日效率低", 7),
        CatalogEntry::new("绿萝", "前女友留下的盆栽, 喜阳", 3),
        CatalogEntry::new("代码审计", "双洋葱安全机制记录", 15),
    ]
}

#[test]
fn block_generates_catalog_lines() {
    let cat = ProgressiveCatalog::new(sample_entries());
    let block = cat.block();
    assert!(block.contains("主人的工作"));
    assert!(block.contains("42条"));
    assert!(block.contains("绿萝"));
    assert!(!block.contains("…另有"));
}

#[test]
fn budget_truncates_and_notes_omission() {
    let cat = ProgressiveCatalog::new(sample_entries()).with_budget(60);
    let block = cat.block();
    assert!(block.contains("…另有"), "omission must be noted: {block}");
    assert!(cat.fit_count() < cat.len());
}

#[test]
fn expand_returns_topic_detail() {
    let cat = ProgressiveCatalog::new(sample_entries());
    let detail = cat.expand("熬夜规律").unwrap();
    assert!(detail.contains("熬夜规律"));
    assert!(detail.contains('7'));
    assert!(detail.contains("不假装"));
    assert!(cat.expand("不存在的主题").is_none());
}

#[test]
fn empty_catalog_block_is_empty() {
    let cat = ProgressiveCatalog::new(vec![]);
    assert_eq!(cat.block(), "");
    assert_eq!(cat.fit_count(), 0);
    assert!(cat.is_empty());
}

#[test]
fn budget_approx_half_chars() {
    let cat = ProgressiveCatalog::new(sample_entries());
    let block = cat.block();
    let tokens_est = block.chars().count() / 2;
    assert!(tokens_est <= 800, "estimated tokens within budget: {tokens_est}");
}

#[test]
fn head_tail_preview_keeps_both_ends_on_char_boundaries() {
    let content = "ab🦀cd🦀ef";
    let split = split_head_tail(content, 5);
    assert_eq!(split.head, "ab");
    assert_eq!(split.tail, "🦀ef");
    assert_eq!(split.omitted_chars, 3);
    assert_eq!(split.head.chars().count() + split.tail.chars().count(), 5);

    let crabs = "🦀".repeat(10);
    let split = split_head_tail(&crabs, 5);
    assert_eq!(split.head, "🦀🦀");
    assert_eq!(split.tail, "🦀🦀🦀");
    assert_eq!(split.omitted_chars, 5);

    let split = split_head_tail(content, 2);
    assert_eq!(split.head, "a");
    assert_eq!(split.tail, "f");
    let split = split_head_tail(content, 1);
    assert_eq!(split.head, "");
    assert_eq!(split.tail, "f");
    let split = split_head_tail(content, 0);
    assert_eq!(split.head, "");
    assert_eq!(split.tail, "");
    assert_eq!(split.omitted_chars, 8);
}

#[test]
fn preview_text_has_head_marker_tail_and_guide() {
    let content = "X".repeat(500);
    let out = truncate_with_spill(&content, 100, Ok("/data/spill/spill-s-000000-00000000.txt".to_string()));
    let lines: Vec<&str> = out.text.lines().collect();
    assert_eq!(lines.len(), 4);
    assert_eq!(lines[0], "X".repeat(50));
    assert_eq!(lines[1], "…[中间 400 字符已省略]…");
    assert_eq!(lines[2], "X".repeat(50));
    assert_eq!(lines[3], retrieval_guide("/data/spill/spill-s-000000-00000000.txt"));
    assert_eq!(out.spilled_path.as_deref(), Some("/data/spill/spill-s-000000-00000000.txt"));
    assert!(out.spill_error.is_none());
}

#[test]
fn failed_spill_keeps_the_full_original_inline() {
    let content = "Y".repeat(500);
    let out = truncate_with_spill(&content, 100, Err("disk full".to_string()));
    assert_eq!(out.text, content);
    assert!(out.spilled_path.is_none());
    assert_eq!(out.spill_error.as_deref(), Some("disk full"));
}

#[test]
fn below_threshold_text_is_unchanged() {
    let content = "z".repeat(100);
    let out = truncate_with_spill(&content, 100, Ok("ignored".to_string()));
    assert_eq!(out.text, content);
    assert!(out.spilled_path.is_none());
    assert!(out.spill_error.is_none());
}

#[test]
fn spill_names_carry_scope_sequence_and_hash() {
    assert_eq!(spill_file_name("sess/1", 7, "abc"), "spill-sess_1-000007-1a47e90b.txt");
    assert_eq!(spill_file_name("__", 1234567, ""), "spill-session-1234567-811c9dc5.txt");
    let long_scope = "a".repeat(60);
    let name = spill_file_name(&long_scope, 0, "abc");
    assert_eq!(name, format!("spill-{}-000000-1a47e90b.txt", "a".repeat(48)));
}

#[test]
fn marker_and_guide_texts() {
    assert_eq!(omission_marker(160), "…[中间 160 字符已省略]…");
    assert_eq!(retrieval_guide("/tmp/x.txt"), "完整内容已存于 /tmp/x.txt，可用文件读取按偏移取回或检索关键词定位");
    assert_eq!(SpillWriter::new("/data").spill_dir(), "/data/spill");
    assert_eq!(SpillWriter::new("/data/").spill_dir(), "/data/spill");
    assert_eq!(SpillWriter::new("").spill_dir(), "spill");
}

#[test]
fn budget_report_counts_characters() {
    let a = ContextAssembler::new(300)
        .push(ContextBlock::new("persona", "核心"))
        .push(ContextBlock::new("mem", "abc"));
    assert_eq!(a.budget_report(), vec![("persona".to_string(), 2), ("mem".to_string(), 3)]);
}

#[test]
fn equal_lengths_are_cut_in_block_order() {
    let a = ContextAssembler::new(100)
        .push(ContextBlock::new("first", &"a".repeat(60)))
        .push(ContextBlock::new("second", &"b".repeat(60)));
    assert_eq!(a.planned_lengths(), vec![40, 60]);
}

#[test]
fn fit_count_counts_the_topics_the_block_shows() {
    let cat = ProgressiveCatalog::new(vec![
        CatalogEntry::new("a", "b", 1),
        CatalogEntry::new("bbbbbbbbbb", "c", 1),
        CatalogEntry::new("c", "d", 1),
    ])
    .with_budget(25);
    assert_eq!(cat.fit_count(), 2);
    let block = cat.block();
    assert!(block.contains("- a: b (1条)"));
    assert!(block.contains("- c: d (1条)"));
    assert!(!block.contains("bbbbbbbbbb"));
}

#[test]
fn spill_mode_turns_each_cut_into_a_preview_of_what_was_spilled() {
    let long = "x".repeat(150);
    let a = ContextAssembler::new(100)
        .push(ContextBlock::new("persona", "core").with_core(true))
        .push(ContextBlock::new("tail", &long));
    let cuts = a.planned_cuts();
    assert_eq!(cuts, vec![(1, 96)]);
    let path = "/data/spill/spill-s-000000-00000000.txt".to_string();
    let out = a.assemble_with_spills(&[Ok(path.clone())]);
    assert_eq!(out.len(), 2);
    assert_eq!(out[0].content, "core");
    assert_eq!(out[1].content, truncate_with_spill(&long, 96, Ok(path)).text);
    assert!(out[1].content.contains("/data/spill/spill-s-000000-00000000.txt"));
}

#[test]
fn spill_mode_keeps_the_full_original_when_the_spill_failed() {
    let long = "y".repeat(150);
    let a = ContextAssembler::new(100)
        .push(ContextBlock::new("persona", "core").with_core(true))
        .push(ContextBlock::new("tail", &long));
    let out = a.assemble_with_spills(&[Err("disk full".to_string())]);
    assert_eq!(out[1].content, long);
}

#[test]
fn spill_mode_without_cuts_matches_the_plain_assembly() {
    let a = ContextAssembler::new(1000)
        .push(ContextBlock::new("a", "alpha"))
        .push(ContextBlock::new("b", "   "))
        .push(ContextBlock::new("c", "gamma"));
    assert!(a.planned_cuts().is_empty());
    assert_eq!(a.assemble_with_spills(&[]), a.assemble_budgeted_blocks());
}
