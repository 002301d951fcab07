use orchestration::output_retention::{omission_note, prefix_within_bytes, prefix_within_chars, retain_fragment_within_bytes, retain_within_bytes, suffix_within_chars, OmittedHow, OmittedWhere, BYTE_UNIT};


/// Every budget on multi-byte content yields a whole-character prefix:
/// 2-byte, 3-byte and 4-byte (surrogate-pair elsewhere) characters are
/// never split, and the result is always valid text.
#[test]
fn truncation_never_splits_multibyte_characters() {
    // 2-byte "é", 3-byte "語", 4-byte "🦀" mixed with ASCII.
    let content = "aé語🦀b";
    for budget in 0..=content.len() {
        let kept = prefix_within_bytes(content, budget);
        assert!(
            content.starts_with(kept),
            "budget {budget}: kept must be a prefix: {kept:?}"
        );
        assert!(
            kept.len() <= budget,
            "budget {budget}: kept {} bytes must fit",
            kept.len()
        );
        // Boundary retreat: the byte just past the kept prefix starts a new
        // character (or the content ends) — never mid-character.
        if kept.len() < content.len() {
            assert!(content.is_char_boundary(kept.len()));
        }
    }
    // Whole astral characters only: a budget of 3 bytes on "🦀x" keeps nothing
    // of the emoji rather than half of it.
    assert_eq!(prefix_within_bytes("🦀x", 3), "");
    assert_eq!(prefix_within_bytes("🦀x", 4), "🦀");
    // Budget inside the 3-byte character retreats to before it.
    assert_eq!(prefix_within_bytes("日本語", 5), "日");
    assert_eq!(prefix_within_bytes("日本語", 6), "日本");
}

/// The wording is graded three ways: silent when nothing was omitted, the
/// exact measured count when one exists, and a plain admission without a
/// number when one does not.
#[test]
fn omission_wording_is_graded_three_ways() {
    // None: no note at all, never a claim of omission.
    assert_eq!(
        omission_note(&OmittedHow::Nothing, OmittedWhere::Tail, BYTE_UNIT),
        ""
    );

    // Exact: the measured number and its unit, placed per retention shape.
    let tail = omission_note(
        &OmittedHow::Exact { count: 24 },
        OmittedWhere::Tail,
        BYTE_UNIT,
    );
    assert!(tail.contains("24"), "精确数必须出现: {tail}");
    assert!(tail.contains(BYTE_UNIT), "单位必须出现: {tail}");
    assert!(tail.contains("已省略"), "省略必须声明: {tail}");

    let middle = omission_note(
        &OmittedHow::Exact { count: 400 },
        OmittedWhere::Middle,
        "字符",
    );
    assert_eq!(middle, "…[中间 400 字符已省略]…");

    // Unknown: honest admission, no invented number.
    let unknown = omission_note(&OmittedHow::Unknown, OmittedWhere::Tail, BYTE_UNIT);
    assert_eq!(unknown, "部分内容已省略");
    assert!(
        !unknown.chars().any(|c| c.is_ascii_digit()),
        "Unknown 不得携带任何数字"
    );
}

/// The omitted count is measured from the bytes actually retained, not
/// derived from the requested budget — boundary rounding shows up as an
/// honest difference between the two.
#[test]
fn omitted_count_is_measured_not_budget_derived() {
    // 3 characters, 9 bytes. Budget 8 lands mid-character: only 6 bytes
    // survive, so 3 bytes were omitted — not the budget-derived 1.
    let out = retain_within_bytes("日本語", 8);
    assert_eq!(out.text, "日本");
    assert_eq!(out.retained_bytes(), 6);
    assert_eq!(out.omitted, OmittedHow::Exact { count: 3 });
    assert_eq!(out.note(), "…[尾部 3 字节已省略]…");

    // The measured count always equals original - retained.
    let out = retain_within_bytes("🦀🦀🦀", 10);
    assert_eq!(out.text, "🦀🦀");
    assert_eq!(out.omitted, OmittedHow::Exact { count: 4 });

    // text_with_note carries the note on its own line, text untouched.
    let joined = out.text_with_note();
    let mut lines = joined.lines();
    assert_eq!(lines.next(), Some("🦀🦀"));
    assert_eq!(lines.next(), Some("…[尾部 4 字节已省略]…"));
    assert_eq!(lines.next(), None);
}

/// Empty, exact-fit and over-long boundaries all stay sane.
#[test]
fn empty_and_oversized_boundaries() {
    // Empty content: nothing to retain, nothing omitted.
    let out = retain_within_bytes("", 0);
    assert_eq!(out.text, "");
    assert_eq!(out.omitted, OmittedHow::Nothing);
    assert_eq!(out.note(), "");
    assert_eq!(out.text_with_note(), "");

    let out = retain_within_bytes("", 100);
    assert_eq!(out.omitted, OmittedHow::Nothing);

    // Exactly at the budget: zero change, no omission.
    let out = retain_within_bytes("hello", 5);
    assert_eq!(out.text, "hello");
    assert_eq!(out.omitted, OmittedHow::Nothing);

    // Beyond the budget: zero change too.
    let out = retain_within_bytes("hello", 5_000);
    assert_eq!(out.text, "hello");
    assert_eq!(out.omitted, OmittedHow::Nothing);

    // Zero budget on non-empty content: everything is omitted and the
    // count says so exactly.
    let out = retain_within_bytes("hello", 0);
    assert_eq!(out.text, "");
    assert_eq!(out.omitted, OmittedHow::Exact { count: 5 });

    // Oversized content stays whole-characters at the cut.
    let long = "語".repeat(10_000);
    let out = retain_within_bytes(&long, 7);
    assert_eq!(out.text, "語語", "预算 7 → 退回字符边界, 实留 6 字节");
    assert_eq!(out.omitted, OmittedHow::Exact { count: 29_994 });
}

/// A fragment source never invents a count: the cut is boundary-safe but
/// the note admits only that *something* was omitted.
#[test]
fn fragment_source_never_invents_a_count() {
    let out = retain_fragment_within_bytes("日本語", 8);
    assert_eq!(out.text, "日本", "同样的 UTF-8 安全切点");
    assert_eq!(out.omitted, OmittedHow::Unknown);
    assert_eq!(out.note(), "部分内容已省略");

    // No cut: no omission claim either, fragment or not.
    let out = retain_fragment_within_bytes("日本語", 9);
    assert_eq!(out.omitted, OmittedHow::Nothing);
    assert_eq!(out.note(), "");
}

/// Zero conflict with the existing truncation surfaces: their pinned
/// wording and cut behaviour are reproduced exactly by the shared core.
#[test]
fn zero_conflict_with_existing_truncation() {
    // The head/tail middle marker keeps its exact historical wording.
    let marker = omission_note(
        &OmittedHow::Exact { count: 400 },
        OmittedWhere::Middle,
        "字符",
    );
    assert_eq!(marker, "…[中间 400 字符已省略]…");

    // The char-budget helpers agree with scalar-value counting everywhere.
    let content = "ab🦀cd🦀ef";
    for keep in 0..=content.chars().count() {
        let expected_head: String = content.chars().take(keep).collect();
        assert_eq!(
            prefix_within_chars(content, keep),
            expected_head,
            "keep={keep}"
        );
        let expected_tail: String = content
            .chars()
            .skip(content.chars().count() - keep)
            .collect();
        assert_eq!(
            suffix_within_chars(content, keep),
            expected_tail,
            "keep={keep}"
        );
    }

    // The byte-budget prefix matches a plain byte cut whenever that cut is
    // already on a boundary (ASCII and aligned multi-byte alike).
    assert_eq!(prefix_within_bytes("abcdefgh", 3), "abc");
    assert_eq!(prefix_within_bytes("日本語", 6), "日本");
}

