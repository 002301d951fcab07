use orchestration::compaction_checkpoint::summary::{
    validate_summary, SummaryError, SummaryRequest, SummarySections, SUMMARY_SECTION_HEADERS,
};

fn template_with_keys(keys: &str) -> String {
    SummarySections { keys: keys.into(), ..SummarySections::default() }.render()
}

#[test]
fn the_template_round_trips_through_eight_sections() {
    let sections = SummarySections {
        intent: "build the thing".into(),
        concepts: "checkpoints".into(),
        files: "src/lib.rs".into(),
        errors: "none".into(),
        todos: "tests".into(),
        current: "mid-flight".into(),
        next: "write tests".into(),
        keys: "the fact".into(),
    };
    let rendered = sections.render();
    for header in SUMMARY_SECTION_HEADERS {
        assert!(rendered.contains(header), "missing section: {header}");
    }
    assert_eq!(SummarySections::parse(&rendered), Some(sections));
}

#[test]
fn off_template_or_empty_summaries_are_refused() {
    assert_eq!(validate_summary("", "0123456789", &[]), Err(SummaryError::Empty));
    assert_eq!(validate_summary("just prose, smaller", "0123456789", &[]), Err(SummaryError::TemplateMismatch));
}

#[test]
fn a_summary_not_smaller_than_its_span_is_refused() {
    let big = template_with_keys(&"k".repeat(200));
    assert_eq!(
        validate_summary(&big, "tiny", &[]),
        Err(SummaryError::NotSmaller { summary_chars: big.chars().count(), replaced_chars: 4 })
    );
}

#[test]
fn a_prior_summary_key_fact_must_survive_the_merge() {
    let prior = template_with_keys("keep this fact");
    let merged = template_with_keys("keep this fact\nand this one");
    assert!(validate_summary(&merged, "replaced material span", &[prior.clone()]).is_ok());

    let dropped = template_with_keys("something else entirely");
    assert_eq!(validate_summary(&dropped, "replaced material span", &[prior]), Err(SummaryError::PriorKeyFactsDropped));
}

#[test]
fn render_trims_bodies_and_key_lines_drop_blank_lines() {
    let s = SummarySections { intent: "  x  ".into(), keys: " a \n\n  b\r\n".into(), ..SummarySections::default() };
    let text = s.render();
    assert!(text.starts_with("## 意图\nx\n## 概念\n\n"));
    assert_eq!(SummarySections::key_lines(&text), vec!["a".to_string(), "b".to_string()]);
    assert_eq!(SummarySections::key_lines("no template"), Vec::<String>::new());
    assert_eq!(SummarySections::parse("## 意图 only"), None);
}

#[test]
fn the_prompt_lists_template_priors_and_transcript_in_order() {
    let request = SummaryRequest::new("[user] hi\n").with_prior_summary("  old summary  ");
    let prompt = request.render_prompt();
    let t = prompt.find("--- template ---").unwrap();
    let p = prompt.find("--- prior compaction summaries ---\nold summary\n").unwrap();
    let x = prompt.find("--- transcript ---\n[user] hi\n").unwrap();
    assert!(t < p && p < x);
    assert!(prompt.starts_with("Summarize the conversation prefix below"));
    assert_eq!(request.template, SummarySections::default().render());
    let plain = SummaryRequest::new("t").render_prompt();
    assert!(!plain.contains("prior compaction summaries"));
}

#[test]
fn error_messages() {
    assert_eq!(
        SummaryError::NotSmaller { summary_chars: 9, replaced_chars: 4 }.to_string(),
        "summary is not smaller than what it replaces (9 >= 4)"
    );
    assert_eq!(SummaryError::Unavailable("down".into()).to_string(), "summary unavailable: down");
    assert_eq!(SummaryError::Empty.to_string(), "summary is empty");
}
