use orchestration::context_fold::{FoldMarker, MarkerKind};


#[test]
fn marker_kind_format() {
    assert_eq!(MarkerKind::Full.placeholder_format(), "<<FOLDED:{}>>");
    assert_eq!(MarkerKind::HeadTail.placeholder_format(), "<<HEADTAIL:{}>>");
    assert_eq!(MarkerKind::Semantic.placeholder_format(), "<<SEMANTIC:{}>>");
}

#[test]
fn full_marker_placeholder() {
    let m = FoldMarker::new(MarkerKind::Full, "secret content");
    let p = m.format_placeholder();
    assert!(p.contains("FOLDED"));
    assert!(p.contains("14"));
}

#[test]
fn head_tail_marker_placeholder() {
    let m = FoldMarker::new(MarkerKind::HeadTail, "middle");
    let p = m.format_placeholder();
    assert!(p.contains("HEADTAIL"));
}

#[test]
fn marker_new_takes_into_string() {
    let m = FoldMarker::new(MarkerKind::Full, &String::from("test"));
    assert_eq!(m.payload, "test");
}



