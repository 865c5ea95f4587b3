use ruddy::reporting::{Diagnostic, DiagnosticSeverity, Source, TextRange, TextSize};

#[test]
fn from_bounds_clamps_to_empty_when_end_precedes_start() {
    let source = Source(0);

    let range = TextRange::from_bounds(source, TextSize::new(10), TextSize::new(3));
    assert_eq!(range.source(), Some(source));
    assert_eq!(range.start(), Some(TextSize::new(10)));
    assert_eq!(range.len(), Some(0));
    assert_eq!(range.end(), Some(TextSize::new(10)));
    assert_eq!(range.is_empty(), Some(true));
}

#[test]
fn new_stores_start_and_length() {
    let source = Source(0);

    let range = TextRange::new(source, TextSize::new(5), TextSize::new(7));
    assert_eq!(range.source(), Some(source));
    assert_eq!(range.start(), Some(TextSize::new(5)));
    assert_eq!(range.len(), Some(7));
    assert_eq!(range.end(), Some(TextSize::new(12)));
    assert_eq!(range.is_empty(), Some(false));
}

#[test]
fn generated_range_has_no_source_or_bounds() {
    let range = TextRange::generated();
    assert_eq!(range.source(), None);
    assert_eq!(range.start(), None);
    assert_eq!(range.len(), None);
    assert_eq!(range.end(), None);
    assert_eq!(range.is_empty(), None);
}

#[test]
fn from_usize_saturates() {
    assert_eq!(TextSize::from_usize(7).as_u32(), 7);
    assert_eq!(TextSize::from_usize(usize::MAX).as_u32(), u32::MAX);
    assert_eq!(TextSize::new(9).as_usize(), 9);
}

#[test]
fn end_saturates_at_the_largest_offset() {
    let range = TextRange::new(Source(1), TextSize::new(u32::MAX - 1), TextSize::new(5));
    assert_eq!(range.end(), Some(TextSize::new(u32::MAX)));
}

#[test]
fn text_respects_character_boundaries() {
    let source = "let λ = 1";
    let whole = TextRange::new(Source(0), TextSize::new(4), TextSize::new(2));
    assert_eq!(whole.text(source), Some("λ".to_string()));
    let split = TextRange::new(Source(0), TextSize::new(4), TextSize::new(1));
    assert_eq!(split.text(source), None);
    let past = TextRange::new(Source(0), TextSize::new(8), TextSize::new(5));
    assert_eq!(past.text(source), None);
    assert_eq!(TextRange::generated().text(source), None);
}

#[test]
fn diagnostics_keep_their_parts() {
    let range = TextRange::empty(Source(2), TextSize::new(4));
    let error = Diagnostic::error(range, "bad".to_string());
    assert_eq!(error.severity, DiagnosticSeverity::Error);
    assert_eq!(error.range, range);
    assert_eq!(error.message, "bad");
    let warning = Diagnostic::warning(range, "odd".to_string());
    assert_eq!(warning.severity, DiagnosticSeverity::Warning);
}
