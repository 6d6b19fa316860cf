use mix::files::{ByteRange, FileId, Span};
use mix::lex::contains_comments;
use mix::report::{Report, ReportAnnotation, ReportHelp, ReportLevel, Reports};

fn span(fid: u32, start: usize) -> Span {
    Span::new(ByteRange { start, end: start + 1 }, FileId(fid))
}

fn report(annotations: Vec<ReportAnnotation>, helps: Vec<ReportHelp>) -> Report {
    Report { level: ReportLevel::Error, span: span(0, 0), title: "t".to_string(), annotations, helps }
}

#[test]
fn annotations_are_grouped_by_file_in_first_appearance_order() {
    let r = report(
        vec![
            ReportAnnotation::primary(span(1, 0)),
            ReportAnnotation::context(span(0, 1), "a"),
            ReportAnnotation::context(span(1, 2), "b"),
        ],
        vec![],
    );
    let groups = r.group_annotations();
    assert_eq!(groups.len(), 2);
    assert_eq!(groups[0].fid, FileId(1));
    assert_eq!(groups[0].annotations.len(), 2);
    assert_eq!(groups[0].annotations[1].label.as_deref(), Some("b"));
    assert_eq!(groups[1].fid, FileId(0));
    assert_eq!(groups[1].annotations.len(), 1);
}

#[test]
fn patches_are_grouped_by_file() {
    let help = ReportHelp::new("fix").with_patch(span(2, 0), ")").with_patch(span(2, 4), "]");
    let r = report(vec![], vec![]);
    let groups = r.group_patches(&help);
    assert_eq!(groups.len(), 1);
    assert_eq!(groups[0].patches.len(), 2);
    assert_eq!(groups[0].patches[1].replacement, "]");
}

#[test]
fn restoring_drops_later_reports() {
    let mut reports = Reports::new();
    reports.emit(report(vec![], vec![]));
    let mark = reports.state();
    reports.emit(report(vec![], vec![]));
    assert!(reports.has_errors());
    reports.restore(mark);
    assert_eq!(reports.reports().len(), 1);
}

#[test]
fn comments_are_found_anywhere() {
    assert!(contains_comments("1 + # note\n2"));
    assert!(contains_comments("/* a */ x"));
    assert!(!contains_comments("\"# not a comment\""));
    assert!(!contains_comments("a & b"));
}
