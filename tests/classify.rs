use pretex::{fold_strings, Line, LineType};

fn kind_and_text(raw: &str) -> (LineType, String) {
    let line = Line::classify(raw);
    let kind = line.get_type();
    (kind, line.get_content())
}

#[test]
fn prose_line_is_kept_whole() {
    assert_eq!(
        kind_and_text("Hello world"),
        (LineType::Normal, "Hello world".to_string())
    );
    assert_eq!(
        kind_and_text(" # not a heading"),
        (LineType::Normal, " # not a heading".to_string())
    );
}

#[test]
fn empty_line_is_prose() {
    assert_eq!(kind_and_text(""), (LineType::Normal, String::new()));
}

#[test]
fn heading_level_counts_leading_markers() {
    assert_eq!(kind_and_text("# Title"), (LineType::Header(1), " Title".to_string()));
    assert_eq!(kind_and_text("### Deep"), (LineType::Header(3), " Deep".to_string()));
    assert_eq!(kind_and_text("##x#y"), (LineType::Header(2), "x#y".to_string()));
}

#[test]
fn heading_of_markers_only() {
    assert_eq!(kind_and_text("##"), (LineType::Header(2), String::new()));
    assert_eq!(kind_and_text("######"), (LineType::Header(6), String::new()));
}

#[test]
fn heading_marker_then_align_marker() {
    assert_eq!(kind_and_text("#>x"), (LineType::Header(1), ">x".to_string()));
}

#[test]
fn align_line_loses_one_marker() {
    assert_eq!(kind_and_text(">x=1"), (LineType::Align, "x=1".to_string()));
    assert_eq!(kind_and_text(">>x"), (LineType::Align, ">x".to_string()));
    assert_eq!(kind_and_text(">#x"), (LineType::Align, "#x".to_string()));
    assert_eq!(kind_and_text(">"), (LineType::Align, String::new()));
}

#[test]
fn non_ascii_content_is_kept() {
    assert_eq!(
        kind_and_text("## Übung ä"),
        (LineType::Header(2), " Übung ä".to_string())
    );
}

#[test]
fn type_equals_compares_levels() {
    let a = Line::Header("a".to_string(), 1);
    let b = Line::Header("b".to_string(), 2);
    let c = Line::Header("c".to_string(), 1);
    let d = Line::Normal("d".to_string());
    let e = Line::Normal("e".to_string());
    let f = Line::Align("f".to_string());
    assert!(!a.type_equals(&b));
    assert!(a.type_equals(&c));
    assert!(d.type_equals(&e));
    assert!(!d.type_equals(&f));
    assert!(!a.type_equals(&d));
}

#[test]
fn fold_strings_wraps_each_item() {
    let items = vec!["a".to_string(), "b".to_string()];
    assert_eq!(fold_strings(items, ",", "<"), "<a,<b,");
    assert_eq!(fold_strings(Vec::new(), ",", "<"), "");
    let lines = vec!["x".to_string(), "y".to_string()];
    assert_eq!(fold_strings(lines, "\n", ""), "x\ny\n");
}
