use pretex::{FatalError, Line, LineType, PreFile, DEFAULT_FOOTER, DEFAULT_HEADER};

fn shape(doc: &PreFile) -> Vec<(LineType, Vec<String>)> {
    doc.blocks
        .iter()
        .map(|b| (b.block_type, b.content.clone()))
        .collect()
}

fn strings(items: &[&str]) -> Vec<String> {
    items.iter().map(|s| s.to_string()).collect()
}

#[test]
fn empty_text_has_no_blocks() {
    let doc = PreFile::from_string(String::new());
    assert_eq!(doc.blocks.len(), 0);
    assert_eq!(
        doc.transpile(),
        Ok(format!("{}{}", DEFAULT_HEADER, DEFAULT_FOOTER))
    );
}

#[test]
fn blocks_cut_where_kind_changes() {
    let doc = PreFile::from_string("# A\n## B\n## C\nx\n>y\n>z\nw".to_string());
    assert_eq!(
        shape(&doc),
        vec![
            (LineType::Header(1), strings(&[" A"])),
            (LineType::Header(2), strings(&[" B", " C"])),
            (LineType::Normal, strings(&["x"])),
            (LineType::Align, strings(&["y", "z"])),
            (LineType::Normal, strings(&["w"])),
        ]
    );
}

#[test]
fn blank_lines_stay_in_prose() {
    let doc = PreFile::from_string("a\n\nb\n".to_string());
    assert_eq!(shape(&doc), vec![(LineType::Normal, strings(&["a", "", "b"]))]);
}

#[test]
fn crlf_line_ends_are_removed() {
    let doc = PreFile::from_string("a\r\nb\r\n>c".to_string());
    assert_eq!(
        shape(&doc),
        vec![
            (LineType::Normal, strings(&["a", "b"])),
            (LineType::Align, strings(&["c"])),
        ]
    );
}

#[test]
fn lone_newline_gives_one_empty_line() {
    let doc = PreFile::from_string("\n".to_string());
    assert_eq!(shape(&doc), vec![(LineType::Normal, strings(&[""]))]);
}

#[test]
fn from_lines_groups_equal_neighbours() {
    let lines = vec![
        Line::Normal("a".to_string()),
        Line::Header("h".to_string(), 1),
        Line::Header("i".to_string(), 1),
        Line::Normal("b".to_string()),
    ];
    let doc = PreFile::from_lines(lines);
    assert_eq!(
        shape(&doc),
        vec![
            (LineType::Normal, strings(&["a"])),
            (LineType::Header(1), strings(&["h", "i"])),
            (LineType::Normal, strings(&["b"])),
        ]
    );
}

#[test]
fn end_to_end_example() {
    let input = "# Title\nHello world\n~~\n>x=1~~first step\n>y=2".to_string();
    let doc = PreFile::from_string(input);
    let expected = format!(
        "{}{}{}{}{}",
        DEFAULT_HEADER,
        "\\section{ Title }\n",
        "Hello world\n\\quad\\newline\n",
        "\\begin{align*}\n&x=1 &&\\text{ first step }\\\\\n&y=2 &&\\text{\\quad}\\\\\n\\end{align*}\n",
        DEFAULT_FOOTER
    );
    assert_eq!(doc.transpile(), Ok(expected));
}

#[test]
fn too_deep_heading_fails_document() {
    let doc = PreFile::from_string("text\n###### deep\n# fine".to_string());
    assert_eq!(doc.transpile(), Err(FatalError::UnsupportedLevel(6)));
}

#[test]
fn custom_frame_is_used() {
    let doc = PreFile::from_string("#### Mid".to_string());
    assert_eq!(
        doc.transpile_with("<", ">"),
        Ok("<\\end{flushleft}\n\\center\n\\large\\textbf{ Mid }\n\\normalsize\n\\endcenter\n\\begin{flushleft}\n>".to_string())
    );
}

#[test]
fn default_frame_text() {
    assert!(DEFAULT_HEADER.starts_with("\\documentclass[12pt, a4paper, twoside, titlepage]{article}\n"));
    assert!(DEFAULT_HEADER.ends_with("\\begin{document}\n\\begin{flushleft}\n"));
    assert_eq!(DEFAULT_FOOTER, "\\end{flushleft}\n\\end{document}\n");
}
