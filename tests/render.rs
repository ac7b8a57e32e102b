use pretex::{Block, FatalError, Line, LineType};

fn block(kind: LineType, lines: &[&str]) -> Block {
    Block {
        block_type: kind,
        content: lines.iter().map(|s| s.to_string()).collect(),
    }
}

fn render(kind: LineType, lines: &[&str]) -> Result<String, FatalError> {
    block(kind, lines).transpile()
}

#[test]
fn from_block_buffer_takes_first_kind() {
    let buffer = vec![
        Line::Header(" A".to_string(), 2),
        Line::Header(" B".to_string(), 2),
    ];
    let b = Block::from_block_buffer(buffer).ok().unwrap();
    assert_eq!(b.block_type, LineType::Header(2));
    assert_eq!(b.content, vec![" A".to_string(), " B".to_string()]);
}

#[test]
fn from_block_buffer_refuses_empty_run() {
    assert!(matches!(
        Block::from_block_buffer(Vec::new()),
        Err(FatalError::EmptyBlock)
    ));
}

#[test]
fn empty_block_cannot_render() {
    assert_eq!(render(LineType::Normal, &[]), Err(FatalError::EmptyBlock));
    assert_eq!(render(LineType::Align, &[]), Err(FatalError::EmptyBlock));
    assert_eq!(render(LineType::Header(9), &[]), Err(FatalError::EmptyBlock));
}

#[test]
fn line_break_alone_is_paragraph_break() {
    assert_eq!(
        render(LineType::Normal, &["~~"]),
        Ok("\\quad\\newline\n".to_string())
    );
    assert_eq!(
        render(LineType::Normal, &["  ~~\t"]),
        Ok("\\quad\\newline\n".to_string())
    );
}

#[test]
fn prose_is_joined_and_trimmed() {
    assert_eq!(
        render(LineType::Normal, &["  a", "b  "]),
        Ok("a\nb\n".to_string())
    );
    assert_eq!(
        render(LineType::Normal, &["Hello world", "~~"]),
        Ok("Hello world\n\\quad\\newline\n".to_string())
    );
    assert_eq!(
        render(LineType::Normal, &["a~~b"]),
        Ok("a~~b\n".to_string())
    );
}

#[test]
fn heading_levels_one_to_three() {
    assert_eq!(
        render(LineType::Header(1), &[" Title"]),
        Ok("\\section{ Title }\n".to_string())
    );
    assert_eq!(
        render(LineType::Header(2), &[" Part"]),
        Ok("\\subsection{ Part }\n".to_string())
    );
    assert_eq!(
        render(LineType::Header(3), &[" Piece"]),
        Ok("\\subsubsection{ Piece }\n".to_string())
    );
}

#[test]
fn heading_level_four_leaves_and_reenters_flushleft() {
    assert_eq!(
        render(LineType::Header(4), &[" Centered"]),
        Ok("\\end{flushleft}\n\\center\n\\large\\textbf{ Centered }\n\\normalsize\n\\endcenter\n\\begin{flushleft}\n".to_string())
    );
}

#[test]
fn heading_level_five_is_bold_line() {
    assert_eq!(
        render(LineType::Header(5), &[" Note"]),
        Ok("\\textbf{ Note }\\\\\n".to_string())
    );
}

#[test]
fn heading_lines_are_joined_with_spaces() {
    assert_eq!(
        render(LineType::Header(1), &[" A", "B "]),
        Ok("\\section{ A B }\n".to_string())
    );
}

#[test]
fn heading_trims_unicode_whitespace() {
    assert_eq!(
        render(LineType::Header(1), &["\u{3000}X\u{a0}"]),
        Ok("\\section{ X }\n".to_string())
    );
}

#[test]
fn unsupported_heading_levels() {
    assert_eq!(
        render(LineType::Header(0), &["x"]),
        Err(FatalError::UnsupportedLevel(0))
    );
    assert_eq!(
        render(LineType::Header(6), &["x"]),
        Err(FatalError::UnsupportedLevel(6))
    );
    assert_eq!(
        render(LineType::Header(100), &["x"]),
        Err(FatalError::UnsupportedLevel(100))
    );
}

#[test]
fn align_without_sentinel_has_one_column() {
    assert_eq!(
        render(LineType::Align, &["x=1", "y = 2 "]),
        Ok("\\begin{align*}\n&x=1\\\\\n&y = 2 \\\\\n\\end{align*}\n".to_string())
    );
}

#[test]
fn align_with_sentinel_has_two_columns() {
    assert_eq!(
        render(LineType::Align, &["x=1~~first step", "y=2"]),
        Ok("\\begin{align*}\n&x=1 &&\\text{ first step }\\\\\n&y=2 &&\\text{\\quad}\\\\\n\\end{align*}\n".to_string())
    );
}

#[test]
fn align_splits_at_first_sentinel() {
    assert_eq!(
        render(LineType::Align, &["a ~~ b~~c"]),
        Ok("\\begin{align*}\n&a &&\\text{  b~~c }\\\\\n\\end{align*}\n".to_string())
    );
    assert_eq!(
        render(LineType::Align, &["~~~"]),
        Ok("\\begin{align*}\n& &&\\text{ ~ }\\\\\n\\end{align*}\n".to_string())
    );
}
