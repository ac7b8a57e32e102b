use vstd::prelude::*;
use vstd::string::StringExecFns;

use crate::line::{Line, LineType};
use crate::text::{
    contains_sentinel, find_sentinel, first_sentinel, from_chars, has_sentinel,
    lemma_first_sentinel, lemma_sentinel_from, sentinel_at, to_chars, trim, trimmed,
};

verus! {

/// The deepest heading level that can be rendered.
pub const MAX_HEADER_LEVEL: usize = 5;

/// A condition under which a block cannot be rendered at all.
#[derive(PartialEq, Eq, Structural, Clone, Copy, Debug)]
pub enum FatalError {
    /// A block with no lines.
    EmptyBlock,
    /// A heading whose level is 0 or above the deepest supported level.
    UnsupportedLevel(usize),
}

/// A maximal run of lines of one kind.
pub struct Block {
    pub block_type: LineType,
    pub content: Vec<String>,
}

/// The texts of a sequence of strings.
pub open spec fn texts_of(v: Seq<String>) -> Seq<Seq<char>> {
    v.map_values(|s: String| s@)
}

/// `prefix + x + suffix` for each `x` of `xs`, all concatenated in order.
pub open spec fn fold_spec(xs: Seq<Seq<char>>, suffix: Seq<char>, prefix: Seq<char>) -> Seq<char>
    decreases xs.len(),
{
    if xs.len() == 0 {
        Seq::empty()
    } else {
        fold_spec(xs.drop_last(), suffix, prefix) + prefix + xs.last() + suffix
    }
}

/// Concatenates `prefix + x + suffix` over the strings `x` of `string`, in order.
pub fn fold_strings(string: Vec<String>, suffix: &'static str, prefix: &'static str) -> (r: String)
    ensures
        r@ == fold_spec(texts_of(string@), suffix@, prefix@),
{
    let mut acc = String::new();
    let n = string.len();
    let mut i: usize = 0;
    while i < n
        invariant
            i <= n == string@.len(),
            acc@ == fold_spec(texts_of(string@.take(i as int)), suffix@, prefix@),
        decreases n - i,
    {
        acc.append(prefix);
        acc.append(string[i].as_str());
        acc.append(suffix);
        assert(texts_of(string@.take(i + 1)).drop_last() == texts_of(string@.take(i as int)));
        i = i + 1;
    }
    assert(string@.take(n as int) == string@);
    acc
}

/// The text that a prose line holding only the line-break sentinel becomes.
pub open spec fn paragraph_break() -> Seq<char> {
    "\\quad\\newline"@
}

/// A prose line, with the line-break sentinel replaced by a paragraph break.
pub open spec fn prose_line(l: Seq<char>) -> Seq<char> {
    if trimmed(l) == "~~"@ {
        paragraph_break()
    } else {
        l
    }
}

/// The row that an alignment line becomes; `commented` says whether any line of
/// its block holds the sentinel.
pub open spec fn align_row(l: Seq<char>, commented: bool) -> Seq<char> {
    let p = first_sentinel(l);
    if p < l.len() {
        "&"@ + trimmed(l.subrange(0, p)) + " &&\\text{ "@ + l.subrange(p + 2, l.len() as int)
            + " }"@ + "\\\\\n"@
    } else if commented {
        "&"@ + l + " &&\\text{\\quad}"@ + "\\\\\n"@
    } else {
        "&"@ + l + "\\\\\n"@
    }
}

/// The rows of an alignment block, concatenated in order.
pub open spec fn align_rows(ls: Seq<Seq<char>>, commented: bool) -> Seq<char>
    decreases ls.len(),
{
    if ls.len() == 0 {
        Seq::empty()
    } else {
        align_rows(ls.drop_last(), commented) + align_row(ls.last(), commented)
    }
}

/// Whether some line of `ls` holds the sentinel.
pub open spec fn any_sentinel(ls: Seq<Seq<char>>) -> bool {
    exists|i: int| 0 <= i < ls.len() && has_sentinel(#[trigger] ls[i])
}

/// The space-joined, trimmed content of a heading.
pub open spec fn heading_text(ls: Seq<Seq<char>>) -> Seq<char> {
    trimmed(fold_spec(ls, " "@, ""@))
}

/// The fragment that a block of kind `kind` and lines `ls` renders to.
pub open spec fn render(kind: LineType, ls: Seq<Seq<char>>) -> Result<Seq<char>, FatalError> {
    if ls.len() == 0 {
        Err(FatalError::EmptyBlock)
    } else {
        match kind {
            LineType::Normal => Ok(
                trimmed(fold_spec(ls.map_values(|l: Seq<char>| prose_line(l)), "\n"@, ""@))
                    + "\n"@,
            ),
            LineType::Header(n) => {
                let t = heading_text(ls);
                if n == 1 {
                    Ok("\\section{ "@ + t + " }\n"@)
                } else if n == 2 {
                    Ok("\\subsection{ "@ + t + " }\n"@)
                } else if n == 3 {
                    Ok("\\subsubsection{ "@ + t + " }\n"@)
                } else if n == 4 {
                    Ok(
                        "\\end{flushleft}\n\\center\n\\large\\textbf{ "@ + t
                            + " }\n\\normalsize\n\\endcenter\n\\begin{flushleft}\n"@,
                    )
                } else if n == 5 {
                    Ok("\\textbf{ "@ + t + " }\\\\\n"@)
                } else {
                    Err(FatalError::UnsupportedLevel(n))
                }
            },
            LineType::Align => Ok(
                "\\begin{align*}\n"@ + align_rows(ls, any_sentinel(ls)) + "\\end{align*}\n"@,
            ),
        }
    }
}

/// A rendering outcome, with the text in place of the string.
pub open spec fn result_view(r: Result<String, FatalError>) -> Result<Seq<char>, FatalError> {
    match r {
        Ok(s) => Ok(s@),
        Err(e) => Err(e),
    }
}

/// A prose block whose one line is the line-break sentinel (up to surrounding
/// whitespace) renders to the paragraph break alone, trimmed, and a line end.
pub proof fn lemma_line_break_block(l: Seq<char>)
    requires
        trimmed(l) == "~~"@,
    ensures
        render(LineType::Normal, seq![l]) == Ok::<Seq<char>, FatalError>(
            trimmed(paragraph_break() + "\n"@) + "\n"@,
        ),
{
    let ls = seq![l];
    let ps = ls.map_values(|x: Seq<char>| prose_line(x));
    assert(ps == seq![paragraph_break()]);
    assert(ps.drop_last() == Seq::<Seq<char>>::empty());
    assert(ps.last() == paragraph_break());
    assert(fold_spec(ps.drop_last(), "\n"@, ""@) == Seq::<char>::empty());
    assert(fold_spec(ps, "\n"@, ""@) == Seq::<char>::empty() + ""@ + paragraph_break() + "\n"@);
    reveal_strlit("");
    assert(Seq::<char>::empty() + ""@ + paragraph_break() + "\n"@ == paragraph_break() + "\n"@);
}

/// The row of an alignment line: a single column when no line of the block holds
/// the sentinel; otherwise two columns, the second being the text after the first
/// sentinel or, for a line without one, the spacer.
pub proof fn lemma_align_columns(ls: Seq<Seq<char>>, i: int)
    requires
        0 <= i < ls.len(),
    ensures
        !any_sentinel(ls) ==> align_row(ls[i], any_sentinel(ls)) == "&"@ + ls[i] + "\\\\\n"@,
        any_sentinel(ls) && !has_sentinel(ls[i]) ==> align_row(ls[i], any_sentinel(ls)) == "&"@
            + ls[i] + " &&\\text{\\quad}"@ + "\\\\\n"@,
        has_sentinel(ls[i]) ==> {
            let l = ls[i];
            let p = first_sentinel(l);
            &&& 0 <= p && p + 2 <= l.len()
            &&& forall|j: int| 0 <= j < p ==> !sentinel_at(l, j)
            &&& sentinel_at(l, p)
            &&& align_row(l, any_sentinel(ls)) == "&"@ + trimmed(l.subrange(0, p))
                + " &&\\text{ "@ + l.subrange(p + 2, l.len() as int) + " }"@ + "\\\\\n"@
        },
{
    lemma_first_sentinel(ls[i]);
    lemma_sentinel_from(ls[i], 0);
    if has_sentinel(ls[i]) {
        assert(any_sentinel(ls));
    }
}

/// Whether the trimmed text of `s` is the line-break sentinel.
fn is_line_break(s: &String) -> (r: bool)
    ensures
        r == (trimmed(s@) == "~~"@),
{
    let t = trim(s.as_str());
    let v = to_chars(t.as_str());
    proof {
        reveal_strlit("~~");
    }
    if v.len() == 2 && v[0] == '~' && v[1] == '~' {
        assert(v@ == "~~"@);
        true
    } else {
        false
    }
}

/// Renders one alignment line as a row.
fn render_align_row(l: &String, commented: bool) -> (r: String)
    ensures
        r@ == align_row(l@, commented),
{
    let v = to_chars(l.as_str());
    let n = v.len();
    let p = find_sentinel(&v);
    proof {
        lemma_first_sentinel(v@);
    }
    let mut r = String::new();
    r.append("&");
    if p < n {
        let formula = from_chars(&v, 0, p);
        let comment = from_chars(&v, p + 2, n);
        let f = trim(formula.as_str());
        r.append(f.as_str());
        r.append(" &&\\text{ ");
        r.append(comment.as_str());
        r.append(" }");
    } else if commented {
        r.append(l.as_str());
        r.append(" &&\\text{\\quad}");
    } else {
        r.append(l.as_str());
    }
    r.append("\\\\\n");
    r
}

impl Block {
    /// The texts of this block's lines.
    pub open spec fn texts(&self) -> Seq<Seq<char>> {
        texts_of(self.content@)
    }

    /// Gathers a run of lines into a block of the first line's kind; an empty run
    /// makes no block.
    pub fn from_block_buffer(buffer: Vec<Line>) -> (r: Result<Block, FatalError>)
        ensures
            buffer@.len() == 0 <==> r == Err::<Block, FatalError>(FatalError::EmptyBlock),
            buffer@.len() > 0 ==> r is Ok && r->Ok_0.block_type == buffer@[0].kind()
                && r->Ok_0.texts() == buffer@.map_values(|l: Line| l.text()),
    {
        if buffer.len() == 0 {
            return Err(FatalError::EmptyBlock);
        }
        let block_type = buffer[0].get_type();
        let mut content: Vec<String> = Vec::new();
        for elem in it: buffer
            invariant
                it.seq() == buffer@,
                texts_of(content@) == it.seq().take(it.index() as int).map_values(
                    |l: Line| l.text(),
                ),
        {
            let ghost before = content@;
            content.push(elem.get_content());
            assert(texts_of(content@) == texts_of(before).push(elem.text()));
            assert(it.seq().take(it.index() + 1) == it.seq().take(it.index() as int).push(elem));
        }
        assert(buffer@.take(buffer@.len() as int) == buffer@);
        Ok(Block { block_type, content })
    }

    /// Renders this block, or says why it cannot be rendered.
    pub fn transpile(self) -> (r: Result<String, FatalError>)
        ensures
            result_view(r) == render(self.block_type, self.texts()),
            self.content@.len() == 0 ==> r == Err::<String, FatalError>(FatalError::EmptyBlock),
            self.content@.len() > 0 && (self.block_type == LineType::Header(0)
                || self.block_type == LineType::Header((MAX_HEADER_LEVEL + 1) as usize))
                ==> r == Err::<String, FatalError>(
                FatalError::UnsupportedLevel(self.block_type->Header_0),
            ),
    {
        let n = self.content.len();
        if n == 0 {
            return Err(FatalError::EmptyBlock);
        }
        match self.block_type {
            LineType::Normal => {
                let mut lines: Vec<String> = Vec::new();
                let mut i: usize = 0;
                while i < n
                    invariant
                        i <= n == self.content@.len(),
                        texts_of(lines@) == self.texts().take(i as int).map_values(
                            |l: Seq<char>| prose_line(l),
                        ),
                    decreases n - i,
                {
                    let ghost before = lines@;
                    if is_line_break(&self.content[i]) {
                        lines.push("\\quad\\newline".to_owned());
                    } else {
                        lines.push(self.content[i].clone());
                    }
                    assert(texts_of(lines@) == texts_of(before).push(prose_line(self.texts()[i as int])));
                    assert(self.texts().take(i + 1) == self.texts().take(i as int).push(self.texts()[i as int]));
                    i = i + 1;
                }
                assert(self.texts().take(n as int) == self.texts());
                let joined = fold_strings(lines, "\n", "");
                let mut r = trim(joined.as_str());
                r.append("\n");
                Ok(r)
            },
            LineType::Header(level) => {
                let joined = fold_strings(self.content, " ", "");
                let t = trim(joined.as_str());
                let mut r = String::new();
                if level == 1 {
                    r.append("\\section{ ");
                    r.append(t.as_str());
                    r.append(" }\n");
                } else if level == 2 {
                    r.append("\\subsection{ ");
                    r.append(t.as_str());
                    r.append(" }\n");
                } else if level == 3 {
                    r.append("\\subsubsection{ ");
                    r.append(t.as_str());
                    r.append(" }\n");
                } else if level == 4 {
                    r.append("\\end{flushleft}\n\\center\n\\large\\textbf{ ");
                    r.append(t.as_str());
                    r.append(" }\n\\normalsize\n\\endcenter\n\\begin{flushleft}\n");
                } else if level == 5 {
                    r.append("\\textbf{ ");
                    r.append(t.as_str());
                    r.append(" }\\\\\n");
                } else {
                    return Err(FatalError::UnsupportedLevel(level));
                }
                Ok(r)
            },
            LineType::Align => {
                let mut commented = false;
                let mut i: usize = 0;
                while i < n
                    invariant
                        i <= n == self.content@.len(),
                        commented == exists|j: int| 0 <= j < i && has_sentinel(#[trigger] self.texts()[j]),
                    decreases n - i,
                {
                    let found = contains_sentinel(self.content[i].as_str());
                    assert(self.texts()[i as int] == self.content@[i as int]@);
                    if found {
                        commented = true;
                    }
                    assert(commented == exists|j: int| 0 <= j < i + 1 && has_sentinel(#[trigger] self.texts()[j])) by {
                        if found {
                            assert(has_sentinel(self.texts()[i as int]));
                        }
                    }
                    i = i + 1;
                }
                let mut r = String::new();
                r.append("\\begin{align*}\n");
                let mut k: usize = 0;
                while k < n
                    invariant
                        k <= n == self.content@.len(),
                        commented == any_sentinel(self.texts()),
                        r@ == "\\begin{align*}\n"@ + align_rows(self.texts().take(k as int), commented),
                    decreases n - k,
                {
                    let row = render_align_row(&self.content[k], commented);
                    r.append(row.as_str());
                    assert(self.texts().take(k + 1).drop_last() == self.texts().take(k as int));
                    k = k + 1;
                }
                assert(self.texts().take(n as int) == self.texts());
                r.append("\\end{align*}\n");
                Ok(r)
            },
        }
    }
}

} // verus!
