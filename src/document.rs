use vstd::prelude::*;
use vstd::string::StringExecFns;

use crate::block::{render, result_view, Block, FatalError};
use crate::line::{line_kind, line_text, Line, LineType};
use crate::text::{lines_of, split_lines};

verus! {

/// What every document opens with.
pub const DEFAULT_HEADER: &'static str = "\\documentclass[12pt, a4paper, twoside, titlepage]{article}\n\\usepackage{amsmath}\n\\usepackage{amsfonts}\n\\usepackage{amssymb}\n\\usepackage{a4}\n\\usepackage[ngerman]{babel}\n\\usepackage[utf8x]{inputenc}\n\\usepackage{ragged2e}\n\\begin{document}\n\\begin{flushleft}\n";

/// What every document closes with.
pub const DEFAULT_FOOTER: &'static str = "\\end{flushleft}\n\\end{document}\n";

/// A parsed document: its blocks, in input order.
pub struct PreFile {
    pub blocks: Vec<Block>,
}

/// The kinds of a sequence of lines.
pub open spec fn kinds_of(lines: Seq<Line>) -> Seq<LineType> {
    lines.map_values(|l: Line| l.kind())
}

/// The texts of a sequence of lines.
pub open spec fn line_texts(lines: Seq<Line>) -> Seq<Seq<char>> {
    lines.map_values(|l: Line| l.text())
}

/// The line texts of all blocks, in order.
pub open spec fn block_texts(bs: Seq<Block>) -> Seq<Seq<char>>
    decreases bs.len(),
{
    if bs.len() == 0 {
        Seq::empty()
    } else {
        block_texts(bs.drop_last()) + bs.last().texts()
    }
}

/// The kind of every line of all blocks, in order: each line carries its block's kind.
pub open spec fn block_kinds(bs: Seq<Block>) -> Seq<LineType>
    decreases bs.len(),
{
    if bs.len() == 0 {
        Seq::empty()
    } else {
        block_kinds(bs.drop_last()) + Seq::new(
            bs.last().content@.len(),
            |j: int| bs.last().block_type,
        )
    }
}

/// `bs` cuts the lines of kinds `ks` and texts `ts` into maximal runs of one kind:
/// read in order the blocks give back the lines, no block is empty, every line
/// is of its block's kind, and neighbouring blocks differ in kind.
#[verifier::opaque]
pub open spec fn is_segmentation(ks: Seq<LineType>, ts: Seq<Seq<char>>, bs: Seq<Block>) -> bool {
    &&& block_texts(bs) == ts
    &&& block_kinds(bs) == ks
    &&& forall|i: int| 0 <= i < bs.len() ==> (#[trigger] bs[i]).content@.len() > 0
    &&& forall|i: int|
        0 <= i < bs.len() - 1 ==> (#[trigger] bs[i]).block_type != bs[i + 1].block_type
}

/// The position of the first line of block `b` among all lines.
pub open spec fn block_start(bs: Seq<Block>, b: int) -> int {
    block_texts(bs.take(b)).len() as int
}

proof fn lemma_kinds_len(bs: Seq<Block>)
    ensures
        block_kinds(bs).len() == block_texts(bs).len(),
    decreases bs.len(),
{
    if bs.len() > 0 {
        lemma_kinds_len(bs.drop_last());
        assert(bs.last().texts().len() == bs.last().content@.len());
    }
}

proof fn lemma_start_step(bs: Seq<Block>, b: int)
    requires
        0 <= b < bs.len(),
    ensures
        block_start(bs, b + 1) == block_start(bs, b) + bs[b].content@.len(),
{
    assert(bs.take(b + 1).drop_last() == bs.take(b));
    assert(bs[b].texts().len() == bs[b].content@.len());
}

proof fn lemma_start_mono(bs: Seq<Block>, b: int, c: int)
    requires
        0 <= b <= c <= bs.len(),
    ensures
        block_start(bs, b) <= block_start(bs, c),
    decreases c - b,
{
    if b < c {
        lemma_start_step(bs, b);
        lemma_start_mono(bs, b + 1, c);
    }
}

proof fn lemma_kind_at(bs: Seq<Block>, c: int, b: int, j: int)
    requires
        0 <= b < c <= bs.len(),
        block_start(bs, b) <= j < block_start(bs, b + 1),
    ensures
        block_kinds(bs.take(c))[j] == bs[b].block_type,
    decreases c,
{
    let p = bs.take(c);
    assert(p.drop_last() == bs.take(c - 1));
    lemma_kinds_len(bs.take(c - 1));
    if c == b + 1 {
        lemma_start_step(bs, b);
    } else {
        lemma_kind_at(bs, c - 1, b, j);
        lemma_start_mono(bs, b + 1, c - 1);
    }
}

/// Read line by line, a segmentation has every line of a block of the block's kind,
/// so neighbouring lines in one block are of equal kind, while the last line of a
/// block and the first line of the next are of different kinds; the blocks' lines,
/// in order, are all the lines.
pub proof fn lemma_segmentation_lines(ks: Seq<LineType>, ts: Seq<Seq<char>>, bs: Seq<Block>)
    requires
        is_segmentation(ks, ts, bs),
    ensures
        block_texts(bs) == ts,
        block_start(bs, 0) == 0,
        block_start(bs, bs.len() as int) == ks.len(),
        forall|b: int|
            0 <= b < bs.len() ==> #[trigger] block_start(bs, b) < block_start(bs, b + 1),
        forall|b: int, j: int|
            0 <= b < bs.len() && block_start(bs, b) <= j < block_start(bs, b + 1) ==> #[trigger] ks[j]
                == (#[trigger] bs[b]).block_type,
        forall|b: int|
            0 < b < bs.len() ==> ks[#[trigger] block_start(bs, b) - 1] != ks[block_start(bs, b)],
{
    reveal(is_segmentation);
    assert(bs.take(bs.len() as int) == bs);
    assert(bs.take(0) == Seq::<Block>::empty());
    lemma_kinds_len(bs);
    assert forall|b: int| 0 <= b < bs.len() implies #[trigger] block_start(bs, b) < block_start(bs, b + 1) by {
        lemma_start_step(bs, b);
        assert(bs[b].content@.len() > 0);
    }
    assert forall|b: int, j: int|
        0 <= b < bs.len() && block_start(bs, b) <= j < block_start(bs, b + 1) implies #[trigger] ks[j]
        == (#[trigger] bs[b]).block_type by {
        lemma_kind_at(bs, bs.len() as int, b, j);
    }
    assert forall|b: int| 0 < b < bs.len() implies ks[#[trigger] block_start(bs, b) - 1] != ks[block_start(
        bs,
        b,
    )] by {
        lemma_start_step(bs, b - 1);
        lemma_start_step(bs, b);
        assert(bs[b - 1].content@.len() > 0);
        assert(bs[b].content@.len() > 0);
        lemma_kind_at(bs, bs.len() as int, b - 1, block_start(bs, b) - 1);
        lemma_kind_at(bs, bs.len() as int, b, block_start(bs, b));
        assert(bs[b - 1].block_type != bs[b].block_type);
    }
}

proof fn lemma_push_block(
    ks: Seq<LineType>,
    ts: Seq<Seq<char>>,
    bs: Seq<Block>,
    b: Block,
    m: int,
    k: int,
)
    requires
        0 <= m < k <= ks.len() == ts.len(),
        is_segmentation(ks.take(m), ts.take(m), bs),
        b.texts() == ts.subrange(m, k),
        forall|j: int| m <= j < k ==> ks[j] == b.block_type,
        bs.len() > 0 ==> bs.last().block_type != b.block_type,
    ensures
        is_segmentation(ks.take(k), ts.take(k), bs.push(b)),
{
    reveal(is_segmentation);
    let nb = bs.push(b);
    assert(nb.drop_last() == bs);
    assert(b.texts().len() == b.content@.len());
    assert(b.content@.len() == k - m);
    assert(ts.take(m) + ts.subrange(m, k) == ts.take(k));
    assert(ks.take(m) + Seq::new(b.content@.len(), |j: int| b.block_type) == ks.take(k));
    assert forall|i: int| 0 <= i < nb.len() - 1 implies (#[trigger] nb[i]).block_type
        != nb[i + 1].block_type by {
        if i < bs.len() - 1 {
            assert(nb[i] == bs[i] && nb[i + 1] == bs[i + 1]);
        }
    }
    assert forall|i: int| 0 <= i < nb.len() implies (#[trigger] nb[i]).content@.len() > 0 by {
        if i < bs.len() {
            assert(nb[i] == bs[i]);
        }
    }
}

/// The fragments of all blocks concatenated, or the error of the first block that
/// cannot be rendered.
pub open spec fn render_all(bs: Seq<Block>) -> Result<Seq<char>, FatalError>
    decreases bs.len(),
{
    if bs.len() == 0 {
        Ok(Seq::empty())
    } else {
        match render_all(bs.drop_last()) {
            Err(e) => Err(e),
            Ok(t) => match render(bs.last().block_type, bs.last().texts()) {
                Err(e) => Err(e),
                Ok(u) => Ok(t + u),
            },
        }
    }
}

/// The whole document: `header`, then every block's fragment, then `footer`.
pub open spec fn document(header: Seq<char>, bs: Seq<Block>, footer: Seq<char>) -> Result<
    Seq<char>,
    FatalError,
> {
    match render_all(bs) {
        Ok(t) => Ok(header + t + footer),
        Err(e) => Err(e),
    }
}

/// Closes the run `lines[m..k]`, held in `buffer`, into one more block.
fn close_block(
    blocks: &mut Vec<Block>,
    buffer: Vec<Line>,
    Ghost(lines): Ghost<Seq<Line>>,
    Ghost(m): Ghost<int>,
    Ghost(k): Ghost<int>,
)
    requires
        0 <= m < k <= lines.len(),
        buffer@ == lines.subrange(m, k),
        forall|j: int| m <= j < k ==> kinds_of(lines)[j] == lines[m].kind(),
        is_segmentation(kinds_of(lines).take(m), line_texts(lines).take(m), old(blocks)@),
        old(blocks)@.len() > 0 ==> old(blocks)@.last().block_type != lines[m].kind(),
    ensures
        is_segmentation(kinds_of(lines).take(k), line_texts(lines).take(k), final(blocks)@),
        final(blocks)@.len() > 0,
        final(blocks)@.last().block_type == lines[m].kind(),
{
    let ghost ks = kinds_of(lines);
    let ghost ts = line_texts(lines);
    match Block::from_block_buffer(buffer) {
        Ok(b) => {
            proof {
                assert(line_texts(buffer@) == ts.subrange(m, k));
                assert(buffer@[0] == lines[m]);
                lemma_push_block(ks, ts, blocks@, b, m, k);
            }
            blocks.push(b);
        },
        Err(_) => {},
    }
}

/// Once some prefix of the blocks cannot be rendered, neither can the whole, and
/// for the same reason.
proof fn lemma_render_all_err(bs: Seq<Block>, k: int)
    requires
        0 <= k <= bs.len(),
        render_all(bs.take(k)) is Err,
    ensures
        render_all(bs) == render_all(bs.take(k)),
    decreases bs.len() - k,
{
    if k < bs.len() {
        assert(bs.take(k + 1).drop_last() == bs.take(k));
        lemma_render_all_err(bs, k + 1);
    } else {
        assert(bs.take(k) == bs);
    }
}

impl PreFile {
    /// Groups classified lines into blocks, cutting wherever the kind changes.
    pub fn from_lines(lines: Vec<Line>) -> (r: PreFile)
        ensures
            is_segmentation(kinds_of(lines@), line_texts(lines@), r.blocks@),
    {
        let ghost ks = kinds_of(lines@);
        let ghost ts = line_texts(lines@);
        let mut blocks: Vec<Block> = Vec::new();
        let mut block_buffer: Vec<Line> = Vec::new();
        let mut current_type: Option<LineType> = None;
        let ghost mut m: int = 0;
        proof {
            reveal(is_segmentation);
            assert(ks.take(0) == Seq::<LineType>::empty());
            assert(ts.take(0) == Seq::<Seq<char>>::empty());
        }
        for line in it: lines
            invariant
                it.seq() == lines@,
                ks == kinds_of(lines@),
                ts == line_texts(lines@),
                0 <= m <= it.index(),
                block_buffer@ == lines@.subrange(m, it.index() as int),
                current_type is None <==> it.index() == 0,
                it.index() == 0 ==> blocks@.len() == 0,
                it.index() > 0 ==> m < it.index() && current_type == Some(lines@[m].kind()),
                forall|j: int| m <= j < it.index() ==> ks[j] == current_type->Some_0,
                is_segmentation(ks.take(m), ts.take(m), blocks@),
                blocks@.len() > 0 ==> blocks@.last().block_type != current_type->Some_0,
        {
            let ghost k = it.index() as int;
            let t = line.get_type();
            assert(ks[k] == t);
            if current_type == Some(t) {
                block_buffer.push(line);
                assert(lines@.subrange(m, k + 1) == lines@.subrange(m, k).push(line));
            } else if current_type.is_none() {
                current_type = Some(t);
                block_buffer.push(line);
                assert(lines@.subrange(0, 1) == seq![line]);
            } else {
                close_block(&mut blocks, block_buffer, Ghost(lines@), Ghost(m), Ghost(k));
                block_buffer = Vec::new();
                current_type = Some(t);
                block_buffer.push(line);
                proof {
                    m = k;
                }
                assert(lines@.subrange(k, k + 1) == seq![line]);
            }
        }
        let ghost n = lines@.len() as int;
        if block_buffer.len() > 0 {
            close_block(&mut blocks, block_buffer, Ghost(lines@), Ghost(m), Ghost(n));
            proof {
                m = n;
            }
        }
        assert(m == n);
        assert(ks.take(n) == ks);
        assert(ts.take(n) == ts);
        PreFile { blocks }
    }

    /// Parses a whole text: splits it into lines, classifies each, and groups them
    /// into blocks. An empty text gives no blocks.
    pub fn from_string(string: String) -> (r: PreFile)
        ensures
            is_segmentation(
                lines_of(string@).map_values(|l: Seq<char>| line_kind(l)),
                lines_of(string@).map_values(|l: Seq<char>| line_text(l)),
                r.blocks@,
            ),
    {
        let raw = split_lines(string.as_str());
        let ghost raws = raw@.map_values(|l: String| l@);
        let mut lines: Vec<Line> = Vec::new();
        let n = raw.len();
        let mut i: usize = 0;
        while i < n
            invariant
                i <= n == raw@.len(),
                raws == raw@.map_values(|l: String| l@),
                kinds_of(lines@) == raws.take(i as int).map_values(|l: Seq<char>| line_kind(l)),
                line_texts(lines@) == raws.take(i as int).map_values(|l: Seq<char>| line_text(l)),
            decreases n - i,
        {
            let line = Line::classify(raw[i].as_str());
            let ghost before = lines@;
            lines.push(line);
            assert(raws[i as int] == raw@[i as int]@);
            assert(raws.take(i + 1) == raws.take(i as int).push(raws[i as int]));
            assert(kinds_of(lines@) == kinds_of(before).push(line.kind()));
            assert(line_texts(lines@) == line_texts(before).push(line.text()));
            assert(raws.take(i + 1).map_values(|l: Seq<char>| line_kind(l)) == raws.take(
                i as int,
            ).map_values(|l: Seq<char>| line_kind(l)).push(line_kind(raws[i as int])));
            assert(raws.take(i + 1).map_values(|l: Seq<char>| line_text(l)) == raws.take(
                i as int,
            ).map_values(|l: Seq<char>| line_text(l)).push(line_text(raws[i as int])));
            i = i + 1;
        }
        assert(raws.take(n as int) == raws);
        PreFile::from_lines(lines)
    }

    /// Renders the document between the given opening and closing text.
    pub fn transpile_with(self, header: &str, footer: &str) -> (r: Result<String, FatalError>)
        ensures
            result_view(r) == document(header@, self.blocks@, footer@),
    {
        let mut buffer = String::new();
        buffer.append(header);
        for elem in it: self.blocks
            invariant
                it.seq() == self.blocks@,
                render_all(it.seq().take(it.index() as int)) is Ok,
                buffer@ == header@ + render_all(it.seq().take(it.index() as int))->Ok_0,
        {
            let ghost k = it.index() as int;
            assert(it.seq().take(k + 1).drop_last() == it.seq().take(k));
            match elem.transpile() {
                Ok(fragment) => {
                    buffer.append(fragment.as_str());
                },
                Err(e) => {
                    proof {
                        lemma_render_all_err(self.blocks@, k + 1);
                    }
                    return Err(e);
                },
            }
        }
        assert(self.blocks@.take(self.blocks@.len() as int) == self.blocks@);
        buffer.append(footer);
        Ok(buffer)
    }

    /// Renders the document between the default opening and closing text.
    pub fn transpile(self) -> (r: Result<String, FatalError>)
        ensures
            result_view(r) == document(DEFAULT_HEADER@, self.blocks@, DEFAULT_FOOTER@),
    {
        self.transpile_with(DEFAULT_HEADER, DEFAULT_FOOTER)
    }
}

} // verus!
