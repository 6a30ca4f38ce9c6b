use vstd::prelude::*;

use crate::block::{strings_view, Block, BlockModel};

verus! {

/// What `str::trim` returns for a line: the line without the whitespace that
/// leads or trails it.
pub uninterp spec fn trim_of(s: Seq<char>) -> Seq<char>;

/// Relies on `str::trim`: the line with leading and trailing whitespace removed.
#[verifier::external_body]
fn trim_line(s: &str) -> (r: &str)
    ensures
        r@ == trim_of(s@),
{
    s.trim()
}

/// A heading line is one whose first character is `#`.
pub open spec fn is_heading(line: Seq<char>) -> bool {
    line.len() > 0 && line[0] == '#'
}

/// The content that the body lines `ls` give: each line trimmed, blank ones left out.
pub open spec fn body_content(ls: Seq<Seq<char>>) -> Seq<Seq<char>>
    decreases ls.len(),
{
    if ls.len() == 0 {
        Seq::empty()
    } else {
        let t = trim_of(ls.last());
        body_content(ls.drop_last()) + if t.len() > 0 {
            seq![t]
        } else {
            Seq::empty()
        }
    }
}

/// How many lines at the front of `ls` come before its first heading line.
pub open spec fn body_len(ls: Seq<Seq<char>>) -> nat
    decreases ls.len(),
{
    if ls.len() == 0 || is_heading(ls[0]) {
        0
    } else {
        1 + body_len(ls.drop_first())
    }
}

/// The blocks of the document `ls`, in order. Lines before the first heading
/// belong to no block.
pub open spec fn blocks_of(ls: Seq<Seq<char>>) -> Seq<BlockModel>
    decreases ls.len(),
    via blocks_of_decreases
{
    if ls.len() == 0 {
        Seq::empty()
    } else if !is_heading(ls[0]) {
        blocks_of(ls.drop_first())
    } else {
        let rest = ls.drop_first();
        let n = body_len(rest) as int;
        seq![BlockModel { title: ls[0], content: body_content(rest.take(n)) }] + blocks_of(
            rest.skip(n),
        )
    }
}

#[via_fn]
proof fn blocks_of_decreases(ls: Seq<Seq<char>>) {
    if ls.len() > 0 && is_heading(ls[0]) {
        lemma_body_len_bound(ls.drop_first());
    }
}

/// The heading lines of `ls`, in order.
pub open spec fn heading_lines(ls: Seq<Seq<char>>) -> Seq<Seq<char>>
    decreases ls.len(),
{
    if ls.len() == 0 {
        Seq::empty()
    } else if is_heading(ls[0]) {
        seq![ls[0]] + heading_lines(ls.drop_first())
    } else {
        heading_lines(ls.drop_first())
    }
}

/// The titles of `bs`, in order.
pub open spec fn titles(bs: Seq<BlockModel>) -> Seq<Seq<char>> {
    bs.map_values(|b: BlockModel| b.title)
}

proof fn lemma_body_len_bound(ls: Seq<Seq<char>>)
    ensures
        body_len(ls) <= ls.len(),
        forall|k: int| 0 <= k < body_len(ls) ==> !is_heading(#[trigger] ls[k]),
        body_len(ls) < ls.len() ==> is_heading(ls[body_len(ls) as int]),
    decreases ls.len(),
{
    if ls.len() > 0 && !is_heading(ls[0]) {
        let tail = ls.drop_first();
        lemma_body_len_bound(tail);
        assert forall|k: int| 0 <= k < body_len(ls) implies !is_heading(#[trigger] ls[k]) by {
            if k > 0 {
                assert(ls[k] == tail[k - 1]);
            }
        }
    }
}

/// `body_len` is the position of the first heading, or the length where there is none.
proof fn lemma_body_len_at(ls: Seq<Seq<char>>, m: int)
    requires
        0 <= m <= ls.len(),
        forall|k: int| 0 <= k < m ==> !is_heading(#[trigger] ls[k]),
        m == ls.len() || is_heading(ls[m]),
    ensures
        body_len(ls) == m,
    decreases m,
{
    if m > 0 {
        let tail = ls.drop_first();
        assert forall|k: int| 0 <= k < m - 1 implies !is_heading(#[trigger] tail[k]) by {
            assert(tail[k] == ls[k + 1]);
        }
        if m < ls.len() {
            assert(tail[m - 1] == ls[m]);
        }
        lemma_body_len_at(tail, m - 1);
    }
}

proof fn lemma_body_content_step(ls: Seq<Seq<char>>, start: int, i: int)
    requires
        0 <= start <= i < ls.len(),
    ensures
        ({
            let t = trim_of(ls[i]);
            body_content(ls.subrange(start, i + 1)) == body_content(ls.subrange(start, i)) + if t.len()
                > 0 {
                seq![t]
            } else {
                Seq::empty()
            }
        }),
{
    let seen = ls.subrange(start, i + 1);
    assert(seen.drop_last() =~= ls.subrange(start, i));
    assert(seen.last() == ls[i]);
}

/// The blocks of `v`, each as values.
pub open spec fn blocks_view(v: Seq<Block>) -> Seq<BlockModel> {
    v.map_values(|b: Block| b@)
}

/// A document without heading lines has no blocks.
pub proof fn lemma_no_heading_no_block(ls: Seq<Seq<char>>)
    requires
        forall|i: int| 0 <= i < ls.len() ==> !is_heading(#[trigger] ls[i]),
    ensures
        blocks_of(ls) == Seq::<BlockModel>::empty(),
    decreases ls.len(),
{
    if ls.len() > 0 {
        let tail = ls.drop_first();
        assert forall|i: int| 0 <= i < tail.len() implies !is_heading(#[trigger] tail[i]) by {
            assert(tail[i] == ls[i + 1]);
        }
        lemma_no_heading_no_block(tail);
    }
}

/// Lines that are not headings contribute no heading line.
proof fn lemma_heading_lines_skip(ls: Seq<Seq<char>>, n: int)
    requires
        0 <= n <= ls.len(),
        forall|k: int| 0 <= k < n ==> !is_heading(#[trigger] ls[k]),
    ensures
        heading_lines(ls) == heading_lines(ls.skip(n)),
    decreases n,
{
    if n > 0 {
        let tail = ls.drop_first();
        assert forall|k: int| 0 <= k < n - 1 implies !is_heading(#[trigger] tail[k]) by {
            assert(tail[k] == ls[k + 1]);
        }
        lemma_heading_lines_skip(tail, n - 1);
        assert(tail.skip(n - 1) =~= ls.skip(n));
        assert(heading_lines(ls) == heading_lines(tail));
    } else {
        assert(ls.skip(0) =~= ls);
    }
}

/// The titles of a document's blocks, in order, are exactly its heading lines,
/// in order: none is lost, duplicated or moved.
pub proof fn lemma_titles_are_heading_lines(ls: Seq<Seq<char>>)
    ensures
        titles(blocks_of(ls)) == heading_lines(ls),
    decreases ls.len(),
{
    if ls.len() > 0 {
        let rest = ls.drop_first();
        if !is_heading(ls[0]) {
            lemma_titles_are_heading_lines(rest);
        } else {
            lemma_body_len_bound(rest);
            let n = body_len(rest) as int;
            let first = BlockModel { title: ls[0], content: body_content(rest.take(n)) };
            let later = blocks_of(rest.skip(n));
            lemma_titles_are_heading_lines(rest.skip(n));
            lemma_heading_lines_skip(rest, n);
            assert(titles(seq![first] + later) =~= seq![ls[0]] + titles(later));
        }
    }
}

/// Every line that `body_content` keeps is non-blank.
proof fn lemma_body_content_nonblank(ls: Seq<Seq<char>>)
    ensures
        forall|j: int|
            0 <= j < body_content(ls).len() ==> (#[trigger] body_content(ls)[j]).len() > 0,
    decreases ls.len(),
{
    if ls.len() > 0 {
        let prev = body_content(ls.drop_last());
        lemma_body_content_nonblank(ls.drop_last());
        assert forall|j: int|
            0 <= j < body_content(ls).len() implies (#[trigger] body_content(ls)[j]).len() > 0 by {
            if j < prev.len() {
                assert(body_content(ls)[j] == prev[j]);
            }
        }
    }
}

/// No block's content holds a line whose trimmed form is empty: blank lines
/// never reach the content.
pub proof fn lemma_no_blank_content(ls: Seq<Seq<char>>)
    ensures
        forall|i: int, j: int|
            0 <= i < blocks_of(ls).len() && 0 <= j < blocks_of(ls)[i].content.len() ==> (
            #[trigger] blocks_of(ls)[i].content[j]).len() > 0,
    decreases ls.len(),
{
    if ls.len() > 0 {
        let rest = ls.drop_first();
        if !is_heading(ls[0]) {
            lemma_no_blank_content(rest);
            assert(blocks_of(ls) == blocks_of(rest));
        } else {
            lemma_body_len_bound(rest);
            let n = body_len(rest) as int;
            lemma_no_blank_content(rest.skip(n));
            lemma_body_content_nonblank(rest.take(n));
            let first = BlockModel { title: ls[0], content: body_content(rest.take(n)) };
            let bs = blocks_of(ls);
            assert(bs == seq![first] + blocks_of(rest.skip(n)));
            assert(bs[0] == first);
            assert forall|i: int, j: int|
                0 <= i < bs.len() && 0 <= j < bs[i].content.len() implies (
                #[trigger] bs[i].content[j]).len() > 0 by {
                if i > 0 {
                    assert(bs[i] == blocks_of(rest.skip(n))[i - 1]);
                }
            }
        }
    }
}

/// Does the line start a new block?
pub fn starts_block(line: &str) -> (r: bool)
    ensures
        r == is_heading(line@),
{
    let mut chars = line.chars();
    match chars.next() {
        Some(c) => c == '#',
        None => false,
    }
}

/// A lazy, one-pass segmentation of a document's lines into blocks.
///
/// At most one line is held back between calls: the heading line that ended
/// the block handed out last, which opens the next one.
pub struct BlockIterator {
    lines: Vec<String>,
    pos: usize,
    pending: Option<String>,
}

impl BlockIterator {
    /// The lines that remain to be segmented, the held-back heading first.
    pub closed spec fn rest(&self) -> Seq<Seq<char>> {
        let tail = strings_view(self.lines@).skip(self.pos as int);
        match self.pending {
            Some(h) => seq![h@] + tail,
            None => tail,
        }
    }

    /// The read position lies within the document, and a held-back line is a heading.
    pub closed spec fn wf(&self) -> bool {
        &&& self.pos <= self.lines@.len()
        &&& self.pending matches Some(h) ==> is_heading(h@)
    }
}

impl View for BlockIterator {
    type V = Seq<BlockModel>;

    /// The blocks that remain to be handed out.
    closed spec fn view(&self) -> Seq<BlockModel> {
        blocks_of(self.rest())
    }
}

impl BlockIterator {
    /// Segments the document made of `lines`, in order.
    pub fn new(lines: Vec<String>) -> (r: BlockIterator)
        ensures
            r.wf(),
            r@ == blocks_of(strings_view(lines@)),
    {
        let r = BlockIterator { lines, pos: 0, pending: None };
        proof {
            assert(r.rest() =~= strings_view(lines@));
        }
        r
    }

    /// Reads the body of the block whose heading was just consumed: the lines
    /// up to the next heading line, which is held back, or to the end.
    fn read_body(&mut self) -> (content: Vec<String>)
        requires
            old(self).wf(),
            old(self).pending is None,
        ensures
            final(self).wf(),
            ({
                let tail = strings_view(old(self).lines@).skip(old(self).pos as int);
                let n = body_len(tail) as int;
                &&& strings_view(content@) == body_content(tail.take(n))
                &&& final(self).rest() == tail.skip(n)
            }),
    {
        let ghost lines = strings_view(self.lines@);
        let ghost start = self.pos as int;
        let ghost tail = lines.skip(start);
        assert(lines.len() == self.lines@.len());
        let mut content: Vec<String> = Vec::new();
        assert(lines.subrange(start, start) =~= Seq::<Seq<char>>::empty());
        while self.pos < self.lines.len()
            invariant_except_break
                self.pending is None,
            invariant
                lines == strings_view(self.lines@),
                lines.len() == self.lines@.len(),
                0 <= start <= self.pos <= self.lines@.len(),
                forall|k: int| start <= k < self.pos ==> !is_heading(#[trigger] lines[k]),
                strings_view(content@) == body_content(lines.subrange(start, self.pos as int)),
            ensures
                self.pending matches Some(h) ==> self.pos < self.lines.len() && h@ == lines[self.pos as int]
                    && is_heading(h@),
                self.pending is None ==> self.pos == lines.len(),
            decreases self.lines@.len() - self.pos,
        {
            if starts_block(self.lines[self.pos].as_str()) {
                self.pending = Some(self.lines[self.pos].clone());
                break;
            }
            let t = trim_line(self.lines[self.pos].as_str());
            proof {
                lemma_body_content_step(lines, start, self.pos as int);
            }
            if !t.is_empty() {
                content.push(t.to_owned());
                assert(strings_view(content@) =~= body_content(
                    lines.subrange(start, self.pos as int + 1),
                ));
            } else {
                assert(strings_view(content@) =~= body_content(
                    lines.subrange(start, self.pos as int + 1),
                ));
            }
            self.pos = self.pos + 1;
        }
        let ghost m = self.pos as int;
        proof {
            assert forall|k: int| 0 <= k < m - start implies !is_heading(#[trigger] tail[k]) by {
                assert(tail[k] == lines[start + k]);
            }
            if m < lines.len() {
                assert(tail[m - start] == lines[m]);
            }
            lemma_body_len_at(tail, m - start);
            assert(tail.take(m - start) =~= lines.subrange(start, m));
        }
        if self.pending.is_some() {
            self.pos = self.pos + 1;
        }
        assert(self.rest() =~= tail.skip(m - start));
        content
    }

    /// Hands out the next block, or `None` once no block remains.
    pub fn next(&mut self) -> (r: Option<Block>)
        requires
            old(self).wf(),
        ensures
            final(self).wf(),
            match r {
                None => old(self)@.len() == 0 && final(self)@ == old(self)@,
                Some(b) => old(self)@.len() > 0 && b@ == old(self)@[0] && final(self)@ == old(
                    self,
                )@.drop_first(),
            },
    {
        let ghost lines = strings_view(self.lines@);
        let ghost start_rest = self.rest();
        assert(lines.len() == self.lines@.len());
        let title = match self.pending.take() {
            Some(h) => h,
            None => {
                while self.pos < self.lines.len()
                    invariant
                        lines == strings_view(self.lines@),
                        lines.len() == self.lines@.len(),
                        self.pos <= self.lines@.len(),
                        self.pending is None,
                        blocks_of(start_rest) == blocks_of(self.rest()),
                    ensures
                        self.pos < lines.len() ==> is_heading(lines[self.pos as int]),
                    decreases self.lines@.len() - self.pos,
                {
                    if starts_block(self.lines[self.pos].as_str()) {
                        break;
                    }
                    proof {
                        assert(self.rest().drop_first() =~= lines.skip(self.pos + 1));
                    }
                    self.pos = self.pos + 1;
                }
                if self.pos == self.lines.len() {
                    proof {
                        assert(self.rest() =~= Seq::<Seq<char>>::empty());
                    }
                    return None;
                }
                let h = self.lines[self.pos].clone();
                self.pos = self.pos + 1;
                proof {
                    assert(seq![lines[self.pos - 1]] + lines.skip(self.pos as int) =~= lines.skip(
                        self.pos - 1,
                    ));
                }
                h
            },
        };
        assert(is_heading(title@));
        assert(blocks_of(start_rest) == blocks_of(seq![title@] + lines.skip(self.pos as int)));
        assert((seq![title@] + lines.skip(self.pos as int)).drop_first() =~= lines.skip(
            self.pos as int,
        ));
        let content = self.read_body();
        Some(Block { title, content })
    }
}

} // verus!

verus! {

/// All blocks of the document made of `lines`, in order.
pub fn all_blocks(lines: Vec<String>) -> (r: Vec<Block>)
    ensures
        blocks_view(r@) == blocks_of(strings_view(lines@)),
{
    let ghost all = blocks_of(strings_view(lines@));
    let mut it = BlockIterator::new(lines);
    let mut out: Vec<Block> = Vec::new();
    loop
        invariant
            it.wf(),
            all == blocks_of(strings_view(lines@)),
            blocks_view(out@) + it@ == all,
        decreases it@.len(),
    {
        match it.next() {
            None => {
                assert(it@.len() == 0);
                assert(blocks_view(out@) + it@ =~= blocks_view(out@));
                return out;
            },
            Some(b) => {
                out.push(b);
                assert(blocks_view(out@) + it@ =~= all);
            },
        }
    }
}

} // verus!
