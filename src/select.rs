use vstd::prelude::*;

use crate::block::{strings_view, Block, BlockModel};
use crate::segment::{blocks_of, BlockIterator};

verus! {

#[verifier::external_type_specification]
#[verifier::external_body]
pub struct ExRegex(regex::Regex);

#[verifier::external_type_specification]
#[verifier::external_body]
pub struct ExRegexError(regex::Error);

/// Whether `pattern`, compiled case-insensitively, is a regular expression
/// that the `regex` crate accepts.
pub uninterp spec fn ci_compiles(pattern: Seq<char>) -> bool;

/// Whether the case-insensitive regular expression `pattern` matches somewhere in `text`.
pub uninterp spec fn ci_match(pattern: Seq<char>, text: Seq<char>) -> bool;

/// Whether the compiled expression `re` matches somewhere in `text`.
pub uninterp spec fn regex_finds(re: regex::Regex, text: Seq<char>) -> bool;

/// Relies on `regex::RegexBuilder::new`, `case_insensitive(true)` and `build`:
/// compiles `pattern` into an expression that ignores letter case, or fails.
#[verifier::external_body]
fn build_case_insensitive(pattern: &str) -> (r: Result<regex::Regex, regex::Error>)
    ensures
        r is Ok <==> ci_compiles(pattern@),
        r matches Ok(re) ==> forall|t: Seq<char>| #[trigger]
            regex_finds(re, t) == ci_match(pattern@, t),
{
    regex::RegexBuilder::new(pattern).case_insensitive(true).build()
}

/// Relies on `regex::Regex::is_match`: whether the expression matches somewhere in `text`.
#[verifier::external_body]
fn regex_is_match(re: &regex::Regex, text: &str) -> (r: bool)
    ensures
        r == regex_finds(*re, text@),
{
    re.is_match(text)
}

/// Relies on `regex::Error`'s `Display`: a readable description of why a pattern was refused.
#[verifier::external_body]
fn describe_error(e: &regex::Error) -> (r: String) {
    e.to_string()
}

/// Why a selection could not start.
#[derive(Debug, Clone, PartialEq, Eq)]
pub enum SelectError {
    /// The pattern is not a regular expression; the text says why.
    InvalidPattern(String),
}

/// The blocks of `bs` whose title the pattern matches, in order.
pub open spec fn selected(bs: Seq<BlockModel>, pattern: Seq<char>) -> Seq<BlockModel>
    decreases bs.len(),
{
    if bs.len() == 0 {
        Seq::empty()
    } else if ci_match(pattern, bs[0].title) {
        seq![bs[0]] + selected(bs.drop_first(), pattern)
    } else {
        selected(bs.drop_first(), pattern)
    }
}

/// The blocks of a document whose title matches a pattern, handed out lazily.
pub struct BlockSelector {
    blocks: BlockIterator,
    regex: regex::Regex,
    pattern: Ghost<Seq<char>>,
}

impl BlockSelector {
    /// The pattern that titles are matched against.
    pub closed spec fn pattern(&self) -> Seq<char> {
        self.pattern@
    }

    /// The segmentation underneath is well formed, and the compiled expression
    /// matches exactly where the case-insensitive pattern does.
    pub closed spec fn wf(&self) -> bool {
        &&& self.blocks.wf()
        &&& forall|t: Seq<char>| #[trigger]
            regex_finds(self.regex, t) == ci_match(self.pattern@, t)
    }
}

impl View for BlockSelector {
    type V = Seq<BlockModel>;

    /// The selected blocks that remain to be handed out.
    closed spec fn view(&self) -> Seq<BlockModel> {
        selected(self.blocks@, self.pattern@)
    }
}

impl BlockSelector {
    /// Hands out the next block whose title matches, or `None` once none remains.
    pub fn next(&mut self) -> (r: Option<Block>)
        requires
            old(self).wf(),
        ensures
            final(self).wf(),
            final(self).pattern() == old(self).pattern(),
            match r {
                None => old(self)@.len() == 0 && final(self)@ == old(self)@,
                Some(b) => old(self)@.len() > 0 && b@ == old(self)@[0] && final(self)@ == old(
                    self,
                )@.drop_first(),
            },
    {
        let ghost start = self@;
        loop
            invariant
                self.wf(),
                self.pattern@ == old(self).pattern@,
                self@ == start,
                start == old(self)@,
            decreases self.blocks@.len(),
        {
            match self.blocks.next() {
                None => {
                    assert(self@ =~= Seq::<BlockModel>::empty());
                    return None;
                },
                Some(b) => {
                    if regex_is_match(&self.regex, b.title.as_str()) {
                        assert(start == seq![b@] + self@);
                        assert((seq![b@] + self@).drop_first() =~= self@);
                        return Some(b);
                    }
                },
            }
        }
    }
}

/// Starts a selection, over the document made of `lines`, of the blocks whose
/// title the case-insensitive regular expression `pattern` matches somewhere.
/// A pattern that does not compile fails here, before any block is read.
pub fn select_blocks(pattern: &str, lines: Vec<String>) -> (r: Result<BlockSelector, SelectError>)
    ensures
        r is Ok <==> ci_compiles(pattern@),
        r matches Ok(s) ==> s.wf() && s.pattern() == pattern@ && s@ == selected(
            blocks_of(strings_view(lines@)),
            pattern@,
        ),
        r matches Err(e) ==> e is InvalidPattern,
{
    match build_case_insensitive(pattern) {
        Ok(regex) => {
            let blocks = BlockIterator::new(lines);
            Ok(BlockSelector { blocks, regex, pattern: Ghost(pattern@) })
        },
        Err(e) => Err(SelectError::InvalidPattern(describe_error(&e))),
    }
}

proof fn lemma_select_all_of(bs: Seq<BlockModel>, pattern: Seq<char>)
    requires
        forall|i: int| 0 <= i < bs.len() ==> ci_match(pattern, #[trigger] bs[i].title),
    ensures
        selected(bs, pattern) == bs,
    decreases bs.len(),
{
    if bs.len() > 0 {
        let tail = bs.drop_first();
        assert forall|i: int| 0 <= i < tail.len() implies ci_match(
            pattern,
            #[trigger] tail[i].title,
        ) by {
            assert(tail[i] == bs[i + 1]);
        }
        lemma_select_all_of(tail, pattern);
        assert(ci_match(pattern, bs[0].title));
        assert(seq![bs[0]] + tail =~= bs);
    }
}

/// Selecting with a pattern that matches every text (such as `.*`) hands out
/// exactly the blocks that segmentation alone gives, in the same order.
pub proof fn lemma_select_everything(ls: Seq<Seq<char>>, pattern: Seq<char>)
    requires
        forall|t: Seq<char>| #[trigger] ci_match(pattern, t),
    ensures
        selected(blocks_of(ls), pattern) == blocks_of(ls),
{
    lemma_select_all_of(blocks_of(ls), pattern);
}

} // verus!
