use vstd::prelude::*;

verus! {

/// What a block is, as values: its heading line and its content lines.
pub struct BlockModel {
    pub title: Seq<char>,
    pub content: Seq<Seq<char>>,
}

/// A heading line together with the trimmed, non-blank lines that follow it.
#[derive(Debug, Clone)]
pub struct Block {
    pub title: String,
    pub content: Vec<String>,
}

/// Each string of `v` as its sequence of characters.
pub open spec fn strings_view(v: Seq<String>) -> Seq<Seq<char>> {
    v.map_values(|s: String| s@)
}

impl View for Block {
    type V = BlockModel;

    open spec fn view(&self) -> BlockModel {
        BlockModel { title: self.title@, content: strings_view(self.content@) }
    }
}

/// The lines `ls`, each followed by a newline.
pub open spec fn lines_text(ls: Seq<Seq<char>>) -> Seq<char>
    decreases ls.len(),
{
    if ls.len() == 0 {
        Seq::empty()
    } else {
        lines_text(ls.drop_last()) + ls.last() + seq!['\n']
    }
}

/// A block written out: its title, then each content line, each ending in a newline.
pub open spec fn block_text(b: BlockModel) -> Seq<char> {
    lines_text(seq![b.title] + b.content)
}

impl Block {
    /// The block as text: the title line, then the content lines, each
    /// terminated by a newline.
    pub fn text(&self) -> (r: String)
        ensures
            r@ == block_text(self@),
    {
        let ghost all = seq![self.title@] + strings_view(self.content@);
        let mut text = String::new();
        text.append(self.title.as_str());
        text.append("\n");
        proof {
            reveal_strlit("\n");
            let first = all.subrange(0, 1);
            assert(first.drop_last() =~= Seq::<Seq<char>>::empty());
            assert(first.last() == self.title@);
            assert(lines_text(first.drop_last()) == Seq::<char>::empty());
            assert(lines_text(first) == Seq::<char>::empty() + self.title@ + seq!['\n']);
            assert(text@ =~= lines_text(first));
        }
        let mut i: usize = 0;
        while i < self.content.len()
            invariant
                i <= self.content@.len(),
                all == seq![self.title@] + strings_view(self.content@),
                text@ == lines_text(all.subrange(0, i + 1)),
            decreases self.content@.len() - i,
        {
            text.append(self.content[i].as_str());
            text.append("\n");
            proof {
                reveal_strlit("\n");
                assert(all.subrange(0, i + 2).drop_last() =~= all.subrange(0, i + 1));
            }
            i = i + 1;
        }
        proof {
            assert(all.subrange(0, i + 1) =~= all);
        }
        text
    }
}

} // verus!
