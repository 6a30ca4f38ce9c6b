use notesel::segment::starts_block;
use notesel::{all_blocks, select_blocks, Block, BlockIterator, SelectError};

fn lines_of(s: &str) -> Vec<String> {
    s.lines().map(|l| l.to_string()).collect()
}

fn pairs(blocks: &[Block]) -> Vec<(String, Vec<String>)> {
    blocks.iter().map(|b| (b.title.clone(), b.content.clone())).collect()
}

fn select_all(pattern: &str, text: &str) -> Result<Vec<Block>, SelectError> {
    let mut selector = select_blocks(pattern, lines_of(text))?;
    let mut out = Vec::new();
    while let Some(b) = selector.next() {
        out.push(b);
    }
    Ok(out)
}

const TWO_BLOCKS: &str = "\
# heading
content

## second heading
more content
### Something else
";

#[test]
fn single_block() {
    let content_s = "\
# heading
content
";
    let mut iter = BlockIterator::new(lines_of(content_s));
    let block = iter.next().unwrap();
    assert_eq!(block.title, "# heading");
    assert_eq!(block.content, vec!["content"]);
    assert!(iter.next().is_none());
}

#[test]
fn two_blocks() {
    let content_s = "\
# heading
content

## second heading
more content
### Something else
";
    let mut iter = BlockIterator::new(lines_of(content_s));
    let block = iter.next().unwrap();
    assert_eq!(block.title, "# heading");
    assert_eq!(block.content, vec!["content"]);
    let block = iter.next().unwrap();
    assert_eq!(block.title, "## second heading");
    assert_eq!(block.content, vec!["more content"]);
    let block = iter.next().unwrap();
    assert_eq!(block.title, "### Something else");
    assert_eq!(block.content, Vec::<String>::new());
    assert!(iter.next().is_none());
}

#[test]
fn leading_blank_lines_are_dropped() {
    let blocks = all_blocks(lines_of("\n\n# h\nx\n"));
    assert_eq!(pairs(&blocks), vec![("# h".to_string(), vec!["x".to_string()])]);
}

#[test]
fn text_before_first_heading_is_dropped() {
    let blocks = all_blocks(lines_of("intro\nmore intro\n# h\nbody\n"));
    assert_eq!(pairs(&blocks), vec![("# h".to_string(), vec!["body".to_string()])]);
}

#[test]
fn no_heading_gives_no_block() {
    assert!(all_blocks(lines_of("just text\n\n  more text\n")).is_empty());
    assert!(all_blocks(Vec::new()).is_empty());
    let mut iter = BlockIterator::new(lines_of("a\nb\n"));
    assert!(iter.next().is_none());
    assert!(iter.next().is_none());
}

#[test]
fn titles_are_the_heading_lines_in_order() {
    let text = "x\n# a\n#b\n  text\n####\n\n## c  \nlast\n";
    let headings: Vec<String> = lines_of(text).into_iter().filter(|l| l.starts_with('#')).collect();
    let titles: Vec<String> = all_blocks(lines_of(text)).into_iter().map(|b| b.title).collect();
    assert_eq!(titles, headings);
    assert_eq!(titles, vec!["# a", "#b", "####", "## c  "]);
}

#[test]
fn content_is_trimmed_and_blank_lines_skipped() {
    let blocks = all_blocks(lines_of("# h\n   \n\t indented text \t\n\n  x\n"));
    assert_eq!(blocks.len(), 1);
    assert_eq!(blocks[0].content, vec!["indented text", "x"]);
    for b in &blocks {
        assert!(b.content.iter().all(|c| !c.trim().is_empty()));
    }
}

#[test]
fn consecutive_headings_have_empty_content() {
    let blocks = all_blocks(lines_of("# a\n## b\n#\n"));
    assert_eq!(
        pairs(&blocks),
        vec![
            ("# a".to_string(), Vec::<String>::new()),
            ("## b".to_string(), Vec::<String>::new()),
            ("#".to_string(), Vec::<String>::new()),
        ]
    );
}

#[test]
fn heading_without_trailing_newline() {
    let blocks = all_blocks(lines_of("# a\nbody\n# last"));
    assert_eq!(blocks.len(), 2);
    assert_eq!(blocks[1].title, "# last");
    assert!(blocks[1].content.is_empty());
}

#[test]
fn title_keeps_its_whitespace() {
    let blocks = all_blocks(lines_of("#  spaced title  \n"));
    assert_eq!(blocks[0].title, "#  spaced title  ");
}

#[test]
fn heading_detection() {
    assert!(starts_block("# a"));
    assert!(starts_block("#"));
    assert!(starts_block("####anything"));
    assert!(!starts_block(" # indented"));
    assert!(!starts_block(""));
    assert!(!starts_block("text # not"));
}

#[test]
fn block_text_lists_title_then_content() {
    let blocks = all_blocks(lines_of(TWO_BLOCKS));
    assert_eq!(blocks[0].text(), "# heading\ncontent\n");
    assert_eq!(blocks[2].text(), "### Something else\n");
    let b = Block { title: "# t".to_string(), content: vec!["a".to_string(), "b".to_string()] };
    assert_eq!(b.text(), "# t\na\nb\n");
}

#[test]
fn select_by_substring() {
    let blocks = select_all("second", TWO_BLOCKS).unwrap();
    assert_eq!(
        pairs(&blocks),
        vec![("## second heading".to_string(), vec!["more content".to_string()])]
    );
}

#[test]
fn select_keeps_document_order() {
    let blocks = select_all("heading", TWO_BLOCKS).unwrap();
    let titles: Vec<String> = blocks.into_iter().map(|b| b.title).collect();
    assert_eq!(titles, vec!["# heading", "## second heading"]);
}

#[test]
fn select_everything_equals_segmentation() {
    let selected = select_all(".*", TWO_BLOCKS).unwrap();
    let all = all_blocks(lines_of(TWO_BLOCKS));
    assert_eq!(pairs(&selected), pairs(&all));
    assert_eq!(selected.len(), 3);
}

#[test]
fn select_ignores_letter_case() {
    let blocks = select_all("## SECOND HEADING", TWO_BLOCKS).unwrap();
    assert_eq!(blocks.len(), 1);
    assert_eq!(blocks[0].title, "## second heading");
    let blocks = select_all("### sOMETHING ELSE", TWO_BLOCKS).unwrap();
    assert_eq!(blocks.len(), 1);
    assert_eq!(blocks[0].title, "### Something else");
}

#[test]
fn select_no_match_gives_nothing() {
    assert!(select_all("absent", TWO_BLOCKS).unwrap().is_empty());
}

#[test]
fn invalid_pattern_fails_before_any_block() {
    match select_all("[unclosed", TWO_BLOCKS) {
        Err(SelectError::InvalidPattern(msg)) => assert!(!msg.is_empty()),
        Ok(_) => panic!("an unbalanced bracket must be refused"),
    }
    assert!(select_blocks("(", Vec::new()).is_err());
}
