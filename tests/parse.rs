use mdrun::block::CodeBlock;
use mdrun::lines::split_lines;
use mdrun::parser::{ParseError, Parser};

fn parse(text: &str) -> Result<Vec<CodeBlock>, ParseError> {
    let mut parser = Parser::new().expect("both fence patterns compile");
    parser.parse(text)
}

#[test]
fn parses_two_tagged_blocks() {
    let text = "# Title\n```javascript\nconsole.log(1)\n```\ntext\n```python\nprint(2)\nprint(3)\n```\n";
    let blocks = parse(text).unwrap();
    assert_eq!(blocks.len(), 2);
    assert_eq!(blocks[0].lang.as_deref(), Some("javascript"));
    assert_eq!(blocks[0].code, "console.log(1)");
    assert_eq!(blocks[0].start, 1);
    assert_eq!(blocks[1].lang.as_deref(), Some("python"));
    assert_eq!(blocks[1].code, "print(2)\nprint(3)");
    assert_eq!(blocks[1].start, 5);
}

#[test]
fn starts_follow_opening_fences() {
    let text = "```a\nx\n```\n\n```b\ny\n```\nz\n```c\n```";
    let blocks = parse(text).unwrap();
    let starts: Vec<usize> = blocks.iter().map(|b| b.start).collect();
    assert_eq!(starts, vec![0, 4, 8]);
}

#[test]
fn body_lines_are_joined_with_newlines() {
    let blocks = parse("```\na\n\nb\n```").unwrap();
    assert_eq!(blocks[0].code, "a\n\nb");
}

#[test]
fn empty_tag_is_absent() {
    let blocks = parse("```\nx\n```").unwrap();
    assert_eq!(blocks[0].lang, None);
    assert_eq!(blocks[0].get_lang(), "no_lang");
}

#[test]
fn tag_is_taken_verbatim() {
    let blocks = parse("``` python \nx\n```").unwrap();
    assert_eq!(blocks[0].lang.as_deref(), Some(" python "));
}

#[test]
fn empty_body_gives_empty_source() {
    let blocks = parse("```js\n```").unwrap();
    assert_eq!(blocks.len(), 1);
    assert_eq!(blocks[0].code, "");
}

#[test]
fn any_line_with_three_backticks_closes() {
    let blocks = parse("```python\nprint(1)\nsee ``` here\nprint(2)\n").unwrap();
    assert_eq!(blocks.len(), 1);
    assert_eq!(blocks[0].code, "print(1)");
}

#[test]
fn unterminated_block_fails_the_whole_parse() {
    let text = "```js\nok\n```\n```python\nprint(1)\n";
    assert_eq!(parse(text), Err(ParseError::Unterminated));
}

#[test]
fn lone_opening_fence_is_unterminated() {
    assert_eq!(parse("text\n```rust"), Err(ParseError::Unterminated));
}

#[test]
fn document_without_fences_has_no_blocks() {
    assert_eq!(parse("just\ntext\n").unwrap().len(), 0);
    assert_eq!(parse("").unwrap().len(), 0);
}

#[test]
fn indented_fence_does_not_open() {
    let blocks = parse("  ```js\nx\n").unwrap();
    assert_eq!(blocks.len(), 0);
}

#[test]
fn crlf_line_endings_are_split() {
    let blocks = parse("```js\r\nlet a = 1;\r\n```\r\n").unwrap();
    assert_eq!(blocks[0].lang.as_deref(), Some("js"));
    assert_eq!(blocks[0].code, "let a = 1;");
}

#[test]
fn parser_can_be_reused() {
    let mut parser = Parser::new().unwrap();
    assert_eq!(parser.parse("```a\n```").unwrap().len(), 1);
    assert_eq!(parser.parse("x\n```b\ny\n```").unwrap()[0].start, 1);
}

#[test]
fn get_line_follows_the_cursor() {
    let mut parser = Parser::new().unwrap();
    assert_eq!(parser.get_line(), None);
    parser.parse("a\nb").unwrap();
    assert_eq!(parser.get_line(), None);
}

#[test]
fn round_trip_reproduces_the_region() {
    let text = "intro\n```python\nimport sys\n\nprint(sys.argv)\n```\nend";
    let blocks = parse(text).unwrap();
    let b = &blocks[0];
    let lines: Vec<&str> = split_lines(text);
    let mut rewrapped = vec![format!("```{}", b.lang.clone().unwrap_or_default())];
    rewrapped.extend(b.code.split('\n').map(|l| l.to_string()));
    rewrapped.push("```".to_string());
    let region: Vec<String> = lines[b.start..b.start + rewrapped.len()]
        .iter()
        .map(|l| l.to_string())
        .collect();
    assert_eq!(rewrapped, region);
}

#[test]
fn split_lines_matches_std_lines() {
    for text in ["", "a", "a\n", "a\nb", "a\r\nb\r\n", "\n\n", "a\rb\n", "x\r", "\r\n"] {
        let ours: Vec<&str> = split_lines(text);
        let std_lines: Vec<&str> = text.lines().collect();
        assert_eq!(ours, std_lines, "on {:?}", text);
    }
}

#[test]
fn new_parser_always_exists_and_holds_no_line() {
    let parser = Parser::new();
    assert!(parser.is_some());
    assert_eq!(parser.unwrap().get_line(), None);
}

#[test]
fn well_formed_document_has_one_block_per_fence_pair() {
    let text = "a\n```js\nx\n```\nb\n```\n```\n```python\ny\nz\n```\n";
    let lines: Vec<&str> = split_lines(text);
    let fences: Vec<usize> = (0..lines.len()).filter(|&i| lines[i].contains("```")).collect();
    let blocks = parse(text).unwrap();
    assert_eq!(blocks.len(), fences.len() / 2);
    for (k, b) in blocks.iter().enumerate() {
        assert_eq!(b.start, fences[2 * k]);
    }
}
