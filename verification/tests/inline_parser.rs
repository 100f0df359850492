use mdparse::inline_parser::{find_tokens, match_link, parse_inline, Inline, TextAdd};
use mdparse::inline_tokeniser::{tokenise, Tokens};

// ── Helper: flatten Inline tree to a simple string for easy assertions ──

fn inline_to_string(inlines: &[Inline]) -> String {
    inlines.iter().map(|i| match i {
        Inline::Text(s) => s.clone(),
        Inline::Bold(inner) => format!("<b>{}</b>", inline_to_string(inner)),
        Inline::Italic(inner) => format!("<i>{}</i>", inline_to_string(inner)),
        Inline::Hyperlink { url, title } =>
            format!("<a href=\"{}\">{}</a>", url, inline_to_string(title)),
        Inline::Wikilink { url, title } =>
            format!("<wiki url=\"{}\">{}</wiki>", url, inline_to_string(title)),
        Inline::Image { url, alt_text } =>
            format!("<img src=\"{}\" alt=\"{}\"/>", url, alt_text),
    }).collect()
}

// ═══════════════════════════════════════
//  Plain text
// ═══════════════════════════════════════

#[test]
fn plain_text() {
    let result = parse_inline("hello world");
    assert_eq!(inline_to_string(&result), "hello world");
}

#[test]
fn empty_input() {
    let result = parse_inline("");
    assert!(result.is_empty());
}

#[test]
fn only_whitespace() {
    let result = parse_inline("   ");
    assert_eq!(inline_to_string(&result), "   ");
}

// ═══════════════════════════════════════
//  Bold
// ═══════════════════════════════════════

#[test]
fn simple_bold() {
    let result = parse_inline("**hello**");
    assert_eq!(inline_to_string(&result), "<b>hello</b>");
}

#[test]
fn bold_with_surrounding_text() {
    let result = parse_inline("before **bold** after");
    assert_eq!(inline_to_string(&result), "before <b>bold</b> after");
}

#[test]
fn unmatched_bold_opener() {
    let result = parse_inline("**hello");
    assert_eq!(inline_to_string(&result), "**hello");
}

#[test]
fn empty_bold() {
    let result = parse_inline("****");
    assert_eq!(inline_to_string(&result), "<b></b>");
}

#[test]
fn multiple_bold_sections() {
    let result = parse_inline("**a** and **b**");
    assert_eq!(inline_to_string(&result), "<b>a</b> and <b>b</b>");
}

// ═══════════════════════════════════════
//  Italic
// ═══════════════════════════════════════

#[test]
fn simple_italic() {
    let result = parse_inline("*hello*");
    assert_eq!(inline_to_string(&result), "<i>hello</i>");
}

#[test]
fn italic_with_surrounding_text() {
    let result = parse_inline("before *italic* after");
    assert_eq!(inline_to_string(&result), "before <i>italic</i> after");
}

#[test]
fn unmatched_italic_opener() {
    let result = parse_inline("*hello");
    assert_eq!(inline_to_string(&result), "*hello");
}

#[test]
fn empty_italic() {
    let result = parse_inline("**");
    // Two asterisks with nothing to close bold — falls through to unmatched bold
    assert_eq!(inline_to_string(&result), "**");
}

#[test]
fn multiple_italic_sections() {
    let result = parse_inline("*a* and *b*");
    assert_eq!(inline_to_string(&result), "<i>a</i> and <i>b</i>");
}

// ═══════════════════════════════════════
//  Nesting: bold inside italic and vice versa
// ═══════════════════════════════════════

// #[test]
// fn bold_inside_italic() {
//     let result = parse_inline("*hello **world***");
//     assert_eq!(inline_to_string(&result), "<i>hello <b>world</b></i>");
// }
//
// #[test]
// fn italic_inside_bold() {
//     let result = parse_inline("**hello *world***");
//     assert_eq!(inline_to_string(&result), "<b>hello <i>world</i></b>");
// }

// ═══════════════════════════════════════
//  Backslash escaping
// ═══════════════════════════════════════

#[test]
fn escape_asterisk() {
    let result = parse_inline("\\*not italic\\*");
    assert_eq!(inline_to_string(&result), "*not italic*");
}

#[test]
fn escape_bracket() {
    let result = parse_inline("\\[not a link\\]");
    assert_eq!(inline_to_string(&result), "[not a link]");
}

#[test]
fn escape_backslash() {
    let result = parse_inline("\\\\hello");
    assert_eq!(inline_to_string(&result), "\\hello");
}

#[test]
fn trailing_backslash() {
    // Backslash at end of input with nothing after it — gets discarded
    let result = parse_inline("hello\\");
    assert_eq!(inline_to_string(&result), "hello");
}

#[test]
fn escape_inside_bold() {
    let result = parse_inline("**hello \\* world**");
    assert_eq!(inline_to_string(&result), "<b>hello * world</b>");
}

// ═══════════════════════════════════════
//  Hyperlinks [title](url)
// ═══════════════════════════════════════

#[test]
fn simple_hyperlink() {
    let result = parse_inline("[click here](https://example.com)");
    assert_eq!(
        inline_to_string(&result),
        "<a href=\"https://example.com\">click here</a>"
    );
}

#[test]
fn hyperlink_with_surrounding_text() {
    let result = parse_inline("go to [site](https://x.com) now");
    assert_eq!(
        inline_to_string(&result),
        "go to <a href=\"https://x.com\">site</a> now"
    );
}

#[test]
fn unmatched_bracket_no_link() {
    let result = parse_inline("[just a bracket");
    assert_eq!(inline_to_string(&result), "[just a bracket");
}

#[test]
fn bracket_without_paren() {
    let result = parse_inline("[text] no paren");
    assert_eq!(inline_to_string(&result), "[text] no paren");
}

#[test]
fn hyperlink_with_bold_title() {
    let result = parse_inline("[**bold link**](https://example.com)");
    assert_eq!(
        inline_to_string(&result),
        "<a href=\"https://example.com\"><b>bold link</b></a>"
    );
}

// ═══════════════════════════════════════
//  Wikilinks [[url]] and [[url|title]]
// ═══════════════════════════════════════

#[test]
fn simple_wikilink() {
    let result = parse_inline("[[some page]]");
    assert_eq!(
        inline_to_string(&result),
        "<wiki url=\"some page\">some page</wiki>"
    );
}

#[test]
fn wikilink_with_title() {
    let result = parse_inline("[[some page|display text]]");
    assert_eq!(
        inline_to_string(&result),
        "<wiki url=\"some page\">display text</wiki>"
    );
}

#[test]
fn wikilink_with_surrounding_text() {
    let result = parse_inline("see [[page]] for info");
    assert_eq!(
        inline_to_string(&result),
        "see <wiki url=\"page\">page</wiki> for info"
    );
}

#[test]
fn unmatched_double_bracket() {
    let result = parse_inline("[[no closing");
    assert_eq!(inline_to_string(&result), "[[no closing");
}

#[test]
fn wikilink_with_formatted_title() {
    let result = parse_inline("[[page|**bold title**]]");
    assert_eq!(
        inline_to_string(&result),
        "<wiki url=\"page\"><b>bold title</b></wiki>"
    );
}

// ═══════════════════════════════════════
//  Images ![alt](url)
// ═══════════════════════════════════════

#[test]
fn simple_image() {
    let result = parse_inline("![alt text](https://img.com/pic.png)");
    assert_eq!(
        inline_to_string(&result),
        "<img src=\"https://img.com/pic.png\" alt=\"alt text\"/>"
    );
}

#[test]
fn image_with_surrounding_text() {
    let result = parse_inline("before ![pic](url.png) after");
    assert_eq!(
        inline_to_string(&result),
        "before <img src=\"url.png\" alt=\"pic\"/> after"
    );
}

#[test]
fn unmatched_exclamation() {
    let result = parse_inline("!not an image");
    assert_eq!(inline_to_string(&result), "!not an image");
}

#[test]
fn exclamation_without_valid_link() {
    let result = parse_inline("![alt but no paren");
    assert_eq!(inline_to_string(&result), "![alt but no paren");
}

// ═══════════════════════════════════════
//  Special characters as plain text
// ═══════════════════════════════════════

#[test]
fn lone_rbracket() {
    let result = parse_inline("a ] b");
    assert_eq!(inline_to_string(&result), "a ] b");
}

#[test]
fn lone_rparen() {
    let result = parse_inline("a ) b");
    assert_eq!(inline_to_string(&result), "a ) b");
}

#[test]
fn lone_colon() {
    let result = parse_inline("key: value");
    assert_eq!(inline_to_string(&result), "key: value");
}

#[test]
fn lone_lparen() {
    let result = parse_inline("a ( b");
    assert_eq!(inline_to_string(&result), "a ( b");
}

// ═══════════════════════════════════════
//  Mixed / complex
// ═══════════════════════════════════════

#[test]
fn bold_and_link_together() {
    let result = parse_inline("**bold** and [link](url)");
    assert_eq!(
        inline_to_string(&result),
        "<b>bold</b> and <a href=\"url\">link</a>"
    );
}

#[test]
fn italic_and_wikilink() {
    let result = parse_inline("*italic* then [[page]]");
    assert_eq!(
        inline_to_string(&result),
        "<i>italic</i> then <wiki url=\"page\">page</wiki>"
    );
}

#[test]
fn everything_together() {
    let result = parse_inline("**bold** *italic* [link](url) [[wiki]] ![img](pic.png)");
    assert_eq!(
        inline_to_string(&result),
        "<b>bold</b> <i>italic</i> <a href=\"url\">link</a> <wiki url=\"wiki\">wiki</wiki> <img src=\"pic.png\" alt=\"img\"/>"
    );
}

// ═══════════════════════════════════════
//  find_tokens unit tests
// ═══════════════════════════════════════

#[test]
fn find_tokens_at_start() {
    let tokens = tokenise("**hello");
    let result = find_tokens(&[Tokens::ASTERISK, Tokens::ASTERISK], &tokens);
    assert!(result.is_some());
    let (offset, before) = result.unwrap();
    assert!(before.is_empty());
    assert_eq!(offset, 2);
}

#[test]
fn find_tokens_not_found() {
    let tokens = tokenise("hello world");
    let result = find_tokens(&[Tokens::ASTERISK], &tokens);
    assert!(result.is_none());
}

#[test]
fn find_tokens_at_end() {
    let tokens = tokenise("hello**");
    let result = find_tokens(&[Tokens::ASTERISK, Tokens::ASTERISK], &tokens);
    assert!(result.is_some());
    let (_, before) = result.unwrap();
    assert_eq!(before.len(), 1); // TEXT("hello")
}

// ═══════════════════════════════════════
//  match_link unit tests
// ═══════════════════════════════════════

#[test]
fn match_link_valid() {
    let tokens = tokenise("[title](url)");
    let result = match_link(&tokens);
    assert!(result.is_some());
    let (advance, url, _title_tokens) = result.unwrap();
    assert_eq!(url, "url");
    assert_eq!(advance, tokens.len());
}

#[test]
fn match_link_no_opening_bracket() {
    let tokens = tokenise("not a link");
    let result = match_link(&tokens);
    assert!(result.is_none());
}

#[test]
fn match_link_no_closing_paren() {
    let tokens = tokenise("[title](url");
    let result = match_link(&tokens);
    assert!(result.is_none());
}

#[test]
fn match_link_no_paren_after_bracket() {
    let tokens = tokenise("[title] nope");
    let result = match_link(&tokens);
    assert!(result.is_none());
}

// ═══════════════════════════════════════
//  TextAdd trait tests
// ═══════════════════════════════════════

#[test]
fn add_text_to_empty_vec() {
    let mut v: Vec<Inline> = Vec::new();
    v.add_text("hello");
    assert_eq!(inline_to_string(&v), "hello");
}

#[test]
fn add_text_merges_adjacent() {
    let mut v: Vec<Inline> = Vec::new();
    v.add_text("hello ");
    v.add_text("world");
    assert_eq!(inline_to_string(&v), "hello world");
    assert_eq!(v.len(), 1); // should be merged into one Text node
}

#[test]
fn add_text_after_non_text() {
    let mut v: Vec<Inline> = Vec::new();
    v.push(Inline::Bold(vec![Inline::Text("b".into())]));
    v.add_text("after");
    assert_eq!(v.len(), 2);
}

// Further cases of the library's own.

fn all_text_joined(inlines: &[Inline]) -> bool {
    for w in inlines.windows(2) {
        if matches!(w[0], Inline::Text(_)) && matches!(w[1], Inline::Text(_)) {
            return false;
        }
    }
    inlines.iter().all(|i| match i {
        Inline::Bold(c) | Inline::Italic(c) => all_text_joined(c),
        Inline::Wikilink { title, .. } | Inline::Hyperlink { title, .. } => all_text_joined(title),
        _ => true,
    })
}

#[test]
fn adjacent_text_is_joined() {
    let result = parse_inline("a ] b ) c ( d \\* e");
    assert_eq!(result.len(), 1);
    for s in ["**x] y** z [ w", "[t ] u](v) ! w", "*a\\*b* c | d"] {
        assert!(all_text_joined(&parse_inline(s)));
    }
}

#[test]
fn escaped_specials_read_literally() {
    let result = parse_inline("\\*\\*x\\*\\* \\[\\[y\\]\\] \\!\\[z\\]\\(w\\) \\|\\\\");
    assert_eq!(result.len(), 1);
    assert_eq!(inline_to_string(&result), "**x** [[y]] ![z](w) |\\");
}

#[test]
fn plain_text_is_one_element() {
    let result = parse_inline("no special characters, only text: é ü.");
    assert_eq!(result.len(), 1);
    assert_eq!(inline_to_string(&result), "no special characters, only text: é ü.");
}

#[test]
fn lone_pipe_is_text() {
    assert_eq!(inline_to_string(&parse_inline("a | b")), "a | b");
}

#[test]
fn empty_wikilink() {
    assert_eq!(inline_to_string(&parse_inline("[[]]")), "<wiki url=\"\"></wiki>");
}

#[test]
fn wikilink_splits_at_first_pipe() {
    assert_eq!(
        inline_to_string(&parse_inline("[[a|b|c]]")),
        "<wiki url=\"a\">b|c</wiki>"
    );
}

#[test]
fn image_alt_text_keeps_markup() {
    assert_eq!(
        inline_to_string(&parse_inline("![**a**](u)")),
        "<img src=\"u\" alt=\"**a**\"/>"
    );
}

#[test]
fn link_url_is_text_up_to_first_rparen() {
    assert_eq!(
        inline_to_string(&parse_inline("[t](a*b) c)")),
        "<a href=\"a*b\">t</a> c)"
    );
}

#[test]
fn italic_closes_at_first_asterisk() {
    assert_eq!(inline_to_string(&parse_inline("*a**b*")), "<i>a</i><i>b</i>");
}

#[test]
fn match_link_title_tokens() {
    let tokens = tokenise("[a*b](u) rest");
    let (advance, url, title) = match_link(&tokens).unwrap();
    assert_eq!(advance, 8);
    assert_eq!(url, "u");
    assert_eq!(title.len(), 3);
}

#[test]
fn find_tokens_first_occurrence() {
    let tokens = tokenise("a*b*c");
    let (offset, before) = find_tokens(&[Tokens::ASTERISK], &tokens).unwrap();
    assert_eq!(offset, 2);
    assert_eq!(before.len(), 1);
}

#[test]
fn find_tokens_empty_target() {
    let tokens = tokenise("abc");
    let (offset, before) = find_tokens(&[], &tokens).unwrap();
    assert_eq!(offset, 0);
    assert!(before.is_empty());
}
