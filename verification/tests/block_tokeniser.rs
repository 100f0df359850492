use mdparse::block_tokeniser::{tokenise_blocks, BlockTokens};

/// A compact text form of a block, for assertions.
fn show(b: &BlockTokens) -> String {
    match b {
        BlockTokens::HEADING(t, l) => format!("H{}({})", l, t),
        BlockTokens::CODE(lines, lang) => format!("CODE[{:?}]({})", lang, lines.join("|")),
        BlockTokens::CUSTOM(name, props, content) => {
            let props = match props {
                Some(p) => {
                    let mut keys = vec!["title", "key", "a", "b", "k"];
                    keys.retain(|k| p.get(k).is_some());
                    let parts: Vec<String> = keys.iter().map(|k| format!("{}={}", k, p.get(k).unwrap())).collect();
                    format!("Some({})", parts.join(","))
                }
                None => "None".to_string(),
            };
            format!("CUSTOM({};{};{:?})", name, props, content)
        }
        BlockTokens::BULLET(items) => format!("BULLET({})", items.join("|")),
        BlockTokens::LIST(items) => format!("LIST({})", items.join("|")),
        BlockTokens::PARAGRAPH(t) => format!("P({})", t),
    }
}

fn blocks(input: &str) -> Vec<String> {
    tokenise_blocks(input).iter().map(show).collect()
}

#[test]
fn empty_document() {
    assert!(tokenise_blocks("").is_empty());
}

#[test]
fn single_newline_is_one_empty_paragraph() {
    assert_eq!(blocks("\n"), vec!["P()"]);
}

#[test]
fn headings_of_each_level() {
    assert_eq!(blocks("# One"), vec!["H1(One)"]);
    assert_eq!(blocks("###### Six"), vec!["H6(Six)"]);
    assert_eq!(blocks("## "), vec!["H2()"]);
}

#[test]
fn not_headings() {
    assert_eq!(blocks("####### Seven"), vec!["P(####### Seven)"]);
    assert_eq!(blocks("#nospace"), vec!["P(#nospace)"]);
    assert_eq!(blocks("#"), vec!["P(#)"]);
}

#[test]
fn paragraphs_line_by_line() {
    assert_eq!(blocks("first line\nsecond line"), vec!["P(first line)", "P(second line)"]);
}

#[test]
fn code_block_with_language() {
    assert_eq!(
        blocks("```rust\nlet x = 1;\n# not a heading\n- not a bullet\n```\nafter"),
        vec!["CODE[Some(\"rust\")](let x = 1;|# not a heading|- not a bullet)", "P(after)"]
    );
}

#[test]
fn code_block_without_language_and_unclosed() {
    assert_eq!(blocks("```\nabc\n\ndef"), vec!["CODE[None](abc||def)"]);
}

#[test]
fn empty_code_block() {
    assert_eq!(blocks("```\n```"), vec!["CODE[None]()"]);
}

#[test]
fn bullet_list_then_paragraph() {
    assert_eq!(blocks("- a\n- b\ntext"), vec!["BULLET(a|b)", "P(text)"]);
}

#[test]
fn bullet_list_then_heading() {
    assert_eq!(blocks("- a\n# H"), vec!["BULLET(a)", "H1(H)"]);
}

#[test]
fn bullet_list_at_end() {
    assert_eq!(blocks("- only"), vec!["BULLET(only)"]);
}

#[test]
fn ordered_list() {
    assert_eq!(blocks("1. one\n2. two\n10. ten"), vec!["LIST(one|two|ten)"]);
}

#[test]
fn ordered_list_then_bullets() {
    assert_eq!(blocks("1. one\n- dash"), vec!["LIST(one)", "BULLET(dash)"]);
}

#[test]
fn not_ordered_items() {
    assert_eq!(blocks("a. b"), vec!["P(a. b)"]);
    assert_eq!(blocks(". x"), vec!["P(. x)"]);
    assert_eq!(blocks("1.5. x"), vec!["P(1.5. x)"]);
    assert_eq!(blocks("1.x"), vec!["P(1.x)"]);
}

#[test]
fn inline_custom_block() {
    assert_eq!(blocks("::: note :::"), vec!["CUSTOM(note;None;None)"]);
}

#[test]
fn custom_block_with_props_and_content() {
    assert_eq!(
        blocks("::: card\ntitle: Hello \n\nbody line\nkey: not a prop\n:::\nafter"),
        vec!["CUSTOM(card;Some(title=Hello);Some(\"body line\\nkey: not a prop\"))", "P(after)"]
    );
}

#[test]
fn custom_block_key_set_twice() {
    assert_eq!(blocks("::: c\nk: 1\nk: 2\n:::"), vec!["CUSTOM(c;Some(k=2);None)"]);
}

#[test]
fn custom_block_line_without_colon_starts_content() {
    assert_eq!(blocks("::: x\nno colon here\na: b\n:::"), vec!["CUSTOM(x;None;Some(\"no colon here\\na: b\"))"]);
}

#[test]
fn custom_block_unclosed() {
    assert_eq!(blocks("::: x\na: 1"), vec!["CUSTOM(x;Some(a=1);None)"]);
}

#[test]
fn custom_block_trims_unicode_white_space() {
    assert_eq!(blocks("::: c\n\tkey\t:  value \u{3000}\n:::"), vec!["CUSTOM(c;Some(key=value);None)"]);
}

#[test]
fn custom_block_empty_line_in_content_is_kept() {
    assert_eq!(blocks("::: x\n\na\n\nb\n:::"), vec!["CUSTOM(x;None;Some(\"a\\n\\nb\"))"]);
}

#[test]
fn crlf_line_endings() {
    assert_eq!(blocks("a\r\nb\r\n"), vec!["P(a)", "P(b)"]);
}

#[test]
fn bare_carriage_return_at_end_is_kept() {
    assert_eq!(blocks("a\r"), vec!["P(a\r)"]);
}

#[test]
fn final_newline_adds_no_line() {
    assert_eq!(blocks("a\n"), vec!["P(a)"]);
    assert_eq!(blocks("a\n\n"), vec!["P(a)", "P()"]);
}

#[test]
fn heading_levels_always_in_range() {
    let doc = "# a\n## b\n### c\n#### d\n##### e\n###### f\n####### g\n#";
    for b in tokenise_blocks(doc) {
        if let BlockTokens::HEADING(_, l) = b {
            assert!((1..=6).contains(&l));
        }
    }
}

#[test]
fn lists_never_empty() {
    let doc = "- a\n1. b\n- c\n\n2. d";
    for b in tokenise_blocks(doc) {
        match b {
            BlockTokens::BULLET(items) | BlockTokens::LIST(items) => assert!(!items.is_empty()),
            _ => {}
        }
    }
}

#[test]
fn code_block_keeps_lines_verbatim() {
    assert_eq!(
        blocks("```py\n::: x :::\n``` not a fence\n  1. x\n```\n- rest"),
        vec!["CODE[Some(\"py\")](::: x :::|``` not a fence|  1. x)", "BULLET(rest)"]
    );
}

#[test]
fn custom_block_without_props_has_none() {
    match &tokenise_blocks("::: x\n:::")[0] {
        BlockTokens::CUSTOM(name, props, content) => {
            assert_eq!(name, "x");
            assert!(props.is_none());
            assert!(content.is_none());
        }
        _ => panic!("expected a custom block"),
    }
}

#[test]
fn custom_block_props_are_given_only_when_not_empty() {
    for doc in ["::: x\n:::", "::: x\na: 1\n:::", "::: x :::", "::: x\n\nbody"] {
        for b in tokenise_blocks(doc) {
            if let BlockTokens::CUSTOM(_, Some(p), _) = b {
                assert!(!p.is_empty());
                assert!(p.len() >= 1);
            }
        }
    }
}

#[test]
fn splitting_after_a_paragraph_or_heading() {
    for (a, b) in [("para", "- x\n- y"), ("# H", "```\ncode"), ("- a\ntext", "::: c\nk: v")] {
        let joined = format!("{}\n{}", a, b);
        let mut expected = blocks(a);
        expected.extend(blocks(b));
        assert_eq!(blocks(&joined), expected);
    }
}

#[test]
fn at_most_one_block_per_line() {
    for doc in ["- a\npara", "1. a\n# h\n- b\n```\nx", "::: c :::\n\n\n", "a\r\nb\n"] {
        assert!(tokenise_blocks(doc).len() <= doc.lines().count());
    }
}

#[test]
fn trimming_keeps_letters_and_drops_unicode_spaces() {
    assert_eq!(
        blocks("::: c\n\u{2003}title\u{a0}: \u{85}éH o\u{2029}\n:::"),
        vec!["CUSTOM(c;Some(title=éH o);None)"]
    );
}
