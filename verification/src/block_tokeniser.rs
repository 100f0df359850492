use vstd::prelude::*;

use crate::props::PropMap;
use crate::text::{
    chars_of, ends_with, has_prefix, has_suffix, join_lines, join_with_newlines, slice_range,
    starts_with, string_of, strings_view, trim, trimmed,
};

verus! {

/// A block of a markdown document.
#[derive(Debug)]
pub enum BlockTokens {
    /// A heading: its title and its level, from 1 to 6.
    HEADING(String, u8),
    /// A fenced code block: its lines and its language, if one is given.
    CODE(Vec<String>, Option<String>),
    /// A custom block: its name, its properties and its content.
    CUSTOM(String, Option<PropMap>, Option<String>),
    /// A bullet list: its items.
    BULLET(Vec<String>),
    /// An ordered list: its items.
    LIST(Vec<String>),
    /// A paragraph: its line.
    PARAGRAPH(String),
}

/// The mathematical value of a block.
pub enum Block {
    Heading(Seq<char>, u8),
    Code(Seq<Seq<char>>, Option<Seq<char>>),
    Custom(Seq<char>, Option<Map<Seq<char>, Seq<char>>>, Option<Seq<char>>),
    Bullet(Seq<Seq<char>>),
    List(Seq<Seq<char>>),
    Paragraph(Seq<char>),
}

pub open spec fn opt_string_view(o: Option<String>) -> Option<Seq<char>> {
    match o {
        Some(s) => Some(s@),
        None => None,
    }
}

pub open spec fn opt_props_view(o: Option<PropMap>) -> Option<Map<Seq<char>, Seq<char>>> {
    match o {
        Some(m) => Some(m@),
        None => None,
    }
}

impl View for BlockTokens {
    type V = Block;

    open spec fn view(&self) -> Block {
        match *self {
            BlockTokens::HEADING(t, l) => Block::Heading(t@, l),
            BlockTokens::CODE(c, lang) => Block::Code(strings_view(c@), opt_string_view(lang)),
            BlockTokens::CUSTOM(n, p, c) => Block::Custom(n@, opt_props_view(p), opt_string_view(c)),
            BlockTokens::BULLET(items) => Block::Bullet(strings_view(items@)),
            BlockTokens::LIST(items) => Block::List(strings_view(items@)),
            BlockTokens::PARAGRAPH(t) => Block::Paragraph(t@),
        }
    }
}

/// The values of a sequence of blocks.
pub open spec fn blocks_view(v: Seq<BlockTokens>) -> Seq<Block> {
    v.map_values(|b: BlockTokens| b@)
}

/// Where the reading of a document stands between two lines.
pub enum LineState {
    Default,
    InCode { lang: Option<Seq<char>>, content: Seq<Seq<char>> },
    InBullet { items: Seq<Seq<char>> },
    InOrdered { items: Seq<Seq<char>> },
    InCustom {
        name: Seq<char>,
        props: Map<Seq<char>, Seq<char>>,
        content: Seq<Seq<char>>,
        in_content: bool,
    },
}

pub open spec fn fence() -> Seq<char> {
    seq!['`', '`', '`']
}

pub open spec fn bullet_mark() -> Seq<char> {
    seq!['-', ' ']
}

pub open spec fn custom_open() -> Seq<char> {
    seq![':', ':', ':', ' ']
}

pub open spec fn custom_inline_close() -> Seq<char> {
    seq![' ', ':', ':', ':']
}

pub open spec fn custom_close() -> Seq<char> {
    seq![':', ':', ':']
}

/// The number of `#` at the start of `s`.
pub open spec fn leading_hashes(s: Seq<char>) -> nat
    decreases s.len(),
{
    if s.len() > 0 && s[0] == '#' {
        1 + leading_hashes(s.drop_first())
    } else {
        0
    }
}

/// A heading line: one to six `#`, a space, and the title.
pub open spec fn heading(line: Seq<char>) -> Option<(Seq<char>, nat)> {
    let level = leading_hashes(line);
    if line.len() > 0 && line[0] == '#' && level <= 6 && level < line.len() && line[level as int] == ' ' {
        Some((line.skip(level as int + 1), level))
    } else {
        None
    }
}

/// The first position at or after `i` of `. ` in `s`.
pub open spec fn first_dot_space(s: Seq<char>, i: int) -> Option<int>
    decreases s.len() - i,
{
    if i < 0 || i + 1 >= s.len() {
        None
    } else if s[i] == '.' && s[i + 1] == ' ' {
        Some(i)
    } else {
        first_dot_space(s, i + 1)
    }
}

pub open spec fn is_digit(c: char) -> bool {
    '0' <= c && c <= '9'
}

pub open spec fn all_digits(s: Seq<char>) -> bool {
    forall|k: int| 0 <= k < s.len() ==> is_digit(#[trigger] s[k])
}

/// An ordered list item: digits, then `. `, then the item, where the digits end at
/// the first `. ` of the line.
pub open spec fn ordered_item(line: Seq<char>) -> Option<Seq<char>> {
    match first_dot_space(line, 0) {
        Some(d) => if d > 0 && all_digits(line.take(d)) {
            Some(line.skip(d + 2))
        } else {
            None
        },
        None => None,
    }
}

/// The first position at or after `i` of `c` in `s`.
pub open spec fn first_of(s: Seq<char>, c: char, i: int) -> Option<int>
    decreases s.len() - i,
{
    if i < 0 || i >= s.len() {
        None
    } else if s[i] == c {
        Some(i)
    } else {
        first_of(s, c, i + 1)
    }
}

pub proof fn lemma_first_of(s: Seq<char>, c: char, i: int)
    requires
        0 <= i,
    ensures
        first_of(s, c, i) matches Some(j) ==> i <= j < s.len() && s[j] == c && forall|k: int|
            i <= k < j ==> s[k] != c,
        first_of(s, c, i) is None ==> forall|k: int| i <= k < s.len() ==> s[k] != c,
    decreases s.len() - i,
{
    if i < s.len() && s[i] != c {
        lemma_first_of(s, c, i + 1);
    }
}

/// Searching from `i` in `s` is searching from 0 in what follows `i`.
pub proof fn lemma_first_of_shift(s: Seq<char>, c: char, i: int)
    requires
        0 <= i <= s.len(),
    ensures
        first_of(s, c, i) matches Some(j) ==> first_of(s.skip(i), c, 0) == Some(j - i),
        first_of(s, c, i) is None ==> first_of(s.skip(i), c, 0) is None,
{
    lemma_first_of(s, c, i);
    lemma_first_of(s.skip(i), c, 0);
    if let Some(j) = first_of(s, c, i) {
        if let Some(k) = first_of(s.skip(i), c, 0) {
            assert(s.skip(i)[j - i] == c);
            assert(s[k + i] == c);
        } else {
            assert(s.skip(i)[j - i] == c);
        }
    } else {
        if let Some(k) = first_of(s.skip(i), c, 0) {
            assert(s[k + i] == c);
        }
    }
}

pub open spec fn opt_nonempty(s: Seq<char>) -> Option<Seq<char>> {
    if s.len() == 0 {
        None
    } else {
        Some(s)
    }
}

/// How a line is read outside any block: what state follows and what block, if any, it makes.
pub open spec fn default_line(line: Seq<char>) -> (LineState, Option<Block>) {
    if has_prefix(line, fence()) {
        (LineState::InCode { lang: opt_nonempty(line.skip(3)), content: seq![] }, None)
    } else if heading(line) is Some {
        let (title, level) = heading(line)->0;
        (LineState::Default, Some(Block::Heading(title, level as u8)))
    } else if has_prefix(line, bullet_mark()) {
        (LineState::InBullet { items: seq![line.skip(2)] }, None)
    } else if has_prefix(line, custom_open()) {
        let component = line.skip(4);
        if has_suffix(component, custom_inline_close()) {
            (LineState::Default, Some(Block::Custom(component.take(component.len() - 4), None, None)))
        } else {
            (
                LineState::InCustom {
                    name: component,
                    props: Map::empty(),
                    content: seq![],
                    in_content: false,
                },
                None,
            )
        }
    } else if ordered_item(line) is Some {
        (LineState::InOrdered { items: seq![ordered_item(line)->0] }, None)
    } else {
        (LineState::Default, Some(Block::Paragraph(line)))
    }
}

pub open spec fn opt_seq(b: Option<Block>) -> Seq<Block> {
    match b {
        Some(b) => seq![b],
        None => seq![],
    }
}

/// The block a custom block makes when it ends.
pub open spec fn custom_block(
    name: Seq<char>,
    props: Map<Seq<char>, Seq<char>>,
    content: Seq<Seq<char>>,
) -> Block {
    Block::Custom(
        name,
        if props == Map::<Seq<char>, Seq<char>>::empty() {
            None
        } else {
            Some(props)
        },
        if content.len() == 0 {
            None
        } else {
            Some(join_lines(content))
        },
    )
}

/// Reading one line in a state: the next state and the blocks that the line completes.
pub open spec fn step(state: LineState, line: Seq<char>) -> (LineState, Seq<Block>) {
    match state {
        LineState::Default => {
            let (next, b) = default_line(line);
            (next, opt_seq(b))
        },
        LineState::InCode { lang, content } => if line == fence() {
            (LineState::Default, seq![Block::Code(content, lang)])
        } else {
            (LineState::InCode { lang, content: content.push(line) }, seq![])
        },
        LineState::InBullet { items } => if has_prefix(line, bullet_mark()) {
            (LineState::InBullet { items: items.push(line.skip(2)) }, seq![])
        } else {
            let (next, b) = default_line(line);
            (next, seq![Block::Bullet(items)] + opt_seq(b))
        },
        LineState::InOrdered { items } => match ordered_item(line) {
            Some(item) => (LineState::InOrdered { items: items.push(item) }, seq![]),
            None => {
                let (next, b) = default_line(line);
                (next, seq![Block::List(items)] + opt_seq(b))
            },
        },
        LineState::InCustom { name, props, content, in_content } => if line == custom_close() {
            (LineState::Default, seq![custom_block(name, props, content)])
        } else if in_content || line.len() == 0 {
            if !in_content && line.len() == 0 {
                (LineState::InCustom { name, props, content, in_content: true }, seq![])
            } else {
                (LineState::InCustom { name, props, content: content.push(line), in_content }, seq![])
            }
        } else {
            match first_of(line, ':', 0) {
                Some(c) => (
                    LineState::InCustom {
                        name,
                        props: props.insert(trim(line.take(c)), trim(line.skip(c + 1))),
                        content,
                        in_content,
                    },
                    seq![],
                ),
                None => (
                    LineState::InCustom { name, props, content: content.push(line), in_content: true },
                    seq![],
                ),
            }
        },
    }
}

/// The block that an open state makes when the input ends.
pub open spec fn flush(state: LineState) -> Seq<Block> {
    match state {
        LineState::Default => seq![],
        LineState::InCode { lang, content } => seq![Block::Code(content, lang)],
        LineState::InBullet { items } => seq![Block::Bullet(items)],
        LineState::InOrdered { items } => seq![Block::List(items)],
        LineState::InCustom { name, props, content, .. } => seq![custom_block(name, props, content)],
    }
}

/// The blocks of `lines`, read from `state` on.
pub open spec fn blocks_of(lines: Seq<Seq<char>>, state: LineState) -> Seq<Block>
    decreases lines.len(),
{
    if lines.len() == 0 {
        flush(state)
    } else {
        let (next, out) = step(state, lines[0]);
        out + blocks_of(lines.drop_first(), next)
    }
}

/// `line` without a carriage return at its end.
pub open spec fn strip_cr(line: Seq<char>) -> Seq<char> {
    if line.len() > 0 && line.last() == '\r' {
        line.drop_last()
    } else {
        line
    }
}

/// The lines of `s`, as `str::lines` gives them: split at each `\n`, a `\r` just before
/// a `\n` removed, and no empty line after a final `\n`.
pub open spec fn spec_lines(s: Seq<char>) -> Seq<Seq<char>>
    decreases s.len(),
{
    if s.len() == 0 {
        seq![]
    } else {
        match first_of(s, '\n', 0) {
            Some(j) => {
                proof {
                    lemma_first_of(s, '\n', 0);
                }
                seq![strip_cr(s.take(j))] + spec_lines(s.skip(j + 1))
            },
            None => seq![s],
        }
    }
}

/// The blocks of a markdown document.
pub open spec fn spec_tokenise_blocks(input: Seq<char>) -> Seq<Block> {
    blocks_of(spec_lines(input), LineState::Default)
}


/// What every block of a document satisfies: a heading's level is 1 to 6, a list has at
/// least one item, and the properties of a custom block, when given, are not empty.
pub open spec fn block_ok(b: Block) -> bool {
    match b {
        Block::Heading(_, level) => 1 <= level <= 6,
        Block::Bullet(items) => items.len() >= 1,
        Block::List(items) => items.len() >= 1,
        Block::Custom(_, props, _) => props != Some(Map::<Seq<char>, Seq<char>>::empty()),
        _ => true,
    }
}

pub open spec fn blocks_ok(bs: Seq<Block>) -> bool {
    forall|i: int| 0 <= i < bs.len() ==> block_ok(#[trigger] bs[i])
}

/// An open list has at least one item.
pub open spec fn state_ok(st: LineState) -> bool {
    match st {
        LineState::InBullet { items } => items.len() >= 1,
        LineState::InOrdered { items } => items.len() >= 1,
        _ => true,
    }
}

proof fn lemma_blocks_ok_concat(a: Seq<Block>, b: Seq<Block>)
    requires
        blocks_ok(a),
        blocks_ok(b),
    ensures
        blocks_ok(a + b),
{
    assert forall|i: int| 0 <= i < (a + b).len() implies block_ok(#[trigger] (a + b)[i]) by {
        if i < a.len() {
            assert((a + b)[i] == a[i]);
        } else {
            assert((a + b)[i] == b[i - a.len()]);
        }
    }
}

proof fn lemma_default_line_ok(line: Seq<char>)
    ensures
        state_ok(default_line(line).0),
        blocks_ok(opt_seq(default_line(line).1)),
{
    if !has_prefix(line, fence()) && heading(line) is Some {
        assert(leading_hashes(line) >= 1);
    }
}

proof fn lemma_step_ok(st: LineState, line: Seq<char>)
    requires
        state_ok(st),
    ensures
        state_ok(step(st, line).0),
        blocks_ok(step(st, line).1),
{
    lemma_default_line_ok(line);
    match st {
        LineState::InBullet { items } => {
            if !has_prefix(line, bullet_mark()) {
                lemma_blocks_ok_concat(seq![Block::Bullet(items)], opt_seq(default_line(line).1));
            }
        },
        LineState::InOrdered { items } => {
            if ordered_item(line) is None {
                lemma_blocks_ok_concat(seq![Block::List(items)], opt_seq(default_line(line).1));
            }
        },
        _ => {},
    }
}

proof fn lemma_blocks_of_ok(lines: Seq<Seq<char>>, st: LineState)
    requires
        state_ok(st),
    ensures
        blocks_ok(blocks_of(lines, st)),
    decreases lines.len(),
{
    if lines.len() > 0 {
        lemma_step_ok(st, lines[0]);
        let (next, out) = step(st, lines[0]);
        lemma_blocks_of_ok(lines.drop_first(), next);
        lemma_blocks_ok_concat(out, blocks_of(lines.drop_first(), next));
    }
}

/// Every block of every document satisfies `block_ok`.
pub proof fn lemma_blocks_ok(input: Seq<char>)
    ensures
        blocks_ok(spec_tokenise_blocks(input)),
{
    lemma_blocks_of_ok(spec_lines(input), LineState::Default);
}

proof fn lemma_code_body(lang: Option<Seq<char>>, content: Seq<Seq<char>>, body: Seq<Seq<char>>, rest: Seq<Seq<char>>)
    requires
        forall|k: int| 0 <= k < body.len() ==> body[k] != fence(),
    ensures
        blocks_of(body + seq![fence()] + rest, LineState::InCode { lang, content }) == seq![
            Block::Code(content + body, lang),
        ] + blocks_of(rest, LineState::Default),
    decreases body.len(),
{
    let lines = body + seq![fence()] + rest;
    if body.len() == 0 {
        assert(lines =~= seq![fence()] + rest);
        assert(lines.drop_first() =~= rest);
        assert(content + body =~= content);
        assert(seq![Block::Code(content, lang)] + blocks_of(rest, LineState::Default) =~= seq![
            Block::Code(content, lang),
        ] + blocks_of(rest, LineState::Default));
    } else {
        assert(lines[0] == body[0]);
        assert(lines.drop_first() =~= body.drop_first() + seq![fence()] + rest);
        assert forall|k: int| 0 <= k < body.drop_first().len() implies body.drop_first()[k] != fence() by {
            assert(body.drop_first()[k] == body[k + 1]);
        }
        lemma_code_body(lang, content.push(body[0]), body.drop_first(), rest);
        assert(content.push(body[0]) + body.drop_first() =~= content + body);
        assert(Seq::<Block>::empty() + blocks_of(lines.drop_first(), LineState::InCode { lang, content: content.push(body[0]) })
            =~= blocks_of(lines.drop_first(), LineState::InCode { lang, content: content.push(body[0]) }));
    }
}

/// A fenced code block keeps its lines as they are: after a line that opens a fence, every
/// line up to the next line that is exactly a fence belongs to the block, whatever it holds.
pub proof fn lemma_code_block_verbatim(lang: Seq<char>, body: Seq<Seq<char>>, rest: Seq<Seq<char>>)
    requires
        forall|k: int| 0 <= k < body.len() ==> body[k] != fence(),
    ensures
        blocks_of(seq![fence() + lang] + body + seq![fence()] + rest, LineState::Default) == seq![
            Block::Code(body, opt_nonempty(lang)),
        ] + blocks_of(rest, LineState::Default),
{
    let opening = fence() + lang;
    let lines = seq![opening] + body + seq![fence()] + rest;
    assert(opening.take(3) =~= fence());
    assert(opening.skip(3) =~= lang);
    assert(lines[0] == opening);
    assert(lines.drop_first() =~= body + seq![fence()] + rest);
    lemma_code_body(opt_nonempty(lang), seq![], body, rest);
    assert(Seq::<Seq<char>>::empty() + body =~= body);
    assert(Seq::<Block>::empty() + blocks_of(lines.drop_first(), LineState::InCode { lang: opt_nonempty(lang), content: seq![] })
        =~= blocks_of(lines.drop_first(), LineState::InCode { lang: opt_nonempty(lang), content: seq![] }));
}

/// A line that does not continue an open bullet list: the list ends before it, and the line
/// is read as if no block were open.
proof fn lemma_bullet_end(items: Seq<Seq<char>>, rest: Seq<Seq<char>>)
    requires
        rest.len() > 0 ==> !has_prefix(rest[0], bullet_mark()),
    ensures
        blocks_of(rest, LineState::InBullet { items }) == seq![Block::Bullet(items)] + blocks_of(
            rest,
            LineState::Default,
        ),
{
    if rest.len() > 0 {
        let (next, b) = default_line(rest[0]);
        assert(seq![Block::Bullet(items)] + opt_seq(b) + blocks_of(rest.drop_first(), next) =~= seq![
            Block::Bullet(items),
        ] + (opt_seq(b) + blocks_of(rest.drop_first(), next)));
    }
}

/// The lines of a bullet list: each item after `- `.
pub open spec fn bullet_lines(items: Seq<Seq<char>>) -> Seq<Seq<char>> {
    items.map_values(|item: Seq<char>| bullet_mark() + item)
}

proof fn lemma_bullet_body(
    items: Seq<Seq<char>>,
    more: Seq<Seq<char>>,
    rest: Seq<Seq<char>>,
)
    requires
        rest.len() > 0 ==> !has_prefix(rest[0], bullet_mark()),
    ensures
        blocks_of(bullet_lines(more) + rest, LineState::InBullet { items }) == seq![
            Block::Bullet(items + more),
        ] + blocks_of(rest, LineState::Default),
    decreases more.len(),
{
    let lines = bullet_lines(more) + rest;
    if more.len() == 0 {
        assert(lines =~= rest);
        assert(items + more =~= items);
        lemma_bullet_end(items, rest);
    } else {
        let first = bullet_mark() + more[0];
        assert(lines[0] == first);
        assert(first.take(2) =~= bullet_mark());
        assert(first.skip(2) =~= more[0]);
        assert(lines.drop_first() =~= bullet_lines(more.drop_first()) + rest);
        lemma_bullet_body(items.push(more[0]), more.drop_first(), rest);
        assert(items.push(more[0]) + more.drop_first() =~= items + more);
        assert(Seq::<Block>::empty() + blocks_of(lines.drop_first(), LineState::InBullet { items: items.push(more[0]) })
            =~= blocks_of(lines.drop_first(), LineState::InBullet { items: items.push(more[0]) }));
    }
}

/// Consecutive `- ` lines form one bullet list, which ends at the first line that is not
/// one of them; that line is then read as if no block were open.
pub proof fn lemma_bullet_list(items: Seq<Seq<char>>, rest: Seq<Seq<char>>)
    requires
        items.len() >= 1,
        rest.len() > 0 ==> !has_prefix(rest[0], bullet_mark()),
    ensures
        blocks_of(bullet_lines(items) + rest, LineState::Default) == seq![Block::Bullet(items)]
            + blocks_of(rest, LineState::Default),
{
    let lines = bullet_lines(items) + rest;
    let first = bullet_mark() + items[0];
    assert(lines[0] == first);
    assert(first.take(2) =~= bullet_mark());
    assert(first.skip(2) =~= items[0]);
    assert(!has_prefix(first, fence()));
    assert(first[0] == '-');
    assert(heading(first) is None);
    assert(lines.drop_first() =~= bullet_lines(items.drop_first()) + rest);
    lemma_bullet_body(seq![items[0]], items.drop_first(), rest);
    assert(seq![items[0]] + items.drop_first() =~= items);
    assert(Seq::<Block>::empty() + blocks_of(lines.drop_first(), LineState::InBullet { items: seq![items[0]] })
        =~= blocks_of(lines.drop_first(), LineState::InBullet { items: seq![items[0]] }));
}

/// The items of lines that are all ordered list items.
pub open spec fn ordered_items(lines: Seq<Seq<char>>) -> Seq<Seq<char>> {
    lines.map_values(|line: Seq<char>| ordered_item(line)->0)
}

pub open spec fn all_ordered(lines: Seq<Seq<char>>) -> bool {
    forall|k: int| 0 <= k < lines.len() ==> #[trigger] ordered_item(lines[k]) is Some
}

proof fn lemma_ordered_body(items: Seq<Seq<char>>, more: Seq<Seq<char>>, rest: Seq<Seq<char>>)
    requires
        all_ordered(more),
        rest.len() > 0 ==> ordered_item(rest[0]) is None,
    ensures
        blocks_of(more + rest, LineState::InOrdered { items }) == seq![
            Block::List(items + ordered_items(more)),
        ] + blocks_of(rest, LineState::Default),
    decreases more.len(),
{
    let lines = more + rest;
    if more.len() == 0 {
        assert(lines =~= rest);
        assert(items + ordered_items(more) =~= items);
        if rest.len() > 0 {
            let (next, b) = default_line(rest[0]);
            assert(seq![Block::List(items)] + opt_seq(b) + blocks_of(rest.drop_first(), next) =~= seq![
                Block::List(items),
            ] + (opt_seq(b) + blocks_of(rest.drop_first(), next)));
        }
    } else {
        assert(lines[0] == more[0]);
        assert(ordered_item(more[0]) is Some);
        assert(lines.drop_first() =~= more.drop_first() + rest);
        assert(all_ordered(more.drop_first())) by {
            assert forall|k: int| 0 <= k < more.drop_first().len() implies #[trigger] ordered_item(
                more.drop_first()[k],
            ) is Some by {
                assert(more.drop_first()[k] == more[k + 1]);
            }
        }
        let item = ordered_item(more[0])->0;
        lemma_ordered_body(items.push(item), more.drop_first(), rest);
        assert(items.push(item) + ordered_items(more.drop_first()) =~= items + ordered_items(more));
        assert(Seq::<Block>::empty() + blocks_of(lines.drop_first(), LineState::InOrdered { items: items.push(item) })
            =~= blocks_of(lines.drop_first(), LineState::InOrdered { items: items.push(item) }));
    }
}

proof fn lemma_first_dot_space(s: Seq<char>, i: int)
    requires
        0 <= i,
    ensures
        first_dot_space(s, i) matches Some(d) ==> i <= d && d + 1 < s.len(),
    decreases s.len() - i,
{
    if i + 1 < s.len() && !(s[i] == '.' && s[i + 1] == ' ') {
        lemma_first_dot_space(s, i + 1);
    }
}

/// Consecutive numbered lines (`1. item`) form one ordered list, which ends at the first
/// line that is not one; that line is then read as if no block were open.
pub proof fn lemma_ordered_list(lines: Seq<Seq<char>>, rest: Seq<Seq<char>>)
    requires
        lines.len() >= 1,
        all_ordered(lines),
        rest.len() > 0 ==> ordered_item(rest[0]) is None,
    ensures
        blocks_of(lines + rest, LineState::Default) == seq![Block::List(ordered_items(lines))]
            + blocks_of(rest, LineState::Default),
{
    let all = lines + rest;
    let first = lines[0];
    assert(all[0] == first);
    assert(ordered_item(first) is Some);
    lemma_first_dot_space(first, 0);
    let d = first_dot_space(first, 0)->0;
    assert(is_digit(first.take(d)[0]));
    assert(first[0] == first.take(d)[0]);
    if first.len() >= 3 {
        assert(first.take(3)[0] == first[0]);
    }
    if first.len() >= 2 {
        assert(first.take(2)[0] == first[0]);
    }
    if first.len() >= 4 {
        assert(first.take(4)[0] == first[0]);
    }
    assert(!has_prefix(first, fence()));
    assert(heading(first) is None);
    assert(!has_prefix(first, bullet_mark()));
    assert(!has_prefix(first, custom_open()));
    let item = ordered_item(first)->0;
    assert(default_line(first) == (LineState::InOrdered { items: seq![item] }, None::<Block>));
    assert(all.drop_first() =~= lines.drop_first() + rest);
    assert(all_ordered(lines.drop_first())) by {
        assert forall|k: int| 0 <= k < lines.drop_first().len() implies #[trigger] ordered_item(
            lines.drop_first()[k],
        ) is Some by {
            assert(lines.drop_first()[k] == lines[k + 1]);
        }
    }
    lemma_ordered_body(seq![item], lines.drop_first(), rest);
    assert(seq![item] + ordered_items(lines.drop_first()) =~= ordered_items(lines));
    assert(Seq::<Block>::empty() + blocks_of(all.drop_first(), LineState::InOrdered { items: seq![item] })
        =~= blocks_of(all.drop_first(), LineState::InOrdered { items: seq![item] }));
}

/// Whether a block is open in `st`.
pub open spec fn open_count(st: LineState) -> nat {
    if st == LineState::Default {
        0
    } else {
        1
    }
}

proof fn lemma_step_count(st: LineState, line: Seq<char>)
    ensures
        step(st, line).1.len() + open_count(step(st, line).0) <= 1 + open_count(st),
{
}

proof fn lemma_blocks_of_count(lines: Seq<Seq<char>>, st: LineState)
    ensures
        blocks_of(lines, st).len() <= lines.len() + open_count(st),
    decreases lines.len(),
{
    if lines.len() > 0 {
        lemma_step_count(st, lines[0]);
        lemma_blocks_of_count(lines.drop_first(), step(st, lines[0]).0);
    }
}

/// A document has at most one block for each of its lines.
pub proof fn lemma_blocks_count(input: Seq<char>)
    ensures
        spec_tokenise_blocks(input).len() <= spec_lines(input).len(),
{
    lemma_blocks_of_count(spec_lines(input), LineState::Default);
}

/// The blocks that `lines` complete, read from `state` on, before the input ends.
pub open spec fn run_blocks(lines: Seq<Seq<char>>, state: LineState) -> Seq<Block>
    decreases lines.len(),
{
    if lines.len() == 0 {
        seq![]
    } else {
        let (next, out) = step(state, lines[0]);
        out + run_blocks(lines.drop_first(), next)
    }
}

/// The state after reading `lines` from `state` on.
pub open spec fn run_state(lines: Seq<Seq<char>>, state: LineState) -> LineState
    decreases lines.len(),
{
    if lines.len() == 0 {
        state
    } else {
        run_state(lines.drop_first(), step(state, lines[0]).0)
    }
}

proof fn lemma_blocks_of_run(lines: Seq<Seq<char>>, st: LineState)
    ensures
        blocks_of(lines, st) == run_blocks(lines, st) + flush(run_state(lines, st)),
    decreases lines.len(),
{
    if lines.len() == 0 {
        assert(Seq::<Block>::empty() + flush(st) =~= flush(st));
    } else {
        let (next, out) = step(st, lines[0]);
        lemma_blocks_of_run(lines.drop_first(), next);
        assert(out + (run_blocks(lines.drop_first(), next) + flush(run_state(lines.drop_first(), next)))
            =~= out + run_blocks(lines.drop_first(), next) + flush(run_state(lines.drop_first(), next)));
    }
}

proof fn lemma_blocks_of_concat(l1: Seq<Seq<char>>, l2: Seq<Seq<char>>, st: LineState)
    ensures
        blocks_of(l1 + l2, st) == run_blocks(l1, st) + blocks_of(l2, run_state(l1, st)),
    decreases l1.len(),
{
    if l1.len() == 0 {
        assert(l1 + l2 =~= l2);
        assert(Seq::<Block>::empty() + blocks_of(l2, st) =~= blocks_of(l2, st));
    } else {
        let (next, out) = step(st, l1[0]);
        assert((l1 + l2)[0] == l1[0]);
        assert((l1 + l2).drop_first() =~= l1.drop_first() + l2);
        lemma_blocks_of_concat(l1.drop_first(), l2, next);
        assert(out + (run_blocks(l1.drop_first(), next) + blocks_of(l2, run_state(l1.drop_first(), next)))
            =~= out + run_blocks(l1.drop_first(), next) + blocks_of(l2, run_state(l1.drop_first(), next)));
    }
}

/// The lines of `a`, a newline and `b` are the lines of `a` and then those of `b`, when
/// `a` is not empty and ends in neither `\n` nor `\r`.
pub proof fn lemma_lines_concat(a: Seq<char>, b: Seq<char>)
    requires
        a.len() > 0,
        a.last() != '\n',
        a.last() != '\r',
    ensures
        spec_lines(a + seq!['\n'] + b) == spec_lines(a) + spec_lines(b),
    decreases a.len(),
{
    let s = a + seq!['\n'] + b;
    lemma_first_of(a, '\n', 0);
    lemma_first_of(s, '\n', 0);
    match first_of(a, '\n', 0) {
        Some(j) => {
            assert(s[j] == '\n');
            assert(first_of(s, '\n', 0) == Some(j)) by {
                let k = first_of(s, '\n', 0)->0;
                if k < j {
                    assert(s[k] == a[k]);
                }
            }
            assert(j < a.len() - 1);
            let a2 = a.skip(j + 1);
            assert(a2.last() == a.last());
            assert(s.take(j) =~= a.take(j));
            assert(s.skip(j + 1) =~= a2 + seq!['\n'] + b);
            lemma_lines_concat(a2, b);
            assert(seq![strip_cr(a.take(j))] + (spec_lines(a2) + spec_lines(b)) =~= seq![
                strip_cr(a.take(j)),
            ] + spec_lines(a2) + spec_lines(b));
        },
        None => {
            assert(s[a.len() as int] == '\n');
            assert(first_of(s, '\n', 0) == Some(a.len() as int)) by {
                let k = first_of(s, '\n', 0)->0;
                if k < a.len() {
                    assert(s[k] == a[k]);
                }
            }
            assert(s.take(a.len() as int) =~= a);
            assert(s.skip(a.len() as int + 1) =~= b);
            assert(strip_cr(a) == a);
        },
    }
}

/// A paragraph or heading closes nothing after it: when the last block of a document
/// that ends in neither `\n` nor `\r` is a paragraph or a heading, the blocks of that
/// document, a newline and a second document are the blocks of the first and then those
/// of the second.
pub proof fn lemma_split_after_paragraph(a: Seq<char>, b: Seq<char>)
    requires
        a.len() > 0,
        a.last() != '\n',
        a.last() != '\r',
        spec_tokenise_blocks(a).len() > 0,
        spec_tokenise_blocks(a).last() is Paragraph || spec_tokenise_blocks(a).last() is Heading,
    ensures
        spec_tokenise_blocks(a + seq!['\n'] + b) == spec_tokenise_blocks(a) + spec_tokenise_blocks(b),
{
    let l1 = spec_lines(a);
    let l2 = spec_lines(b);
    lemma_lines_concat(a, b);
    lemma_blocks_of_run(l1, LineState::Default);
    lemma_blocks_of_concat(l1, l2, LineState::Default);
    let fin = run_state(l1, LineState::Default);
    if fin != LineState::Default {
        let bs = spec_tokenise_blocks(a);
        assert(bs.last() == flush(fin)[0]);
    }
    assert(run_blocks(l1, LineState::Default) + flush(LineState::Default) =~= run_blocks(l1, LineState::Default));
}

/// `s` holds no line break: neither `\n` nor `\r`.
pub open spec fn single_line(s: Seq<char>) -> bool {
    forall|i: int| 0 <= i < s.len() ==> #[trigger] s[i] != '\n' && s[i] != '\r'
}

/// A text without `\n` is one line.
proof fn lemma_one_line(a: Seq<char>)
    requires
        a.len() > 0,
        forall|i: int| 0 <= i < a.len() ==> #[trigger] a[i] != '\n',
    ensures
        spec_lines(a) == seq![a],
{
    lemma_first_of(a, '\n', 0);
}

/// `k` times `#`.
pub open spec fn hashes(k: nat) -> Seq<char> {
    Seq::new(k, |i: int| '#')
}

proof fn lemma_leading_hashes(k: nat, rest: Seq<char>)
    requires
        rest.len() > 0,
        rest[0] != '#',
    ensures
        leading_hashes(hashes(k) + rest) == k,
    decreases k,
{
    let s = hashes(k) + rest;
    if k == 0 {
        assert(s =~= rest);
    } else {
        assert(s[0] == '#');
        assert(s.drop_first() =~= hashes((k - 1) as nat) + rest);
        lemma_leading_hashes((k - 1) as nat, rest);
    }
}

/// A line of one to six `#`, a space and a title is a heading of that level with that
/// title, whatever the title holds.
pub proof fn lemma_heading_line(k: nat, title: Seq<char>)
    requires
        1 <= k <= 6,
        forall|i: int| 0 <= i < title.len() ==> #[trigger] title[i] != '\n',
    ensures
        spec_tokenise_blocks(hashes(k) + seq![' '] + title) == seq![Block::Heading(title, k as u8)],
{
    let line = hashes(k) + seq![' '] + title;
    assert(line =~= hashes(k) + (seq![' '] + title));
    lemma_leading_hashes(k, seq![' '] + title);
    assert(line[0] == '#');
    assert(line[k as int] == ' ');
    assert(line.skip(k as int + 1) =~= title);
    assert forall|i: int| 0 <= i < line.len() implies #[trigger] line[i] != '\n' by {
        if i > k {
            assert(line[i] == title[i - k - 1]);
        }
    }
    lemma_one_line(line);
    if line.len() >= 3 {
        assert(line.take(3)[0] == '#');
    }
    assert(!has_prefix(line, fence()));
    assert(heading(line) == Some((title, k)));
    let lines = seq![line];
    assert(lines.drop_first() =~= Seq::<Seq<char>>::empty());
    assert(default_line(line) == (LineState::Default, Some(Block::Heading(title, k as u8))));
    assert(step(LineState::Default, line) == (LineState::Default, seq![Block::Heading(title, k as u8)]));
    assert(blocks_of(Seq::<Seq<char>>::empty(), LineState::Default) == Seq::<Block>::empty());
    assert(blocks_of(lines, LineState::Default) == seq![Block::Heading(title, k as u8)] + blocks_of(
        lines.drop_first(),
        LineState::Default,
    ));
    assert(seq![Block::Heading(title, k as u8)] + Seq::<Block>::empty() =~= seq![
        Block::Heading(title, k as u8),
    ]);
}

proof fn lemma_first_dot_space_at(s: Seq<char>, i: int, d: int)
    requires
        0 <= i <= d,
        d + 1 < s.len(),
        s[d] == '.',
        s[d + 1] == ' ',
        forall|j: int| i <= j < d ==> #[trigger] s[j] != '.',
    ensures
        first_dot_space(s, i) == Some(d),
    decreases d - i,
{
    if i < d {
        lemma_first_dot_space_at(s, i + 1, d);
    }
}

/// A line of one or more digits, `. ` and a text is an ordered list item whose item is
/// exactly that text, whatever the text holds.
pub proof fn lemma_ordered_line(digits: Seq<char>, text: Seq<char>)
    requires
        digits.len() > 0,
        all_digits(digits),
        forall|i: int| 0 <= i < text.len() ==> #[trigger] text[i] != '\n',
    ensures
        spec_tokenise_blocks(digits + seq!['.', ' '] + text) == seq![Block::List(seq![text])],
{
    let line = digits + seq!['.', ' '] + text;
    let d = digits.len() as int;
    assert forall|j: int| 0 <= j < d implies #[trigger] line[j] != '.' by {
        assert(line[j] == digits[j]);
        assert(is_digit(digits[j]));
    }
    assert(line[d] == '.');
    assert(line[d + 1] == ' ');
    lemma_first_dot_space_at(line, 0, d);
    assert(line.take(d) =~= digits);
    assert(line.skip(d + 2) =~= text);
    assert(ordered_item(line) == Some(text));
    assert forall|i: int| 0 <= i < line.len() implies #[trigger] line[i] != '\n' by {
        if i < d {
            assert(line[i] == digits[i]);
            assert(is_digit(digits[i]));
        } else if i >= d + 2 {
            assert(line[i] == text[i - d - 2]);
        }
    }
    lemma_one_line(line);
    assert(is_digit(line[0])) by {
        assert(line[0] == digits[0]);
        assert(is_digit(digits[0]));
    }
    if line.len() >= 2 {
        assert(line.take(2)[0] == line[0]);
    }
    if line.len() >= 3 {
        assert(line.take(3)[0] == line[0]);
    }
    if line.len() >= 4 {
        assert(line.take(4)[0] == line[0]);
    }
    assert(!has_prefix(line, fence()));
    assert(heading(line) is None);
    assert(!has_prefix(line, bullet_mark()));
    assert(!has_prefix(line, custom_open()));
    let lines = seq![line];
    let st = LineState::InOrdered { items: seq![text] };
    assert(lines.drop_first() =~= Seq::<Seq<char>>::empty());
    assert(default_line(line) == (st, None::<Block>));
    assert(step(LineState::Default, line) == (st, Seq::<Block>::empty()));
    assert(blocks_of(Seq::<Seq<char>>::empty(), st) == seq![Block::List(seq![text])]);
    assert(blocks_of(lines, LineState::Default) == Seq::<Block>::empty() + blocks_of(lines.drop_first(), st));
    assert(Seq::<Block>::empty() + seq![Block::List(seq![text])] =~= seq![Block::List(seq![text])]);
}

/// A custom block whose one line inside is a property line `key: value`, where the key
/// holds no `:`: the key is the trimmed text before the first `:`, and the value is the
/// trimmed text after it, whatever the value holds, further `:` included.
pub proof fn lemma_custom_property(name: Seq<char>, key: Seq<char>, value: Seq<char>)
    requires
        single_line(name),
        single_line(key),
        single_line(value),
        !has_suffix(name, custom_inline_close()),
        key.len() > 0,
        forall|i: int| 0 <= i < key.len() ==> #[trigger] key[i] != ':',
    ensures
        spec_tokenise_blocks(
            custom_open() + name + seq!['\n'] + (key + seq![':'] + value) + seq!['\n'] + custom_close(),
        ) == seq![
            Block::Custom(
                name,
                Some(Map::<Seq<char>, Seq<char>>::empty().insert(trim(key), trim(value))),
                None,
            ),
        ],
{
    let a1 = custom_open() + name;
    let a2 = key + seq![':'] + value;
    let a3 = custom_close();
    let a12 = a1 + seq!['\n'] + a2;
    let doc = a12 + seq!['\n'] + a3;
    // the lines of the document
    assert forall|i: int| 0 <= i < a1.len() implies #[trigger] a1[i] != '\n' by {
        if i >= 4 {
            assert(a1[i] == name[i - 4]);
        }
    }
    let kl = key.len() as int;
    assert forall|i: int| 0 <= i < a2.len() implies #[trigger] a2[i] != '\n' by {
        if i < kl {
            assert(a2[i] == key[i]);
        } else if i > kl {
            assert(a2[i] == value[i - kl - 1]);
        }
    }
    assert forall|i: int| 0 <= i < a3.len() implies #[trigger] a3[i] != '\n' by {}
    lemma_one_line(a1);
    lemma_one_line(a2);
    lemma_one_line(a3);
    if name.len() > 0 {
        assert(a1.last() == name.last());
        assert(name[name.len() - 1] != '\r');
    }
    if value.len() > 0 {
        assert(a2.last() == value.last());
        assert(value[value.len() - 1] != '\r');
    }
    lemma_lines_concat(a1, a2);
    assert(a12.last() == a2.last());
    lemma_lines_concat(a12, a3);
    let lines = spec_lines(doc);
    assert(lines =~= seq![a1, a2, a3]);
    // the first line opens the block
    assert(a1.take(4) =~= custom_open());
    assert(a1.skip(4) =~= name);
    assert(a1[0] == ':');
    assert(a1.take(3)[0] == ':');
    assert(a1.take(2)[0] == ':');
    assert(!has_prefix(a1, fence()));
    assert(heading(a1) is None);
    assert(!has_prefix(a1, bullet_mark()));
    let st1 = LineState::InCustom {
        name,
        props: Map::<Seq<char>, Seq<char>>::empty(),
        content: seq![],
        in_content: false,
    };
    assert(step(LineState::Default, a1) == (st1, Seq::<Block>::empty()));
    // the second line is a property
    assert(a2[0] == key[0]);
    assert(a2 != custom_close());
    assert(a2[kl] == ':');
    assert forall|j: int| 0 <= j < kl implies a2[j] != ':' by {
        assert(a2[j] == key[j]);
    }
    lemma_first_of(a2, ':', 0);
    assert(first_of(a2, ':', 0) == Some(kl)) by {
        let c = first_of(a2, ':', 0)->0;
        if c > kl {
            assert(a2[kl] == ':');
        }
    }
    assert(a2.take(kl) =~= key);
    assert(a2.skip(kl + 1) =~= value);
    let props = Map::<Seq<char>, Seq<char>>::empty().insert(trim(key), trim(value));
    let st2 = LineState::InCustom { name, props, content: seq![], in_content: false };
    assert(step(st1, a2) == (st2, Seq::<Block>::empty()));
    // the third line closes it
    assert(props.contains_key(trim(key)));
    assert(props != Map::<Seq<char>, Seq<char>>::empty());
    let block = Block::Custom(name, Some(props), None);
    assert(step(st2, a3) == (LineState::Default, seq![block]));
    assert(lines.drop_first() =~= seq![a2, a3]);
    assert(lines.drop_first().drop_first() =~= seq![a3]);
    assert(lines.drop_first().drop_first().drop_first() =~= Seq::<Seq<char>>::empty());
    assert(seq![a3].drop_first() =~= Seq::<Seq<char>>::empty());
    assert(blocks_of(Seq::<Seq<char>>::empty(), LineState::Default) == Seq::<Block>::empty());
    assert(blocks_of(seq![a3], st2) == seq![block] + blocks_of(seq![a3].drop_first(), LineState::Default));
    assert(seq![block] + Seq::<Block>::empty() =~= seq![block]);
    assert(blocks_of(seq![a3], st2) =~= seq![block]);
    assert(seq![a2, a3].drop_first() =~= seq![a3]);
    assert(blocks_of(seq![a2, a3], st1) == Seq::<Block>::empty() + blocks_of(seq![a3], st2));
    assert(blocks_of(seq![a2, a3], st1) =~= seq![block]);
    assert(blocks_of(lines, LineState::Default) == Seq::<Block>::empty() + blocks_of(lines.drop_first(), st1));
    assert(blocks_of(lines, LineState::Default) =~= seq![block]);
}

/// Where the reading of a document stands between two lines.
enum State {
    Default,
    InCodeBlock { lang: Option<String>, content: Vec<String> },
    InBulletList { items: Vec<String> },
    InOrderedList { items: Vec<String> },
    InCustomBlock { name: String, props: PropMap, content: Vec<String>, in_content: bool },
}

impl View for State {
    type V = LineState;

    closed spec fn view(&self) -> LineState {
        match *self {
            State::Default => LineState::Default,
            State::InCodeBlock { lang, content } => LineState::InCode {
                lang: opt_string_view(lang),
                content: strings_view(content@),
            },
            State::InBulletList { items } => LineState::InBullet { items: strings_view(items@) },
            State::InOrderedList { items } => LineState::InOrdered { items: strings_view(items@) },
            State::InCustomBlock { name, props, content, in_content } => LineState::InCustom {
                name: name@,
                props: props@,
                content: strings_view(content@),
                in_content,
            },
        }
    }
}

proof fn lemma_blocks_push(v: Seq<BlockTokens>, b: BlockTokens)
    ensures
        blocks_view(v.push(b)) == blocks_view(v).push(b@),
{
    assert(blocks_view(v.push(b)) =~= blocks_view(v).push(b@));
}

proof fn lemma_strings_push(v: Seq<String>, s: String)
    ensures
        strings_view(v.push(s)) == strings_view(v).push(s@),
{
    assert(strings_view(v.push(s)) =~= strings_view(v).push(s@));
}

/// Appends `b` to `blocks`.
fn emit(blocks: &mut Vec<BlockTokens>, b: BlockTokens)
    ensures
        blocks_view(final(blocks)@) == blocks_view(old(blocks)@).push(b@),
{
    proof {
        lemma_blocks_push(blocks@, b);
    }
    blocks.push(b);
}

/// A list holding the one string `s`.
fn single(s: String) -> (v: Vec<String>)
    ensures
        strings_view(v@) == seq![s@],
{
    let mut v: Vec<String> = Vec::new();
    proof {
        lemma_strings_push(v@, s);
    }
    v.push(s);
    assert(strings_view(v@) =~= seq![s@]);
    v
}

/// Appends `s` to `v`.
fn push_string(v: &mut Vec<String>, s: String)
    ensures
        strings_view(final(v)@) == strings_view(old(v)@).push(s@),
{
    proof {
        lemma_strings_push(v@, s);
    }
    v.push(s);
}

/// The first position at or after `i` of `c` in `s`.
fn find_char(s: &[char], c: char, i: usize) -> (r: Option<usize>)
    ensures
        match r {
            Some(j) => first_of(s@, c, i as int) == Some(j as int),
            None => first_of(s@, c, i as int) is None,
        },
{
    let n = s.len();
    let mut k = i;
    while k < n
        invariant
            n == s@.len(),
            i <= k,
            first_of(s@, c, k as int) == first_of(s@, c, i as int),
        decreases n - k,
    {
        if s[k] == c {
            return Some(k);
        }
        k = k + 1;
    }
    None
}

/// The level of a heading line.
fn heading_level(line: &[char]) -> (r: Option<usize>)
    ensures
        match (r, heading(line@)) {
            (Some(l), Some((_, lv))) => l == lv,
            (None, None) => true,
            _ => false,
        },
{
    let n = line.len();
    if n == 0 || line[0] != '#' {
        return None;
    }
    let mut k: usize = 0;
    assert(line@.skip(0) == line@);
    while k < n && line[k] == '#'
        invariant
            n == line@.len(),
            k <= n,
            leading_hashes(line@) == k + leading_hashes(line@.skip(k as int)),
        decreases n - k,
    {
        assert(line@.skip(k as int).drop_first() == line@.skip(k + 1));
        k = k + 1;
    }
    if k <= 6 && k < n && line[k] == ' ' {
        Some(k)
    } else {
        None
    }
}

/// Where the item of an ordered list line starts.
fn ordered_item_start(line: &[char]) -> (r: Option<usize>)
    ensures
        match (r, ordered_item(line@)) {
            (Some(st), Some(item)) => st <= line@.len() && line@.skip(st as int) == item,
            (None, None) => true,
            _ => false,
        },
{
    let n = line.len();
    let mut d: usize = 0;
    while d < n && d + 1 < n && !(line[d] == '.' && line[d + 1] == ' ')
        invariant
            n == line@.len(),
            d <= n,
            first_dot_space(line@, d as int) == first_dot_space(line@, 0),
        decreases n - d,
    {
        d = d + 1;
    }
    if d >= n || d + 1 >= n || d == 0 {
        return None;
    }
    assert(first_dot_space(line@, 0) == Some(d as int));
    let mut k: usize = 0;
    while k < d
        invariant
            n == line@.len(),
            d < n,
            first_dot_space(line@, 0) == Some(d as int),
            forall|j: int| 0 <= j < k ==> is_digit(#[trigger] line@[j]),
        decreases d - k,
    {
        if !('0' <= line[k] && line[k] <= '9') {
            assert(!is_digit(line@.take(d as int)[k as int]));
            return None;
        }
        k = k + 1;
    }
    assert(all_digits(line@.take(d as int)));
    Some(d + 2)
}

/// Reads a line outside any block.
fn default_line_parse(line: &[char], blocks: &mut Vec<BlockTokens>) -> (st: State)
    ensures
        st@ == default_line(line@).0,
        blocks_view(final(blocks)@) == blocks_view(old(blocks)@) + opt_seq(default_line(line@).1),
{
    let n = line.len();
    let fence_mark = ['`', '`', '`'];
    assert(fence_mark@ =~= fence());
    if starts_with(line, &fence_mark) {
        let rest = slice_range(line, 3, n);
        let lang = if rest.len() == 0 {
            None
        } else {
            Some(string_of(rest))
        };
        assert(blocks_view(blocks@) + seq![] =~= blocks_view(blocks@));
        let content: Vec<String> = Vec::new();
        assert(strings_view(content@) =~= Seq::<Seq<char>>::empty());
        return State::InCodeBlock { lang, content };
    }
    if let Some(level) = heading_level(line) {
        let title = string_of(slice_range(line, level + 1, n));
        emit(blocks, BlockTokens::HEADING(title, level as u8));
        return State::Default;
    }
    let dash = ['-', ' '];
    assert(dash@ =~= bullet_mark());
    if starts_with(line, &dash) {
        let item = string_of(slice_range(line, 2, n));
        assert(blocks_view(blocks@) + seq![] =~= blocks_view(blocks@));
        return State::InBulletList { items: single(item) };
    }
    let open = [':', ':', ':', ' '];
    assert(open@ =~= custom_open());
    if starts_with(line, &open) {
        let component = slice_range(line, 4, n);
        let close = [' ', ':', ':', ':'];
        assert(close@ =~= custom_inline_close());
        if ends_with(component, &close) {
            let name = string_of(slice_range(component, 0, component.len() - 4));
            emit(blocks, BlockTokens::CUSTOM(name, None, None));
            return State::Default;
        }
        assert(blocks_view(blocks@) + seq![] =~= blocks_view(blocks@));
        let content: Vec<String> = Vec::new();
        assert(strings_view(content@) =~= Seq::<Seq<char>>::empty());
        return State::InCustomBlock {
            name: string_of(component),
            props: PropMap::new(),
            content,
            in_content: false,
        };
    }
    if let Some(start) = ordered_item_start(line) {
        let item = string_of(slice_range(line, start, n));
        assert(blocks_view(blocks@) + seq![] =~= blocks_view(blocks@));
        return State::InOrderedList { items: single(item) };
    }
    emit(blocks, BlockTokens::PARAGRAPH(string_of(line)));
    State::Default
}


/// The block a custom block makes when it ends.
fn custom_token(name: String, props: PropMap, content: Vec<String>) -> (b: BlockTokens)
    ensures
        b@ == custom_block(name@, props@, strings_view(content@)),
{
    let p = if props.is_empty() {
        None
    } else {
        Some(props)
    };
    let c = if content.len() == 0 {
        None
    } else {
        Some(join_with_newlines(&content))
    };
    BlockTokens::CUSTOM(name, p, c)
}

/// Whether `line` is exactly `mark`.
fn is_line(line: &[char], mark: &[char]) -> (r: bool)
    ensures
        r == (line@ == mark@),
{
    if line.len() != mark.len() {
        return false;
    }
    let r = starts_with(line, mark);
    assert(line@.take(line@.len() as int) == line@);
    r
}

/// Reads one line in a state: adds the blocks that the line completes and gives the next state.
fn line_step(state: State, line: &[char], blocks: &mut Vec<BlockTokens>) -> (next: State)
    ensures
        next@ == step(state@, line@).0,
        blocks_view(final(blocks)@) == blocks_view(old(blocks)@) + step(state@, line@).1,
{
    let n = line.len();
    let ghost st = state@;
    match state {
        State::Default => default_line_parse(line, blocks),
        State::InCodeBlock { lang, mut content } => {
            let fence_mark = ['`', '`', '`'];
            assert(fence_mark@ =~= fence());
            if is_line(line, &fence_mark) {
                emit(blocks, BlockTokens::CODE(content, lang));
                assert(blocks_view(old(blocks)@).push(step(st, line@).1[0]) =~= blocks_view(old(blocks)@) + step(st, line@).1);
                State::Default
            } else {
                push_string(&mut content, string_of(line));
                assert(blocks_view(blocks@) + seq![] =~= blocks_view(blocks@));
                State::InCodeBlock { lang, content }
            }
        },
        State::InBulletList { mut items } => {
            let dash = ['-', ' '];
            assert(dash@ =~= bullet_mark());
            if starts_with(line, &dash) {
                push_string(&mut items, string_of(slice_range(line, 2, n)));
                assert(blocks_view(blocks@) + seq![] =~= blocks_view(blocks@));
                State::InBulletList { items }
            } else {
                let ghost items_v = strings_view(items@);
                emit(blocks, BlockTokens::BULLET(items));
                let next = default_line_parse(line, blocks);
                assert(blocks_view(old(blocks)@).push(Block::Bullet(items_v)) + opt_seq(default_line(line@).1)
                    =~= blocks_view(old(blocks)@) + (seq![Block::Bullet(items_v)] + opt_seq(default_line(line@).1)));
                next
            }
        },
        State::InOrderedList { mut items } => {
            match ordered_item_start(line) {
                Some(start) => {
                    push_string(&mut items, string_of(slice_range(line, start, n)));
                    assert(blocks_view(blocks@) + seq![] =~= blocks_view(blocks@));
                    State::InOrderedList { items }
                },
                None => {
                    let ghost items_v = strings_view(items@);
                    emit(blocks, BlockTokens::LIST(items));
                    let next = default_line_parse(line, blocks);
                    assert(blocks_view(old(blocks)@).push(Block::List(items_v)) + opt_seq(default_line(line@).1)
                        =~= blocks_view(old(blocks)@) + (seq![Block::List(items_v)] + opt_seq(default_line(line@).1)));
                    next
                },
            }
        },
        State::InCustomBlock { name, mut props, mut content, in_content } => {
            let close = [':', ':', ':'];
            assert(close@ =~= custom_close());
            if is_line(line, &close) {
                emit(blocks, custom_token(name, props, content));
                assert(blocks_view(old(blocks)@).push(step(st, line@).1[0]) =~= blocks_view(old(blocks)@) + step(st, line@).1);
                return State::Default;
            }
            assert(blocks_view(blocks@) + seq![] =~= blocks_view(blocks@));
            if in_content || n == 0 {
                if !in_content && n == 0 {
                    State::InCustomBlock { name, props, content, in_content: true }
                } else {
                    push_string(&mut content, string_of(line));
                    State::InCustomBlock { name, props, content, in_content }
                }
            } else {
                proof {
                    lemma_first_of(line@, ':', 0);
                }
                match find_char(line, ':', 0) {
                    Some(c) => {
                        let key = trimmed(slice_range(line, 0, c));
                        let value = trimmed(slice_range(line, c + 1, n));
                        props.insert(key, value);
                        State::InCustomBlock { name, props, content, in_content }
                    },
                    None => {
                        push_string(&mut content, string_of(line));
                        State::InCustomBlock { name, props, content, in_content: true }
                    },
                }
            }
        },
    }
}

/// Adds the block that an open state makes when the input ends.
fn flush_state(state: State, blocks: &mut Vec<BlockTokens>)
    ensures
        blocks_view(final(blocks)@) == blocks_view(old(blocks)@) + flush(state@),
{
    let ghost st = state@;
    match state {
        State::Default => {
            assert(blocks_view(blocks@) + seq![] =~= blocks_view(blocks@));
        },
        State::InCodeBlock { lang, content } => {
            emit(blocks, BlockTokens::CODE(content, lang));
        },
        State::InBulletList { items } => {
            emit(blocks, BlockTokens::BULLET(items));
        },
        State::InOrderedList { items } => {
            emit(blocks, BlockTokens::LIST(items));
        },
        State::InCustomBlock { name, props, content, .. } => {
            emit(blocks, custom_token(name, props, content));
        },
    }
    proof {
        if st != LineState::Default {
            assert(blocks_view(old(blocks)@).push(flush(st)[0]) =~= blocks_view(old(blocks)@) + flush(st));
        }
    }
}

/// Splits a markdown document into blocks, line by line.
pub fn tokenise_blocks(input: &str) -> (r: Vec<BlockTokens>)
    ensures
        blocks_view(r@) == spec_tokenise_blocks(input@),
        blocks_ok(blocks_view(r@)),
        r@.len() <= spec_lines(input@).len(),
{
    proof {
        lemma_blocks_ok(input@);
        lemma_blocks_count(input@);
    }
    let cs = chars_of(input);
    let n = cs.len();
    let mut blocks: Vec<BlockTokens> = Vec::new();
    let mut state = State::Default;
    let mut i: usize = 0;
    assert(cs@.skip(0) == cs@);
    assert(blocks_view(blocks@) =~= Seq::<Block>::empty());
    while i < n
        invariant
            n == cs@.len(),
            cs@ == input@,
            i <= n,
            blocks_view(blocks@) + blocks_of(spec_lines(cs@.skip(i as int)), state@)
                == spec_tokenise_blocks(cs@),
        decreases n - i,
    {
        let ghost rest = cs@.skip(i as int);
        let ghost before = blocks_view(blocks@);
        let ghost st = state@;
        proof {
            lemma_first_of(rest, '\n', 0);
        }
        let (end, next_i) = match find_char(cs.as_slice(), '\n', i) {
            Some(j) => {
                proof {
                    lemma_first_of(cs@, '\n', i as int);
                    lemma_first_of_shift(cs@, '\n', i as int);
                    assert(rest.skip(j - i + 1) =~= cs@.skip(j + 1));
                }
                if j > i && cs[j - 1] == '\r' {
                    (j - 1, j + 1)
                } else {
                    (j, j + 1)
                }
            },
            None => {
                proof {
                    lemma_first_of(cs@, '\n', i as int);
                    lemma_first_of_shift(cs@, '\n', i as int);
                    assert(cs@.skip(n as int) =~= Seq::<char>::empty());
                    assert(spec_lines(rest).drop_first() =~= Seq::<Seq<char>>::empty());
                }
                (n, n)
            },
        };
        let line = slice_range(cs.as_slice(), i, end);
        proof {
            let lines = spec_lines(rest);
            assert(lines[0] == line@);
            assert(lines.drop_first() == spec_lines(cs@.skip(next_i as int)));
        }
        state = line_step(state, line, &mut blocks);
        proof {
            let lines = spec_lines(rest);
            let (nx, out) = step(st, line@);
            assert(blocks_of(lines, st) == out + blocks_of(lines.drop_first(), nx));
            assert(before + out + blocks_of(lines.drop_first(), nx) =~= before + (out + blocks_of(lines.drop_first(), nx)));
        }
        i = next_i;
    }
    assert(cs@.skip(n as int) =~= Seq::<char>::empty());
    flush_state(state, &mut blocks);
    blocks
}

} // verus!
