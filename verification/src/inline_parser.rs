use vstd::prelude::*;

use crate::inline_tokeniser::{
    Tok, Tokens, escaped, escaped_form, is_special, lemma_escaped_plain, lemma_tokenise_escaped,
    spec_tokenise, tok_text, tokenise, toks_text, toks_view, unescaped_text,
};
use crate::text::slice_range;

verus! {

/// An inline element of markdown text.
#[derive(Debug)]
pub enum Inline {
    Text(String),
    Italic(Vec<Inline>),
    Bold(Vec<Inline>),
    Wikilink { url: String, title: Vec<Inline> },
    Hyperlink { url: String, title: Vec<Inline> },
    Image { url: String, alt_text: String },
}

/// The mathematical value of an inline element.
pub enum InlineSpec {
    Text(Seq<char>),
    Italic(Seq<InlineSpec>),
    Bold(Seq<InlineSpec>),
    Wikilink { url: Seq<char>, title: Seq<InlineSpec> },
    Hyperlink { url: Seq<char>, title: Seq<InlineSpec> },
    Image { url: Seq<char>, alt_text: Seq<char> },
}

pub open spec fn inline_view(x: Inline) -> InlineSpec
    decreases x,
{
    match x {
        Inline::Text(s) => InlineSpec::Text(s@),
        Inline::Italic(v) => InlineSpec::Italic(inlines_view(v@)),
        Inline::Bold(v) => InlineSpec::Bold(inlines_view(v@)),
        Inline::Wikilink { url, title } => InlineSpec::Wikilink { url: url@, title: inlines_view(title@) },
        Inline::Hyperlink { url, title } => InlineSpec::Hyperlink { url: url@, title: inlines_view(title@) },
        Inline::Image { url, alt_text } => InlineSpec::Image { url: url@, alt_text: alt_text@ },
    }
}

pub open spec fn inlines_view(s: Seq<Inline>) -> Seq<InlineSpec>
    decreases s,
{
    if s.len() == 0 {
        seq![]
    } else {
        inlines_view(s.drop_last()).push(inline_view(s.last()))
    }
}

impl View for Inline {
    type V = InlineSpec;

    open spec fn view(&self) -> InlineSpec {
        inline_view(*self)
    }
}


/// `target` occurs in `ts` at position `p`.
pub open spec fn occurs_at(target: Seq<Tok>, ts: Seq<Tok>, p: int) -> bool {
    0 <= p && p + target.len() <= ts.len() && ts.subrange(p, p + target.len()) == target
}

/// The first position at or after `p` where `target` occurs in `ts`.
pub open spec fn first_occurrence_from(target: Seq<Tok>, ts: Seq<Tok>, p: int) -> Option<int>
    decreases ts.len() + 1 - p,
{
    if p < 0 || p + target.len() > ts.len() {
        None
    } else if occurs_at(target, ts, p) {
        Some(p)
    } else {
        first_occurrence_from(target, ts, p + 1)
    }
}

/// Where a search for `target` in `ts` ends: just after the first occurrence of `target`.
pub open spec fn spec_find_tokens(target: Seq<Tok>, ts: Seq<Tok>) -> Option<int> {
    match first_occurrence_from(target, ts, 0) {
        Some(p) => Some(p + target.len()),
        None => None,
    }
}

proof fn lemma_first_occurrence_from(target: Seq<Tok>, ts: Seq<Tok>, p: int)
    requires
        0 <= p,
    ensures
        first_occurrence_from(target, ts, p) matches Some(q) ==> {
            &&& p <= q
            &&& occurs_at(target, ts, q)
            &&& forall|r: int| p <= r < q ==> !occurs_at(target, ts, r)
        },
        first_occurrence_from(target, ts, p) is None ==> forall|r: int|
            p <= r ==> !occurs_at(target, ts, r),
    decreases ts.len() + 1 - p,
{
    if p + target.len() > ts.len() {
    } else if occurs_at(target, ts, p) {
    } else {
        lemma_first_occurrence_from(target, ts, p + 1);
    }
}

/// What a search for `target` in `ts` gives: it ends just after the first occurrence of `target`.
pub proof fn lemma_find_tokens(target: Seq<Tok>, ts: Seq<Tok>)
    ensures
        spec_find_tokens(target, ts) matches Some(o) ==> {
            &&& target.len() <= o <= ts.len()
            &&& occurs_at(target, ts, o - target.len())
            &&& forall|r: int| 0 <= r < o - target.len() ==> !occurs_at(target, ts, r)
        },
        spec_find_tokens(target, ts) is None ==> forall|r: int| !occurs_at(target, ts, r),
{
    lemma_first_occurrence_from(target, ts, 0);
}

/// A link `[title](url)` at the start of `ts`: how many tokens it spans, the text
/// of its url, and the tokens of its title.
pub open spec fn spec_match_link(ts: Seq<Tok>) -> Option<(int, Seq<char>, Seq<Tok>)> {
    if ts.len() == 0 || ts[0] != Tok::LBracket {
        None
    } else {
        let after = ts.skip(1);
        match spec_find_tokens(seq![Tok::RBracket, Tok::LParen], after) {
            None => None,
            Some(o) => {
                let rest = after.skip(o);
                match spec_find_tokens(seq![Tok::RParen], rest) {
                    None => None,
                    Some(o2) => Some((1 + o + o2, toks_text(rest.take(o2 - 1)), after.take(o - 2))),
                }
            },
        }
    }
}

pub proof fn lemma_match_link(ts: Seq<Tok>)
    ensures
        spec_match_link(ts) matches Some((n, url, title)) ==> {
            &&& 4 <= n <= ts.len()
            &&& title.len() + 4 <= n
            &&& title == ts.subrange(1, title.len() + 1int)
        },
{
    if ts.len() > 0 && ts[0] == Tok::LBracket {
        let after = ts.skip(1);
        lemma_find_tokens(seq![Tok::RBracket, Tok::LParen], after);
        if let Some(o) = spec_find_tokens(seq![Tok::RBracket, Tok::LParen], after) {
            lemma_find_tokens(seq![Tok::RParen], after.skip(o));
        }
    }
}


/// What one step of the parser contributes to its output.
pub enum Piece {
    /// nothing
    Skip,
    /// literal text, joined to the text just before it
    Text(Seq<char>),
    /// a formatted element
    Node(InlineSpec),
}

/// Appends text to a sequence of inline elements, joining it to a text element at its end.
pub open spec fn add_text_spec(acc: Seq<InlineSpec>, t: Seq<char>) -> Seq<InlineSpec> {
    if acc.len() > 0 && acc.last() is Text {
        match acc.last() {
            InlineSpec::Text(s) => acc.update(acc.len() - 1, InlineSpec::Text(s + t)),
            _ => acc,
        }
    } else {
        acc.push(InlineSpec::Text(t))
    }
}

pub open spec fn add_piece(acc: Seq<InlineSpec>, p: Piece) -> Seq<InlineSpec> {
    match p {
        Piece::Skip => acc,
        Piece::Text(t) => add_text_spec(acc, t),
        Piece::Node(n) => acc.push(n),
    }
}

pub open spec fn double_asterisk() -> Seq<Tok> {
    seq![Tok::Asterisk, Tok::Asterisk]
}

pub open spec fn single_asterisk() -> Seq<Tok> {
    seq![Tok::Asterisk]
}

pub open spec fn double_rbracket() -> Seq<Tok> {
    seq![Tok::RBracket, Tok::RBracket]
}

pub open spec fn pipe() -> Seq<Tok> {
    seq![Tok::Pipe]
}

/// The token at `pos` and the one after it are both `t`.
pub open spec fn doubled(ts: Seq<Tok>, pos: int, t: Tok) -> bool {
    pos + 1 < ts.len() && ts[pos] == t && ts[pos + 1] == t
}

/// How many tokens the element that starts at `pos` spans.
pub open spec fn advance(ts: Seq<Tok>, pos: int) -> int {
    match ts[pos] {
        Tok::Backslash => if pos + 1 < ts.len() { 2 } else { 1 },
        Tok::Asterisk => if doubled(ts, pos, Tok::Asterisk) {
            match spec_find_tokens(double_asterisk(), ts.skip(pos + 2)) {
                Some(o) => o + 2,
                None => 2,
            }
        } else {
            match spec_find_tokens(single_asterisk(), ts.skip(pos + 1)) {
                Some(o) => o + 1,
                None => 1,
            }
        },
        Tok::Exclamation => match spec_match_link(ts.skip(pos + 1)) {
            Some((n, _, _)) => n + 1,
            None => 1,
        },
        Tok::LBracket => if doubled(ts, pos, Tok::LBracket) {
            match spec_find_tokens(double_rbracket(), ts.skip(pos + 2)) {
                Some(o) => o + 2,
                None => 2,
            }
        } else {
            match spec_match_link(ts.skip(pos)) {
                Some((n, _, _)) => n,
                None => 1,
            }
        },
        _ => 1,
    }
}

pub proof fn lemma_advance(ts: Seq<Tok>, pos: int)
    requires
        0 <= pos < ts.len(),
    ensures
        1 <= advance(ts, pos) <= ts.len() - pos,
{
    lemma_find_tokens(double_asterisk(), ts.skip(pos + 2));
    lemma_find_tokens(single_asterisk(), ts.skip(pos + 1));
    lemma_find_tokens(double_rbracket(), ts.skip(pos + 2));
    lemma_match_link(ts.skip(pos + 1));
    lemma_match_link(ts.skip(pos));
}

/// The wikilink `[[content]]`: with a `|` in it, the url is the text before the first `|`
/// and the title is what follows it, parsed; without one, both are the text of `content`.
pub open spec fn wikilink(content: Seq<Tok>) -> InlineSpec
    decreases content.len(), 3int, 0int,
{
    match spec_find_tokens(pipe(), content) {
        Some(o) => {
            proof {
                lemma_find_tokens(pipe(), content);
            }
            InlineSpec::Wikilink { url: toks_text(content.take(o - 1)), title: spec_parse(content.skip(o)) }
        },
        None => InlineSpec::Wikilink {
            url: toks_text(content),
            title: seq![InlineSpec::Text(toks_text(content))],
        },
    }
}

/// What the element that starts at `pos` contributes to the output.
pub open spec fn piece(ts: Seq<Tok>, pos: int) -> Piece
    decreases ts.len(), 0int, 0int
        when 0 <= pos < ts.len()
{
    match ts[pos] {
        Tok::Backslash => if pos + 1 < ts.len() {
            Piece::Text(tok_text(ts[pos + 1]))
        } else {
            Piece::Skip
        },
        Tok::Text(s) => Piece::Text(s),
        Tok::Asterisk => if doubled(ts, pos, Tok::Asterisk) {
            match spec_find_tokens(double_asterisk(), ts.skip(pos + 2)) {
                Some(o) => {
                    proof {
                        lemma_find_tokens(double_asterisk(), ts.skip(pos + 2));
                    }
                    Piece::Node(InlineSpec::Bold(spec_parse(ts.subrange(pos + 2, pos + o))))
                },
                None => Piece::Text(seq!['*', '*']),
            }
        } else {
            match spec_find_tokens(single_asterisk(), ts.skip(pos + 1)) {
                Some(o) => {
                    proof {
                        lemma_find_tokens(single_asterisk(), ts.skip(pos + 1));
                    }
                    Piece::Node(InlineSpec::Italic(spec_parse(ts.subrange(pos + 1, pos + o))))
                },
                None => Piece::Text(seq!['*']),
            }
        },
        Tok::Exclamation => match spec_match_link(ts.skip(pos + 1)) {
            Some((_, url, alt)) => Piece::Node(InlineSpec::Image { url, alt_text: toks_text(alt) }),
            None => Piece::Text(seq!['!']),
        },
        Tok::LBracket => if doubled(ts, pos, Tok::LBracket) {
            match spec_find_tokens(double_rbracket(), ts.skip(pos + 2)) {
                Some(o) => {
                    proof {
                        lemma_find_tokens(double_rbracket(), ts.skip(pos + 2));
                    }
                    Piece::Node(wikilink(ts.subrange(pos + 2, pos + o)))
                },
                None => Piece::Text(seq!['[', '[']),
            }
        } else {
            match spec_match_link(ts.skip(pos)) {
                Some((_, url, title)) => {
                    proof {
                        lemma_match_link(ts.skip(pos));
                    }
                    Piece::Node(InlineSpec::Hyperlink { url, title: spec_parse(title) })
                },
                None => Piece::Text(seq!['[']),
            }
        },
        t => Piece::Text(tok_text(t)),
    }
}

/// Parsing from `pos` on, with `acc` parsed so far.
pub open spec fn parse_from(ts: Seq<Tok>, pos: int, acc: Seq<InlineSpec>) -> Seq<InlineSpec>
    decreases ts.len(), 1int, ts.len() - pos,
{
    if pos < 0 || pos >= ts.len() {
        acc
    } else {
        proof {
            lemma_advance(ts, pos);
        }
        parse_from(ts, pos + advance(ts, pos), add_piece(acc, piece(ts, pos)))
    }
}

/// The inline elements of a sequence of tokens: read from left to right, each element
/// consumes the tokens it spans, and adjacent text is joined.
pub open spec fn spec_parse(ts: Seq<Tok>) -> Seq<InlineSpec>
    decreases ts.len(), 2int, 0int,
{
    parse_from(ts, 0, seq![])
}


/// No two text elements stand next to each other, at any depth: adjacent text is joined.
pub open spec fn texts_joined(s: Seq<InlineSpec>) -> bool
    decreases s,
{
    &&& forall|i: int, j: int|
        0 <= i && j == i + 1 && j < s.len() ==> !(#[trigger] s[i] is Text && #[trigger] s[j] is Text)
    &&& forall|i: int| 0 <= i < s.len() ==> children_joined(#[trigger] s[i])
}

/// The elements inside `x` have their adjacent text joined.
pub open spec fn children_joined(x: InlineSpec) -> bool
    decreases x,
{
    match x {
        InlineSpec::Italic(c) => texts_joined(c),
        InlineSpec::Bold(c) => texts_joined(c),
        InlineSpec::Wikilink { title, .. } => texts_joined(title),
        InlineSpec::Hyperlink { title, .. } => texts_joined(title),
        _ => true,
    }
}

proof fn lemma_add_text_joined(acc: Seq<InlineSpec>, t: Seq<char>)
    requires
        texts_joined(acc),
    ensures
        texts_joined(add_text_spec(acc, t)),
{
    let r = add_text_spec(acc, t);
    assert forall|i: int, j: int| 0 <= i && j == i + 1 && j < r.len() implies !(#[trigger] r[i] is Text
        && #[trigger] r[j] is Text) by {
        if j < acc.len() {
            assert(r[i] == acc[i]);
            if j != acc.len() - 1 {
                assert(r[j] == acc[j]);
            } else {
                assert(acc[i] is Text ==> !(acc[j] is Text));
            }
        } else {
            assert(r[i] == acc[i]);
        }
    }
    assert forall|i: int| 0 <= i < r.len() implies children_joined(#[trigger] r[i]) by {
        if i < acc.len() && (i != acc.len() - 1 || !(acc.last() is Text)) {
            assert(r[i] == acc[i]);
        }
    }
}

/// What a piece adds keeps adjacent text joined.
pub open spec fn piece_joined(p: Piece) -> bool {
    match p {
        Piece::Node(n) => !(n is Text) && children_joined(n),
        _ => true,
    }
}

proof fn lemma_add_piece_joined(acc: Seq<InlineSpec>, p: Piece)
    requires
        texts_joined(acc),
        piece_joined(p),
    ensures
        texts_joined(add_piece(acc, p)),
{
    match p {
        Piece::Skip => {},
        Piece::Text(t) => lemma_add_text_joined(acc, t),
        Piece::Node(n) => {
            let r = acc.push(n);
            assert forall|i: int, j: int| 0 <= i && j == i + 1 && j < r.len() implies !(#[trigger] r[i]
                is Text && #[trigger] r[j] is Text) by {
                assert(r[i] == acc[i]);
                if j < acc.len() {
                    assert(r[j] == acc[j]);
                }
            }
            assert forall|i: int| 0 <= i < r.len() implies children_joined(#[trigger] r[i]) by {
                if i < acc.len() {
                    assert(r[i] == acc[i]);
                }
            }
        },
    }
}

proof fn lemma_wikilink_joined(content: Seq<Tok>)
    ensures
        piece_joined(Piece::Node(wikilink(content))),
    decreases content.len(), 3int, 0int,
{
    lemma_find_tokens(pipe(), content);
    match spec_find_tokens(pipe(), content) {
        Some(o) => {
            lemma_parse_joined(content.skip(o));
        },
        None => {
            let title = seq![InlineSpec::Text(toks_text(content))];
            assert(texts_joined(title));
        },
    }
}

proof fn lemma_piece_joined(ts: Seq<Tok>, pos: int)
    requires
        0 <= pos < ts.len(),
    ensures
        piece_joined(piece(ts, pos)),
    decreases ts.len(), 0int, 0int,
{
    lemma_find_tokens(double_asterisk(), ts.skip(pos + 2));
    lemma_find_tokens(single_asterisk(), ts.skip(pos + 1));
    lemma_find_tokens(double_rbracket(), ts.skip(pos + 2));
    lemma_match_link(ts.skip(pos));
    match ts[pos] {
        Tok::Asterisk => if doubled(ts, pos, Tok::Asterisk) {
            if let Some(o) = spec_find_tokens(double_asterisk(), ts.skip(pos + 2)) {
                lemma_parse_joined(ts.subrange(pos + 2, pos + o));
            }
        } else {
            if let Some(o) = spec_find_tokens(single_asterisk(), ts.skip(pos + 1)) {
                lemma_parse_joined(ts.subrange(pos + 1, pos + o));
            }
        },
        Tok::LBracket => if doubled(ts, pos, Tok::LBracket) {
            if let Some(o) = spec_find_tokens(double_rbracket(), ts.skip(pos + 2)) {
                lemma_wikilink_joined(ts.subrange(pos + 2, pos + o));
            }
        } else {
            if let Some((_, _, title)) = spec_match_link(ts.skip(pos)) {
                lemma_parse_joined(title);
            }
        },
        _ => {},
    }
}

proof fn lemma_parse_from_joined(ts: Seq<Tok>, pos: int, acc: Seq<InlineSpec>)
    requires
        0 <= pos,
        texts_joined(acc),
    ensures
        texts_joined(parse_from(ts, pos, acc)),
    decreases ts.len(), 1int, ts.len() - pos,
{
    if pos < ts.len() {
        lemma_advance(ts, pos);
        lemma_piece_joined(ts, pos);
        lemma_add_piece_joined(acc, piece(ts, pos));
        lemma_parse_from_joined(ts, pos + advance(ts, pos), add_piece(acc, piece(ts, pos)));
    }
}

/// The parser joins adjacent text: in what it gives, no two text elements stand next to
/// each other, at any depth.
pub proof fn lemma_parse_joined(ts: Seq<Tok>)
    ensures
        texts_joined(spec_parse(ts)),
    decreases ts.len(), 2int, 0int,
{
    assert(texts_joined(Seq::<InlineSpec>::empty()));
    lemma_parse_from_joined(ts, 0, seq![]);
}

proof fn lemma_add_text_twice(acc: Seq<InlineSpec>, a: Seq<char>, b: Seq<char>)
    ensures
        add_text_spec(add_text_spec(acc, a), b) == add_text_spec(acc, a + b),
{
    if acc.len() > 0 && acc.last() is Text {
        match acc.last() {
            InlineSpec::Text(s) => {
                assert(s + a + b =~= s + (a + b));
                assert(add_text_spec(add_text_spec(acc, a), b) =~= add_text_spec(acc, a + b));
            },
            _ => {},
        }
    } else {
        assert(add_text_spec(add_text_spec(acc, a), b) =~= add_text_spec(acc, a + b));
    }
}

proof fn lemma_parse_escaped_from(ts: Seq<Tok>, pos: int, acc: Seq<InlineSpec>)
    requires
        0 <= pos <= ts.len(),
        escaped_form(ts.skip(pos)),
    ensures
        parse_from(ts, pos, acc) == if pos == ts.len() {
            acc
        } else {
            add_text_spec(acc, unescaped_text(ts.skip(pos)))
        },
    decreases ts.len() - pos,
{
    if pos < ts.len() {
        let r = ts.skip(pos);
        assert(r[0] == ts[pos]);
        lemma_advance(ts, pos);
        if ts[pos] is Text {
            let t = tok_text(ts[pos]);
            assert(r.drop_first() =~= ts.skip(pos + 1));
            assert(unescaped_text(r) == t + unescaped_text(r.drop_first()));
            assert(piece(ts, pos) == Piece::Text(t));
            assert(advance(ts, pos) == 1);
            assert(parse_from(ts, pos, acc) == parse_from(ts, pos + 1, add_text_spec(acc, t)));
            lemma_parse_escaped_from(ts, pos + 1, add_text_spec(acc, t));
            if pos + 1 < ts.len() {
                lemma_add_text_twice(acc, t, unescaped_text(ts.skip(pos + 1)));
            } else {
                assert(ts.skip(pos + 1) =~= Seq::<Tok>::empty());
                assert(t + Seq::<char>::empty() =~= t);
            }
        } else {
            assert(ts[pos] == Tok::Backslash && r.len() >= 2);
            assert(r[1] == ts[pos + 1]);
            let t = tok_text(ts[pos + 1]);
            assert(r.skip(2) =~= ts.skip(pos + 2));
            assert(unescaped_text(r) == t + unescaped_text(r.skip(2)));
            assert(piece(ts, pos) == Piece::Text(t));
            assert(advance(ts, pos) == 2);
            assert(parse_from(ts, pos, acc) == parse_from(ts, pos + 2, add_text_spec(acc, t)));
            lemma_parse_escaped_from(ts, pos + 2, add_text_spec(acc, t));
            if pos + 2 < ts.len() {
                lemma_add_text_twice(acc, t, unescaped_text(ts.skip(pos + 2)));
            } else {
                assert(ts.skip(pos + 2) =~= Seq::<Tok>::empty());
                assert(t + Seq::<char>::empty() =~= t);
            }
        }
    }
}

/// A backslash makes the character after it literal: text in which each of `*[]()|\!`
/// is escaped reads back as exactly the unescaped text, as one text element (or as nothing
/// when it is empty).
pub proof fn lemma_escaped_text_is_literal(cs: Seq<char>)
    ensures
        spec_parse(spec_tokenise(escaped(cs))) == if cs.len() == 0 {
            seq![]
        } else {
            seq![InlineSpec::Text(cs)]
        },
{
    let ts = spec_tokenise(escaped(cs));
    lemma_tokenise_escaped(cs);
    assert(ts.skip(0) =~= ts);
    lemma_parse_escaped_from(ts, 0, seq![]);
    if cs.len() > 0 {
        assert(add_text_spec(Seq::<InlineSpec>::empty(), cs) =~= seq![InlineSpec::Text(cs)]);
    }
}

/// Text without any of `*[]()|\!` reads as itself, as one text element (or as nothing
/// when it is empty).
pub proof fn lemma_plain_text(cs: Seq<char>)
    requires
        forall|k: int| 0 <= k < cs.len() ==> !is_special(#[trigger] cs[k]),
    ensures
        spec_parse(spec_tokenise(cs)) == if cs.len() == 0 {
            seq![]
        } else {
            seq![InlineSpec::Text(cs)]
        },
{
    lemma_escaped_plain(cs);
    lemma_escaped_text_is_literal(cs);
}

/// A search ends just after an occurrence that no earlier one precedes.
proof fn lemma_find_at(target: Seq<Tok>, ts: Seq<Tok>, p: int)
    requires
        occurs_at(target, ts, p),
        forall|r: int| 0 <= r < p ==> !occurs_at(target, ts, r),
    ensures
        spec_find_tokens(target, ts) == Some(p + target.len()),
{
    lemma_find_tokens(target, ts);
    match spec_find_tokens(target, ts) {
        Some(o) => {
            let q = o - target.len();
            if q > p {
                assert(occurs_at(target, ts, p));
            }
        },
        None => {
            assert(occurs_at(target, ts, p));
        },
    }
}

/// `]` right before `(` at `i`.
pub open spec fn link_middle_at(ts: Seq<Tok>, i: int) -> bool {
    0 <= i && i + 1 < ts.len() && ts[i] == Tok::RBracket && ts[i + 1] == Tok::LParen
}

/// A link `[title](url)`: a `[`, a title in which no `]` comes right before a `(`, then
/// `](`, a url without `)`, and `)`, followed by anything, is matched, whatever the title
/// and the url hold, the empty title included. It spans exactly those tokens, its url is the
/// text of the url's tokens, and its title is the title's tokens.
pub proof fn lemma_link_matched(title: Seq<Tok>, url: Seq<Tok>, rest: Seq<Tok>)
    requires
        forall|i: int| !link_middle_at(title, i),
        forall|i: int| 0 <= i < url.len() ==> #[trigger] url[i] != Tok::RParen,
    ensures
        spec_match_link(
            seq![Tok::LBracket] + title + seq![Tok::RBracket, Tok::LParen] + url + seq![Tok::RParen] + rest,
        ) == Some((title.len() + url.len() + 4int, toks_text(url), title)),
{
    let ts = seq![Tok::LBracket] + title + seq![Tok::RBracket, Tok::LParen] + url + seq![Tok::RParen] + rest;
    let after = ts.skip(1);
    let tl = title.len() as int;
    let ul = url.len() as int;
    assert(after =~= title + seq![Tok::RBracket, Tok::LParen] + url + seq![Tok::RParen] + rest);
    let mid = seq![Tok::RBracket, Tok::LParen];
    assert(after.subrange(tl, tl + 2) =~= mid);
    assert forall|r: int| 0 <= r < tl implies !occurs_at(mid, after, r) by {
        if occurs_at(mid, after, r) {
            assert(after.subrange(r, r + 2)[0] == after[r]);
            assert(after.subrange(r, r + 2)[1] == after[r + 1]);
            if r + 1 < tl {
                assert(after[r] == title[r]);
                assert(after[r + 1] == title[r + 1]);
                assert(link_middle_at(title, r));
            } else {
                assert(after[r + 1] == Tok::RBracket);
            }
        }
    }
    lemma_find_at(mid, after, tl);
    let after2 = after.skip(tl + 2);
    assert(after2 =~= url + seq![Tok::RParen] + rest);
    let close = seq![Tok::RParen];
    assert(after2.subrange(ul, ul + 1) =~= close);
    assert forall|r: int| 0 <= r < ul implies !occurs_at(close, after2, r) by {
        if occurs_at(close, after2, r) {
            assert(after2.subrange(r, r + 1)[0] == after2[r]);
            assert(after2[r] == url[r]);
        }
    }
    lemma_find_at(close, after2, ul);
    assert(after2.take(ul) =~= url);
    assert(after.take(tl) =~= title);
    assert(ts[0] == Tok::LBracket);
}

/// An image `![alt](url)` on its own reads as one image element whose url is the text of
/// the url's tokens and whose alt text is the text of the alt's tokens, the empty alt
/// included.
pub proof fn lemma_image_parsed(alt: Seq<Tok>, url: Seq<Tok>)
    requires
        forall|i: int| !link_middle_at(alt, i),
        forall|i: int| 0 <= i < url.len() ==> #[trigger] url[i] != Tok::RParen,
    ensures
        spec_parse(
            seq![Tok::Exclamation, Tok::LBracket] + alt + seq![Tok::RBracket, Tok::LParen] + url + seq![Tok::RParen],
        ) == seq![InlineSpec::Image { url: toks_text(url), alt_text: toks_text(alt) }],
{
    let link = seq![Tok::LBracket] + alt + seq![Tok::RBracket, Tok::LParen] + url + seq![Tok::RParen];
    let ts = seq![Tok::Exclamation] + link;
    assert(ts =~= seq![Tok::Exclamation, Tok::LBracket] + alt + seq![Tok::RBracket, Tok::LParen] + url + seq![Tok::RParen]);
    assert(link + Seq::<Tok>::empty() =~= link);
    lemma_link_matched(alt, url, seq![]);
    assert(ts.skip(1) =~= link);
    let img = InlineSpec::Image { url: toks_text(url), alt_text: toks_text(alt) };
    assert(piece(ts, 0) == Piece::Node(img));
    assert(advance(ts, 0) == ts.len());
    assert(parse_from(ts, 0, seq![]) == parse_from(ts, ts.len() as int, add_piece(seq![], Piece::Node(img))));
    assert(add_piece(Seq::<InlineSpec>::empty(), Piece::Node(img)) =~= seq![img]);
}

/// Wherever `**content**` stands in a token sequence, with whatever before and after it,
/// reading it adds one bold element holding the parse of the content and goes on just after
/// it, as long as no `**` occurs in the content or across its end.
pub proof fn lemma_bold_anywhere(ts: Seq<Tok>, pos: int, content: Seq<Tok>, acc: Seq<InlineSpec>)
    requires
        0 <= pos,
        pos + content.len() + 4 <= ts.len(),
        ts.subrange(pos, pos + content.len() + 4) == double_asterisk() + content + double_asterisk(),
        forall|i: int|
            0 <= i && i + 1 < content.len() ==> !(#[trigger] content[i] == Tok::Asterisk && content[i
                + 1] == Tok::Asterisk),
        content.len() > 0 ==> content.last() != Tok::Asterisk,
    ensures
        parse_from(ts, pos, acc) == parse_from(
            ts,
            pos + content.len() + 4,
            acc.push(InlineSpec::Bold(spec_parse(content))),
        ),
{
    let cl = content.len() as int;
    let w = double_asterisk() + content + double_asterisk();
    let inner = ts.skip(pos + 2);
    assert forall|k: int| 0 <= k < cl + 2 implies #[trigger] inner[k] == (content + double_asterisk())[k] by {
        assert(inner[k] == ts[pos + 2 + k]);
        assert(ts.subrange(pos, pos + cl + 4)[k + 2] == ts[pos + 2 + k]);
        assert(w[k + 2] == (content + double_asterisk())[k]);
    }
    assert(inner.subrange(cl, cl + 2) =~= double_asterisk()) by {
        assert(inner[cl] == (content + double_asterisk())[cl]);
        assert(inner[cl + 1] == (content + double_asterisk())[cl + 1]);
    }
    assert forall|r: int| 0 <= r < cl implies !occurs_at(double_asterisk(), inner, r) by {
        if occurs_at(double_asterisk(), inner, r) {
            assert(inner.subrange(r, r + 2)[0] == inner[r]);
            assert(inner.subrange(r, r + 2)[1] == inner[r + 1]);
            assert(inner[r] == (content + double_asterisk())[r]);
            assert(inner[r + 1] == (content + double_asterisk())[r + 1]);
            if r + 1 < cl {
            } else {
                assert(content.last() == content[r]);
            }
        }
    }
    lemma_find_at(double_asterisk(), inner, cl);
    assert(ts[pos] == ts.subrange(pos, pos + cl + 4)[0]);
    assert(ts[pos + 1] == ts.subrange(pos, pos + cl + 4)[1]);
    assert(doubled(ts, pos, Tok::Asterisk));
    assert forall|k: int| 0 <= k < cl implies #[trigger] ts.subrange(pos + 2, pos + cl + 2)[k] == content[k] by {
        assert(ts.subrange(pos, pos + cl + 4)[k + 2] == ts[pos + 2 + k]);
        assert(w[k + 2] == content[k]);
    }
    assert(ts.subrange(pos + 2, pos + cl + 2) =~= content);
    let b = InlineSpec::Bold(spec_parse(content));
    assert(piece(ts, pos) == Piece::Node(b));
    assert(advance(ts, pos) == cl + 4);
    lemma_advance(ts, pos);
    assert(parse_from(ts, pos, acc) == parse_from(ts, pos + cl + 4, add_piece(acc, Piece::Node(b))));
}

/// `**content**` reads as one bold element holding the parse of the content, whatever the
/// content holds, single asterisks included, as long as no `**` occurs in it or across
/// its end.
pub proof fn lemma_bold_parsed(content: Seq<Tok>)
    requires
        forall|i: int|
            0 <= i && i + 1 < content.len() ==> !(#[trigger] content[i] == Tok::Asterisk && content[i
                + 1] == Tok::Asterisk),
        content.len() > 0 ==> content.last() != Tok::Asterisk,
    ensures
        spec_parse(double_asterisk() + content + double_asterisk()) == seq![
            InlineSpec::Bold(spec_parse(content)),
        ],
{
    let ts = double_asterisk() + content + double_asterisk();
    let cl = content.len() as int;
    assert(ts.subrange(0, cl + 4) =~= ts);
    lemma_bold_anywhere(ts, 0, content, seq![]);
    assert(seq![InlineSpec::Bold(spec_parse(content))] =~= Seq::<InlineSpec>::empty().push(InlineSpec::Bold(spec_parse(content))));
}

proof fn lemma_toks_view_subrange(s: Seq<Tokens>, a: int, b: int)
    requires
        0 <= a <= b <= s.len(),
    ensures
        toks_view(s.subrange(a, b)) == toks_view(s).subrange(a, b),
{
    assert(toks_view(s.subrange(a, b)) =~= toks_view(s).subrange(a, b));
}

/// Tokens are the same when their values are.
fn same_token(a: &Tokens, b: &Tokens) -> (r: bool)
    ensures
        r == (a@ == b@),
{
    match a {
        Tokens::TEXT(x) => match b {
            Tokens::TEXT(y) => x.eq(y),
            _ => false,
        },
        Tokens::ASTERISK => matches!(b, Tokens::ASTERISK),
        Tokens::LBRACKET => matches!(b, Tokens::LBRACKET),
        Tokens::RBRACKET => matches!(b, Tokens::RBRACKET),
        Tokens::LPAREN => matches!(b, Tokens::LPAREN),
        Tokens::RPAREN => matches!(b, Tokens::RPAREN),
        Tokens::BACKSLASH => matches!(b, Tokens::BACKSLASH),
        Tokens::EXCLAMATION => matches!(b, Tokens::EXCLAMATION),
        Tokens::PIPE => matches!(b, Tokens::PIPE),
    }
}

fn tokens_occur_at(target: &[Tokens], tokens: &[Tokens], p: usize) -> (r: bool)
    requires
        p + target@.len() <= tokens@.len(),
    ensures
        r == occurs_at(toks_view(target@), toks_view(tokens@), p as int),
{
    let ghost tt = toks_view(target@);
    let ghost tv = toks_view(tokens@);
    let m = target.len();
    let n = tokens.len();
    let mut j: usize = 0;
    while j < m
        invariant
            m == target@.len(),
            n == tokens@.len(),
            tt == toks_view(target@),
            tv == toks_view(tokens@),
            p + m <= tokens@.len(),
            j <= m,
            forall|k: int| 0 <= k < j ==> tv[p + k] == tt[k],
        decreases m - j,
    {
        if !same_token(&tokens[p + j], &target[j]) {
            assert(tv.subrange(p as int, p + m)[j as int] != tt[j as int]);
            return false;
        }
        j = j + 1;
    }
    assert(tv.subrange(p as int, p + m) =~= tt);
    true
}

/// Searches `tokens` for `target`: on success, how far the search went (to just after the
/// first occurrence) and the tokens before that occurrence.
pub fn find_tokens<'a>(target: &[Tokens], tokens: &'a [Tokens]) -> (r: Option<(usize, &'a [Tokens])>)
    ensures
        match r {
            Some((o, before)) => {
                &&& spec_find_tokens(toks_view(target@), toks_view(tokens@)) == Some(o as int)
                &&& toks_view(before@) == toks_view(tokens@).take(o - target@.len())
            },
            None => spec_find_tokens(toks_view(target@), toks_view(tokens@)) is None,
        },
{
    let ghost tt = toks_view(target@);
    let ghost tv = toks_view(tokens@);
    let n = tokens.len();
    let m = target.len();
    if m > n {
        return None;
    }
    if m == 0 {
        assert(tv.subrange(0, 0) =~= tt);
        assert(occurs_at(tt, tv, 0));
        return Some((0, slice_range(tokens, 0, 0)));
    }
    let mut pos: usize = 0;
    while pos <= n - m
        invariant
            1 <= m,
            n == tokens@.len(),
            m == target@.len(),
            m <= n,
            tt == toks_view(target@),
            tv == toks_view(tokens@),
            first_occurrence_from(tt, tv, pos as int) == first_occurrence_from(tt, tv, 0),
        decreases n - pos,
    {
        if tokens_occur_at(target, tokens, pos) {
            let before = slice_range(tokens, 0, pos);
            proof {
                lemma_toks_view_subrange(tokens@, 0, pos as int);
            }
            return Some((pos + m, before));
        }
        pos = pos + 1;
    }
    None
}

/// The texts of `tokens`, one after the other.
fn concat_text(tokens: &[Tokens]) -> (s: String)
    ensures
        s@ == toks_text(toks_view(tokens@)),
{
    let mut s = String::new();
    let n = tokens.len();
    for i in 0..n
        invariant
            n == tokens@.len(),
            s@ == toks_text(toks_view(tokens@).take(i as int)),
    {
        let t = tokens[i].to_text();
        s.append(t.as_str());
        assert(toks_view(tokens@).take(i + 1).drop_last() == toks_view(tokens@).take(i as int));
    }
    assert(toks_view(tokens@).take(n as int) == toks_view(tokens@));
    s
}

/// Matches a link `[title](url)` at the start of `tokens`: how many tokens it spans,
/// its url and the tokens of its title.
pub fn match_link(tokens: &[Tokens]) -> (r: Option<(usize, String, &[Tokens])>)
    ensures
        match (r, spec_match_link(toks_view(tokens@))) {
            (Some((n, url, title)), Some((n2, url2, title2))) => n == n2 && url@ == url2
                && toks_view(title@) == title2,
            (None, None) => true,
            _ => false,
        },
{
    let ghost tv = toks_view(tokens@);
    if tokens.len() == 0 || !matches!(tokens[0], Tokens::LBRACKET) {
        return None;
    }
    let after = slice_range(tokens, 1, tokens.len());
    proof {
        lemma_toks_view_subrange(tokens@, 1, tokens@.len() as int);
        assert(toks_view(after@) == tv.skip(1));
    }
    let close = [Tokens::RBRACKET, Tokens::LPAREN];
    assert(toks_view(close@) =~= seq![Tok::RBracket, Tok::LParen]);
    let (offset, title) = match find_tokens(&close, after) {
        Some(found) => found,
        None => return None,
    };
    proof {
        lemma_find_tokens(seq![Tok::RBracket, Tok::LParen], tv.skip(1));
    }
    let rest = slice_range(after, offset, after.len());
    proof {
        lemma_toks_view_subrange(after@, offset as int, after@.len() as int);
    }
    let paren = [Tokens::RPAREN];
    assert(toks_view(paren@) =~= seq![Tok::RParen]);
    let (offset2, url_tokens) = match find_tokens(&paren, rest) {
        Some(found) => found,
        None => return None,
    };
    proof {
        lemma_find_tokens(seq![Tok::RParen], toks_view(rest@));
    }
    let url = concat_text(url_tokens);
    Some((1 + offset + offset2, url, title))
}


proof fn lemma_inlines_view_push(s: Seq<Inline>, x: Inline)
    ensures
        inlines_view(s.push(x)) == inlines_view(s).push(inline_view(x)),
{
    assert(s.push(x).drop_last() =~= s);
}

/// Appending text to a sequence of inline elements.
pub trait TextAdd {
    fn add_text(&mut self, text: &str);
}

impl TextAdd for Vec<Inline> {
    /// Appends `text`, joined to the text element at the end if there is one.
    fn add_text(&mut self, text: &str)
        ensures
            inlines_view(final(self)@) == add_text_spec(inlines_view(old(self)@), text@),
    {
        let ghost old_v = self@;
        match self.pop() {
            Some(Inline::Text(mut s)) => {
                s.append(text);
                proof {
                    lemma_inlines_view_push(self@, Inline::Text(s));
                    assert(old_v.drop_last() == self@);
                }
                self.push(Inline::Text(s));
                proof {
                    assert(inlines_view(old_v) == inlines_view(old_v.drop_last()).push(
                        inline_view(old_v.last()),
                    ));
                    assert(inlines_view(self@) =~= add_text_spec(inlines_view(old_v), text@));
                }
            },
            Some(other) => {
                proof {
                    lemma_inlines_view_push(self@, other);
                    assert(old_v.drop_last() == self@);
                }
                self.push(other);
                assert(self@ == old_v);
                let t = String::from_str(text);
                proof {
                    lemma_inlines_view_push(self@, Inline::Text(t));
                }
                self.push(Inline::Text(t));
            },
            None => {
                let t = String::from_str(text);
                proof {
                    lemma_inlines_view_push(self@, Inline::Text(t));
                }
                self.push(Inline::Text(t));
            },
        }
    }
}

proof fn lemma_push_node(v: Seq<Inline>, x: Inline, acc: Seq<InlineSpec>)
    requires
        inlines_view(v) == acc,
    ensures
        inlines_view(v.push(x)) == add_piece(acc, Piece::Node(inline_view(x))),
{
    lemma_inlines_view_push(v, x);
}

/// Parses inline markdown text: bold, italic, links, wikilinks, images and escapes.
pub fn parse_inline(content: &str) -> (r: Vec<Inline>)
    ensures
        inlines_view(r@) == spec_parse(spec_tokenise(content@)),
        texts_joined(inlines_view(r@)),
{
    proof {
        lemma_parse_joined(spec_tokenise(content@));
    }
    let tokens = tokenise(content);
    parse_inline_tokens(tokens.as_slice())
}

/// Parses a sequence of tokens into inline elements.
pub fn parse_inline_tokens(tokens: &[Tokens]) -> (r: Vec<Inline>)
    ensures
        inlines_view(r@) == spec_parse(toks_view(tokens@)),
        texts_joined(inlines_view(r@)),
    decreases tokens@.len(), 2int,
{
    proof {
        lemma_parse_joined(toks_view(tokens@));
    }
    let ghost ts = toks_view(tokens@);
    let n = tokens.len();
    let mut result: Vec<Inline> = Vec::new();
    let mut pos: usize = 0;
    while pos < n
        invariant
            n == tokens@.len(),
            ts == toks_view(tokens@),
            pos <= n,
            parse_from(ts, pos as int, inlines_view(result@)) == spec_parse(ts),
        decreases n - pos,
    {
        let ghost acc = inlines_view(result@);
        let ghost p = pos as int;
        proof {
            lemma_advance(ts, p);
            assert(parse_from(ts, p, acc) == parse_from(ts, p + advance(ts, p), add_piece(acc, piece(ts, p))));
        }
        let adv = parse_element(tokens, pos, &mut result);
        pos = pos + adv;
    }
    result
}

/// Parses the element that starts at `pos`, adds it to `result`, and says how many
/// tokens it spans.
fn parse_element(tokens: &[Tokens], pos: usize, result: &mut Vec<Inline>) -> (adv: usize)
    requires
        pos < tokens@.len(),
    ensures
        adv == advance(toks_view(tokens@), pos as int),
        inlines_view(final(result)@) == add_piece(inlines_view(old(result)@), piece(toks_view(tokens@), pos as int)),
    decreases tokens@.len(), 1int,
{
    match &tokens[pos] {
        Tokens::BACKSLASH => {
            if pos + 1 < tokens.len() {
                let t = tokens[pos + 1].to_text();
                result.add_text(t.as_str());
                2
            } else {
                1
            }
        },
        Tokens::TEXT(s) => {
            result.add_text(s.as_str());
            1
        },
        Tokens::ASTERISK => parse_emphasis(tokens, pos, result),
        Tokens::EXCLAMATION => parse_image(tokens, pos, result),
        Tokens::LBRACKET => {
            if pos + 1 < tokens.len() && matches!(tokens[pos + 1], Tokens::LBRACKET) {
                parse_wikilink(tokens, pos, result)
            } else {
                parse_hyperlink(tokens, pos, result)
            }
        },
        t => {
            let text = t.to_text();
            result.add_text(text.as_str());
            1
        },
    }
}

/// `*italic*` or `**bold**` at `pos`, or the asterisks as text when unclosed.
fn parse_emphasis(tokens: &[Tokens], pos: usize, result: &mut Vec<Inline>) -> (adv: usize)
    requires
        pos < tokens@.len(),
        tokens@[pos as int]@ == Tok::Asterisk,
    ensures
        adv == advance(toks_view(tokens@), pos as int),
        inlines_view(final(result)@) == add_piece(inlines_view(old(result)@), piece(toks_view(tokens@), pos as int)),
    decreases tokens@.len(), 0int,
{
    let ghost ts = toks_view(tokens@);
    let ghost p = pos as int;
    let ghost acc = inlines_view(result@);
    let n = tokens.len();
    if pos + 1 < n && matches!(tokens[pos + 1], Tokens::ASTERISK) {
        let rest = slice_range(tokens, pos + 2, n);
        let target = [Tokens::ASTERISK, Tokens::ASTERISK];
        proof {
            lemma_toks_view_subrange(tokens@, p + 2, n as int);
            assert(toks_view(target@) =~= double_asterisk());
            lemma_find_tokens(double_asterisk(), ts.skip(p + 2));
        }
        match find_tokens(&target, rest) {
            Some((offset, content)) => {
                proof {
                    assert(toks_view(content@) =~= ts.subrange(p + 2, p + offset));
                }
                let inner = parse_inline_tokens(content);
                proof {
                    lemma_push_node(result@, Inline::Bold(inner), acc);
                }
                result.push(Inline::Bold(inner));
                offset + 2
            },
            None => {
                proof {
                    reveal_strlit("**");
                assert("**"@ =~= seq!['*', '*']);
                }
                result.add_text("**");
                2
            },
        }
    } else {
        let rest = slice_range(tokens, pos + 1, n);
        let target = [Tokens::ASTERISK];
        proof {
            lemma_toks_view_subrange(tokens@, p + 1, n as int);
            assert(toks_view(target@) =~= single_asterisk());
            lemma_find_tokens(single_asterisk(), ts.skip(p + 1));
        }
        match find_tokens(&target, rest) {
            Some((offset, content)) => {
                proof {
                    assert(toks_view(content@) =~= ts.subrange(p + 1, p + offset));
                }
                let inner = parse_inline_tokens(content);
                proof {
                    lemma_push_node(result@, Inline::Italic(inner), acc);
                }
                result.push(Inline::Italic(inner));
                offset + 1
            },
            None => {
                proof {
                    reveal_strlit("*");
                assert("*"@ =~= seq!['*']);
                }
                result.add_text("*");
                1
            },
        }
    }
}

/// `![alt](url)` at `pos`, or `!` as text.
fn parse_image(tokens: &[Tokens], pos: usize, result: &mut Vec<Inline>) -> (adv: usize)
    requires
        pos < tokens@.len(),
        tokens@[pos as int]@ == Tok::Exclamation,
    ensures
        adv == advance(toks_view(tokens@), pos as int),
        inlines_view(final(result)@) == add_piece(inlines_view(old(result)@), piece(toks_view(tokens@), pos as int)),
{
    let ghost ts = toks_view(tokens@);
    let ghost p = pos as int;
    let ghost acc = inlines_view(result@);
    let n = tokens.len();
    let rest = slice_range(tokens, pos + 1, n);
    proof {
        lemma_toks_view_subrange(tokens@, p + 1, n as int);
        lemma_match_link(ts.skip(p + 1));
    }
    match match_link(rest) {
        Some((adv, url, alt_tokens)) => {
            let alt_text = concat_text(alt_tokens);
            proof {
                lemma_push_node(result@, Inline::Image { url, alt_text }, acc);
            }
            result.push(Inline::Image { url, alt_text });
            adv + 1
        },
        None => {
            proof {
                reveal_strlit("!");
                assert("!"@ =~= seq!['!']);
            }
            result.add_text("!");
            1
        },
    }
}

/// `[[wikilink]]` at `pos`, or `[[` as text when unclosed.
fn parse_wikilink(tokens: &[Tokens], pos: usize, result: &mut Vec<Inline>) -> (adv: usize)
    requires
        doubled(toks_view(tokens@), pos as int, Tok::LBracket),
    ensures
        adv == advance(toks_view(tokens@), pos as int),
        inlines_view(final(result)@) == add_piece(inlines_view(old(result)@), piece(toks_view(tokens@), pos as int)),
    decreases tokens@.len(), 0int,
{
    let ghost ts = toks_view(tokens@);
    let ghost p = pos as int;
    let ghost acc = inlines_view(result@);
    let n = tokens.len();
    let rest = slice_range(tokens, pos + 2, n);
    let target = [Tokens::RBRACKET, Tokens::RBRACKET];
    proof {
        lemma_toks_view_subrange(tokens@, p + 2, n as int);
        assert(toks_view(target@) =~= double_rbracket());
        lemma_find_tokens(double_rbracket(), ts.skip(p + 2));
    }
    match find_tokens(&target, rest) {
        Some((offset, content)) => {
            proof {
                assert(toks_view(content@) =~= ts.subrange(p + 2, p + offset));
            }
            let link = wikilink_of(content);
            proof {
                lemma_push_node(result@, link, acc);
            }
            result.push(link);
            offset + 2
        },
        None => {
            proof {
                reveal_strlit("[[");
                assert("[["@ =~= seq!['[', '[']);
            }
            result.add_text("[[");
            2
        },
    }
}

/// `[title](url)` at `pos`, or `[` as text.
fn parse_hyperlink(tokens: &[Tokens], pos: usize, result: &mut Vec<Inline>) -> (adv: usize)
    requires
        pos < tokens@.len(),
        tokens@[pos as int]@ == Tok::LBracket,
        !doubled(toks_view(tokens@), pos as int, Tok::LBracket),
    ensures
        adv == advance(toks_view(tokens@), pos as int),
        inlines_view(final(result)@) == add_piece(inlines_view(old(result)@), piece(toks_view(tokens@), pos as int)),
    decreases tokens@.len(), 0int,
{
    let ghost ts = toks_view(tokens@);
    let ghost p = pos as int;
    let ghost acc = inlines_view(result@);
    let n = tokens.len();
    let rest = slice_range(tokens, pos, n);
    proof {
        lemma_toks_view_subrange(tokens@, p, n as int);
        lemma_match_link(ts.skip(p));
    }
    match match_link(rest) {
        Some((adv, url, title_tokens)) => {
            let title = parse_inline_tokens(title_tokens);
            proof {
                lemma_push_node(result@, Inline::Hyperlink { url, title }, acc);
            }
            result.push(Inline::Hyperlink { url, title });
            adv
        },
        None => {
            proof {
                reveal_strlit("[");
                assert("["@ =~= seq!['[']);
            }
            result.add_text("[");
            1
        },
    }
}

/// The wikilink whose content is `content`.
fn wikilink_of(content: &[Tokens]) -> (r: Inline)
    ensures
        inline_view(r) == wikilink(toks_view(content@)),
    decreases content@.len(), 3int,
{
    let ghost c = toks_view(content@);
    let target = [Tokens::PIPE];
    proof {
        assert(toks_view(target@) =~= pipe());
        lemma_find_tokens(pipe(), c);
    }
    match find_tokens(&target, content) {
        Some((offset, before)) => {
            let after = slice_range(content, offset, content.len());
            proof {
                lemma_toks_view_subrange(content@, offset as int, content@.len() as int);
                assert(toks_view(after@) == c.skip(offset as int));
                assert(toks_view(before@) == c.take(offset - 1));
            }
            let url = concat_text(before);
            let title = parse_inline_tokens(after);
            let r = Inline::Wikilink { url, title };
            proof {
                assert(wikilink(c) == InlineSpec::Wikilink { url: toks_text(c.take(offset - 1)), title: spec_parse(c.skip(offset as int)) });
            }
            r
        },
        None => {
            let text = concat_text(content);
            let url = text.clone();
            let mut title: Vec<Inline> = Vec::new();
            proof {
                lemma_inlines_view_push(title@, Inline::Text(text));
                assert(inlines_view(title@) == Seq::<InlineSpec>::empty());
            }
            title.push(Inline::Text(text));
            assert(inlines_view(title@) =~= seq![InlineSpec::Text(toks_text(c))]);
            Inline::Wikilink { url, title }
        },
    }
}

} // verus!
