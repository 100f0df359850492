use vstd::prelude::*;

use crate::text::{chars_of, slice_range, string_of};

verus! {

/// The tokens of inline markdown text.
#[derive(Debug, PartialEq)]
pub enum Tokens {
    /// A maximal run of characters none of which is one of `*[]()|\!`.
    TEXT(String),
    ASTERISK,
    LBRACKET,
    RBRACKET,
    LPAREN,
    RPAREN,
    BACKSLASH,
    EXCLAMATION,
    PIPE,
}

/// The mathematical value of a token: its text as a sequence of characters.
pub enum Tok {
    Text(Seq<char>),
    Asterisk,
    LBracket,
    RBracket,
    LParen,
    RParen,
    Backslash,
    Exclamation,
    Pipe,
}

impl View for Tokens {
    type V = Tok;

    open spec fn view(&self) -> Tok {
        match self {
            Tokens::TEXT(s) => Tok::Text(s@),
            Tokens::ASTERISK => Tok::Asterisk,
            Tokens::LBRACKET => Tok::LBracket,
            Tokens::RBRACKET => Tok::RBracket,
            Tokens::LPAREN => Tok::LParen,
            Tokens::RPAREN => Tok::RParen,
            Tokens::BACKSLASH => Tok::Backslash,
            Tokens::EXCLAMATION => Tok::Exclamation,
            Tokens::PIPE => Tok::Pipe,
        }
    }
}

/// The values of a sequence of tokens.
pub open spec fn toks_view(ts: Seq<Tokens>) -> Seq<Tok> {
    ts.map_values(|t: Tokens| t@)
}

/// The characters that form tokens of their own.
pub open spec fn is_special(c: char) -> bool {
    c == '*' || c == '[' || c == ']' || c == '(' || c == ')' || c == '\\' || c == '!' || c == '|'
}

/// The token formed by a special character.
pub open spec fn special_tok(c: char) -> Tok {
    if c == '*' {
        Tok::Asterisk
    } else if c == '[' {
        Tok::LBracket
    } else if c == ']' {
        Tok::RBracket
    } else if c == '(' {
        Tok::LParen
    } else if c == ')' {
        Tok::RParen
    } else if c == '\\' {
        Tok::Backslash
    } else if c == '!' {
        Tok::Exclamation
    } else {
        Tok::Pipe
    }
}

/// The text a token stands for.
pub open spec fn tok_text(t: Tok) -> Seq<char> {
    match t {
        Tok::Text(s) => s,
        Tok::Asterisk => seq!['*'],
        Tok::LBracket => seq!['['],
        Tok::RBracket => seq![']'],
        Tok::LParen => seq!['('],
        Tok::RParen => seq![')'],
        Tok::Backslash => seq!['\\'],
        Tok::Exclamation => seq!['!'],
        Tok::Pipe => seq!['|'],
    }
}

/// The texts of a sequence of tokens, one after the other.
pub open spec fn toks_text(ts: Seq<Tok>) -> Seq<char>
    decreases ts.len(),
{
    if ts.len() == 0 {
        seq![]
    } else {
        toks_text(ts.drop_last()) + tok_text(ts.last())
    }
}

/// The length of the longest prefix of `cs` without a special character.
pub open spec fn text_run(cs: Seq<char>) -> nat
    decreases cs.len(),
{
    if cs.len() == 0 || is_special(cs[0]) {
        0
    } else {
        1 + text_run(cs.drop_first())
    }
}

pub proof fn lemma_text_run(cs: Seq<char>)
    ensures
        text_run(cs) <= cs.len(),
        cs.len() > 0 && !is_special(cs[0]) ==> text_run(cs) >= 1,
        forall|i: int| 0 <= i < text_run(cs) ==> !is_special(#[trigger] cs[i]),
        text_run(cs) < cs.len() ==> is_special(cs[text_run(cs) as int]),
    decreases cs.len(),
{
    if cs.len() > 0 && !is_special(cs[0]) {
        lemma_text_run(cs.drop_first());
        assert forall|i: int| 0 <= i < text_run(cs) implies !is_special(#[trigger] cs[i]) by {
            if i > 0 {
                assert(cs[i] == cs.drop_first()[i - 1]);
            }
        }
    }
}

/// Tokenisation by longest match: a special character is a token of its own,
/// and a maximal run of other characters is one text token.
pub open spec fn spec_tokenise(cs: Seq<char>) -> Seq<Tok>
    decreases cs.len(),
{
    if cs.len() == 0 {
        seq![]
    } else if is_special(cs[0]) {
        seq![special_tok(cs[0])] + spec_tokenise(cs.drop_first())
    } else {
        proof {
            lemma_text_run(cs);
        }
        let n = text_run(cs) as int;
        seq![Tok::Text(cs.take(n))] + spec_tokenise(cs.skip(n))
    }
}

fn is_special_char(c: char) -> (r: bool)
    ensures
        r == is_special(c),
{
    c == '*' || c == '[' || c == ']' || c == '(' || c == ')' || c == '\\' || c == '!' || c == '|'
}

fn special_token(c: char) -> (t: Tokens)
    requires
        is_special(c),
    ensures
        t@ == special_tok(c),
{
    if c == '*' {
        Tokens::ASTERISK
    } else if c == '[' {
        Tokens::LBRACKET
    } else if c == ']' {
        Tokens::RBRACKET
    } else if c == '(' {
        Tokens::LPAREN
    } else if c == ')' {
        Tokens::RPAREN
    } else if c == '\\' {
        Tokens::BACKSLASH
    } else if c == '!' {
        Tokens::EXCLAMATION
    } else {
        Tokens::PIPE
    }
}

/// Splits inline markdown text into tokens.
pub fn tokenise(content: &str) -> (r: Vec<Tokens>)
    ensures
        toks_view(r@) == spec_tokenise(content@),
        toks_text(toks_view(r@)) == content@,
        text_tokens_maximal(toks_view(r@)),
{
    proof {
        lemma_tokenise_keeps_text(content@);
        lemma_tokenise_maximal(content@);
    }
    let cs = chars_of(content);
    let n = cs.len();
    let mut out: Vec<Tokens> = Vec::new();
    let mut i: usize = 0;
    assert(cs@.skip(0) == cs@);
    while i < n
        invariant
            n == cs@.len(),
            cs@ == content@,
            i <= n,
            toks_view(out@) + spec_tokenise(cs@.skip(i as int)) == spec_tokenise(cs@),
        decreases n - i,
    {
        let ghost rest = cs@.skip(i as int);
        let ghost before = toks_view(out@);
        let c = cs[i];
        if is_special_char(c) {
            out.push(special_token(c));
            assert(rest.drop_first() == cs@.skip(i + 1));
            assert(toks_view(out@) == before.push(special_tok(c)));
            assert(spec_tokenise(rest) == seq![special_tok(c)] + spec_tokenise(cs@.skip(i + 1)));
            i = i + 1;
        } else {
            let mut j: usize = i + 1;
            while j < n && !is_special_char(cs[j])
                invariant
                    n == cs@.len(),
                    rest == cs@.skip(i as int),
                    i < j <= n,
                    forall|k: int| i <= k < j ==> !is_special(#[trigger] cs@[k]),
                decreases n - j,
            {
                j = j + 1;
            }
            proof {
                lemma_text_run(rest);
                let m = text_run(rest) as int;
                if m < j - i {
                    assert(is_special(rest[m]));
                    assert(rest[m] == cs@[i + m]);
                }
                if m > j - i {
                    assert(!is_special(rest[j - i]));
                    assert(rest[j - i] == cs@[j as int]);
                }
                assert(m == j - i);
                assert(rest.take(m) == cs@.subrange(i as int, j as int));
                assert(rest.skip(m) == cs@.skip(j as int));
            }
            let s = string_of(slice_range(cs.as_slice(), i, j));
            out.push(Tokens::TEXT(s));
            assert(toks_view(out@) == before.push(Tok::Text(cs@.subrange(i as int, j as int))));
            i = j;
        }
    }
    assert(cs@.skip(n as int) == Seq::<char>::empty());
    assert(spec_tokenise(Seq::<char>::empty()) == Seq::<Tok>::empty());
    assert(toks_view(out@) + Seq::<Tok>::empty() == toks_view(out@));
    out
}

pub proof fn lemma_toks_text_concat(a: Seq<Tok>, b: Seq<Tok>)
    ensures
        toks_text(a + b) == toks_text(a) + toks_text(b),
    decreases b.len(),
{
    if b.len() == 0 {
        assert(a + b =~= a);
        assert(toks_text(a) + toks_text(b) =~= toks_text(a));
    } else {
        lemma_toks_text_concat(a, b.drop_last());
        assert((a + b).drop_last() =~= a + b.drop_last());
        assert(toks_text(a) + toks_text(b) =~= toks_text(a) + toks_text(b.drop_last()) + tok_text(b.last()));
    }
}

proof fn lemma_toks_text_cons(t: Tok, rest: Seq<Tok>)
    ensures
        toks_text(seq![t] + rest) == tok_text(t) + toks_text(rest),
{
    lemma_toks_text_concat(seq![t], rest);
    assert(seq![t].drop_last() =~= Seq::<Tok>::empty());
    assert(toks_text(Seq::<Tok>::empty()) == Seq::<char>::empty());
    assert(toks_text(seq![t]) =~= tok_text(t));
}

/// Tokenising loses no character: the texts of the tokens, one after the other,
/// are the input.
pub proof fn lemma_tokenise_keeps_text(cs: Seq<char>)
    ensures
        toks_text(spec_tokenise(cs)) == cs,
    decreases cs.len(),
{
    if cs.len() == 0 {
    } else if is_special(cs[0]) {
        lemma_tokenise_keeps_text(cs.drop_first());
        lemma_toks_text_cons(special_tok(cs[0]), spec_tokenise(cs.drop_first()));
        assert(tok_text(special_tok(cs[0])) == seq![cs[0]]);
        assert(seq![cs[0]] + cs.drop_first() =~= cs);
    } else {
        lemma_text_run(cs);
        let n = text_run(cs) as int;
        lemma_tokenise_keeps_text(cs.skip(n));
        lemma_toks_text_cons(Tok::Text(cs.take(n)), spec_tokenise(cs.skip(n)));
        assert(cs.take(n) + cs.skip(n) =~= cs);
    }
}

/// The text tokens of a token sequence are longest matches: none is empty, none holds
/// a special character, and none is followed by another text token.
pub open spec fn text_tokens_maximal(ts: Seq<Tok>) -> bool {
    forall|i: int|
        0 <= i < ts.len() ==> match #[trigger] ts[i] {
            Tok::Text(s) => {
                &&& s.len() > 0
                &&& forall|k: int| 0 <= k < s.len() ==> !is_special(#[trigger] s[k])
                &&& i + 1 < ts.len() ==> !(ts[i + 1] is Text)
            },
            _ => true,
        }
}

/// Every text token that tokenising makes is a longest match.
pub proof fn lemma_tokenise_maximal(cs: Seq<char>)
    ensures
        text_tokens_maximal(spec_tokenise(cs)),
    decreases cs.len(),
{
    if cs.len() == 0 {
    } else if is_special(cs[0]) {
        lemma_tokenise_maximal(cs.drop_first());
        let rest = spec_tokenise(cs.drop_first());
        let ts = spec_tokenise(cs);
        assert forall|i: int| 0 <= i < ts.len() implies match #[trigger] ts[i] {
            Tok::Text(s) => {
                &&& s.len() > 0
                &&& forall|k: int| 0 <= k < s.len() ==> !is_special(#[trigger] s[k])
                &&& i + 1 < ts.len() ==> !(ts[i + 1] is Text)
            },
            _ => true,
        } by {
            if i > 0 {
                assert(ts[i] == rest[i - 1]);
                if i + 1 < ts.len() {
                    assert(ts[i + 1] == rest[i]);
                }
            }
        }
    } else {
        lemma_text_run(cs);
        let n = text_run(cs) as int;
        lemma_tokenise_maximal(cs.skip(n));
        let rest = spec_tokenise(cs.skip(n));
        let ts = spec_tokenise(cs);
        if rest.len() > 0 {
            assert(cs.skip(n).len() > 0);
            assert(cs.skip(n)[0] == cs[n]);
            assert(is_special(cs.skip(n)[0]));
            assert(rest[0] == special_tok(cs.skip(n)[0]));
        }
        assert forall|i: int| 0 <= i < ts.len() implies match #[trigger] ts[i] {
            Tok::Text(s) => {
                &&& s.len() > 0
                &&& forall|k: int| 0 <= k < s.len() ==> !is_special(#[trigger] s[k])
                &&& i + 1 < ts.len() ==> !(ts[i + 1] is Text)
            },
            _ => true,
        } by {
            if i > 0 {
                assert(ts[i] == rest[i - 1]);
                if i + 1 < ts.len() {
                    assert(ts[i + 1] == rest[i]);
                }
            } else {
                assert(ts[0] == Tok::Text(cs.take(n)));
                assert forall|k: int| 0 <= k < cs.take(n).len() implies !is_special(#[trigger] cs.take(n)[k]) by {
                    assert(cs.take(n)[k] == cs[k]);
                }
                if 1 < ts.len() {
                    assert(ts[1] == rest[0]);
                }
            }
        }
    }
}

pub proof fn lemma_text_run_concat(a: Seq<char>, b: Seq<char>)
    requires
        forall|k: int| 0 <= k < a.len() ==> !is_special(#[trigger] a[k]),
    ensures
        text_run(a + b) == a.len() + text_run(b),
    decreases a.len(),
{
    if a.len() == 0 {
        assert(a + b =~= b);
    } else {
        assert((a + b)[0] == a[0]);
        assert((a + b).drop_first() =~= a.drop_first() + b);
        assert forall|k: int| 0 <= k < a.drop_first().len() implies !is_special(#[trigger] a.drop_first()[k]) by {
            assert(a.drop_first()[k] == a[k + 1]);
        }
        lemma_text_run_concat(a.drop_first(), b);
    }
}

/// A sequence of tokens whose first token is not a text token has a text that is empty
/// or begins with a special character.
proof fn lemma_text_after_nontext(rest: Seq<Tok>)
    requires
        rest.len() > 0 ==> !(rest[0] is Text),
    ensures
        text_run(toks_text(rest)) == 0,
{
    if rest.len() > 0 {
        lemma_toks_text_cons(rest[0], rest.drop_first());
        assert(seq![rest[0]] + rest.drop_first() =~= rest);
        assert(toks_text(rest)[0] == tok_text(rest[0])[0]);
    }
}

/// Longest match is the only tokenisation: a token sequence whose texts make up `cs` and
/// whose text tokens are longest matches is the tokenisation of `cs`.
pub proof fn lemma_tokenise_unique(cs: Seq<char>, ts: Seq<Tok>)
    requires
        toks_text(ts) == cs,
        text_tokens_maximal(ts),
    ensures
        ts == spec_tokenise(cs),
    decreases ts.len(),
{
    if ts.len() == 0 {
        assert(cs.len() == 0);
        assert(ts =~= spec_tokenise(cs));
    } else {
        let t = ts[0];
        let rest = ts.drop_first();
        assert(seq![t] + rest =~= ts);
        lemma_toks_text_cons(t, rest);
        assert forall|i: int| 0 <= i < rest.len() implies match #[trigger] rest[i] {
            Tok::Text(s) => {
                &&& s.len() > 0
                &&& forall|k: int| 0 <= k < s.len() ==> !is_special(#[trigger] s[k])
                &&& i + 1 < rest.len() ==> !(rest[i + 1] is Text)
            },
            _ => true,
        } by {
            assert(rest[i] == ts[i + 1]);
            if i + 1 < rest.len() {
                assert(rest[i + 1] == ts[i + 2]);
            }
        }
        match t {
            Tok::Text(s) => {
                assert(ts[0] == t);
                if rest.len() > 0 {
                    assert(rest[0] == ts[1]);
                }
                lemma_text_after_nontext(rest);
                lemma_text_run_concat(s, toks_text(rest));
                assert(cs.len() > 0 && !is_special(cs[0])) by {
                    assert(cs[0] == s[0]);
                }
                assert(cs.take(s.len() as int) =~= s);
                assert(cs.skip(s.len() as int) =~= toks_text(rest));
                lemma_tokenise_unique(toks_text(rest), rest);
            },
            _ => {
                assert(tok_text(t).len() == 1);
                let c = tok_text(t)[0];
                assert(cs[0] == c);
                assert(is_special(c));
                assert(special_tok(c) == t);
                assert(cs.drop_first() =~= toks_text(rest));
                lemma_tokenise_unique(toks_text(rest), rest);
            },
        }
    }
}

/// `cs` with a backslash put before each special character.
pub open spec fn escaped(cs: Seq<char>) -> Seq<char>
    decreases cs.len(),
{
    if cs.len() == 0 {
        seq![]
    } else if is_special(cs[0]) {
        seq!['\\', cs[0]] + escaped(cs.drop_first())
    } else {
        seq![cs[0]] + escaped(cs.drop_first())
    }
}

/// Tokens in which each token is a text token or a backslash followed by some token.
pub open spec fn escaped_form(ts: Seq<Tok>) -> bool
    decreases ts.len(),
{
    if ts.len() == 0 {
        true
    } else if ts[0] is Text {
        escaped_form(ts.drop_first())
    } else if ts[0] == Tok::Backslash && ts.len() >= 2 {
        escaped_form(ts.skip(2))
    } else {
        false
    }
}

/// The text of tokens in escaped form, each backslash dropped.
pub open spec fn unescaped_text(ts: Seq<Tok>) -> Seq<char>
    decreases ts.len(),
{
    if ts.len() == 0 {
        seq![]
    } else if ts[0] is Text {
        tok_text(ts[0]) + unescaped_text(ts.drop_first())
    } else if ts.len() >= 2 {
        tok_text(ts[1]) + unescaped_text(ts.skip(2))
    } else {
        seq![]
    }
}

proof fn lemma_escaped_concat(a: Seq<char>, b: Seq<char>)
    ensures
        escaped(a + b) == escaped(a) + escaped(b),
    decreases a.len(),
{
    if a.len() == 0 {
        assert(a + b =~= b);
        assert(escaped(a) + escaped(b) =~= escaped(b));
    } else {
        assert((a + b)[0] == a[0]);
        assert((a + b).drop_first() =~= a.drop_first() + b);
        lemma_escaped_concat(a.drop_first(), b);
        if is_special(a[0]) {
            assert(escaped(a + b) =~= escaped(a) + escaped(b));
        } else {
            assert(escaped(a + b) =~= escaped(a) + escaped(b));
        }
    }
}

/// Text without special characters needs no escaping.
pub proof fn lemma_escaped_plain(a: Seq<char>)
    requires
        forall|k: int| 0 <= k < a.len() ==> !is_special(#[trigger] a[k]),
    ensures
        escaped(a) == a,
    decreases a.len(),
{
    if a.len() > 0 {
        assert forall|k: int| 0 <= k < a.drop_first().len() implies !is_special(#[trigger] a.drop_first()[k]) by {
            assert(a.drop_first()[k] == a[k + 1]);
        }
        lemma_escaped_plain(a.drop_first());
        assert(seq![a[0]] + a.drop_first() =~= a);
    }
}

/// Tokenising escaped text gives tokens in escaped form whose unescaped text is the
/// text before escaping.
pub proof fn lemma_tokenise_escaped(cs: Seq<char>)
    ensures
        escaped_form(spec_tokenise(escaped(cs))),
        unescaped_text(spec_tokenise(escaped(cs))) == cs,
        spec_tokenise(escaped(cs)).len() == 0 <==> cs.len() == 0,
    decreases cs.len(),
{
    let e = escaped(cs);
    if cs.len() == 0 {
    } else if is_special(cs[0]) {
        let c = cs[0];
        let rest = cs.drop_first();
        lemma_tokenise_escaped(rest);
        let t2 = spec_tokenise(escaped(rest));
        assert(e[0] == '\\');
        assert(e.drop_first() =~= seq![c] + escaped(rest));
        assert(e.drop_first()[0] == c);
        assert(e.drop_first().drop_first() =~= escaped(rest));
        let ts = spec_tokenise(e);
        assert(special_tok(e[0]) == Tok::Backslash);
        assert(ts == seq![Tok::Backslash] + spec_tokenise(e.drop_first()));
        assert(spec_tokenise(e.drop_first()) == seq![special_tok(c)] + spec_tokenise(e.drop_first().drop_first()));
        assert(ts == seq![Tok::Backslash] + (seq![special_tok(c)] + t2));
        assert(ts.skip(2) =~= t2);
        assert(ts[1] == special_tok(c));
        assert(tok_text(special_tok(c)) == seq![c]);
        assert(seq![c] + rest =~= cs);
    } else {
        lemma_text_run(cs);
        let m = text_run(cs) as int;
        let a = cs.take(m);
        let b = cs.skip(m);
        assert(a + b =~= cs);
        assert forall|k: int| 0 <= k < a.len() implies !is_special(#[trigger] a[k]) by {
            assert(a[k] == cs[k]);
        }
        lemma_escaped_concat(a, b);
        lemma_escaped_plain(a);
        lemma_tokenise_escaped(b);
        if b.len() > 0 {
            assert(b[0] == cs[m]);
            assert(escaped(b)[0] == '\\');
        }
        lemma_text_run_concat(a, escaped(b));
        assert(e.take(m) =~= a);
        assert(e.skip(m) =~= escaped(b));
        let ts = spec_tokenise(e);
        assert(ts == seq![Tok::Text(a)] + spec_tokenise(escaped(b)));
        assert(ts.drop_first() =~= spec_tokenise(escaped(b)));
        assert(ts[0] == Tok::Text(a));
    }
}

impl Tokens {
    /// The text this token stands for.
    pub fn to_text(&self) -> (s: String)
        ensures
            s@ == tok_text(self@),
    {
        match self {
            Tokens::TEXT(s) => s.clone(),
            Tokens::ASTERISK => string_of(&['*']),
            Tokens::LBRACKET => string_of(&['[']),
            Tokens::RBRACKET => string_of(&[']']),
            Tokens::LPAREN => string_of(&['(']),
            Tokens::RPAREN => string_of(&[')']),
            Tokens::BACKSLASH => string_of(&['\\']),
            Tokens::EXCLAMATION => string_of(&['!']),
            Tokens::PIPE => string_of(&['|']),
        }
    }
}

} // verus!
