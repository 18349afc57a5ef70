//! Tokens of the filter language.
use crate::filter::FilterError;
use vstd::prelude::*;

verus! {

/// A token: its text and whether it was written as a quoted string.
#[derive(Debug)]
pub struct Token {
    pub text: Vec<char>,
    pub quoted: bool,
}

/// The mathematical form of a token.
pub type Tok = (Seq<char>, bool);

impl Token {
    pub open spec fn tok(&self) -> Tok {
        (self.text@, self.quoted)
    }
}

pub open spec fn toks_of(v: Seq<Token>) -> Seq<Tok> {
    v.map_values(|t: Token| t.tok())
}

/// Unicode White_Space, the property `char::is_whitespace` tests.
pub open spec fn is_space(c: char) -> bool {
    c == '\t' || c == '\n' || c == '\u{b}' || c == '\u{c}' || c == '\r' || c == ' ' || c
        == '\u{85}' || c == '\u{a0}' || c == '\u{1680}' || ('\u{2000}' <= c && c <= '\u{200a}')
        || c == '\u{2028}' || c == '\u{2029}' || c == '\u{202f}' || c == '\u{205f}' || c
        == '\u{3000}'
}

/// Single-character operators.
pub open spec fn is_op(c: char) -> bool {
    c == '(' || c == ')' || c == '[' || c == ']' || c == ':' || c == '&' || c == '|' || c == '!'
        || c == '=' || c == '<' || c == '>'
}

pub open spec fn is_quote(c: char) -> bool {
    c == '"' || c == '\''
}

/// Characters that continue a word.
pub open spec fn word_char(c: char) -> bool {
    !is_space(c) && !is_op(c) && !is_quote(c)
}

/// Number of leading word characters.
pub open spec fn word_len(s: Seq<char>) -> nat
    decreases s.len(),
{
    if s.len() > 0 && word_char(s[0]) {
        1 + word_len(s.drop_first())
    } else {
        0
    }
}

/// Length of the operator token at the start of `s`: `!=`, `==`, `<=`, `>=`, `&&`
/// and `||` take two characters.
pub open spec fn op_len(s: Seq<char>) -> nat {
    if s.len() >= 2 && (s[1] == '=' && (s[0] == '!' || s[0] == '=' || s[0] == '<' || s[0] == '>')
        || s[1] == s[0] && (s[0] == '&' || s[0] == '|')) {
        2
    } else {
        1
    }
}

/// The body of a string after its opening quote `q`: its text and the number of
/// characters up to and including the closing quote. A backslash escapes the next character.
pub open spec fn quoted(s: Seq<char>, q: char) -> Result<(Seq<char>, nat), FilterError>
    decreases s.len(),
{
    if s.len() == 0 {
        Err(FilterError::UnterminatedQuote)
    } else if s[0] == q {
        Ok((Seq::empty(), 1))
    } else if s[0] == '\\' {
        if s.len() < 2 {
            Err(FilterError::UnfinishedEscape)
        } else {
            match quoted(s.skip(2), q) {
                Ok((t, n)) => Ok((seq![s[1]] + t, n + 2)),
                Err(e) => Err(e),
            }
        }
    } else {
        match quoted(s.drop_first(), q) {
            Ok((t, n)) => Ok((seq![s[0]] + t, n + 1)),
            Err(e) => Err(e),
        }
    }
}

pub open spec fn prepend(t: Tok, r: Result<Seq<Tok>, FilterError>) -> Result<Seq<Tok>, FilterError> {
    match r {
        Ok(ts) => Ok(seq![t] + ts),
        Err(e) => Err(e),
    }
}

pub open spec fn prepend_all(ts: Seq<Tok>, r: Result<Seq<Tok>, FilterError>) -> Result<
    Seq<Tok>,
    FilterError,
> {
    match r {
        Ok(rest) => Ok(ts + rest),
        Err(e) => Err(e),
    }
}

/// The tokens of a filter: whitespace separates, quoted strings, operators and words.
pub open spec fn lex(s: Seq<char>) -> Result<Seq<Tok>, FilterError>
    decreases s.len(),
{
    if s.len() == 0 {
        Ok(Seq::empty())
    } else if is_space(s[0]) {
        lex(s.drop_first())
    } else if is_quote(s[0]) {
        match quoted(s.drop_first(), s[0]) {
            Err(e) => Err(e),
            Ok((t, n)) => if n + 1 <= s.len() {
                prepend((t, true), lex(s.skip(n + 1 as int)))
            } else {
                Err(FilterError::UnterminatedQuote)
            },
        }
    } else if is_op(s[0]) {
        let k = op_len(s);
        prepend((s.take(k as int), false), lex(s.skip(k as int)))
    } else {
        let k = 1 + word_len(s.drop_first());
        if k <= s.len() {
            prepend((s.take(k as int), false), lex(s.skip(k as int)))
        } else {
            Err(FilterError::UnexpectedEnd)
        }
    }
}

pub proof fn lemma_word_len_bound(s: Seq<char>)
    ensures
        word_len(s) <= s.len(),
        forall|i: int| 0 <= i < word_len(s) ==> word_char(#[trigger] s[i]),
        word_len(s) < s.len() ==> !word_char(s[word_len(s) as int]),
    decreases s.len(),
{
    if s.len() > 0 && word_char(s[0]) {
        lemma_word_len_bound(s.drop_first());
        assert forall|i: int| 0 <= i < word_len(s) implies word_char(#[trigger] s[i]) by {
            if i > 0 {
                assert(s[i] == s.drop_first()[i - 1]);
            }
        }
    }
}

pub proof fn lemma_quoted_bound(s: Seq<char>, q: char)
    ensures
        quoted(s, q) matches Ok((t, n)) ==> 1 <= n <= s.len(),
    decreases s.len(),
{
    if s.len() > 0 && s[0] != q {
        if s[0] == '\\' {
            if s.len() >= 2 {
                lemma_quoted_bound(s.skip(2), q);
            }
        } else {
            lemma_quoted_bound(s.drop_first(), q);
        }
    }
}

/// Extends the text of a quoted-string result by a prefix and its length by `k`.
pub open spec fn shift(r: Result<(Seq<char>, nat), FilterError>, pre: Seq<char>, k: int) -> Result<
    (Seq<char>, nat),
    FilterError,
> {
    match r {
        Ok((t, n)) => Ok((pre + t, (n + k) as nat)),
        Err(e) => Err(e),
    }
}

proof fn lemma_shift_empty(r: Result<(Seq<char>, nat), FilterError>)
    ensures
        shift(r, Seq::empty(), 0) == r,
{
    match r {
        Ok((t, n)) => {
            assert(Seq::<char>::empty() + t =~= t);
        },
        Err(e) => {},
    }
}

proof fn lemma_shift_shift(
    r: Result<(Seq<char>, nat), FilterError>,
    x: char,
    pre: Seq<char>,
    k: int,
    d: int,
)
    requires
        k >= 0,
        d >= 0,
    ensures
        shift(shift(r, seq![x], d), pre, k) == shift(r, pre.push(x), k + d),
{
    match r {
        Ok((t, n)) => {
            assert(pre + (seq![x] + t) =~= pre.push(x) + t);
        },
        Err(e) => {},
    }
}

proof fn lemma_prepend_step(ts: Seq<Tok>, t: Tok, r: Result<Seq<Tok>, FilterError>)
    ensures
        prepend_all(ts, prepend(t, r)) == prepend_all(ts.push(t), r),
{
    match r {
        Ok(x) => {
            assert(ts + (seq![t] + x) =~= ts.push(t) + x);
        },
        Err(e) => {},
    }
}

/// Whether a character has the Unicode White_Space property.
pub fn is_whitespace(c: char) -> (r: bool)
    ensures
        r == is_space(c),
{
    c == '\t' || c == '\n' || c == '\u{b}' || c == '\u{c}' || c == '\r' || c == ' ' || c
        == '\u{85}' || c == '\u{a0}' || c == '\u{1680}' || ('\u{2000}' <= c && c <= '\u{200a}')
        || c == '\u{2028}' || c == '\u{2029}' || c == '\u{202f}' || c == '\u{205f}' || c
        == '\u{3000}'
}

fn is_operator(c: char) -> (r: bool)
    ensures
        r == is_op(c),
{
    c == '(' || c == ')' || c == '[' || c == ']' || c == ':' || c == '&' || c == '|' || c == '!'
        || c == '=' || c == '<' || c == '>'
}

/// The characters of a string.
pub fn chars_of(input: &str) -> (r: Vec<char>)
    ensures
        r@ == input@,
{
    let mut out: Vec<char> = Vec::new();
    for c in it: input.chars()
        invariant
            out@ == it.seq().take(it.index() as int),
            it.seq() == input@,
    {
        out.push(c);
        assert(out@ =~= it.seq().take(it.index() + 1));
    }
    assert(out@ =~= input@);
    out
}

/// The characters of `s` from `from` up to `to`.
pub fn slice_chars(s: &Vec<char>, from: usize, to: usize) -> (r: Vec<char>)
    requires
        from <= to <= s@.len(),
    ensures
        r@ == s@.subrange(from as int, to as int),
{
    let mut out: Vec<char> = Vec::new();
    let mut i = from;
    while i < to
        invariant
            from <= i <= to <= s@.len(),
            out@ == s@.subrange(from as int, i as int),
        decreases to - i,
    {
        out.push(s[i]);
        i = i + 1;
        assert(out@ =~= s@.subrange(from as int, i as int));
    }
    out
}

/// Splits a filter into tokens.
pub fn tokenize(input: &str) -> (r: Result<Vec<Token>, FilterError>)
    ensures
        match r {
            Ok(ts) => lex(input@) == Ok::<Seq<Tok>, FilterError>(toks_of(ts@)),
            Err(e) => lex(input@) == Err::<Seq<Tok>, FilterError>(e),
        },
{
    let s = chars_of(input);
    let ghost whole = s@;
    let mut tokens: Vec<Token> = Vec::new();
    let mut i: usize = 0;
    assert(whole.skip(0) =~= whole);
    while i < s.len()
        invariant
            i <= s@.len(),
            s@ == whole,
            whole == input@,
            lex(whole) == prepend_all(toks_of(tokens@), lex(whole.skip(i as int))),
        decreases s@.len() - i,
    {
        let ghost rest = whole.skip(i as int);
        let ghost old_toks = toks_of(tokens@);
        let ch = s[i];
        assert(rest[0] == ch);
        if is_whitespace(ch) {
            assert(rest.drop_first() =~= whole.skip(i + 1));
            i = i + 1;
        } else if ch == '\'' || ch == '"' {
            let mut text: Vec<char> = Vec::new();
            let mut j = i + 1;
            let mut closed = false;
            proof {
                lemma_quoted_bound(rest.drop_first(), ch);
                assert(whole.skip(j as int) =~= rest.drop_first());
                assert(text@ + Seq::<char>::empty() =~= Seq::<char>::empty());
                lemma_shift_empty(quoted(rest.drop_first(), ch));
            }
            while !closed && j < s.len()
                invariant
                    i < j <= s@.len(),
                    s@ == whole,
                    rest == whole.skip(i as int),
                    rest[0] == ch,
                    ch == '\'' || ch == '"',
                    whole == input@,
                    old_toks == toks_of(tokens@),
                    lex(whole) == prepend_all(old_toks, lex(rest)),
                    closed ==> quoted(rest.drop_first(), ch) == Ok::<(Seq<char>, nat), FilterError>(
                        (text@, (j - i - 1) as nat),
                    ),
                    !closed ==> quoted(rest.drop_first(), ch) == shift(
                        quoted(whole.skip(j as int), ch),
                        text@,
                        j - i - 1,
                    ),
                decreases s@.len() - j, if closed { 0int } else { 1int },
            {
                let c = s[j];
                let ghost tail = whole.skip(j as int);
                let ghost before = text@;
                assert(tail[0] == c);
                if c == ch {
                    closed = true;
                    j = j + 1;
                } else if c == '\\' {
                    if j + 1 >= s.len() {
                        proof {
                            assert(tail.len() == 1);
                            assert(quoted(tail, ch) == Err::<(Seq<char>, nat), FilterError>(
                                FilterError::UnfinishedEscape,
                            ));
                            assert(!is_space(rest[0]) && is_quote(rest[0]));
                            assert(lex(rest) == Err::<Seq<Tok>, FilterError>(
                                FilterError::UnfinishedEscape,
                            ));
                        }
                        return Err(FilterError::UnfinishedEscape);
                    }
                    text.push(s[j + 1]);
                    proof {
                        assert(tail.skip(2) =~= whole.skip(j + 2));
                        assert(tail[1] == s@[j + 1]);
                        lemma_shift_shift(quoted(tail.skip(2), ch), tail[1], before, j - i - 1, 2);
                    }
                    j = j + 2;
                } else {
                    text.push(c);
                    proof {
                        assert(tail.drop_first() =~= whole.skip(j + 1));
                        lemma_shift_shift(quoted(tail.drop_first(), ch), c, before, j - i - 1, 1);
                    }
                    j = j + 1;
                }
            }
            if !closed {
                proof {
                    assert(whole.skip(j as int).len() == 0);
                }
                return Err(FilterError::UnterminatedQuote);
            }
            proof {
                assert(rest.skip((j - i) as int) =~= whole.skip(j as int));
            }
            let ghost tok = (text@, true);
            proof {
                assert(lex(rest) == prepend(tok, lex(whole.skip(j as int))));
                lemma_prepend_step(old_toks, tok, lex(whole.skip(j as int)));
            }
            tokens.push(Token { text, quoted: true });
            proof {
                assert(toks_of(tokens@) =~= old_toks.push(tok));
            }
            i = j;
        } else if is_operator(ch) {
            let two = i + 1 < s.len() && (s[i + 1] == '=' && (ch == '!' || ch == '=' || ch == '<'
                || ch == '>') || s[i + 1] == ch && (ch == '&' || ch == '|'));
            let k: usize = if two {
                2
            } else {
                1
            };
            assert(k == op_len(rest));
            let text = slice_chars(&s, i, i + k);
            proof {
                assert(text@ =~= rest.take(k as int));
                assert(rest.skip(k as int) =~= whole.skip(i + k));
            }
            let ghost tok = (text@, false);
            proof {
                assert(lex(rest) == prepend(tok, lex(whole.skip(i + k))));
                lemma_prepend_step(old_toks, tok, lex(whole.skip(i + k)));
            }
            tokens.push(Token { text, quoted: false });
            proof {
                assert(toks_of(tokens@) =~= old_toks.push(tok));
            }
            i = i + k;
        } else {
            let mut j = i + 1;
            proof {
                lemma_word_len_bound(rest.drop_first());
            }
            while j < s.len() && !is_whitespace(s[j]) && !is_operator(s[j]) && s[j] != '"' && s[j]
                != '\''
                invariant
                    i < j <= s@.len(),
                    s@ == whole,
                    rest == whole.skip(i as int),
                    j - i - 1 <= word_len(rest.drop_first()),
                    word_len(rest.drop_first()) <= rest.drop_first().len(),
                    forall|q: int|
                        0 <= q < word_len(rest.drop_first()) ==> word_char(
                            #[trigger] rest.drop_first()[q],
                        ),
                    word_len(rest.drop_first()) < rest.drop_first().len() ==> !word_char(
                        rest.drop_first()[word_len(rest.drop_first()) as int],
                    ),
                decreases s@.len() - j,
            {
                assert(rest.drop_first()[j - i - 1] == s@[j as int]);
                j = j + 1;
            }
            proof {
                if j < s.len() {
                    assert(rest.drop_first()[j - i - 1] == s@[j as int]);
                }
                assert(j - i == 1 + word_len(rest.drop_first()));
            }
            let text = slice_chars(&s, i, j);
            proof {
                assert(text@ =~= rest.take((j - i) as int));
                assert(rest.skip((j - i) as int) =~= whole.skip(j as int));
            }
            let ghost tok = (text@, false);
            proof {
                assert(lex(rest) == prepend(tok, lex(whole.skip(j as int))));
                lemma_prepend_step(old_toks, tok, lex(whole.skip(j as int)));
            }
            tokens.push(Token { text, quoted: false });
            proof {
                assert(toks_of(tokens@) =~= old_toks.push(tok));
            }
            i = j;
        }
    }
    proof {
        assert(whole.skip(i as int).len() == 0);
        assert(toks_of(tokens@) + Seq::<Tok>::empty() =~= toks_of(tokens@));
    }
    Ok(tokens)
}

} // verus!
