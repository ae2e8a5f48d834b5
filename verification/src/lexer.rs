//! A minimal lexer for source lines. It recognises a few keywords,
//! identifiers, numbers, single-character operators and the four bracket
//! characters, and skips blanks. An unrecognised character yields a lexical
//! error in place of a token and scanning continues after it. The scanner
//! takes the longest match at each position and prefers a keyword over an
//! identifier of the same spelling.

use vstd::prelude::*;

verus! {

/// One lexical token. A token carries no text: only its kind matters to the
/// counters, and of the kinds only the two braces.
#[derive(Debug, Clone, Copy, PartialEq, Eq, Structural)]
pub enum Token {
    Fn,
    Let,
    Struct,
    Trait,
    Ident,
    Number,
    Assign,
    Semicolon,
    Plus,
    Minus,
    Star,
    Slash,
    LParen,
    RParen,
    LBrace,
    RBrace,
}

/// A character that no token pattern covers.
#[derive(Debug, Clone, Copy, PartialEq, Eq, Structural)]
pub struct LexError;

/// The characters the lexer skips between tokens.
pub open spec fn is_blank_char(c: char) -> bool {
    c == ' ' || c == '\t' || c == '\n' || c == '\u{c}'
}

/// A character that may start an identifier or keyword.
pub open spec fn is_word_start_char(c: char) -> bool {
    (0x41 <= c as int && c as int <= 0x5a) || (0x61 <= c as int && c as int <= 0x7a) || c == '_'
}

/// A decimal digit.
pub open spec fn is_digit_char(c: char) -> bool {
    0x30 <= c as int && c as int <= 0x39
}

/// A character that may continue an identifier or keyword.
pub open spec fn is_word_char(c: char) -> bool {
    is_word_start_char(c) || is_digit_char(c)
}

/// The length of the longest run of word characters at the front of `s`.
pub open spec fn word_run_len(s: Seq<char>) -> nat
    decreases s.len(),
{
    if s.len() > 0 && is_word_char(s[0]) {
        (1 + word_run_len(s.drop_first())) as nat
    } else {
        0
    }
}

/// The length of the longest run of digits at the front of `s`.
pub open spec fn digit_run_len(s: Seq<char>) -> nat
    decreases s.len(),
{
    if s.len() > 0 && is_digit_char(s[0]) {
        (1 + digit_run_len(s.drop_first())) as nat
    } else {
        0
    }
}

pub proof fn lemma_word_run(s: Seq<char>)
    ensures
        word_run_len(s) <= s.len(),
        forall|j: int| 0 <= j < word_run_len(s) ==> is_word_char(s[j]),
    decreases s.len(),
{
    if s.len() > 0 && is_word_char(s[0]) {
        lemma_word_run(s.drop_first());
        assert forall|j: int| 0 <= j < word_run_len(s) implies is_word_char(s[j]) by {
            if j > 0 {
                assert(is_word_char(s.drop_first()[j - 1]));
            }
        }
    }
}

pub proof fn lemma_digit_run(s: Seq<char>)
    ensures
        digit_run_len(s) <= s.len(),
        forall|j: int| 0 <= j < digit_run_len(s) ==> is_digit_char(s[j]),
    decreases s.len(),
{
    if s.len() > 0 && is_digit_char(s[0]) {
        lemma_digit_run(s.drop_first());
        assert forall|j: int| 0 <= j < digit_run_len(s) implies is_digit_char(s[j]) by {
            if j > 0 {
                assert(is_digit_char(s.drop_first()[j - 1]));
            }
        }
    }
}

/// The token a full word lexes to: a keyword for its exact spelling, an
/// identifier otherwise.
pub open spec fn keyword_token(w: Seq<char>) -> Option<Token> {
    if w == seq!['f', 'n'] {
        Some(Token::Fn)
    } else if w == seq!['l', 'e', 't'] {
        Some(Token::Let)
    } else if w == seq!['s', 't', 'r', 'u', 'c', 't'] {
        Some(Token::Struct)
    } else if w == seq!['t', 'r', 'a', 'i', 't'] {
        Some(Token::Trait)
    } else {
        None
    }
}

pub open spec fn word_token(w: Seq<char>) -> Token {
    match keyword_token(w) {
        Some(t) => t,
        None => Token::Ident,
    }
}

/// The token (or error) found at the front of `s`, which must not start
/// with a blank.
pub open spec fn first_token(s: Seq<char>) -> Result<Token, LexError> {
    let c = s[0];
    if is_word_start_char(c) {
        Ok(word_token(s.subrange(0, word_run_len(s) as int)))
    } else if is_digit_char(c) {
        Ok(Token::Number)
    } else if c == '=' {
        Ok(Token::Assign)
    } else if c == ';' {
        Ok(Token::Semicolon)
    } else if c == '+' {
        Ok(Token::Plus)
    } else if c == '-' {
        Ok(Token::Minus)
    } else if c == '*' {
        Ok(Token::Star)
    } else if c == '/' {
        Ok(Token::Slash)
    } else if c == '(' {
        Ok(Token::LParen)
    } else if c == ')' {
        Ok(Token::RParen)
    } else if c == '{' {
        Ok(Token::LBrace)
    } else if c == '}' {
        Ok(Token::RBrace)
    } else {
        Err(LexError)
    }
}

/// How many characters the token at the front of `s` covers.
pub open spec fn token_len(s: Seq<char>) -> nat {
    if is_word_start_char(s[0]) {
        word_run_len(s)
    } else if is_digit_char(s[0]) {
        digit_run_len(s)
    } else {
        1
    }
}

pub proof fn lemma_token_len(s: Seq<char>)
    requires
        s.len() > 0,
        !is_blank_char(s[0]),
    ensures
        1 <= token_len(s) <= s.len(),
{
    lemma_word_run(s);
    lemma_digit_run(s);
}

/// The tokens of `s`, in input order, with one `LexError` standing in for
/// each unrecognised character.
pub open spec fn lex(s: Seq<char>) -> Seq<Result<Token, LexError>>
    decreases s.len(),
    via lex_decreases
{
    if s.len() == 0 {
        Seq::empty()
    } else if is_blank_char(s[0]) {
        lex(s.drop_first())
    } else {
        seq![first_token(s)] + lex(s.skip(token_len(s) as int))
    }
}

#[via_fn]
proof fn lex_decreases(s: Seq<char>) {
    if s.len() > 0 && !is_blank_char(s[0]) {
        lemma_token_len(s);
    }
}

/// How many tokens of `ts` are `Ok(t)`.
pub open spec fn count_tok(ts: Seq<Result<Token, LexError>>, t: Token) -> nat
    decreases ts.len(),
{
    if ts.len() == 0 {
        0
    } else {
        (if ts[0] == Ok::<Token, LexError>(t) {
            1nat
        } else {
            0nat
        }) + count_tok(ts.drop_first(), t)
    }
}

/// One more token changes the count by one or by nothing.
pub proof fn lemma_count_tok_take(ts: Seq<Result<Token, LexError>>, t: Token, i: int)
    requires
        0 <= i < ts.len(),
    ensures
        count_tok(ts.take(i + 1), t) == count_tok(ts.take(i), t) + (if ts[i] == Ok::<
            Token,
            LexError,
        >(t) {
            1nat
        } else {
            0nat
        }),
    decreases i,
{
    if i == 0 {
        assert(ts.take(1).drop_first() =~= Seq::<Result<Token, LexError>>::empty());
        assert(ts.take(0) =~= Seq::<Result<Token, LexError>>::empty());
        assert(ts.take(1)[0] == ts[0]);
    } else {
        lemma_count_tok_take(ts.drop_first(), t, i - 1);
        assert(ts.take(i + 1).drop_first() =~= ts.drop_first().take(i));
        assert(ts.take(i).drop_first() =~= ts.drop_first().take(i - 1));
        assert(ts.take(i + 1)[0] == ts[0]);
        assert(ts.take(i)[0] == ts[0]);
        assert(ts.drop_first()[i - 1] == ts[i]);
    }
}

proof fn lemma_count_ch_skip_front(s: Seq<char>, k: int, c: char)
    requires
        0 <= k <= s.len(),
        forall|j: int| 0 <= j < k ==> s[j] != c,
    ensures
        crate::text::count_ch(s, c) == crate::text::count_ch(s.skip(k), c),
    decreases k,
{
    if k > 0 {
        assert(s.drop_first().skip(k - 1) =~= s.skip(k));
        lemma_count_ch_skip_front(s.drop_first(), k - 1, c);
    } else {
        assert(s.skip(0) =~= s);
    }
}

/// Every `{` of a line lexes to exactly one `LBrace` token and every `}` to
/// one `RBrace`: braces are never hidden in, or invented by, other tokens.
pub proof fn lemma_lex_braces(s: Seq<char>)
    ensures
        count_tok(lex(s), Token::LBrace) == crate::text::count_ch(s, '{'),
        count_tok(lex(s), Token::RBrace) == crate::text::count_ch(s, '}'),
    decreases s.len(),
{
    if s.len() == 0 {
    } else if is_blank_char(s[0]) {
        lemma_lex_braces(s.drop_first());
    } else {
        lemma_token_len(s);
        lemma_word_run(s);
        lemma_digit_run(s);
        let k = token_len(s) as int;
        let rest = s.skip(k);
        lemma_lex_braces(rest);
        if is_word_start_char(s[0]) || is_digit_char(s[0]) {
            assert forall|j: int| 0 <= j < k implies s[j] != '{' && s[j] != '}' by {
                if is_word_start_char(s[0]) {
                    assert(is_word_char(s[j]));
                } else {
                    assert(is_digit_char(s[j]));
                }
            }
            lemma_count_ch_skip_front(s, k, '{');
            lemma_count_ch_skip_front(s, k, '}');
        } else {
            assert(k == 1);
            assert(s.skip(1) =~= s.drop_first());
        }
        let ts = lex(s);
        assert(ts =~= seq![first_token(s)] + lex(rest));
        assert(ts.drop_first() =~= lex(rest));
        assert(ts[0] == first_token(s));
        if s[0] == '{' {
            assert(crate::text::count_ch(s, '{') == 1 + crate::text::count_ch(s.drop_first(), '{'));
            assert(s.skip(1) =~= s.drop_first());
        } else if s[0] == '}' {
            assert(s.skip(1) =~= s.drop_first());
        }
        assert(first_token(s) == Ok::<Token, LexError>(Token::LBrace) <==> s[0] == '{');
        assert(first_token(s) == Ok::<Token, LexError>(Token::RBrace) <==> s[0] == '}');
    }
}

/// Which keyword, if any, `chars[i..j]` spells.
fn keyword_of(chars: &Vec<char>, i: usize, j: usize) -> (r: Option<Token>)
    requires
        i <= j <= chars@.len(),
    ensures
        r == keyword_token(chars@.subrange(i as int, j as int)),
{
    let ghost w = chars@.subrange(i as int, j as int);
    let run = j - i;
    if run == 2 && chars[i] == 'f' && chars[i + 1] == 'n' {
        proof {
            assert(w =~= seq!['f', 'n']);
        }
        Some(Token::Fn)
    } else if run == 3 && chars[i] == 'l' && chars[i + 1] == 'e' && chars[i + 2] == 't' {
        proof {
            assert(w =~= seq!['l', 'e', 't']);
        }
        Some(Token::Let)
    } else if run == 6 && chars[i] == 's' && chars[i + 1] == 't' && chars[i + 2] == 'r' && chars[i
        + 3] == 'u' && chars[i + 4] == 'c' && chars[i + 5] == 't' {
        proof {
            assert(w =~= seq!['s', 't', 'r', 'u', 'c', 't']);
        }
        Some(Token::Struct)
    } else if run == 5 && chars[i] == 't' && chars[i + 1] == 'r' && chars[i + 2] == 'a' && chars[i
        + 3] == 'i' && chars[i + 4] == 't' {
        proof {
            assert(w =~= seq!['t', 'r', 'a', 'i', 't']);
        }
        Some(Token::Trait)
    } else {
        proof {
            assert(w.len() == run);
            if w == seq!['f', 'n'] {
                assert(w[0] == 'f' && w[1] == 'n');
            }
            if w == seq!['l', 'e', 't'] {
                assert(w[0] == 'l' && w[1] == 'e' && w[2] == 't');
            }
            if w == seq!['s', 't', 'r', 'u', 'c', 't'] {
                assert(w[0] == 's' && w[1] == 't' && w[2] == 'r' && w[3] == 'u' && w[4] == 'c'
                    && w[5] == 't');
            }
            if w == seq!['t', 'r', 'a', 'i', 't'] {
                assert(w[0] == 't' && w[1] == 'r' && w[2] == 'a' && w[3] == 'i' && w[4] == 't');
            }
        }
        None
    }
}

fn is_blank(c: char) -> (r: bool)
    ensures
        r == is_blank_char(c),
{
    c == ' ' || c == '\t' || c == '\n' || c == '\u{c}'
}

fn is_word_start(c: char) -> (r: bool)
    ensures
        r == is_word_start_char(c),
{
    let u = c as u32;
    (0x41 <= u && u <= 0x5a) || (0x61 <= u && u <= 0x7a) || c == '_'
}

fn is_digit(c: char) -> (r: bool)
    ensures
        r == is_digit_char(c),
{
    let u = c as u32;
    0x30 <= u && u <= 0x39
}

fn is_word(c: char) -> (r: bool)
    ensures
        r == is_word_char(c),
{
    is_word_start(c) || is_digit(c)
}

/// The tokens of `chars[lo..hi]`, as `lex` names them.
pub fn tokenize_chars(chars: &Vec<char>, lo: usize, hi: usize) -> (r: Vec<
    Result<Token, LexError>,
>)
    requires
        lo <= hi <= chars@.len(),
    ensures
        r@ == lex(chars@.subrange(lo as int, hi as int)),
{
    let mut out: Vec<Result<Token, LexError>> = Vec::new();
    let mut i: usize = lo;
    let ghost s = chars@.subrange(lo as int, hi as int);
    proof {
        assert(out@ + lex(chars@.subrange(lo as int, hi as int)) =~= lex(s));
    }
    while i < hi
        invariant
            lo <= i <= hi <= chars@.len(),
            s == chars@.subrange(lo as int, hi as int),
            lex(s) == out@ + lex(chars@.subrange(i as int, hi as int)),
        decreases hi - i,
    {
        let ghost tail = chars@.subrange(i as int, hi as int);
        let c = chars[i];
        assert(tail[0] == c);
        if is_blank(c) {
            proof {
                assert(tail.drop_first() =~= chars@.subrange(i as int + 1, hi as int));
            }
            i = i + 1;
        } else if is_word_start(c) {
            proof {
                assert(tail.drop_first() =~= chars@.subrange(i as int + 1, hi as int));
            }
            let mut j = i + 1;
            while j < hi && is_word(chars[j])
                invariant
                    lo <= i < j <= hi <= chars@.len(),
                    tail == chars@.subrange(i as int, hi as int),
                    word_run_len(tail) == j - i + word_run_len(
                        chars@.subrange(j as int, hi as int),
                    ),
                    forall|m: int| i <= m < j ==> is_word_char(chars@[m]),
                decreases hi - j,
            {
                proof {
                    assert(chars@.subrange(j as int, hi as int).drop_first() =~= chars@.subrange(
                        j as int + 1,
                        hi as int,
                    ));
                }
                j = j + 1;
            }
            proof {
                assert(word_run_len(chars@.subrange(j as int, hi as int)) == 0);
                assert(word_run_len(tail) == j - i);
                assert(tail.subrange(0, j - i) =~= chars@.subrange(i as int, j as int));
            }
            let tok = match keyword_of(chars, i, j) {
                Some(t) => t,
                None => Token::Ident,
            };
            out.push(Ok(tok));
            proof {
                assert(token_len(tail) == j - i);
                assert(tail.skip(j - i) =~= chars@.subrange(j as int, hi as int));
                assert(lex(tail) =~= seq![first_token(tail)] + lex(
                    chars@.subrange(j as int, hi as int),
                ));
                assert(out@ + lex(chars@.subrange(j as int, hi as int)) =~= out@.drop_last() + lex(
                    tail,
                ));
            }
            i = j;
        } else if is_digit(c) {
            proof {
                assert(tail.drop_first() =~= chars@.subrange(i as int + 1, hi as int));
            }
            let mut j = i + 1;
            while j < hi && is_digit(chars[j])
                invariant
                    lo <= i < j <= hi <= chars@.len(),
                    tail == chars@.subrange(i as int, hi as int),
                    digit_run_len(tail) == j - i + digit_run_len(
                        chars@.subrange(j as int, hi as int),
                    ),
                decreases hi - j,
            {
                proof {
                    assert(chars@.subrange(j as int, hi as int).drop_first() =~= chars@.subrange(
                        j as int + 1,
                        hi as int,
                    ));
                }
                j = j + 1;
            }
            proof {
                assert(digit_run_len(chars@.subrange(j as int, hi as int)) == 0);
                assert(digit_run_len(tail) == j - i);
            }
            out.push(Ok(Token::Number));
            proof {
                assert(token_len(tail) == j - i);
                assert(tail.skip(j - i) =~= chars@.subrange(j as int, hi as int));
                assert(lex(tail) =~= seq![first_token(tail)] + lex(
                    chars@.subrange(j as int, hi as int),
                ));
                assert(out@ + lex(chars@.subrange(j as int, hi as int)) =~= out@.drop_last() + lex(
                    tail,
                ));
            }
            i = j;
        } else {
            let item: Result<Token, LexError> = if c == '=' {
                Ok(Token::Assign)
            } else if c == ';' {
                Ok(Token::Semicolon)
            } else if c == '+' {
                Ok(Token::Plus)
            } else if c == '-' {
                Ok(Token::Minus)
            } else if c == '*' {
                Ok(Token::Star)
            } else if c == '/' {
                Ok(Token::Slash)
            } else if c == '(' {
                Ok(Token::LParen)
            } else if c == ')' {
                Ok(Token::RParen)
            } else if c == '{' {
                Ok(Token::LBrace)
            } else if c == '}' {
                Ok(Token::RBrace)
            } else {
                Err(LexError)
            };
            assert(item == first_token(tail));
            out.push(item);
            proof {
                assert(token_len(tail) == 1);
                assert(tail.skip(1) =~= chars@.subrange(i as int + 1, hi as int));
                assert(lex(tail) =~= seq![first_token(tail)] + lex(
                    chars@.subrange(i as int + 1, hi as int),
                ));
                assert(out@ + lex(chars@.subrange(i as int + 1, hi as int)) =~= out@.drop_last()
                    + lex(tail));
            }
            i = i + 1;
        }
    }
    proof {
        assert(lex(chars@.subrange(i as int, hi as int)) =~= Seq::<Result<Token, LexError>>::empty());
        assert(out@ + Seq::<Result<Token, LexError>>::empty() =~= out@);
    }
    out
}

/// The tokens of a line of text, in input order; whitespace is skipped and
/// each unrecognised character is reported as a `LexError` in sequence.
pub fn tokenize(line: &str) -> (r: Vec<Result<Token, LexError>>)
    ensures
        r@ == lex(line@),
{
    let chars = crate::text::str_to_chars(line);
    let n = chars.len();
    let r = tokenize_chars(&chars, 0, n);
    proof {
        assert(chars@.subrange(0, n as int) =~= line@);
    }
    r
}

} // verus!
