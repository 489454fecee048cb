//! The lexer: source text to an ordered token sequence.
//!
//! The spec function [`lex`] is the mathematical model of lexing: it maps a
//! character sequence either to the sequence of token models it denotes or
//! to the first undefined character. The executable [`tokenize`] is proved
//! to agree with it, appending the `EndOfInput` sentinel on success.

use vstd::prelude::*;

verus! {

/// One lexical unit of source text. Tokens that carry text retain the
/// exact source substring they were read from.
#[derive(Debug, PartialEq, Eq)]
pub enum Token {
    Number(String),
    Identifier(String),
    Equals,
    OpenParen,
    CloseParen,
    BinaryOperator(BinaryOperator),
    Let,
    Const,
    Null,
    Semicolon,
    EndOfInput,
}

/// The precedence tier of an operator token; the payload is the operator
/// character itself.
#[derive(Debug, Clone, Copy, PartialEq, Eq, Structural)]
pub enum BinaryOperator {
    Additive(char),
    Multiplicative(char),
}

/// A lexical failure: a character that begins no token.
#[derive(Debug, Clone, Copy, PartialEq, Eq, Structural)]
pub enum LexError {
    UndefinedCharacter(char),
}

/// The mathematical form of a token: carried text is a character sequence.
pub enum TokenModel {
    Number(Seq<char>),
    Identifier(Seq<char>),
    Equals,
    OpenParen,
    CloseParen,
    BinaryOperator(BinaryOperator),
    Let,
    Const,
    Null,
    Semicolon,
    EndOfInput,
}

impl View for Token {
    type V = TokenModel;

    open spec fn view(&self) -> TokenModel {
        match self {
            Token::Number(s) => TokenModel::Number(s@),
            Token::Identifier(s) => TokenModel::Identifier(s@),
            Token::Equals => TokenModel::Equals,
            Token::OpenParen => TokenModel::OpenParen,
            Token::CloseParen => TokenModel::CloseParen,
            Token::BinaryOperator(op) => TokenModel::BinaryOperator(*op),
            Token::Let => TokenModel::Let,
            Token::Const => TokenModel::Const,
            Token::Null => TokenModel::Null,
            Token::Semicolon => TokenModel::Semicolon,
            Token::EndOfInput => TokenModel::EndOfInput,
        }
    }
}

/// The token models of a token sequence.
pub open spec fn tokens_view(ts: Seq<Token>) -> Seq<TokenModel> {
    ts.map_values(|t: Token| t@)
}

// ---------------------------------------------------------------------------
// Character classes
// ---------------------------------------------------------------------------

pub open spec fn is_skippable_char(c: char) -> bool {
    c == ' ' || c == '\n' || c == '\t'
}

pub open spec fn is_digit_char(c: char) -> bool {
    48 <= c as u32 <= 57
}

pub open spec fn is_additive_char(c: char) -> bool {
    c == '+' || c == '-'
}

pub open spec fn is_multiplicative_char(c: char) -> bool {
    c == '*' || c == '/' || c == '%'
}

/// Which characters beyond ASCII count as alphabetic; within ASCII the
/// answer is exactly the letters (see [`is_alphabetic_char`]).
pub uninterp spec fn is_unicode_letter(c: char) -> bool;

pub open spec fn is_alphabetic_char(c: char) -> bool {
    if c as u32 <= 127 {
        (97 <= c as u32 <= 122) || (65 <= c as u32 <= 90)
    } else {
        is_unicode_letter(c)
    }
}

/// Relies on `char::is_alphabetic`: its documentation fixes the answer for
/// ASCII input to exactly the letters `a`-`z` and `A`-`Z`; outside ASCII it
/// is a fixed predicate of the character alone, named `is_unicode_letter`.
pub assume_specification[ char::is_alphabetic ](c: char) -> (r: bool)
    ensures
        r == is_alphabetic_char(c),
        c as u32 > 127 ==> r == is_unicode_letter(c),
;

/// Decide whether `character` is whitespace that the lexer discards.
pub fn is_skippable(character: &char) -> (r: bool)
    ensures
        r == is_skippable_char(*character),
{
    *character == ' ' || *character == '\n' || *character == '\t'
}

fn is_digit(character: &char) -> (r: bool)
    ensures
        r == is_digit_char(*character),
{
    let c = *character as u32;
    48 <= c && c <= 57
}

fn is_additive(character: &char) -> (r: bool)
    ensures
        r == is_additive_char(*character),
{
    *character == '+' || *character == '-'
}

fn is_multiplicative(character: &char) -> (r: bool)
    ensures
        r == is_multiplicative_char(*character),
{
    *character == '*' || *character == '/' || *character == '%'
}

// ---------------------------------------------------------------------------
// Reserved words
// ---------------------------------------------------------------------------

/// The reserved-word forms, as token models.
pub open spec fn reserved_token(s: Seq<char>) -> Option<TokenModel> {
    if s == seq!['l', 'e', 't'] {
        Some(TokenModel::Let)
    } else if s == seq!['c', 'o', 'n', 's', 't'] {
        Some(TokenModel::Const)
    } else if s == seq!['n', 'u', 'l', 'l'] {
        Some(TokenModel::Null)
    } else {
        None
    }
}

/// The token a fully collected word denotes: its reserved form if it has
/// one, a plain identifier otherwise.
pub open spec fn word_token(s: Seq<char>) -> TokenModel {
    match reserved_token(s) {
        Some(t) => t,
        None => TokenModel::Identifier(s),
    }
}

/// Reclassify a fully collected identifier if it is a reserved word.
pub fn find_reserved(token: &String) -> (r: Option<Token>)
    ensures
        match r {
            Some(t) => reserved_token(token@) == Some(t@),
            None => reserved_token(token@) is None,
        },
{
    proof {
        reveal_strlit("let");
        reveal_strlit("const");
        reveal_strlit("null");
        assert("let"@ =~= seq!['l', 'e', 't']);
        assert("const"@ =~= seq!['c', 'o', 'n', 's', 't']);
        assert("null"@ =~= seq!['n', 'u', 'l', 'l']);
    }
    if *token == "let".to_owned() {
        Some(Token::Let)
    } else if *token == "const".to_owned() {
        Some(Token::Const)
    } else if *token == "null".to_owned() {
        Some(Token::Null)
    } else {
        None
    }
}

// ---------------------------------------------------------------------------
// The lexing model
// ---------------------------------------------------------------------------

/// The digit class as a function value, so that every use denotes one and
/// the same predicate term.
pub open spec fn digit_pred() -> spec_fn(char) -> bool {
    |c: char| is_digit_char(c)
}

/// The alphabetic class as a function value.
pub open spec fn alpha_pred() -> spec_fn(char) -> bool {
    |c: char| is_alphabetic_char(c)
}

/// Length of the longest prefix of `s` whose characters all satisfy `pred`.
pub open spec fn prefix_len(s: Seq<char>, pred: spec_fn(char) -> bool) -> int
    decreases s.len(),
{
    if s.len() == 0 {
        0
    } else if pred(s[0]) {
        1 + prefix_len(s.drop_first(), pred)
    } else {
        0
    }
}

pub proof fn lemma_prefix_len_bounds(s: Seq<char>, pred: spec_fn(char) -> bool)
    ensures
        0 <= prefix_len(s, pred) <= s.len(),
    decreases s.len(),
{
    if s.len() != 0 && pred(s[0]) {
        lemma_prefix_len_bounds(s.drop_first(), pred);
    }
}

/// The maximal `pred`-prefix ends exactly where `pred` first fails.
pub proof fn lemma_prefix_len_exact(s: Seq<char>, pred: spec_fn(char) -> bool, k: int)
    requires
        0 <= k <= s.len(),
        forall|m: int| 0 <= m < k ==> pred(s[m]),
        k == s.len() || !pred(s[k]),
    ensures
        prefix_len(s, pred) == k,
    decreases s.len(),
{
    if k > 0 {
        let rest = s.drop_first();
        assert forall|m: int| 0 <= m < k - 1 implies pred(rest[m]) by {
            assert(rest[m] == s[m + 1]);
        }
        if k - 1 < rest.len() {
            assert(rest[k - 1] == s[k]);
        }
        lemma_prefix_len_exact(rest, pred, k - 1);
    }
}

/// Every character of the maximal `pred`-prefix satisfies `pred`.
pub proof fn lemma_prefix_len_all(s: Seq<char>, pred: spec_fn(char) -> bool)
    ensures
        forall|m: int| 0 <= m < prefix_len(s, pred) ==> pred(s[m]),
    decreases s.len(),
{
    lemma_prefix_len_bounds(s, pred);
    if s.len() != 0 && pred(s[0]) {
        let rest = s.drop_first();
        lemma_prefix_len_all(rest, pred);
        assert forall|m: int| 0 <= m < prefix_len(s, pred) implies pred(s[m]) by {
            if m > 0 {
                assert(rest[m - 1] == s[m]);
            }
        }
    }
}

pub open spec fn lex_cons(
    t: TokenModel,
    r: Result<Seq<TokenModel>, LexError>,
) -> Result<Seq<TokenModel>, LexError> {
    match r {
        Ok(m) => Ok(seq![t] + m),
        Err(e) => Err(e),
    }
}

/// The token sequence `s` denotes, or the first undefined character.
/// The head character decides which rule fires; digit and alphabetic runs
/// are maximal; reserved words win over identifiers of the same text.
pub open spec fn lex(s: Seq<char>) -> Result<Seq<TokenModel>, LexError>
    decreases s.len(),
{
    if s.len() == 0 {
        Ok(Seq::empty())
    } else {
        let c = s[0];
        if is_skippable_char(c) {
            lex(s.drop_first())
        } else if c == '(' {
            lex_cons(TokenModel::OpenParen, lex(s.drop_first()))
        } else if c == ')' {
            lex_cons(TokenModel::CloseParen, lex(s.drop_first()))
        } else if c == '=' {
            lex_cons(TokenModel::Equals, lex(s.drop_first()))
        } else if c == ';' {
            lex_cons(TokenModel::Semicolon, lex(s.drop_first()))
        } else if is_additive_char(c) {
            lex_cons(
                TokenModel::BinaryOperator(BinaryOperator::Additive(c)),
                lex(s.drop_first()),
            )
        } else if is_multiplicative_char(c) {
            lex_cons(
                TokenModel::BinaryOperator(BinaryOperator::Multiplicative(c)),
                lex(s.drop_first()),
            )
        } else if is_digit_char(c) {
            let n0 = prefix_len(s, digit_pred());
            let n = if 1 <= n0 <= s.len() {
                n0
            } else {
                1
            };
            lex_cons(TokenModel::Number(s.take(n)), lex(s.skip(n)))
        } else if is_alphabetic_char(c) {
            let n0 = prefix_len(s, alpha_pred());
            let n = if 1 <= n0 <= s.len() {
                n0
            } else {
                1
            };
            lex_cons(word_token(s.take(n)), lex(s.skip(n)))
        } else {
            Err(LexError::UndefinedCharacter(c))
        }
    }
}

// ---------------------------------------------------------------------------
// Lemmas connecting the model to an index scan
// ---------------------------------------------------------------------------

proof fn lemma_skip_drop_first(s: Seq<char>, i: int)
    requires
        0 <= i < s.len(),
    ensures
        s.skip(i).drop_first() == s.skip(i + 1),
{
    assert(s.skip(i).drop_first() =~= s.skip(i + 1));
}

/// Lexing a suffix that starts with a maximal digit run yields that run as
/// one `Number` token, followed by the lexing of what comes after it.
proof fn lemma_lex_number_step(s: Seq<char>, i: int, end: int)
    requires
        0 <= i < end <= s.len(),
        forall|m: int| i <= m < end ==> is_digit_char(s[m]),
        end < s.len() ==> !is_digit_char(s[end]),
    ensures
        lex(s.skip(i)) == lex_cons(TokenModel::Number(s.subrange(i, end)), lex(s.skip(end))),
{
    let pre = s.skip(i);
    assert(pre[0] == s[i]);
    assert forall|m: int| 0 <= m < end - i implies digit_pred()(pre[m]) by {
        assert(pre[m] == s[i + m]);
    }
    if end - i < pre.len() {
        assert(pre[end - i] == s[end]);
    }
    lemma_prefix_len_exact(pre, digit_pred(), end - i);
    assert(pre.take(end - i) =~= s.subrange(i, end));
    assert(pre.skip(end - i) =~= s.skip(end));
}

/// Lexing a suffix that starts with a maximal alphabetic run yields the
/// word token of that run, followed by the lexing of what comes after it.
proof fn lemma_lex_word_step(s: Seq<char>, i: int, end: int)
    requires
        0 <= i < end <= s.len(),
        forall|m: int| i <= m < end ==> is_alphabetic_char(s[m]),
        end < s.len() ==> !is_alphabetic_char(s[end]),
    ensures
        lex(s.skip(i)) == lex_cons(word_token(s.subrange(i, end)), lex(s.skip(end))),
{
    let pre = s.skip(i);
    assert(pre[0] == s[i]);
    assert forall|m: int| 0 <= m < end - i implies alpha_pred()(pre[m]) by {
        assert(pre[m] == s[i + m]);
    }
    if end - i < pre.len() {
        assert(pre[end - i] == s[end]);
    }
    lemma_prefix_len_exact(pre, alpha_pred(), end - i);
    assert(pre.take(end - i) =~= s.subrange(i, end));
    assert(pre.skip(end - i) =~= s.skip(end));
}

/// One step of the scan: a token whose text reaches from `i` to `j` moves
/// the loop relation between the tokens read so far and the suffix model.
proof fn lemma_scan_step(s: Seq<char>, toks: Seq<Token>, t: Token, i: int, j: int)
    requires
        0 <= i <= s.len(),
        0 <= j <= s.len(),
        match lex(s.skip(i)) {
            Ok(m) => lex(s) == Ok::<_, LexError>(tokens_view(toks) + m),
            Err(e) => lex(s) == Err::<Seq<TokenModel>, _>(e),
        },
        lex(s.skip(i)) == lex_cons(t@, lex(s.skip(j))),
    ensures
        match lex(s.skip(j)) {
            Ok(m) => lex(s) == Ok::<_, LexError>(tokens_view(toks.push(t)) + m),
            Err(e) => lex(s) == Err::<Seq<TokenModel>, _>(e),
        },
{
    assert(tokens_view(toks.push(t)) =~= tokens_view(toks).push(t@));
    match lex(s.skip(j)) {
        Ok(m) => {
            assert(tokens_view(toks) + (seq![t@] + m) =~= tokens_view(toks).push(t@) + m);
        },
        Err(e) => {},
    }
}

proof fn lemma_shapes_cons(t: TokenModel, r: Result<Seq<TokenModel>, LexError>)
    requires
        supported_token_shape(t),
        match r {
            Ok(m) => forall|k: int| 0 <= k < m.len() ==> supported_token_shape(#[trigger] m[k]),
            Err(_) => true,
        },
    ensures
        match lex_cons(t, r) {
            Ok(m) => forall|k: int| 0 <= k < m.len() ==> supported_token_shape(#[trigger] m[k]),
            Err(_) => true,
        },
{
    match r {
        Ok(m) => {
            let full = seq![t] + m;
            assert forall|k: int| 0 <= k < full.len() implies supported_token_shape(
                #[trigger] full[k],
            ) by {
                if k == 0 {
                    assert(full[0] == t);
                } else {
                    assert(full[k] == m[k - 1]);
                }
            }
        },
        Err(_) => {},
    }
}

/// Every token the lexing model produces has a supported shape; in
/// particular a `Number` token always carries a nonempty digit run, and
/// the model never produces the `EndOfInput` sentinel itself.
pub proof fn lemma_lex_shapes(s: Seq<char>)
    ensures
        match lex(s) {
            Ok(m) => forall|k: int| 0 <= k < m.len() ==> supported_token_shape(#[trigger] m[k]),
            Err(_) => true,
        },
    decreases s.len(),
{
    if s.len() == 0 {
    } else {
        let c = s[0];
        if is_skippable_char(c) {
            lemma_lex_shapes(s.drop_first());
        } else if c == '(' || c == ')' || c == '=' || c == ';' || is_additive_char(c)
            || is_multiplicative_char(c) {
            lemma_lex_shapes(s.drop_first());
            match lex(s.drop_first()) {
                Ok(m) => {
                    match lex(s) {
                        Ok(full) => {
                            assert forall|k: int| 0 <= k < full.len() implies supported_token_shape(
                                #[trigger] full[k],
                            ) by {
                                if k > 0 {
                                    assert(full[k] == m[k - 1]);
                                }
                            }
                        },
                        Err(_) => {},
                    }
                },
                Err(_) => {},
            }
        } else if is_digit_char(c) {
            lemma_prefix_len_bounds(s, digit_pred());
            lemma_prefix_len_bounds(s.drop_first(), digit_pred());
            lemma_prefix_len_all(s, digit_pred());
            let n = prefix_len(s, digit_pred());
            assert(digit_pred()(s[0]));
            assert forall|k: int| 0 <= k < n implies is_digit_char(s.take(n)[k]) by {
                assert(s.take(n)[k] == s[k]);
            }
            lemma_lex_shapes(s.skip(n));
            lemma_shapes_cons(TokenModel::Number(s.take(n)), lex(s.skip(n)));
        } else if is_alphabetic_char(c) {
            lemma_prefix_len_bounds(s, alpha_pred());
            lemma_prefix_len_bounds(s.drop_first(), alpha_pred());
            lemma_prefix_len_all(s, alpha_pred());
            let n = prefix_len(s, alpha_pred());
            assert(alpha_pred()(s[0]));
            assert forall|k: int| 0 <= k < n implies is_alphabetic_char(s.take(n)[k]) by {
                assert(s.take(n)[k] == s[k]);
            }
            lemma_lex_shapes(s.skip(n));
            lemma_shapes_cons(word_token(s.take(n)), lex(s.skip(n)));
        } else {
        }
    }
}

// ---------------------------------------------------------------------------
// The round trip: tokens to text to the same tokens
// ---------------------------------------------------------------------------

/// The source text a token model stands for.
pub open spec fn token_text(t: TokenModel) -> Seq<char> {
    match t {
        TokenModel::Number(s) => s,
        TokenModel::Identifier(s) => s,
        TokenModel::Equals => seq!['='],
        TokenModel::OpenParen => seq!['('],
        TokenModel::CloseParen => seq![')'],
        TokenModel::BinaryOperator(BinaryOperator::Additive(c)) => seq![c],
        TokenModel::BinaryOperator(BinaryOperator::Multiplicative(c)) => seq![c],
        TokenModel::Let => seq!['l', 'e', 't'],
        TokenModel::Const => seq!['c', 'o', 'n', 's', 't'],
        TokenModel::Null => seq!['n', 'u', 'l', 'l'],
        TokenModel::Semicolon => seq![';'],
        TokenModel::EndOfInput => Seq::empty(),
    }
}

/// The shapes the lexer can produce: number text is a nonempty digit run,
/// identifier text a nonempty alphabetic run, operator characters belong
/// to their tier, and the `EndOfInput` sentinel has no textual form.
pub open spec fn supported_token_shape(t: TokenModel) -> bool {
    match t {
        TokenModel::Number(s) => s.len() > 0 && (forall|k: int|
            0 <= k < s.len() ==> is_digit_char(#[trigger] s[k])),
        TokenModel::Identifier(s) => s.len() > 0 && (forall|k: int|
            0 <= k < s.len() ==> is_alphabetic_char(#[trigger] s[k])),
        TokenModel::BinaryOperator(BinaryOperator::Additive(c)) => is_additive_char(c),
        TokenModel::BinaryOperator(BinaryOperator::Multiplicative(c)) => is_multiplicative_char(c),
        TokenModel::EndOfInput => false,
        _ => true,
    }
}

/// An identifier whose text is a reserved word reads back as that word;
/// every other token reads back as itself.
pub open spec fn normalize_token(t: TokenModel) -> TokenModel {
    match t {
        TokenModel::Identifier(s) => word_token(s),
        _ => t,
    }
}

pub open spec fn normalized(ts: Seq<TokenModel>) -> Seq<TokenModel> {
    ts.map_values(|t: TokenModel| normalize_token(t))
}

/// The textual forms of the tokens, one space after each.
pub open spec fn spaced_text(ts: Seq<TokenModel>) -> Seq<char>
    decreases ts.len(),
{
    if ts.len() == 0 {
        Seq::empty()
    } else {
        token_text(ts[0]) + seq![' '] + spaced_text(ts.drop_first())
    }
}

/// Lexing text that starts with one supported token's text and a space
/// yields that token (normalized) and then the lexing of the rest.
proof fn lemma_lex_one_token(t: TokenModel, tail: Seq<char>)
    requires
        supported_token_shape(t),
    ensures
        lex(token_text(t) + seq![' '] + tail) == lex_cons(normalize_token(t), lex(tail)),
{
    let text = token_text(t);
    let s = text + seq![' '] + tail;
    assert((seq![' '] + tail).drop_first() =~= tail);
    assert((seq![' '] + tail)[0] == ' ');
    assert(lex(seq![' '] + tail) == lex(tail));
    match t {
        TokenModel::Number(d) => {
            assert(s[0] == d[0]);
            assert forall|m: int| 0 <= m < d.len() implies digit_pred()(s[m]) by {
                assert(s[m] == d[m]);
            }
            assert(s[d.len() as int] == ' ');
            lemma_prefix_len_exact(s, digit_pred(), d.len() as int);
            assert(s.take(d.len() as int) =~= d);
            assert(s.skip(d.len() as int) =~= seq![' '] + tail);
        },
        TokenModel::Identifier(d) => {
            assert(s[0] == d[0]);
            assert forall|m: int| 0 <= m < d.len() implies alpha_pred()(s[m]) by {
                assert(s[m] == d[m]);
            }
            assert(s[d.len() as int] == ' ');
            lemma_prefix_len_exact(s, alpha_pred(), d.len() as int);
            assert(s.take(d.len() as int) =~= d);
            assert(s.skip(d.len() as int) =~= seq![' '] + tail);
        },
        TokenModel::Let => {
            assert(s[0] == 'l');
            assert forall|m: int| 0 <= m < 3 implies alpha_pred()(s[m]) by {
                assert(s[m] == text[m]);
            }
            assert(s[3] == ' ');
            lemma_prefix_len_exact(s, alpha_pred(), 3);
            assert(s.take(3) =~= text);
            assert(s.skip(3) =~= seq![' '] + tail);
        },
        TokenModel::Const => {
            assert(s[0] == 'c');
            assert forall|m: int| 0 <= m < 5 implies alpha_pred()(s[m]) by {
                assert(s[m] == text[m]);
            }
            assert(s[5] == ' ');
            lemma_prefix_len_exact(s, alpha_pred(), 5);
            assert(s.take(5) =~= text);
            assert(s.skip(5) =~= seq![' '] + tail);
        },
        TokenModel::Null => {
            assert(s[0] == 'n');
            assert forall|m: int| 0 <= m < 4 implies alpha_pred()(s[m]) by {
                assert(s[m] == text[m]);
            }
            assert(s[4] == ' ');
            lemma_prefix_len_exact(s, alpha_pred(), 4);
            assert(s.take(4) =~= text);
            assert(s.skip(4) =~= seq![' '] + tail);
        },
        _ => {
            assert(s[0] == text[0]);
            assert(s.drop_first() =~= seq![' '] + tail);
        },
    }
}

/// Lexer round trip: re-lexing the space-separated textual forms of any
/// sequence of supported tokens yields the same token sequence back, save
/// that a reserved word always wins over an identifier of the same text.
pub proof fn lemma_lexer_round_trip(ts: Seq<TokenModel>)
    requires
        forall|k: int| 0 <= k < ts.len() ==> supported_token_shape(#[trigger] ts[k]),
    ensures
        lex(spaced_text(ts)) == Ok::<_, LexError>(normalized(ts)),
    decreases ts.len(),
{
    if ts.len() == 0 {
        assert(normalized(ts) =~= Seq::<TokenModel>::empty());
    } else {
        let rest = ts.drop_first();
        assert forall|k: int| 0 <= k < rest.len() implies supported_token_shape(
            #[trigger] rest[k],
        ) by {
            assert(rest[k] == ts[k + 1]);
        }
        lemma_lexer_round_trip(rest);
        lemma_lex_one_token(ts[0], spaced_text(rest));
        assert(seq![normalize_token(ts[0])] + normalized(rest) =~= normalized(ts));
    }
}

// ---------------------------------------------------------------------------
// Executable scanning
// ---------------------------------------------------------------------------

/// First index at or after `from` whose character is not a digit.
fn scan_digits(s: &str, from: usize) -> (end: usize)
    requires
        from <= s@.len(),
    ensures
        from <= end <= s@.len(),
        forall|m: int| from <= m < end ==> is_digit_char(s@[m]),
        end < s@.len() ==> !is_digit_char(s@[end as int]),
{
    let n = s.unicode_len();
    let mut end = from;
    while end < n
        invariant
            from <= end <= n,
            n == s@.len(),
            forall|m: int| from <= m < end ==> is_digit_char(s@[m]),
        decreases n - end,
    {
        let c = s.get_char(end);
        if !is_digit(&c) {
            return end;
        }
        end = end + 1;
    }
    end
}

/// First index at or after `from` whose character is not alphabetic.
fn scan_alphabetic(s: &str, from: usize) -> (end: usize)
    requires
        from <= s@.len(),
    ensures
        from <= end <= s@.len(),
        forall|m: int| from <= m < end ==> is_alphabetic_char(s@[m]),
        end < s@.len() ==> !is_alphabetic_char(s@[end as int]),
{
    let n = s.unicode_len();
    let mut end = from;
    while end < n
        invariant
            from <= end <= n,
            n == s@.len(),
            forall|m: int| from <= m < end ==> is_alphabetic_char(s@[m]),
        decreases n - end,
    {
        let c = s.get_char(end);
        if !c.is_alphabetic() {
            return end;
        }
        end = end + 1;
    }
    end
}

// ---------------------------------------------------------------------------
// Tokenizing
// ---------------------------------------------------------------------------

/// Convert source text into its token sequence, terminated by
/// `EndOfInput`; fail on the first character that begins no token.
pub fn tokenize(source_code: String) -> (r: Result<Vec<Token>, LexError>)
    ensures
        match (r, lex(source_code@)) {
            (Ok(tokens), Ok(m)) => tokens_view(tokens@) == m.push(TokenModel::EndOfInput),
            (Err(e1), Err(e2)) => e1 == e2,
            _ => false,
        },
{
    let s = source_code.as_str();
    let n = s.unicode_len();
    let mut tokens: Vec<Token> = Vec::new();
    let mut i: usize = 0;
    proof {
        assert(s@.skip(0) =~= s@);
        match lex(s@) {
            Ok(m) => {
                assert(tokens_view(tokens@) + m =~= m);
            },
            Err(e) => {},
        }
    }
    while i < n
        invariant
            i <= n,
            n == s@.len(),
            s@ == source_code@,
            match lex(s@.skip(i as int)) {
                Ok(m) => lex(s@) == Ok::<_, LexError>(tokens_view(tokens@) + m),
                Err(e) => lex(s@) == Err::<Seq<TokenModel>, _>(e),
            },
        decreases n - i,
    {
        let ghost pre = s@.skip(i as int);
        let c = s.get_char(i);
        proof {
            assert(pre[0] == s@[i as int]);
        }
        if is_skippable(&c) {
            proof {
                lemma_skip_drop_first(s@, i as int);
            }
            i = i + 1;
        } else if c == '(' {
            let t = Token::OpenParen;
            proof {
                lemma_skip_drop_first(s@, i as int);
                lemma_scan_step(s@, tokens@, t, i as int, i + 1);
            }
            tokens.push(t);
            i = i + 1;
        } else if c == ')' {
            let t = Token::CloseParen;
            proof {
                lemma_skip_drop_first(s@, i as int);
                lemma_scan_step(s@, tokens@, t, i as int, i + 1);
            }
            tokens.push(t);
            i = i + 1;
        } else if c == '=' {
            let t = Token::Equals;
            proof {
                lemma_skip_drop_first(s@, i as int);
                lemma_scan_step(s@, tokens@, t, i as int, i + 1);
            }
            tokens.push(t);
            i = i + 1;
        } else if c == ';' {
            let t = Token::Semicolon;
            proof {
                lemma_skip_drop_first(s@, i as int);
                lemma_scan_step(s@, tokens@, t, i as int, i + 1);
            }
            tokens.push(t);
            i = i + 1;
        } else if is_additive(&c) {
            let t = Token::BinaryOperator(BinaryOperator::Additive(c));
            proof {
                lemma_skip_drop_first(s@, i as int);
                lemma_scan_step(s@, tokens@, t, i as int, i + 1);
            }
            tokens.push(t);
            i = i + 1;
        } else if is_multiplicative(&c) {
            let t = Token::BinaryOperator(BinaryOperator::Multiplicative(c));
            proof {
                lemma_skip_drop_first(s@, i as int);
                lemma_scan_step(s@, tokens@, t, i as int, i + 1);
            }
            tokens.push(t);
            i = i + 1;
        } else if is_digit(&c) {
            let end = scan_digits(s, i);
            proof {
                assert(end > i) by {
                    if end == i {
                        assert(!is_digit_char(s@[i as int]));
                    }
                }
            }
            let text = s.substring_char(i, end).to_owned();
            let t = Token::Number(text);
            proof {
                lemma_lex_number_step(s@, i as int, end as int);
                lemma_scan_step(s@, tokens@, t, i as int, end as int);
            }
            tokens.push(t);
            i = end;
        } else if c.is_alphabetic() {
            let end = scan_alphabetic(s, i);
            proof {
                assert(end > i) by {
                    if end == i {
                        assert(!is_alphabetic_char(s@[i as int]));
                    }
                }
            }
            let text = s.substring_char(i, end).to_owned();
            let t = match find_reserved(&text) {
                Some(t) => t,
                None => Token::Identifier(text),
            };
            proof {
                assert(t@ == word_token(s@.subrange(i as int, end as int)));
                lemma_lex_word_step(s@, i as int, end as int);
                lemma_scan_step(s@, tokens@, t, i as int, end as int);
            }
            tokens.push(t);
            i = end;
        } else {
            proof {
                assert(lex(pre) == Err::<Seq<TokenModel>, _>(LexError::UndefinedCharacter(c)));
            }
            return Err(LexError::UndefinedCharacter(c));
        }
    }
    proof {
        assert(s@.skip(n as int).len() == 0);
        assert(lex(s@.skip(n as int)) == Ok::<_, LexError>(Seq::<TokenModel>::empty()));
        match lex(s@) {
            Ok(m) => {
                assert(tokens_view(tokens@) + Seq::<TokenModel>::empty() =~= tokens_view(
                    tokens@,
                ));
            },
            Err(e) => {},
        }
    }
    let ghost before = tokens@;
    tokens.push(Token::EndOfInput);
    proof {
        assert(tokens_view(before.push(Token::EndOfInput)) =~= tokens_view(before).push(
            TokenModel::EndOfInput,
        ));
    }
    Ok(tokens)
}

} // verus!
