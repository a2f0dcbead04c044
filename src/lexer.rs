use vstd::prelude::*;
use vstd::string::*;

use crate::error::CompileError;

verus! {

/// One lexical unit of the source text.
#[derive(Debug, Clone, PartialEq, Eq)]
pub enum Token {
    Integer(i32),
    Identifier(String),
    Plus,
    Minus,
    Star,
    Slash,
    LParen,
    RParen,
    If,
    Else,
    LBrace,
    RBrace,
    Semicolon,
    Equals,
    DoubleEquals,
    LessThan,
    GreaterThan,
    LessThanEquals,
    GreaterThanEquals,
}

/// A token as a mathematical value: an identifier is its sequence of characters.
pub ghost enum TokenModel {
    Integer(i32),
    Identifier(Seq<char>),
    Plus,
    Minus,
    Star,
    Slash,
    LParen,
    RParen,
    If,
    Else,
    LBrace,
    RBrace,
    Semicolon,
    Equals,
    DoubleEquals,
    LessThan,
    GreaterThan,
    LessThanEquals,
    GreaterThanEquals,
}

impl View for Token {
    type V = TokenModel;

    open spec fn view(&self) -> TokenModel {
        match self {
            Token::Integer(n) => TokenModel::Integer(*n),
            Token::Identifier(s) => TokenModel::Identifier(s@),
            Token::Plus => TokenModel::Plus,
            Token::Minus => TokenModel::Minus,
            Token::Star => TokenModel::Star,
            Token::Slash => TokenModel::Slash,
            Token::LParen => TokenModel::LParen,
            Token::RParen => TokenModel::RParen,
            Token::If => TokenModel::If,
            Token::Else => TokenModel::Else,
            Token::LBrace => TokenModel::LBrace,
            Token::RBrace => TokenModel::RBrace,
            Token::Semicolon => TokenModel::Semicolon,
            Token::Equals => TokenModel::Equals,
            Token::DoubleEquals => TokenModel::DoubleEquals,
            Token::LessThan => TokenModel::LessThan,
            Token::GreaterThan => TokenModel::GreaterThan,
            Token::LessThanEquals => TokenModel::LessThanEquals,
            Token::GreaterThanEquals => TokenModel::GreaterThanEquals,
        }
    }
}

impl Token {
    /// A copy of this token.
    pub fn duplicate(&self) -> (r: Token)
        ensures
            r == *self,
    {
        match self {
            Token::Integer(n) => Token::Integer(*n),
            Token::Identifier(s) => Token::Identifier(s.clone()),
            Token::Plus => Token::Plus,
            Token::Minus => Token::Minus,
            Token::Star => Token::Star,
            Token::Slash => Token::Slash,
            Token::LParen => Token::LParen,
            Token::RParen => Token::RParen,
            Token::If => Token::If,
            Token::Else => Token::Else,
            Token::LBrace => Token::LBrace,
            Token::RBrace => Token::RBrace,
            Token::Semicolon => Token::Semicolon,
            Token::Equals => Token::Equals,
            Token::DoubleEquals => Token::DoubleEquals,
            Token::LessThan => Token::LessThan,
            Token::GreaterThan => Token::GreaterThan,
            Token::LessThanEquals => Token::LessThanEquals,
            Token::GreaterThanEquals => Token::GreaterThanEquals,
        }
    }
}

pub open spec fn tokens_view(ts: Seq<Token>) -> Seq<TokenModel> {
    ts.map_values(|t: Token| t@)
}

pub open spec fn is_digit(c: char) -> bool {
    '0' <= c && c <= '9'
}

pub open spec fn is_letter(c: char) -> bool {
    ('a' <= c && c <= 'z') || ('A' <= c && c <= 'Z')
}

/// Characters that may continue an identifier.
pub open spec fn is_word_char(c: char) -> bool {
    is_letter(c) || is_digit(c)
}

pub open spec fn is_space(c: char) -> bool {
    c == ' ' || c == '\n' || c == '\t'
}

/// Characters that stand for a token on their own or begin a two-character one.
pub open spec fn is_symbol(c: char) -> bool {
    c == '+' || c == '-' || c == '*' || c == '/' || c == '(' || c == ')' || c == '{' || c == '}'
        || c == ';' || c == '=' || c == '<' || c == '>'
}

/// The characters that the lexer accepts.
pub open spec fn is_supported(c: char) -> bool {
    is_digit(c) || is_letter(c) || is_space(c) || is_symbol(c)
}

pub open spec fn digit_value(c: char) -> int {
    (c as int) - ('0' as int)
}

/// The decimal value of the digits `s[i..j]`.
pub open spec fn number_value(s: Seq<char>, i: int, j: int) -> int
    decreases j - i,
{
    if j <= i {
        0
    } else {
        number_value(s, i, j - 1) * 10 + digit_value(s[j - 1])
    }
}

/// The end of the longest run from `i` on of digits (`word` false) or of
/// identifier characters (`word` true).
pub open spec fn run_end(s: Seq<char>, i: int, word: bool) -> int
    decreases s.len() - i,
{
    if i < 0 || i >= s.len() {
        i
    } else if (word && is_word_char(s[i])) || (!word && is_digit(s[i])) {
        run_end(s, i + 1, word)
    } else {
        i
    }
}

/// The token that a word stands for: a reserved word or an identifier.
pub open spec fn word_token(w: Seq<char>) -> TokenModel {
    if w == seq!['i', 'f'] {
        TokenModel::If
    } else if w == seq!['e', 'l', 's', 'e'] {
        TokenModel::Else
    } else {
        TokenModel::Identifier(w)
    }
}

/// The token of a symbol character `c`, followed by `next` when there is one.
/// Returns the token and the number of characters it takes.
pub open spec fn symbol_token(c: char, next: Option<char>) -> (TokenModel, int) {
    let eq_follows = next == Some('=');
    if c == '+' {
        (TokenModel::Plus, 1)
    } else if c == '-' {
        (TokenModel::Minus, 1)
    } else if c == '*' {
        (TokenModel::Star, 1)
    } else if c == '/' {
        (TokenModel::Slash, 1)
    } else if c == '(' {
        (TokenModel::LParen, 1)
    } else if c == ')' {
        (TokenModel::RParen, 1)
    } else if c == '{' {
        (TokenModel::LBrace, 1)
    } else if c == '}' {
        (TokenModel::RBrace, 1)
    } else if c == ';' {
        (TokenModel::Semicolon, 1)
    } else if c == '=' {
        if eq_follows { (TokenModel::DoubleEquals, 2) } else { (TokenModel::Equals, 1) }
    } else if c == '<' {
        if eq_follows { (TokenModel::LessThanEquals, 2) } else { (TokenModel::LessThan, 1) }
    } else {
        if eq_follows { (TokenModel::GreaterThanEquals, 2) } else { (TokenModel::GreaterThan, 1) }
    }
}

pub open spec fn char_at(s: Seq<char>, i: int) -> Option<char> {
    if 0 <= i < s.len() { Some(s[i]) } else { None }
}

/// Puts `p` in front of the tokens of a successful result.
pub open spec fn prepend(p: Seq<TokenModel>, r: Result<Seq<TokenModel>, CompileError>) -> Result<
    Seq<TokenModel>,
    CompileError,
> {
    match r {
        Ok(ts) => Ok(p + ts),
        Err(e) => Err(e),
    }
}

/// The tokens of `s[i..]`, scanned by maximal munch, or the first error.
pub open spec fn lex_from(s: Seq<char>, i: int) -> Result<Seq<TokenModel>, CompileError>
    decreases s.len() - i, 0int,
{
    if i < 0 || i >= s.len() {
        Ok(Seq::empty())
    } else {
        let c = s[i];
        if is_space(c) {
            lex_from(s, i + 1)
        } else if is_digit(c) {
            let j = run_end(s, i, false);
            if j <= i || j > s.len() {
                Ok(Seq::empty())
            } else {
                let v = number_value(s, i, j);
                if v > i32::MAX {
                    Err(CompileError::IntegerTooLarge)
                } else {
                    prepend(seq![TokenModel::Integer(v as i32)], lex_from(s, j))
                }
            }
        } else if is_letter(c) {
            let j = run_end(s, i, true);
            if j <= i || j > s.len() {
                Ok(Seq::empty())
            } else {
                prepend(seq![word_token(s.subrange(i, j))], lex_from(s, j))
            }
        } else if is_symbol(c) {
            let (t, n) = symbol_token(c, char_at(s, i + 1));
            if n < 1 {
                Ok(Seq::empty())
            } else {
                prepend(seq![t], lex_from(s, i + n))
            }
        } else {
            Err(CompileError::UnrecognizedCharacter(c))
        }
    }
}

/// The tokens of the whole text, or the first error.
pub open spec fn lex_spec(s: Seq<char>) -> Result<Seq<TokenModel>, CompileError> {
    lex_from(s, 0)
}

proof fn lemma_run_end_bounds(s: Seq<char>, i: int, word: bool)
    requires
        0 <= i <= s.len(),
    ensures
        i <= run_end(s, i, word) <= s.len(),
        forall|k: int|
            i <= k < run_end(s, i, word) ==> #[trigger] is_digit(s[k]) || (word
                && is_word_char(s[k])),
        run_end(s, i, word) < s.len() ==> !((word && is_word_char(s[run_end(s, i, word)])) || (
        !word && is_digit(s[run_end(s, i, word)]))),
    decreases s.len() - i,
{
    if i < s.len() && ((word && is_word_char(s[i])) || (!word && is_digit(s[i]))) {
        lemma_run_end_bounds(s, i + 1, word);
    }
}

proof fn lemma_run_end_step(s: Seq<char>, i: int, k: int, word: bool)
    requires
        0 <= i <= k <= s.len(),
        forall|m: int| i <= m < k ==> (word && is_word_char(s[m])) || (!word && is_digit(s[m])),
    ensures
        run_end(s, i, word) == run_end(s, k, word),
    decreases k - i,
{
    if i < k {
        lemma_run_end_step(s, i + 1, k, word);
    }
}

proof fn lemma_number_grows(s: Seq<char>, i: int, k: int, j: int)
    requires
        i <= k <= j <= s.len(),
        0 <= i,
        forall|m: int| i <= m < j ==> #[trigger] is_digit(s[m]),
    ensures
        0 <= number_value(s, i, k) <= number_value(s, i, j),
    decreases j - i,
{
    if k < j {
        assert(is_digit(s[j - 1]));
        lemma_number_grows(s, i, k, j - 1);
        assert(number_value(s, i, j) == number_value(s, i, j - 1) * 10 + digit_value(s[j - 1]));
    } else if i < k {
        assert(is_digit(s[k - 1]));
        lemma_number_grows(s, i, k - 1, k - 1);
    }
}

fn is_digit_exec(c: char) -> (r: bool)
    ensures
        r == is_digit(c),
{
    '0' <= c && c <= '9'
}

fn is_letter_exec(c: char) -> (r: bool)
    ensures
        r == is_letter(c),
{
    ('a' <= c && c <= 'z') || ('A' <= c && c <= 'Z')
}

pub(crate) fn spells(w: &str, k: &str) -> (r: bool)
    ensures
        r == (w@ == k@),
{
    let n = w.unicode_len();
    if n != k.unicode_len() {
        return false;
    }
    let mut i: usize = 0;
    while i < n
        invariant
            n == w@.len() == k@.len(),
            i <= n,
            forall|j: int| 0 <= j < i ==> w@[j] == k@[j],
        decreases n - i,
    {
        if w.get_char(i) != k.get_char(i) {
            return false;
        }
        i = i + 1;
    }
    assert(w@ =~= k@);
    true
}

/// Splits the source text into tokens: digit runs become `Integer`, words
/// become `If`, `Else` or `Identifier`, `==`, `<=` and `>=` are taken whole,
/// and spaces, tabs and newlines are skipped. Fails with
/// `UnrecognizedCharacter` at the first character outside that set, and with
/// `IntegerTooLarge` at the first literal above `i32::MAX`.
pub fn lexer(input: &str) -> (r: Result<Vec<Token>, CompileError>)
    ensures
        match (r, lex_spec(input@)) {
            (Ok(ts), Ok(m)) => tokens_view(ts@) == m,
            (Err(e), Err(f)) => e == f,
            _ => false,
        },
{
    let ghost s = input@;
    let n = input.unicode_len();
    let mut tokens: Vec<Token> = Vec::new();
    let mut i: usize = 0;
    while i < n
        invariant
            n == s.len(),
            s == input@,
            i <= n,
            lex_spec(s) == prepend(tokens_view(tokens@), lex_from(s, i as int)),
        decreases n - i,
    {
        let c = input.get_char(i);
        let ghost before = tokens_view(tokens@);
        if c == ' ' || c == '\n' || c == '\t' {
            i = i + 1;
        } else if is_digit_exec(c) {
            let start = i;
            let mut num: i64 = 0;
            proof {
                lemma_run_end_bounds(s, start as int, false);
            }
            while i < n && is_digit_exec(input.get_char(i))
                invariant
                    n == s.len(),
                    s == input@,
                    start <= i <= n,
                    forall|m: int| start <= m < i ==> #[trigger] is_digit(s[m]),
                    num == number_value(s, start as int, i as int),
                    0 <= num <= i32::MAX,
                    before == tokens_view(tokens@),
                    lex_spec(s) == prepend(before, lex_from(s, start as int)),
                    is_digit(s[start as int]),
                decreases n - i,
            {
                let d = input.get_char(i);
                let next = num * 10 + ((d as u32) - ('0' as u32)) as i64;
                assert(next == number_value(s, start as int, i + 1));
                if next > i32::MAX as i64 {
                    proof {
                        let end = run_end(s, start as int, false);
                        lemma_run_end_bounds(s, i + 1, false);
                        lemma_run_end_step(s, start as int, i + 1, false);
                        lemma_run_end_bounds(s, start as int, false);
                        lemma_number_grows(s, start as int, i + 1, end);
                    }
                    return Err(CompileError::IntegerTooLarge);
                }
                num = next;
                i = i + 1;
            }
            proof {
                lemma_run_end_step(s, start as int, i as int, false);
                lemma_run_end_bounds(s, i as int, false);
                assert(run_end(s, start as int, false) == i);
                assert(tokens_view(tokens@.push(Token::Integer(num as i32))) =~= before + seq![
                    TokenModel::Integer(num as i32),
                ]);
                assert(before + seq![TokenModel::Integer(num as i32)] + lex_from(s, i as int)->Ok_0
                    =~= before + (seq![TokenModel::Integer(num as i32)] + lex_from(
                    s,
                    i as int,
                )->Ok_0));
            }
            tokens.push(Token::Integer(num as i32));
        } else if is_letter_exec(c) {
            let start = i;
            while i < n && (is_letter_exec(input.get_char(i)) || is_digit_exec(input.get_char(i)))
                invariant
                    n == s.len(),
                    s == input@,
                    start <= i <= n,
                    forall|m: int| start <= m < i ==> #[trigger] is_word_char(s[m]),
                    before == tokens_view(tokens@),
                    lex_spec(s) == prepend(before, lex_from(s, start as int)),
                decreases n - i,
            {
                i = i + 1;
            }
            proof {
                lemma_run_end_step(s, start as int, i as int, true);
                lemma_run_end_bounds(s, i as int, true);
                assert(run_end(s, start as int, true) == i);
            }
            let word = input.substring_char(start, i);
            let t = if spells(word, "if") {
                Token::If
            } else if spells(word, "else") {
                Token::Else
            } else {
                Token::Identifier(String::from_str(word))
            };
            assert(word@ == s.subrange(start as int, i as int));
            proof {
                reveal_strlit("if");
                reveal_strlit("else");
                assert("if"@ =~= seq!['i', 'f']);
                assert("else"@ =~= seq!['e', 'l', 's', 'e']);
            }
            assert(t@ == word_token(word@));
            proof {
                assert(tokens_view(tokens@.push(t)) =~= before + seq![t@]);
                assert(before + seq![t@] + lex_from(s, i as int)->Ok_0 =~= before + (seq![t@]
                    + lex_from(s, i as int)->Ok_0));
            }
            tokens.push(t);
        } else {
            let eq_follows = i + 1 < n && input.get_char(i + 1) == '=';
            let ghost next = char_at(s, i + 1);
            assert(eq_follows == (next == Some('=')));
            let (t, len): (Token, usize) = if c == '+' {
                (Token::Plus, 1)
            } else if c == '-' {
                (Token::Minus, 1)
            } else if c == '*' {
                (Token::Star, 1)
            } else if c == '/' {
                (Token::Slash, 1)
            } else if c == '(' {
                (Token::LParen, 1)
            } else if c == ')' {
                (Token::RParen, 1)
            } else if c == '{' {
                (Token::LBrace, 1)
            } else if c == '}' {
                (Token::RBrace, 1)
            } else if c == ';' {
                (Token::Semicolon, 1)
            } else if c == '=' {
                if eq_follows { (Token::DoubleEquals, 2) } else { (Token::Equals, 1) }
            } else if c == '<' {
                if eq_follows { (Token::LessThanEquals, 2) } else { (Token::LessThan, 1) }
            } else if c == '>' {
                if eq_follows { (Token::GreaterThanEquals, 2) } else { (Token::GreaterThan, 1) }
            } else {
                return Err(CompileError::UnrecognizedCharacter(c));
            };
            assert(symbol_token(c, next) == (t@, len as int));
            proof {
                assert(tokens_view(tokens@.push(t)) =~= before + seq![t@]);
                assert(before + seq![t@] + lex_from(s, i + len)->Ok_0 =~= before + (seq![t@]
                    + lex_from(s, i + len)->Ok_0));
            }
            tokens.push(t);
            i = i + len;
        }
    }
    assert(tokens_view(tokens@) + Seq::<TokenModel>::empty() =~= tokens_view(tokens@));
    Ok(tokens)
}

proof fn lemma_lex_from_total(s: Seq<char>, i: int)
    requires
        forall|k: int| 0 <= k < s.len() ==> is_supported(#[trigger] s[k]),
    ensures
        lex_from(s, i) is Ok || lex_from(s, i) == Err::<Seq<TokenModel>, CompileError>(
            CompileError::IntegerTooLarge,
        ),
    decreases s.len() - i,
{
    if 0 <= i < s.len() {
        let c = s[i];
        assert(is_supported(c));
        if is_space(c) {
            lemma_lex_from_total(s, i + 1);
        } else if is_digit(c) {
            lemma_run_end_bounds(s, i, false);
            lemma_lex_from_total(s, run_end(s, i, false));
        } else if is_letter(c) {
            lemma_run_end_bounds(s, i, true);
            lemma_lex_from_total(s, run_end(s, i, true));
        } else {
            let (t, n) = symbol_token(c, char_at(s, i + 1));
            lemma_lex_from_total(s, i + n);
        }
    }
}

/// Over text made only of the characters the lexer accepts, lexing succeeds;
/// the one failure left is an integer literal too large for an `i32`.
pub proof fn lemma_lexer_total(s: Seq<char>)
    requires
        forall|k: int| 0 <= k < s.len() ==> is_supported(#[trigger] s[k]),
    ensures
        lex_spec(s) is Ok || lex_spec(s) == Err::<Seq<TokenModel>, CompileError>(
            CompileError::IntegerTooLarge,
        ),
{
    lemma_lex_from_total(s, 0);
}

} // verus!
