//! Splitting a line into words and punctuation.
use crate::bytes::copy_bytes;
use vstd::prelude::*;
use vstd::string::StringSliceAdditionalSpecFns;

verus! {

/// `|`
pub const BAR: u8 = 0x7c;

/// `&`
pub const AMPERSAND: u8 = 0x26;

/// `;`
pub const SEMICOLON: u8 = 0x3b;

/// `<`
pub const LESS: u8 = 0x3c;

/// `>`
pub const GREATER: u8 = 0x3e;

/// `(`
pub const OPEN: u8 = 0x28;

/// `)`
pub const CLOSE: u8 = 0x29;

/// `"`
pub const DOUBLE_QUOTE: u8 = 0x22;

/// `'`
pub const SINGLE_QUOTE: u8 = 0x27;

/// ` `
pub const SPACE: u8 = 0x20;

/// Punctuation that has a meaning to the shell.
#[derive(Debug, Clone, Copy, PartialEq, Eq, Structural)]
pub enum Punct {
    /// `|`
    Pipe,
    /// `||`
    OrOr,
    /// `&`
    And,
    /// `&&`
    AndAnd,
    /// `;`
    Semicolon,
    /// `<`
    Lt,
    /// `>`
    Gt,
    /// `>>`
    GtGt,
    /// `(`
    LParen,
    /// `)`
    RParen,
}

/// A word or a piece of punctuation.
#[derive(Debug, PartialEq, Eq)]
pub enum Token {
    Str(Vec<u8>),
    Punct(Punct),
}

/// What a [`Token`] stands for.
pub enum TokenView {
    Str(Seq<u8>),
    Punct(Punct),
}

impl Token {
    pub open spec fn view(&self) -> TokenView {
        match self {
            Token::Str(s) => TokenView::Str(s@),
            Token::Punct(p) => TokenView::Punct(*p),
        }
    }

    /// The punctuation, if the token is not a word.
    pub fn as_punct(&self) -> (r: Option<Punct>)
        ensures
            r == (match self@ {
                TokenView::Punct(p) => Some(p),
                TokenView::Str(_) => None,
            }),
    {
        match self {
            Token::Punct(p) => Some(*p),
            Token::Str(_) => None,
        }
    }

    /// A token of its own that stands for the same.
    pub fn to_owned_token(&self) -> (r: Token)
        ensures
            r@ == self@,
    {
        match self {
            Token::Punct(p) => Token::Punct(*p),
            Token::Str(s) => Token::Str(copy_bytes(s.as_slice())),
        }
    }
}

/// Why a line cannot be split into tokens.
#[derive(Debug, Clone, Copy, PartialEq, Eq, Structural)]
pub enum TokenizeError {
    /// A quotation that begins with this character does not end.
    UnterminatedQuote(u8),
}

/// Whether a character separates words.
pub open spec fn is_space(b: u8) -> bool {
    b == SPACE || 9 <= b <= 13
}

/// Whether a character begins a quotation.
pub open spec fn is_quote(b: u8) -> bool {
    b == DOUBLE_QUOTE || b == SINGLE_QUOTE
}

/// The punctuation that `first` makes, followed by `second`, if any.
pub open spec fn punct_at(first: u8, second: Option<u8>) -> Option<Punct> {
    if first == BAR {
        if second == Some(BAR) {
            Some(Punct::OrOr)
        } else {
            Some(Punct::Pipe)
        }
    } else if first == AMPERSAND {
        if second == Some(AMPERSAND) {
            Some(Punct::AndAnd)
        } else {
            Some(Punct::And)
        }
    } else if first == GREATER {
        if second == Some(GREATER) {
            Some(Punct::GtGt)
        } else {
            Some(Punct::Gt)
        }
    } else if first == SEMICOLON {
        Some(Punct::Semicolon)
    } else if first == LESS {
        Some(Punct::Lt)
    } else if first == OPEN {
        Some(Punct::LParen)
    } else if first == CLOSE {
        Some(Punct::RParen)
    } else {
        None
    }
}

/// The number of characters of a piece of punctuation.
pub open spec fn punct_len(p: Punct) -> nat {
    if p == Punct::OrOr || p == Punct::AndAnd || p == Punct::GtGt {
        2
    } else {
        1
    }
}

/// The character at a place, if the line goes that far.
pub open spec fn char_at(s: Seq<u8>, i: int) -> Option<u8> {
    if 0 <= i < s.len() {
        Some(s[i])
    } else {
        None
    }
}

/// Where the next occurrence of `c` is, from `i` on; the length of the line if
/// there is none.
pub open spec fn find(s: Seq<u8>, c: u8, i: int) -> int
    decreases s.len() - i,
{
    if i >= s.len() || s[i] == c {
        i
    } else {
        find(s, c, i + 1)
    }
}

/// The rest of a word from `i` on, and where it ends.
///
/// A word goes on until a space or punctuation that is not quoted; quotation
/// marks are not part of it.
pub open spec fn word_from(s: Seq<u8>, i: int, word: Seq<u8>) -> (Result<Seq<u8>, TokenizeError>, int)
    decreases s.len() - i,
{
    if i >= s.len() || is_space(s[i]) || punct_at(s[i], None) is Some {
        (Ok(word), i)
    } else if is_quote(s[i]) {
        let end = find(s, s[i], i + 1);
        if end >= s.len() || end <= i {
            (Err(TokenizeError::UnterminatedQuote(s[i])), i)
        } else {
            word_from(s, end + 1, word + s.subrange(i + 1, end))
        }
    } else {
        word_from(s, i + 1, word.push(s[i]))
    }
}

/// The tokens of a line, up to an error if there is one.
#[verifier::ext_equal]
pub struct Tokens {
    pub tokens: Seq<TokenView>,
    pub error: Option<TokenizeError>,
}

/// The tokens from `i` on, after those so far.
pub open spec fn tokens_from(s: Seq<u8>, i: int, so_far: Seq<TokenView>) -> Tokens
    decreases s.len() - i,
{
    if i >= s.len() {
        Tokens { tokens: so_far, error: None }
    } else if is_space(s[i]) {
        tokens_from(s, i + 1, so_far)
    } else {
        match punct_at(s[i], char_at(s, i + 1)) {
            Some(p) => tokens_from(
                s,
                i + punct_len(p),
                so_far.push(TokenView::Punct(p)),
            ),
            None => match word_from(s, i, seq![]) {
                (Err(e), _) => Tokens { tokens: so_far, error: Some(e) },
                (Ok(word), end) => if end <= i || end > s.len() {
                    Tokens { tokens: so_far, error: None }
                } else {
                    tokens_from(s, end, so_far.push(TokenView::Str(word)))
                },
            },
        }
    }
}

/// The tokens of a line.
pub open spec fn tokens_of(s: Seq<u8>) -> Tokens {
    tokens_from(s, 0, seq![])
}

fn is_space_char(b: u8) -> (r: bool)
    ensures
        r == is_space(b),
{
    b == SPACE || (9 <= b && b <= 13)
}

fn punct_of(first: u8, second: Option<u8>) -> (r: Option<Punct>)
    ensures
        r == punct_at(first, second),
{
    if first == BAR {
        if is_char(second, BAR) {
            Some(Punct::OrOr)
        } else {
            Some(Punct::Pipe)
        }
    } else if first == AMPERSAND {
        if is_char(second, AMPERSAND) {
            Some(Punct::AndAnd)
        } else {
            Some(Punct::And)
        }
    } else if first == GREATER {
        if is_char(second, GREATER) {
            Some(Punct::GtGt)
        } else {
            Some(Punct::Gt)
        }
    } else if first == SEMICOLON {
        Some(Punct::Semicolon)
    } else if first == LESS {
        Some(Punct::Lt)
    } else if first == OPEN {
        Some(Punct::LParen)
    } else if first == CLOSE {
        Some(Punct::RParen)
    } else {
        None
    }
}

fn is_char(c: Option<u8>, wanted: u8) -> (r: bool)
    ensures
        r == (c == Some(wanted)),
{
    match c {
        Some(c) => c == wanted,
        None => false,
    }
}

fn find_char(s: &[u8], c: u8, from: usize) -> (r: usize)
    requires
        from <= s@.len(),
    ensures
        r == find(s@, c, from as int),
        from <= r <= s@.len(),
{
    let mut i: usize = from;
    while i < s.len() && s[i] != c
        invariant
            from <= i <= s@.len(),
            find(s@, c, from as int) == find(s@, c, i as int),
        decreases s@.len() - i,
    {
        i = i + 1;
    }
    i
}

/// Reads a word.
fn read_word(s: &[u8], from: usize) -> (r: (Result<Vec<u8>, TokenizeError>, usize))
    requires
        from < s@.len(),
    ensures
        match word_from(s@, from as int, seq![]) {
            (Ok(word), end) => r.0 matches Ok(w) && w@ == word && r.1 == end,
            (Err(e), _) => r.0 == Err::<Vec<u8>, TokenizeError>(e),
        },
        from <= r.1 <= s@.len(),
        !is_space(s@[from as int]) && punct_at(s@[from as int], None) is None && r.0 is Ok ==> from
            < r.1,
{
    let mut word: Vec<u8> = Vec::new();
    let mut i: usize = from;
    assert(word@ =~= seq![]);
    while i < s.len() && !is_space_char(s[i]) && punct_of(s[i], None).is_none()
        invariant
            from <= i <= s@.len(),
            word_from(s@, from as int, seq![]) == word_from(s@, i as int, word@),
        decreases s@.len() - i,
    {
        let c: u8 = s[i];
        if c == DOUBLE_QUOTE || c == SINGLE_QUOTE {
            let end: usize = find_char(s, c, i + 1);
            if end >= s.len() {
                return (Err(TokenizeError::UnterminatedQuote(c)), i);
            }
            let ghost before = word@;
            let mut k: usize = i + 1;
            while k < end
                invariant
                    i + 1 <= k <= end < s@.len(),
                    word@ == before + s@.subrange(i + 1, k as int),
                decreases end - k,
            {
                word.push(s[k]);
                k = k + 1;
                assert(word@ =~= before + s@.subrange(i + 1, k as int));
            }
            i = end + 1;
        } else {
            word.push(c);
            i = i + 1;
        }
    }
    (Ok(word), i)
}

/// The tokens of a line, for a parser to take one by one.
pub struct Tokenizer {
    pub tokens: Vec<Token>,
    pub error: Option<TokenizeError>,
}

/// What a list of tokens stands for.
pub open spec fn token_views(tokens: Seq<Token>) -> Seq<TokenView> {
    Seq::new(tokens.len(), |i: int| tokens[i]@)
}

impl Tokenizer {
    pub open spec fn view(&self) -> Tokens {
        Tokens { tokens: token_views(self.tokens@), error: self.error }
    }

    /// Splits a line into tokens, up to an error if there is one.
    pub fn new(input: &str) -> (r: Self)
        ensures
            r@ == tokens_of(input.spec_bytes()),
    {
        let s: &[u8] = input.as_bytes();
        let mut tokens: Vec<Token> = Vec::new();
        let mut i: usize = 0;
        assert(token_views(tokens@) =~= seq![]);
        while i < s.len()
            invariant
                i <= s@.len(),
                s@ == input.spec_bytes(),
                tokens_of(s@) == tokens_from(s@, i as int, token_views(tokens@)),
            decreases s@.len() - i,
        {
            let ghost before = tokens@;
            if is_space_char(s[i]) {
                i = i + 1;
            } else {
                let second: Option<u8> = if i + 1 < s.len() {
                    Some(s[i + 1])
                } else {
                    None
                };
                assert(second == char_at(s@, i + 1));
                match punct_of(s[i], second) {
                    Some(p) => {
                        tokens.push(Token::Punct(p));
                        assert(token_views(tokens@) =~= token_views(before).push(
                            TokenView::Punct(p),
                        ));
                        i = match p {
                            Punct::OrOr | Punct::AndAnd | Punct::GtGt => i + 2,
                            _ => i + 1,
                        };
                    },
                    None => {
                        let (word, end) = read_word(s, i);
                        match word {
                            Ok(word) => {
                                tokens.push(Token::Str(word));
                                assert(token_views(tokens@) =~= token_views(before).push(
                                    TokenView::Str(word@),
                                ));
                                i = end;
                            },
                            Err(e) => {
                                return Tokenizer { tokens, error: Some(e) };
                            },
                        }
                    },
                }
            }
        }
        Tokenizer { tokens, error: None }
    }
}

/// A token stands for its word or its punctuation.
pub proof fn law_token_view(t: Token, tokens: Tokenizer, i: int)
    ensures
        match t {
            Token::Str(s) => t@ == TokenView::Str(s@),
            Token::Punct(p) => t@ == TokenView::Punct(p),
        },
        tokens@.tokens.len() == tokens.tokens@.len(),
        0 <= i < tokens.tokens@.len() ==> tokens@.tokens[i] == tokens.tokens@[i]@,
        tokens@.error == tokens.error,
{
}

} // verus!
