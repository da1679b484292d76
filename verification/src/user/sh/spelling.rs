//! Spelling tokens out, such that the tokenizer gives them back.
use super::tokenizer::{
    char_at, find, punct_at, punct_len, tokens_from, tokens_of, word_from, Punct, TokenView,
    TokenizeError, Tokens,
};
use vstd::prelude::*;

verus! {

/// A part of a word: plain characters, or characters between quotation marks.
pub enum Piece {
    Plain(Seq<u8>),
    Quoted(u8, Seq<u8>),
}

/// The characters that separate words: space, tab, line feed, vertical tab, form feed and
/// carriage return.
pub open spec fn separates(b: u8) -> bool {
    b == 0x20 || b == 0x09 || b == 0x0a || b == 0x0b || b == 0x0c || b == 0x0d
}

/// The characters that mean something outside of quotation marks.
pub open spec fn means_something(b: u8) -> bool {
    ||| separates(b)
    ||| b == 0x7c
    ||| b == 0x26
    ||| b == 0x3b
    ||| b == 0x3c
    ||| b == 0x3e
    ||| b == 0x28
    ||| b == 0x29
    ||| b == 0x22
    ||| b == 0x27
}

/// Whether a part of a word is spelled correctly: plain characters mean nothing else, and
/// what is quoted does not hold the quotation mark.
pub open spec fn piece_ok(p: Piece) -> bool {
    match p {
        Piece::Plain(text) => forall|i: int|
            0 <= i < text.len() ==> !means_something(#[trigger] text[i]),
        Piece::Quoted(q, text) => (q == 0x22 || q == 0x27) && forall|i: int|
            0 <= i < text.len() ==> #[trigger] text[i] != q,
    }
}

/// How a part of a word is written.
pub open spec fn piece_text(p: Piece) -> Seq<u8> {
    match p {
        Piece::Plain(text) => text,
        Piece::Quoted(q, text) => seq![q] + text + seq![q],
    }
}

/// What it stands for.
pub open spec fn piece_value(p: Piece) -> Seq<u8> {
    match p {
        Piece::Plain(text) => text,
        Piece::Quoted(_, text) => text,
    }
}

/// How the first `n` parts of a word are written.
pub open spec fn word_text(pieces: Seq<Piece>, n: nat) -> Seq<u8>
    decreases n,
{
    if n == 0 {
        seq![]
    } else {
        word_text(pieces, (n - 1) as nat) + piece_text(pieces[n - 1])
    }
}

/// What they stand for.
pub open spec fn word_value(pieces: Seq<Piece>, n: nat) -> Seq<u8>
    decreases n,
{
    if n == 0 {
        seq![]
    } else {
        word_value(pieces, (n - 1) as nat) + piece_value(pieces[n - 1])
    }
}

/// How a piece of punctuation is written.
pub open spec fn punct_text(p: Punct) -> Seq<u8> {
    match p {
        Punct::Pipe => seq![0x7cu8],
        Punct::OrOr => seq![0x7cu8, 0x7cu8],
        Punct::And => seq![0x26u8],
        Punct::AndAnd => seq![0x26u8, 0x26u8],
        Punct::Semicolon => seq![0x3bu8],
        Punct::Lt => seq![0x3cu8],
        Punct::Gt => seq![0x3eu8],
        Punct::GtGt => seq![0x3eu8, 0x3eu8],
        Punct::LParen => seq![0x28u8],
        Punct::RParen => seq![0x29u8],
    }
}

/// A word or a piece of punctuation, with the spaces behind it.
pub struct Spelled {
    /// The parts of the word, if it is one.
    pub word: Option<Seq<Piece>>,
    /// The punctuation, if it is not a word.
    pub punct: Punct,
    pub spaces: Seq<u8>,
}

/// How a token is written, without the spaces.
pub open spec fn spelled_text(t: Spelled) -> Seq<u8> {
    match t.word {
        Some(pieces) => word_text(pieces, pieces.len()),
        None => punct_text(t.punct),
    }
}

/// The token.
pub open spec fn spelled_token(t: Spelled) -> TokenView {
    match t.word {
        Some(pieces) => TokenView::Str(word_value(pieces, pieces.len())),
        None => TokenView::Punct(t.punct),
    }
}

/// Whether a token is spelled correctly.
pub open spec fn spelled_ok(t: Spelled) -> bool {
    &&& forall|i: int| 0 <= i < t.spaces.len() ==> separates(#[trigger] t.spaces[i])
    &&& t.word matches Some(pieces) ==> {
        &&& word_text(pieces, pieces.len()).len() > 0
        &&& forall|i: int| 0 <= i < pieces.len() ==> piece_ok(#[trigger] pieces[i])
    }
}

/// Whether two tokens can stand next to each other: two words are separated, and so is
/// punctuation that would make up other punctuation.
pub open spec fn fit(a: Spelled, b: Spelled) -> bool {
    ||| a.spaces.len() > 0
    ||| a.word is Some && b.word is None
    ||| a.word is None && b.word is Some
    ||| a.word is None && b.word is None && (punct_text(a.punct).len() == 2 || punct_text(
        a.punct,
    )[0] != punct_text(b.punct)[0] || a.punct == Punct::Semicolon || a.punct == Punct::Lt || a.punct
        == Punct::LParen || a.punct == Punct::RParen)
}

/// How the first `n` tokens are written.
pub open spec fn line_text(tokens: Seq<Spelled>, n: nat) -> Seq<u8>
    decreases n,
{
    if n == 0 {
        seq![]
    } else {
        line_text(tokens, (n - 1) as nat) + spelled_text(tokens[n - 1]) + tokens[n - 1].spaces
    }
}

spec fn stands_at(s: Seq<u8>, i: int, part: Seq<u8>) -> bool {
    &&& 0 <= i
    &&& i + part.len() <= s.len()
    &&& forall|j: int| i <= j < i + part.len() ==> #[trigger] s[j] == part[j - i]
}

spec fn views(tokens: Seq<Spelled>, n: nat) -> Seq<TokenView> {
    Seq::new(n, |i: int| spelled_token(tokens[i]))
}

/// Whether a word that goes up to a place ends there.
spec fn word_ends(s: Seq<u8>, i: int) -> bool {
    i >= s.len() || separates(s[i]) || punct_at(s[i], None) is Some
}

proof fn lemma_chars(b: u8)
    ensures
        super::tokenizer::is_space(b) == separates(b),
        super::tokenizer::is_quote(b) == (b == 0x22 || b == 0x27),
        means_something(b) <==> separates(b) || punct_at(b, None) is Some || b == 0x22 || b == 0x27,
{
}

proof fn lemma_plain(s: Seq<u8>, i: int, text: Seq<u8>, word: Seq<u8>, k: nat)
    requires
        stands_at(s, i, text),
        forall|j: int| 0 <= j < text.len() ==> !means_something(#[trigger] text[j]),
        k <= text.len(),
    ensures
        word_from(s, i, word) == word_from(s, i + k, word + text.take(k as int)),
    decreases k,
{
    if k == 0 {
        assert(word + text.take(0) =~= word);
    } else {
        lemma_plain(s, i, text, word, (k - 1) as nat);
        let at = i + k - 1;
        assert(s[at] == text[k - 1]);
        lemma_chars(s[at]);
        assert(!means_something(text[k - 1]));
        assert((word + text.take(k - 1)).push(text[k - 1]) =~= word + text.take(k as int));
    }
}

proof fn lemma_find_quote(s: Seq<u8>, q: u8, i: int, end: int)
    requires
        0 <= i <= end < s.len(),
        s[end] == q,
        forall|j: int| i <= j < end ==> #[trigger] s[j] != q,
    ensures
        find(s, q, i) == end,
    decreases end - i,
{
    if i < end {
        lemma_find_quote(s, q, i + 1, end);
    }
}

proof fn lemma_piece(s: Seq<u8>, i: int, p: Piece, word: Seq<u8>)
    requires
        stands_at(s, i, piece_text(p)),
        piece_ok(p),
    ensures
        word_from(s, i, word) == word_from(s, i + piece_text(p).len(), word + piece_value(p)),
{
    match p {
        Piece::Plain(text) => {
            lemma_plain(s, i, text, word, text.len());
            assert(text.take(text.len() as int) =~= text);
        },
        Piece::Quoted(q, text) => {
            let end = i + 1 + text.len();
            assert(s[i] == piece_text(p)[0]);
            assert(s[end] == piece_text(p)[1 + text.len() as int]);
            assert forall|j: int| i + 1 <= j < end implies #[trigger] s[j] != q by {
                assert(s[j] == piece_text(p)[j - i]);
                assert(text[j - i - 1] != q);
            }
            lemma_find_quote(s, q, i + 1, end);
            lemma_chars(q);
            assert(s.subrange(i + 1, end) =~= text) by {
                assert forall|j: int| 0 <= j < text.len() implies s.subrange(i + 1, end)[j]
                    == text[j] by {
                    assert(s[i + 1 + j] == piece_text(p)[1 + j]);
                }
            }
        },
    }
}

proof fn lemma_word(s: Seq<u8>, i: int, pieces: Seq<Piece>, n: nat)
    requires
        n <= pieces.len(),
        stands_at(s, i, word_text(pieces, n)),
        forall|k: int| 0 <= k < pieces.len() ==> piece_ok(#[trigger] pieces[k]),
    ensures
        word_from(s, i, seq![]) == word_from(
            s,
            i + word_text(pieces, n).len(),
            word_value(pieces, n),
        ),
    decreases n,
{
    if n > 0 {
        let before = word_text(pieces, (n - 1) as nat);
        let last = piece_text(pieces[n - 1]);
        assert(stands_at(s, i, before)) by {
            assert forall|j: int| i <= j < i + before.len() implies #[trigger] s[j] == before[j
                - i] by {
                assert(s[j] == (before + last)[j - i]);
            }
        }
        assert(stands_at(s, i + before.len(), last)) by {
            assert forall|j: int|
                i + before.len() <= j < i + before.len() + last.len() implies #[trigger] s[j]
                == last[j - (i + before.len())] by {
                assert(s[j] == (before + last)[j - i]);
            }
        }
        lemma_word(s, i, pieces, (n - 1) as nat);
        lemma_piece(s, i + before.len(), pieces[n - 1], word_value(pieces, (n - 1) as nat));
    }
}

/// The first character of a word neither separates words nor is punctuation.
proof fn lemma_word_begins(pieces: Seq<Piece>, n: nat)
    requires
        n <= pieces.len(),
        word_text(pieces, n).len() > 0,
        forall|k: int| 0 <= k < pieces.len() ==> piece_ok(#[trigger] pieces[k]),
    ensures
        !separates(word_text(pieces, n)[0]),
        punct_at(word_text(pieces, n)[0], None) is None,
    decreases n,
{
    let before = word_text(pieces, (n - 1) as nat);
    let last = piece_text(pieces[n - 1]);
    if before.len() > 0 {
        lemma_word_begins(pieces, (n - 1) as nat);
        assert(word_text(pieces, n)[0] == before[0]);
    } else {
        assert(word_text(pieces, n)[0] == last[0]);
        assert(piece_ok(pieces[n - 1]));
        match pieces[n - 1] {
            Piece::Plain(text) => {
                assert(!means_something(text[0]));
                lemma_chars(text[0]);
            },
            Piece::Quoted(q, text) => {
                lemma_chars(q);
            },
        }
    }
}

proof fn lemma_spaces(s: Seq<u8>, i: int, spaces: Seq<u8>, k: nat, so_far: Seq<TokenView>)
    requires
        stands_at(s, i, spaces),
        k <= spaces.len(),
        forall|j: int| 0 <= j < spaces.len() ==> separates(#[trigger] spaces[j]),
    ensures
        tokens_from(s, i, so_far) == tokens_from(s, i + k, so_far),
    decreases k,
{
    if k > 0 {
        lemma_spaces(s, i, spaces, (k - 1) as nat, so_far);
        assert(s[i + k - 1] == spaces[k - 1]);
        lemma_chars(s[i + k - 1]);
    }
}

/// Where a token stands in a line, and what stands behind it.
proof fn lemma_line(tokens: Seq<Spelled>, n: nat, m: nat)
    requires
        n < m <= tokens.len(),
    ensures
        ({
            let at = line_text(tokens, n).len() as int;
            let text = spelled_text(tokens[n as int]);
            let spaces = tokens[n as int].spaces;
            &&& stands_at(line_text(tokens, m), at, text)
            &&& stands_at(line_text(tokens, m), at + text.len(), spaces)
            &&& line_text(tokens, n + 1).len() == at + text.len() + spaces.len()
            &&& line_text(tokens, n + 1).len() <= line_text(tokens, m).len()
        }),
    decreases m - n,
{
    let at = line_text(tokens, n).len() as int;
    let text = spelled_text(tokens[n as int]);
    let spaces = tokens[n as int].spaces;
    let all = line_text(tokens, m);
    let before = line_text(tokens, (m - 1) as nat);
    if n + 1 < m {
        lemma_line(tokens, n, (m - 1) as nat);
        assert forall|j: int| at <= j < at + text.len() implies #[trigger] all[j] == text[j
            - at] by {
            assert(all[j] == before[j]);
        }
        assert forall|j: int|
            at + text.len() <= j < at + text.len() + spaces.len() implies #[trigger] all[j]
            == spaces[j - (at + text.len())] by {
            assert(all[j] == before[j]);
        }
    }
}

/// Punctuation is made out unless what follows makes it longer.
proof fn lemma_punct(s: Seq<u8>, at: int, p: Punct)
    requires
        stands_at(s, at, punct_text(p)),
        p == Punct::Pipe || p == Punct::And || p == Punct::Gt ==> char_at(s, at + 1) != Some(
            punct_text(p)[0],
        ),
    ensures
        punct_at(s[at], char_at(s, at + 1)) == Some(p),
        punct_len(p) == punct_text(p).len(),
        !super::tokenizer::is_space(s[at]),
{
    let text = punct_text(p);
    assert(s[at] == text[0]);
    if text.len() == 2 {
        assert(s[at + 1] == text[1]);
    }
}

/// A token that fits behind another one without a space does not go on with it.
#[verifier::spinoff_prover]
proof fn lemma_fit(t: Spelled, next: Spelled)
    requires
        t.spaces.len() == 0,
        fit(t, next),
        spelled_ok(next),
    ensures
        spelled_text(next).len() > 0,
        t.word is Some ==> punct_at(spelled_text(next)[0], None) is Some,
        t.word is None && (t.punct == Punct::Pipe || t.punct == Punct::And || t.punct == Punct::Gt)
            ==> spelled_text(next)[0] != punct_text(t.punct)[0],
{
    match next.word {
        Some(pieces) => {
            lemma_word_begins(pieces, pieces.len());
        },
        None => {
            assert(punct_at(punct_text(next.punct)[0], None) is Some);
        },
    }
}

/// A token ends where it ends.
proof fn lemma_behind(tokens: Seq<Spelled>, n: nat)
    requires
        n < tokens.len(),
        forall|k: int| 0 <= k < tokens.len() ==> spelled_ok(#[trigger] tokens[k]),
        forall|k: int| 0 < k < tokens.len() ==> fit(tokens[k - 1], #[trigger] tokens[k]),
    ensures
        ({
            let s = line_text(tokens, tokens.len());
            let t = tokens[n as int];
            let end = line_text(tokens, n).len() + spelled_text(t).len();
            &&& t.word is Some ==> word_ends(s, end as int)
            &&& t.word is None && (t.punct == Punct::Pipe || t.punct == Punct::And || t.punct
                == Punct::Gt) ==> char_at(s, end as int) != Some(punct_text(t.punct)[0])
        }),
{
    let s = line_text(tokens, tokens.len());
    let t = tokens[n as int];
    let end = line_text(tokens, n).len() + spelled_text(t).len();
    lemma_line(tokens, n, tokens.len());
    assert(spelled_ok(t));
    if t.spaces.len() > 0 {
        assert(s[end as int] == t.spaces[0]);
        assert(separates(t.spaces[0]));
    } else if n + 1 < tokens.len() {
        let next = tokens[(n + 1) as int];
        lemma_line(tokens, n + 1, tokens.len());
        assert(fit(tokens[n + 1 - 1], next));
        assert(spelled_ok(next));
        lemma_fit(t, next);
        assert(s[end as int] == spelled_text(next)[0]);
    }
}

/// A word is read at its place.
proof fn lemma_word_at(s: Seq<u8>, at: int, pieces: Seq<Piece>, so_far: Seq<TokenView>)
    requires
        stands_at(s, at, word_text(pieces, pieces.len())),
        word_text(pieces, pieces.len()).len() > 0,
        forall|k: int| 0 <= k < pieces.len() ==> piece_ok(#[trigger] pieces[k]),
        word_ends(s, at + word_text(pieces, pieces.len()).len()),
    ensures
        tokens_from(s, at, so_far) == tokens_from(
            s,
            at + word_text(pieces, pieces.len()).len(),
            so_far.push(TokenView::Str(word_value(pieces, pieces.len()))),
        ),
{
    let text = word_text(pieces, pieces.len());
    let end = at + text.len();
    assert(s[at] == text[0]);
    lemma_word_begins(pieces, pieces.len());
    lemma_chars(s[at]);
    lemma_word(s, at, pieces, pieces.len());
    if end < s.len() {
        lemma_chars(s[end]);
    }
    assert(punct_at(s[at], char_at(s, at + 1)) is None);
    assert(word_from(s, at, seq![]) == (
        Ok::<Seq<u8>, TokenizeError>(word_value(pieces, pieces.len())),
        end,
    ));
}

proof fn lemma_tokens(tokens: Seq<Spelled>, n: nat)
    requires
        n <= tokens.len(),
        forall|k: int| 0 <= k < tokens.len() ==> spelled_ok(#[trigger] tokens[k]),
        forall|k: int| 0 < k < tokens.len() ==> fit(tokens[k - 1], #[trigger] tokens[k]),
    ensures
        tokens_from(
            line_text(tokens, tokens.len()),
            line_text(tokens, n).len() as int,
            views(tokens, n),
        ) == (Tokens { tokens: views(tokens, tokens.len()), error: None }),
    decreases tokens.len() - n,
{
    if n < tokens.len() {
        let s = line_text(tokens, tokens.len());
        let at = line_text(tokens, n).len() as int;
        lemma_line(tokens, n, tokens.len());
        lemma_tokens(tokens, n + 1);
        lemma_behind(tokens, n);
        let t = tokens[n as int];
        assert(spelled_ok(t));
        let text = spelled_text(t);
        let end = at + text.len();
        assert(views(tokens, n).push(spelled_token(t)) =~= views(tokens, n + 1));
        lemma_spaces(s, end, t.spaces, t.spaces.len(), views(tokens, n + 1));
        match t.word {
            Some(pieces) => {
                lemma_word_at(s, at, pieces, views(tokens, n));
            },
            None => {
                lemma_punct(s, at, t.punct);
            },
        }
    }
}

/// A line is split into the tokens that it spells: words, of plain and of quoted parts,
/// without the quotation marks; and punctuation, the longest that can be made out. Spaces
/// are needed only where two words, or punctuation that would make up other punctuation,
/// stand next to each other.
pub proof fn law_tokens_read_back(tokens: Seq<Spelled>)
    requires
        forall|k: int| 0 <= k < tokens.len() ==> spelled_ok(#[trigger] tokens[k]),
        forall|k: int| 0 < k < tokens.len() ==> fit(tokens[k - 1], #[trigger] tokens[k]),
    ensures
        tokens_of(line_text(tokens, tokens.len())) == (Tokens {
            tokens: Seq::new(tokens.len(), |i: int| spelled_token(tokens[i])),
            error: None,
        }),
{
    lemma_tokens(tokens, 0);
    assert(views(tokens, 0) =~= seq![]);
}

/// A line of spaces holds no token.
pub proof fn law_blank_line(line: Seq<u8>)
    requires
        forall|i: int| 0 <= i < line.len() ==> separates(#[trigger] line[i]),
    ensures
        tokens_of(line) == (Tokens { tokens: seq![], error: None }),
{
    lemma_spaces(line, 0, line, line.len(), seq![]);
}

/// A quotation that does not end is an error, which names the quotation mark.
pub proof fn law_quotation_ends(pieces: Seq<Piece>, q: u8, rest: Seq<u8>)
    requires
        forall|k: int| 0 <= k < pieces.len() ==> piece_ok(#[trigger] pieces[k]),
        q == 0x22 || q == 0x27,
        forall|i: int| 0 <= i < rest.len() ==> #[trigger] rest[i] != q,
    ensures
        tokens_of(word_text(pieces, pieces.len()) + seq![q] + rest) == (Tokens {
            tokens: seq![],
            error: Some(TokenizeError::UnterminatedQuote(q)),
        }),
{
    let text = word_text(pieces, pieces.len());
    let s = text + seq![q] + rest;
    let at = text.len() as int;
    assert(stands_at(s, 0, text));
    lemma_word(s, 0, pieces, pieces.len());
    assert(s[at] == q);
    lemma_chars(q);
    assert forall|j: int| at + 1 <= j < s.len() implies #[trigger] s[j] != q by {
        assert(s[j] == rest[j - at - 1]);
    }
    lemma_not_found(s, q, at + 1);
    if text.len() > 0 {
        lemma_word_begins(pieces, pieces.len());
        assert(s[0] == text[0]);
    }
    lemma_chars(s[0]);
    assert(punct_at(s[0], char_at(s, 1)) is None);
}

proof fn lemma_not_found(s: Seq<u8>, q: u8, i: int)
    requires
        0 <= i <= s.len(),
        forall|j: int| i <= j < s.len() ==> #[trigger] s[j] != q,
    ensures
        find(s, q, i) == s.len(),
    decreases s.len() - i,
{
    if i < s.len() {
        lemma_not_found(s, q, i + 1);
    }
}

} // verus!
