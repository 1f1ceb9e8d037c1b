//! The tokenizer. Input is a sequence of characters; a token is paired
//! with the position just after it (for `End`, the end of the input after
//! any trailing whitespace).
use vstd::prelude::*;
use crate::text::{alphanumeric, is_alphanumeric, is_whitespace, unicode_white_space};

verus! {

/// A token; an identifier is given by its character positions in the input.
#[derive(Clone, Copy, Debug, PartialEq, Eq, Structural)]
pub enum Token {
    End,
    OParen,
    CParen,
    Lambda,
    Dot,
    Assign,
    Print,
    Ident { start: usize, end: usize },
}

/// The kind of a token, without the identifier's text.
#[derive(Clone, Copy, Debug, PartialEq, Eq, Structural)]
pub enum TokenKind {
    End,
    OParen,
    CParen,
    Lambda,
    Dot,
    Assign,
    Print,
    Ident,
}

/// A token with the position just after it.
pub type FatToken = (usize, Token);

/// The kind of a token.
pub open spec fn kind_of(t: Token) -> TokenKind {
    match t {
        Token::End => TokenKind::End,
        Token::OParen => TokenKind::OParen,
        Token::CParen => TokenKind::CParen,
        Token::Lambda => TokenKind::Lambda,
        Token::Dot => TokenKind::Dot,
        Token::Assign => TokenKind::Assign,
        Token::Print => TokenKind::Print,
        Token::Ident { .. } => TokenKind::Ident,
    }
}

impl Token {
    /// The kind of `self`.
    pub fn kind(&self) -> (k: TokenKind)
        ensures
            k == kind_of(*self),
    {
        match self {
            Token::End => TokenKind::End,
            Token::OParen => TokenKind::OParen,
            Token::CParen => TokenKind::CParen,
            Token::Lambda => TokenKind::Lambda,
            Token::Dot => TokenKind::Dot,
            Token::Assign => TokenKind::Assign,
            Token::Print => TokenKind::Print,
            Token::Ident { .. } => TokenKind::Ident,
        }
    }
}

/// The first position at or after `p` that is not whitespace.
pub open spec fn skip_white(s: Seq<char>, p: int) -> int
    decreases s.len() - p,
{
    if 0 <= p < s.len() && unicode_white_space(s[p]) {
        skip_white(s, p + 1)
    } else {
        p
    }
}

/// A character that may stand in an identifier before its primes.
pub open spec fn word_char(c: char) -> bool {
    alphanumeric(c) || c == '_'
}

/// The end of the run of word characters that starts at `p`.
pub open spec fn scan_word(s: Seq<char>, p: int) -> int
    decreases s.len() - p,
{
    if 0 <= p < s.len() && word_char(s[p]) {
        scan_word(s, p + 1)
    } else {
        p
    }
}

/// The end of the run of primes (`'`) that starts at `p`.
pub open spec fn scan_primes(s: Seq<char>, p: int) -> int
    decreases s.len() - p,
{
    if 0 <= p < s.len() && s[p] == '\'' {
        scan_primes(s, p + 1)
    } else {
        p
    }
}

/// The token that starts at `p` after whitespace, with the position after
/// it; on a character that starts no token, the position of that character.
pub open spec fn next_token_at(s: Seq<char>, p: int) -> (int, Result<Token, ()>) {
    let q = skip_white(s, p);
    if q >= s.len() {
        (q, Ok(Token::End))
    } else {
        let c = s[q];
        if c == '(' {
            (q + 1, Ok(Token::OParen))
        } else if c == ')' {
            (q + 1, Ok(Token::CParen))
        } else if c == '.' {
            (q + 1, Ok(Token::Dot))
        } else if c == '?' {
            (q + 1, Ok(Token::Print))
        } else if c == ':' {
            if q + 1 < s.len() && s[q + 1] == ':' {
                (q + 2, Ok(Token::Assign))
            } else {
                (q, Err(()))
            }
        } else if c == '\\' || c == '𝞴' {
            (q + 1, Ok(Token::Lambda))
        } else if word_char(c) {
            let e = scan_primes(s, scan_word(s, q));
            (e, Ok(Token::Ident { start: q as usize, end: e as usize }))
        } else {
            (q, Err(()))
        }
    }
}

/// The tokens from position `p` on, through `End`; or the position of the
/// first character that starts no token.
pub open spec fn tokens_from(s: Seq<char>, p: int) -> Result<Seq<FatToken>, usize>
    decreases s.len() - p,
{
    if p < 0 || p > s.len() {
        Err(0)
    } else {
        let (q, r) = next_token_at(s, p);
        match r {
            Err(_) => Err(q as usize),
            Ok(t) => if t is End {
                Ok(seq![(q as usize, t)])
            } else {
                proof {
                    lemma_next_token_bounds(s, p);
                }
                match tokens_from(s, q) {
                    Ok(rest) => Ok(seq![(q as usize, t)] + rest),
                    Err(e) => Err(e),
                }
            },
        }
    }
}

/// The tokens of the whole input.
pub open spec fn tokenized(s: Seq<char>) -> Result<Seq<FatToken>, usize> {
    tokens_from(s, 0)
}

/// Skipping whitespace stays within the input.
pub proof fn lemma_skip_white_bounds(s: Seq<char>, p: int)
    requires
        0 <= p <= s.len(),
    ensures
        p <= skip_white(s, p) <= s.len(),
    decreases s.len() - p,
{
    if p < s.len() && unicode_white_space(s[p]) {
        lemma_skip_white_bounds(s, p + 1);
    }
}

/// Scanning a word or primes stays within the input.
pub proof fn lemma_scan_bounds(s: Seq<char>, p: int)
    requires
        0 <= p <= s.len(),
    ensures
        p <= scan_word(s, p) <= s.len(),
        p <= scan_primes(s, p) <= s.len(),
    decreases s.len() - p,
{
    if p < s.len() {
        lemma_scan_bounds(s, p + 1);
    }
}

/// A token other than `End` takes at least one character; an identifier is
/// a nonempty range of the input that ends where the token ends.
pub proof fn lemma_next_token_bounds(s: Seq<char>, p: int)
    requires
        0 <= p <= s.len(),
    ensures
        ({
            let (q, r) = next_token_at(s, p);
            &&& p <= q <= s.len()
            &&& (r matches Ok(t) && !(t is End) ==> p < q)
            &&& (r is Err ==> q < s.len())
            &&& (s.len() <= usize::MAX ==> (r matches Ok(Token::Ident { start, end }) ==> p <= start
                < end && end == q))
        }),
{
    let q = skip_white(s, p);
    lemma_skip_white_bounds(s, p);
    if q < s.len() {
        lemma_scan_bounds(s, q);
        lemma_scan_bounds(s, scan_word(s, q));
        if word_char(s[q]) {
            assert(scan_word(s, q) == scan_word(s, q + 1));
            lemma_scan_bounds(s, q + 1);
        }
    }
}

/// What every successful tokenization looks like: it ends with `End` and
/// holds no other `End`; positions lie in the input and grow; every token
/// but a leading `End` lies after the start; identifiers are nonempty
/// ranges of the input; there are at most as many tokens as characters
/// left, plus one.
pub open spec fn well_formed_tokens(s: Seq<char>, p: int, ts: Seq<FatToken>) -> bool {
    &&& ts.len() >= 1
    &&& ts.len() <= s.len() - p + 1
    &&& ts.last().1 is End
    &&& forall|k: int| 0 <= k < ts.len() - 1 ==> !(#[trigger] ts[k].1 is End)
    &&& forall|k: int| 0 <= k < ts.len() ==> p <= #[trigger] ts[k].0 <= s.len()
    &&& forall|k: int, m: int| 0 <= k < m < ts.len() ==> #[trigger] ts[k].0 <= #[trigger] ts[m].0
    &&& forall|k: int| 0 <= k < ts.len() && (k > 0 || !(ts[k].1 is End)) ==> p < #[trigger] ts[k].0
    &&& forall|k: int|
        0 <= k < ts.len() ==> (#[trigger] ts[k].1 matches Token::Ident { start, end } ==> p <= start
            < end && end == ts[k].0)
}

/// Tokenizing yields well-formed tokens, or the position of a character
/// of the input.
pub proof fn lemma_tokens_well_formed(s: Seq<char>, p: int)
    requires
        0 <= p <= s.len() <= usize::MAX,
    ensures
        tokens_from(s, p) matches Ok(ts) ==> well_formed_tokens(s, p, ts),
        tokens_from(s, p) matches Err(e) ==> p <= e < s.len(),
    decreases s.len() - p,
{
    lemma_next_token_bounds(s, p);
    let (q, r) = next_token_at(s, p);
    if let Ok(t) = r {
        if !(t is End) {
            lemma_tokens_well_formed(s, q);
            if let Ok(rest) = tokens_from(s, q) {
                let ts = seq![(q as usize, t)] + rest;
                assert forall|k: int| 0 <= k < ts.len() - 1 implies !(#[trigger] ts[k].1 is End) by {
                    if k > 0 {
                        assert(ts[k] == rest[k - 1]);
                    }
                }
                assert forall|k: int| 0 <= k < ts.len() implies p <= #[trigger] ts[k].0 <= s.len() by {
                    if k > 0 {
                        assert(ts[k] == rest[k - 1]);
                    }
                }
                assert forall|k: int, m: int| 0 <= k < m < ts.len() implies #[trigger] ts[k].0
                    <= #[trigger] ts[m].0 by {
                    assert(ts[m] == rest[m - 1]);
                    if k > 0 {
                        assert(ts[k] == rest[k - 1]);
                    }
                }
                assert forall|k: int| 0 <= k < ts.len() && (k > 0 || !(ts[k].1 is End)) implies p
                    < #[trigger] ts[k].0 by {
                    if k > 0 {
                        assert(ts[k] == rest[k - 1]);
                    }
                }
                assert forall|k: int| 0 <= k < ts.len() implies (#[trigger] ts[k].1 matches Token::Ident {
                    start,
                    end,
                } ==> p <= start < end && end == ts[k].0) by {
                    if k > 0 {
                        assert(ts[k] == rest[k - 1]);
                    }
                }
            }
        }
    }
}

/// `pre` put before the tokens of a successful tokenization.
pub open spec fn prepend(pre: Seq<FatToken>, r: Result<Seq<FatToken>, usize>) -> Result<
    Seq<FatToken>,
    usize,
> {
    match r {
        Ok(rest) => Ok(pre + rest),
        Err(e) => Err(e),
    }
}

/// The token after whitespace from `pos` on, as `next_token_at` says.
pub fn next_token(chars: &[char], pos: usize) -> (r: (usize, Result<Token, ()>))
    requires
        pos <= chars@.len(),
    ensures
        (r.0 as int, r.1) == next_token_at(chars@, pos as int),
{
    let ghost s = chars@;
    let n = chars.len();
    let mut q = pos;
    while q < n && is_whitespace(chars[q])
        invariant
            pos <= q <= n == s.len(),
            s == chars@,
            skip_white(s, q as int) == skip_white(s, pos as int),
        decreases n - q,
    {
        q = q + 1;
    }
    if q >= n {
        return (q, Ok(Token::End));
    }
    let c = chars[q];
    if c == '(' {
        (q + 1, Ok(Token::OParen))
    } else if c == ')' {
        (q + 1, Ok(Token::CParen))
    } else if c == '.' {
        (q + 1, Ok(Token::Dot))
    } else if c == '?' {
        (q + 1, Ok(Token::Print))
    } else if c == ':' {
        if q + 1 < n && chars[q + 1] == ':' {
            (q + 2, Ok(Token::Assign))
        } else {
            (q, Err(()))
        }
    } else if c == '\\' || c == '𝞴' {
        (q + 1, Ok(Token::Lambda))
    } else if is_alphanumeric(c) || c == '_' {
        let mut e = q;
        while e < n && (is_alphanumeric(chars[e]) || chars[e] == '_')
            invariant
                q <= e <= n == s.len(),
                s == chars@,
                scan_word(s, e as int) == scan_word(s, q as int),
            decreases n - e,
        {
            e = e + 1;
        }
        let ghost w = e;
        while e < n && chars[e] == '\''
            invariant
                w <= e <= n == s.len(),
                s == chars@,
                scan_primes(s, e as int) == scan_primes(s, w as int),
            decreases n - e,
        {
            e = e + 1;
        }
        (e, Ok(Token::Ident { start: q, end: e }))
    } else {
        (q, Err(()))
    }
}

/// The tokens of `chars`, each with the position after it, through `End`;
/// or the position of the first character that starts no token.
pub fn tokenize(chars: &[char]) -> (r: Result<Vec<FatToken>, usize>)
    ensures
        match r {
            Ok(ts) => tokenized(chars@) == Ok::<Seq<FatToken>, usize>(ts@),
            Err(p) => tokenized(chars@) == Err::<Seq<FatToken>, usize>(p),
        },
{
    let ghost s = chars@;
    let mut tokens: Vec<FatToken> = Vec::new();
    let mut pos: usize = 0;
    assert(tokens@ + Seq::<FatToken>::empty() =~= tokens@);
    loop
        invariant
            pos <= chars@.len(),
            s == chars@,
            tokenized(s) == prepend(tokens@, tokens_from(s, pos as int)),
        decreases chars@.len() - pos,
    {
        proof {
            lemma_next_token_bounds(s, pos as int);
        }
        let (np, res) = next_token(chars, pos);
        match res {
            Ok(tok) => {
                let ghost before = tokens@;
                tokens.push((np, tok));
                if let Token::End = tok {
                    assert(tokens@ =~= before + seq![(np, tok)]);
                    return Ok(tokens);
                }
                proof {
                    assert(before + (seq![(np, tok)] + tokens_from(s, np as int)->Ok_0) =~= tokens@
                        + tokens_from(s, np as int)->Ok_0);
                }
                pos = np;
            },
            Err(()) => {
                return Err(np);
            },
        }
    }
}

/// Skipping whitespace from `p` stops at the first character that is not
/// whitespace.
proof fn lemma_skip_white_to(s: Seq<char>, p: int, q: int)
    requires
        0 <= p <= q < s.len(),
        forall|k: int| p <= k < q ==> unicode_white_space(#[trigger] s[k]),
        !unicode_white_space(s[q]),
    ensures
        skip_white(s, p) == q,
    decreases q - p,
{
    if p < q {
        lemma_skip_white_to(s, p + 1, q);
    }
}

/// The run of word characters from `p`: all of it is word characters, and
/// it stops at the end or at a character that is not one.
proof fn lemma_scan_word_run(s: Seq<char>, p: int)
    requires
        0 <= p <= s.len(),
    ensures
        p <= scan_word(s, p) <= s.len(),
        forall|k: int| p <= k < scan_word(s, p) ==> word_char(#[trigger] s[k]),
        scan_word(s, p) < s.len() ==> !word_char(s[scan_word(s, p)]),
    decreases s.len() - p,
{
    if p < s.len() && word_char(s[p]) {
        lemma_scan_word_run(s, p + 1);
    }
}

/// The run of primes from `p`: all of it is primes, and it stops at the
/// end or at a character that is not one.
proof fn lemma_scan_primes_run(s: Seq<char>, p: int)
    requires
        0 <= p <= s.len(),
    ensures
        p <= scan_primes(s, p) <= s.len(),
        forall|k: int| p <= k < scan_primes(s, p) ==> #[trigger] s[k] == '\'',
        scan_primes(s, p) < s.len() ==> s[scan_primes(s, p)] != '\'',
    decreases s.len() - p,
{
    if p < s.len() && s[p] == '\'' {
        lemma_scan_primes_run(s, p + 1);
    }
}

/// After any whitespace, a letter, digit or `_` (other than `𝞴`, which is
/// the lambda sign) starts an identifier: the longest run of letters,
/// digits and `_` there, followed by the longest run of primes.
pub proof fn lemma_identifier_token(s: Seq<char>, p: int, q: int)
    requires
        0 <= p <= q < s.len() <= usize::MAX,
        forall|k: int| p <= k < q ==> unicode_white_space(#[trigger] s[k]),
        alphanumeric(s[q]) || s[q] == '_',
        s[q] != '𝞴',
    ensures
        ({
            let (e, r) = next_token_at(s, p);
            &&& q < e <= s.len()
            &&& r == Ok::<Token, ()>(Token::Ident { start: q as usize, end: e as usize })
            &&& forall|k: int|
                q <= k < e ==> alphanumeric(#[trigger] s[k]) || s[k] == '_' || s[k] == '\''
            &&& forall|k: int| q < k < e && s[k - 1] == '\'' ==> #[trigger] s[k] == '\''
            &&& e < s.len() ==> s[e] != '\''
            &&& e < s.len() && (alphanumeric(s[e]) || s[e] == '_') ==> s[e - 1] == '\''
        }),
{
    lemma_skip_white_to(s, p, q);
    lemma_scan_word_run(s, q);
    let w = scan_word(s, q);
    lemma_scan_primes_run(s, w);
    let e = scan_primes(s, w);
    assert(w > q);
    assert forall|k: int| q < k < e && s[k - 1] == '\'' implies #[trigger] s[k] == '\'' by {
        if k < w {
            assert(word_char(s[k - 1]));
        }
    }
    if e < s.len() && (alphanumeric(s[e]) || s[e] == '_') {
        assert(e > w);
        assert(s[e - 1] == '\'');
    }
}

} // verus!
