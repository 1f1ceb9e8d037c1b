//! Printing and parsing agree: the text that a term prints as (at
//! verbosity 0) tokenizes and parses back into a term of the same shape,
//! for every term whose names are identifiers.
use vstd::prelude::*;
use crate::display::{
    APP_LHS, APP_RHS, FUN, TOP, lemma_plain_text_ignores_identities, parenthesized, show,
};
use crate::expr::{Term, capture_term, lemma_capture_keeps_shape, mk_app, mk_fun, shape};
use crate::parse::{
    ParseError, after_lambda_at, app_at, app_tail_at, atom_at, expr_at, fun_at, id_at, ident_at,
    var_at,
};
use crate::text::unicode_white_space;
use crate::token::{
    FatToken, Token, next_token_at, prepend, scan_primes, scan_word, skip_white,
    tokenized, tokens_from, word_char,
};

verus! {

/// The four positions in which a term is printed.
pub open spec fn valid_flag(f: u8) -> bool {
    f == TOP || f == APP_LHS || f == APP_RHS || f == FUN
}

proof fn lemma_flag_bits(f: u8)
    requires
        valid_flag(f),
    ensures
        (f & FUN == 0) <==> f != FUN,
        (f & (APP_LHS | APP_RHS) != 0) <==> (f == APP_LHS || f == APP_RHS),
        (f & APP_RHS != 0) <==> f == APP_RHS,
{
    assert((f & 8u8 == 0u8) <==> f != 8u8) by (bit_vector)
        requires
            f == 1u8 || f == 2u8 || f == 4u8 || f == 8u8,
    ;
    assert((f & (2u8 | 4u8) != 0u8) <==> (f == 2u8 || f == 4u8)) by (bit_vector)
        requires
            f == 1u8 || f == 2u8 || f == 4u8 || f == 8u8,
    ;
    assert((f & 4u8 != 0u8) <==> f == 4u8) by (bit_vector)
        requires
            f == 1u8 || f == 2u8 || f == 4u8 || f == 8u8,
    ;
}

/// The text of a lambda without its parentheses: `𝞴` unless it is the
/// body of a lambda, the name, `.` unless the body is a lambda, a space,
/// the body.
pub open spec fn fun_text(name: Seq<char>, body_text: Seq<char>, lam: bool, dot: bool) -> Seq<
    char,
> {
    (if lam {
        seq!['𝞴']
    } else {
        Seq::empty()
    }) + name + (if dot {
        seq!['.']
    } else {
        Seq::empty()
    }) + seq![' '] + body_text
}

/// Where the body starts in `fun_text`.
pub open spec fn fun_body_offset(name: Seq<char>, lam: bool, dot: bool) -> int {
    (if lam {
        1int
    } else {
        0int
    }) + name.len() + (if dot {
        1int
    } else {
        0int
    }) + 1
}

/// The text of `t` at verbosity 0 in position `f`.
pub open spec fn disp(t: Term, f: u8) -> Seq<char>
    decreases t,
{
    match t {
        Term::Var { name, .. } => name,
        Term::Fun { name, body, .. } => {
            let s = fun_text(name, disp(*body, FUN), f != FUN, !(*body is Fun));
            if f == APP_LHS || f == APP_RHS {
                parenthesized(s)
            } else {
                s
            }
        },
        Term::App { lhs, rhs } => {
            let s = disp(*lhs, APP_LHS) + seq![' '] + disp(*rhs, APP_RHS);
            if f == APP_RHS {
                parenthesized(s)
            } else {
                s
            }
        },
    }
}

proof fn lemma_show_is_disp(t: Term, f: u8)
    requires
        valid_flag(f),
    ensures
        show(t, 0, f) == disp(t, f),
    decreases t,
{
    lemma_flag_bits(f);
    match t {
        Term::Var { .. } => {},
        Term::Fun { name, body, .. } => {
            lemma_show_is_disp(*body, FUN);
            let s1 = (if f & FUN == 0 {
                seq!['𝞴']
            } else {
                Seq::empty()
            }) + name + Seq::<char>::empty() + (if *body is Fun {
                Seq::empty()
            } else {
                seq!['.']
            }) + seq![' '] + show(*body, 0, FUN);
            let s2 = (if f != FUN {
                seq!['𝞴']
            } else {
                Seq::empty()
            }) + name + (if *body is Fun {
                Seq::empty()
            } else {
                seq!['.']
            }) + seq![' '] + disp(*body, FUN);
            assert(s1 =~= s2);
        },
        Term::App { lhs, rhs } => {
            lemma_show_is_disp(*lhs, APP_LHS);
            lemma_show_is_disp(*rhs, APP_RHS);
        },
    }
}

/// A name that the tokenizer reads back as one identifier: word
/// characters, then primes, and not starting with `𝞴`.
pub open spec fn valid_name(n: Seq<char>) -> bool {
    &&& n.len() > 0
    &&& word_char(n[0])
    &&& n[0] != '𝞴'
    &&& scan_primes(n, scan_word(n, 0)) == n.len()
}

/// Every name in `t`, of a variable or a binder, is valid.
pub open spec fn printable(t: Term) -> bool
    decreases t,
{
    match t {
        Term::Var { name, .. } => valid_name(name),
        Term::Fun { name, body, .. } => valid_name(name) && printable(*body),
        Term::App { lhs, rhs } => printable(*lhs) && printable(*rhs),
    }
}

/// A token with the position after it.
pub open spec fn fat(pos: int, t: Token) -> FatToken {
    (pos as usize, t)
}

/// The tokens of `fun_text` starting at `p0`, given those of the body.
pub open spec fn fun_toks(
    name: Seq<char>,
    body_toks: Seq<FatToken>,
    lam: bool,
    dot: bool,
    p0: int,
) -> Seq<FatToken> {
    let p1 = if lam {
        p0 + 1
    } else {
        p0
    };
    let p2 = p1 + name.len();
    (if lam {
        seq![fat(p0 + 1, Token::Lambda)]
    } else {
        Seq::empty()
    }) + seq![fat(p2, Token::Ident { start: p1 as usize, end: p2 as usize })] + (if dot {
        seq![fat(p2 + 1, Token::Dot)]
    } else {
        Seq::empty()
    }) + body_toks
}

/// The tokens of a parenthesized text of length `len + 2` at `p`.
pub open spec fn paren_toks(p: int, inner: Seq<FatToken>, len: int) -> Seq<FatToken> {
    seq![fat(p + 1, Token::OParen)] + inner + seq![fat(p + len + 2, Token::CParen)]
}

/// The tokens of `disp(t, f)` when it starts at position `p`.
pub open spec fn toks(t: Term, f: u8, p: int) -> Seq<FatToken>
    decreases t,
{
    match t {
        Term::Var { name, .. } => seq![
            fat(p + name.len(), Token::Ident { start: p as usize, end: (p + name.len()) as usize }),
        ],
        Term::Fun { name, body, .. } => {
            let paren = f == APP_LHS || f == APP_RHS;
            let p0 = if paren {
                p + 1
            } else {
                p
            };
            let lam = f != FUN;
            let dot = !(*body is Fun);
            let inner = fun_toks(
                name,
                toks(*body, FUN, p0 + fun_body_offset(name, lam, dot)),
                lam,
                dot,
                p0,
            );
            if paren {
                paren_toks(p, inner, fun_text(name, disp(*body, FUN), lam, dot).len() as int)
            } else {
                inner
            }
        },
        Term::App { lhs, rhs } => {
            let paren = f == APP_RHS;
            let p0 = if paren {
                p + 1
            } else {
                p
            };
            let dl = disp(*lhs, APP_LHS);
            let inner = toks(*lhs, APP_LHS, p0) + toks(*rhs, APP_RHS, p0 + dl.len() + 1);
            if paren {
                paren_toks(
                    p,
                    inner,
                    (dl + seq![' '] + disp(*rhs, APP_RHS)).len() as int,
                )
            } else {
                inner
            }
        },
    }
}

proof fn lemma_compose(s: Seq<char>, p: int, q: int, r: int, a: Seq<FatToken>, b: Seq<FatToken>)
    requires
        tokens_from(s, p) == prepend(a, tokens_from(s, q)),
        tokens_from(s, q) == prepend(b, tokens_from(s, r)),
    ensures
        tokens_from(s, p) == prepend(a + b, tokens_from(s, r)),
{
    match tokens_from(s, r) {
        Ok(rest) => {
            assert(a + (b + rest) =~= (a + b) + rest);
        },
        Err(_) => {},
    }
}

/// A space is skipped.
proof fn lemma_lex_space(s: Seq<char>, p: int)
    requires
        0 <= p < s.len(),
        s[p] == ' ',
    ensures
        tokens_from(s, p) == prepend(Seq::empty(), tokens_from(s, p + 1)),
{
    assert(skip_white(s, p) == skip_white(s, p + 1));
    assert(next_token_at(s, p) == next_token_at(s, p + 1));
    match tokens_from(s, p + 1) {
        Ok(rest) => {
            assert(Seq::<FatToken>::empty() + rest =~= rest);
        },
        Err(_) => {},
    }
}

/// One of `(`, `)`, `.`, `𝞴` is a token of its own.
proof fn lemma_lex_char(s: Seq<char>, p: int, t: Token)
    requires
        0 <= p < s.len() <= usize::MAX,
        (s[p] == '(' && t == Token::OParen) || (s[p] == ')' && t == Token::CParen) || (s[p] == '.'
            && t == Token::Dot) || (s[p] == '𝞴' && t == Token::Lambda),
    ensures
        tokens_from(s, p) == prepend(seq![fat(p + 1, t)], tokens_from(s, p + 1)),
{
    assert(skip_white(s, p) == p);
    assert(next_token_at(s, p) == (p + 1, Ok::<Token, ()>(t)));
}

proof fn lemma_scan_word_shift(s: Seq<char>, n: Seq<char>, p: int, k: int)
    requires
        0 <= p,
        p + n.len() <= s.len(),
        s.subrange(p, p + n.len()) == n,
        0 <= k <= n.len(),
        p + n.len() == s.len() || !word_char(s[p + n.len()]),
    ensures
        scan_word(s, p + k) == p + scan_word(n, k),
    decreases n.len() - k,
{
    if k < n.len() {
        assert(s[p + k] == n[k]);
        lemma_scan_word_shift(s, n, p, k + 1);
    }
}

proof fn lemma_scan_primes_shift(s: Seq<char>, n: Seq<char>, p: int, k: int)
    requires
        0 <= p,
        p + n.len() <= s.len(),
        s.subrange(p, p + n.len()) == n,
        0 <= k <= n.len(),
        p + n.len() == s.len() || s[p + n.len()] != '\'',
    ensures
        scan_primes(s, p + k) == p + scan_primes(n, k),
    decreases n.len() - k,
{
    if k < n.len() {
        assert(s[p + k] == n[k]);
        lemma_scan_primes_shift(s, n, p, k + 1);
    }
}

/// What may follow a name in printed text: the end, a space, `)` or `.`.
pub open spec fn name_end(s: Seq<char>, q: int) -> bool {
    q == s.len() || s[q] == ' ' || s[q] == ')' || s[q] == '.'
}

/// A valid name followed by the end, a space, `)` or `.` is one identifier.
proof fn lemma_lex_name(s: Seq<char>, p: int, n: Seq<char>)
    requires
        0 <= p,
        p + n.len() <= s.len() <= usize::MAX,
        s.subrange(p, p + n.len()) == n,
        valid_name(n),
        name_end(s, p + n.len()),
    ensures
        tokens_from(s, p) == prepend(
            seq![
                fat(
                    p + n.len(),
                    Token::Ident { start: p as usize, end: (p + n.len()) as usize },
                ),
            ],
            tokens_from(s, p + n.len()),
        ),
{
    assert(s[p] == n[0]);
    assert(!unicode_white_space(n[0]));
    assert(skip_white(s, p) == p);
    let e = p + n.len();
    if e < s.len() {
        assert(!word_char(s[e]));
        assert(s[e] != '\'');
    }
    crate::token::lemma_scan_bounds(n, 0);
    let w = scan_word(n, 0);
    lemma_scan_word_shift(s, n, p, 0);
    lemma_scan_primes_shift(s, n, p, w);
    assert(scan_primes(s, scan_word(s, p)) == e);
    let c = s[p];
    assert(c != '(' && c != ')' && c != '.' && c != '?' && c != ':' && c != '\\');
    assert(next_token_at(s, p) == (
        e,
        Ok::<Token, ()>(Token::Ident { start: p as usize, end: e as usize }),
    ));
}

proof fn lemma_prepend_empty(s: Seq<char>, p: int)
    ensures
        tokens_from(s, p) == prepend(Seq::empty(), tokens_from(s, p)),
{
    match tokens_from(s, p) {
        Ok(rest) => {
            assert(Seq::<FatToken>::empty() + rest =~= rest);
        },
        Err(_) => {},
    }
}

/// A stretch of `s` that equals `d` holds each stretch of `d`.
proof fn lemma_sub(s: Seq<char>, p: int, d: Seq<char>, a: int, b: int)
    requires
        0 <= p,
        p + d.len() <= s.len(),
        s.subrange(p, p + d.len()) == d,
        0 <= a <= b <= d.len(),
    ensures
        s.subrange(p + a, p + b) == d.subrange(a, b),
{
    assert(s.subrange(p + a, p + b) =~= d.subrange(a, b)) by {
        assert forall|i: int| 0 <= i < b - a implies s.subrange(p + a, p + b)[i] == d.subrange(
            a,
            b,
        )[i] by {
            assert(s.subrange(p, p + d.len())[a + i] == s[p + a + i]);
        }
    }
}

/// What may follow printed text: the end, a space or `)`.
pub open spec fn follows(s: Seq<char>, q: int) -> bool {
    q == s.len() || s[q] == ' ' || s[q] == ')'
}

/// The parts of a parenthesized stretch of text.
proof fn lemma_paren_parts(s: Seq<char>, p: int, inner: Seq<char>)
    requires
        0 <= p,
        p + inner.len() + 2 <= s.len(),
        s.subrange(p, p + inner.len() + 2) == parenthesized(inner),
    ensures
        s[p] == '(',
        s[p + inner.len() + 1] == ')',
        s.subrange(p + 1, p + 1 + inner.len()) == inner,
        follows(s, p + 1 + inner.len()),
{
    let d = parenthesized(inner);
    assert(s[p] == d[0]);
    assert(s[p + inner.len() + 1] == d[inner.len() + 1int]);
    lemma_sub(s, p, d, 1, inner.len() + 1int);
    assert(d.subrange(1, inner.len() + 1int) =~= inner);
}

/// Parentheses around text that tokenizes add their two tokens.
proof fn lemma_lex_paren(s: Seq<char>, p: int, inner: Seq<char>, it: Seq<FatToken>)
    requires
        0 <= p,
        p + inner.len() + 2 <= s.len() <= usize::MAX,
        s.subrange(p, p + inner.len() + 2) == parenthesized(inner),
        tokens_from(s, p + 1) == prepend(it, tokens_from(s, p + 1 + inner.len())),
    ensures
        tokens_from(s, p) == prepend(
            paren_toks(p, it, inner.len() as int),
            tokens_from(s, p + inner.len() + 2),
        ),
{
    lemma_paren_parts(s, p, inner);
    let e = p + 1 + inner.len();
    lemma_lex_char(s, p, Token::OParen);
    lemma_lex_char(s, e, Token::CParen);
    lemma_compose(s, p, p + 1, e, seq![fat(p + 1, Token::OParen)], it);
    lemma_compose(
        s,
        p,
        e,
        e + 1,
        seq![fat(p + 1, Token::OParen)] + it,
        seq![fat(e + 1, Token::CParen)],
    );
}

/// `s` holds the text of `t` in position `f` from `p` on, followed by the
/// end, a space or `)`.
pub open spec fn lex_ok(s: Seq<char>, t: Term, f: u8, p: int) -> bool {
    &&& valid_flag(f)
    &&& printable(t)
    &&& 0 <= p
    &&& p + disp(t, f).len() <= s.len() <= usize::MAX
    &&& s.subrange(p, p + disp(t, f).len()) == disp(t, f)
    &&& follows(s, p + disp(t, f).len())
}

/// The printed text of a term tokenizes into `toks`.
pub proof fn lemma_lex_disp(s: Seq<char>, t: Term, f: u8, p: int)
    requires
        lex_ok(s, t, f, p),
    ensures
        tokens_from(s, p) == prepend(toks(t, f, p), tokens_from(s, p + disp(t, f).len())),
    decreases t, 2int,
{
    match t {
        Term::Var { name, .. } => {
            lemma_lex_name(s, p, name);
        },
        Term::App { lhs, rhs } => {
            let inner = disp(*lhs, APP_LHS) + seq![' '] + disp(*rhs, APP_RHS);
            if f == APP_RHS {
                lemma_paren_parts(s, p, inner);
                lemma_lex_app_inner(s, t, p + 1);
                let q = p + 1 + disp(*lhs, APP_LHS).len() + 1;
                lemma_lex_paren(
                    s,
                    p,
                    inner,
                    toks(*lhs, APP_LHS, p + 1) + toks(*rhs, APP_RHS, q),
                );
            } else {
                lemma_lex_app_inner(s, t, p);
            }
        },
        Term::Fun { name, body, .. } => {
            let lam = f != FUN;
            let dot = !(*body is Fun);
            let inner = fun_text(name, disp(*body, FUN), lam, dot);
            if f == APP_LHS || f == APP_RHS {
                lemma_paren_parts(s, p, inner);
                lemma_lex_fun_inner(s, t, lam, p + 1);
                lemma_lex_paren(
                    s,
                    p,
                    inner,
                    fun_toks(
                        name,
                        toks(*body, FUN, p + 1 + fun_body_offset(name, lam, dot)),
                        lam,
                        dot,
                        p + 1,
                    ),
                );
            } else {
                lemma_lex_fun_inner(s, t, lam, p);
            }
        },
    }
}

proof fn lemma_lex_app_inner(s: Seq<char>, t: Term, p0: int)
    requires
        t is App,
        printable(t),
        0 <= p0,
        ({
            let inner = disp(*t->lhs, APP_LHS) + seq![' '] + disp(*t->rhs, APP_RHS);
            &&& p0 + inner.len() <= s.len() <= usize::MAX
            &&& s.subrange(p0, p0 + inner.len()) == inner
            &&& follows(s, p0 + inner.len())
        }),
    ensures
        ({
            let dl = disp(*t->lhs, APP_LHS);
            let inner = dl + seq![' '] + disp(*t->rhs, APP_RHS);
            tokens_from(s, p0) == prepend(
                toks(*t->lhs, APP_LHS, p0) + toks(*t->rhs, APP_RHS, p0 + dl.len() + 1),
                tokens_from(s, p0 + inner.len()),
            )
        }),
    decreases t, 0int,
{
    let lhs = *t->lhs;
    let rhs = *t->rhs;
    let dl = disp(lhs, APP_LHS);
    let dr = disp(rhs, APP_RHS);
    let inner = dl + seq![' '] + dr;
    let q = p0 + dl.len() + 1;
    lemma_sub(s, p0, inner, 0, dl.len() as int);
    assert(inner.subrange(0, dl.len() as int) =~= dl);
    lemma_sub(s, p0, inner, dl.len() + 1int, inner.len() as int);
    assert(inner.subrange(dl.len() + 1int, inner.len() as int) =~= dr);
    assert(s[p0 + dl.len()] == inner[dl.len() as int]);
    lemma_lex_disp(s, lhs, APP_LHS, p0);
    lemma_lex_space(s, p0 + dl.len());
    lemma_lex_disp(s, rhs, APP_RHS, q);
    lemma_compose(s, p0, p0 + dl.len(), q, toks(lhs, APP_LHS, p0), Seq::empty());
    lemma_compose(
        s,
        p0,
        q,
        q + dr.len(),
        toks(lhs, APP_LHS, p0) + Seq::empty(),
        toks(rhs, APP_RHS, q),
    );
    assert(toks(lhs, APP_LHS, p0) + Seq::<FatToken>::empty() =~= toks(lhs, APP_LHS, p0));
}

#[verifier::spinoff_prover]
#[verifier::rlimit(40)]
proof fn lemma_lex_fun_inner(s: Seq<char>, t: Term, lam: bool, p0: int)
    requires
        t is Fun,
        printable(t),
        0 <= p0,
        ({
            let inner = fun_text(t->Fun_name, disp(*t->body, FUN), lam, !(*t->body is Fun));
            &&& p0 + inner.len() <= s.len() <= usize::MAX
            &&& s.subrange(p0, p0 + inner.len()) == inner
            &&& follows(s, p0 + inner.len())
        }),
    ensures
        ({
            let name = t->Fun_name;
            let body = *t->body;
            let dot = !(body is Fun);
            tokens_from(s, p0) == prepend(
                fun_toks(name, toks(body, FUN, p0 + fun_body_offset(name, lam, dot)), lam, dot, p0),
                tokens_from(s, p0 + fun_text(name, disp(body, FUN), lam, dot).len()),
            )
        }),
    decreases t, 0int,
{
    let name = t->Fun_name;
    let body = *t->body;
    let dot = !(body is Fun);
    let db = disp(body, FUN);
    let inner = fun_text(name, db, lam, dot);
    let p1 = if lam {
        p0 + 1
    } else {
        p0
    };
    let p2 = p1 + name.len();
    let p3 = if dot {
        p2 + 1
    } else {
        p2
    };
    let p4 = p3 + 1;
    assert(p4 == p0 + fun_body_offset(name, lam, dot));
    let mut acc: Seq<FatToken> = Seq::empty();
    lemma_prepend_empty(s, p0);
    if lam {
        assert(s.subrange(p0, p0 + inner.len())[0] == s[p0]);
        lemma_lex_char(s, p0, Token::Lambda);
        lemma_compose(s, p0, p0, p1, acc, seq![fat(p0 + 1, Token::Lambda)]);
        acc = acc + seq![fat(p0 + 1, Token::Lambda)];
    }
    let k1 = p1 - p0;
    lemma_sub(s, p0, inner, k1, k1 + name.len() as int);
    assert(inner.subrange(k1, k1 + name.len() as int) =~= name);
    assert(s.subrange(p0, p0 + inner.len())[p2 - p0] == s[p2]);
    lemma_lex_name(s, p1, name);
    let it = seq![fat(p2, Token::Ident { start: p1 as usize, end: p2 as usize })];
    lemma_compose(s, p0, p1, p2, acc, it);
    acc = acc + it;
    if dot {
        lemma_lex_char(s, p2, Token::Dot);
        lemma_compose(s, p0, p2, p3, acc, seq![fat(p2 + 1, Token::Dot)]);
        acc = acc + seq![fat(p2 + 1, Token::Dot)];
    }
    assert(s.subrange(p0, p0 + inner.len())[p3 - p0] == s[p3]);
    lemma_lex_space(s, p3);
    lemma_compose(s, p0, p3, p4, acc, Seq::empty());
    acc = acc + Seq::empty();
    lemma_sub(s, p0, inner, p4 - p0, inner.len() as int);
    assert(inner.subrange(p4 - p0, inner.len() as int) =~= db);
    lemma_lex_disp(s, body, FUN, p4);
    lemma_compose(s, p0, p4, p4 + db.len(), acc, toks(body, FUN, p4));
    acc = acc + toks(body, FUN, p4);
    assert(acc =~= fun_toks(name, toks(body, FUN, p4), lam, dot, p0));
}

/// The tokens `xs` stand in `ts` from index `i` on.
pub open spec fn at(ts: Seq<FatToken>, i: int, xs: Seq<FatToken>) -> bool {
    0 <= i && i + xs.len() <= ts.len() && ts.subrange(i, i + xs.len()) == xs
}

proof fn lemma_at_split(ts: Seq<FatToken>, i: int, a: Seq<FatToken>, b: Seq<FatToken>)
    requires
        at(ts, i, a + b),
    ensures
        at(ts, i, a),
        at(ts, i + a.len(), b),
{
    let w = ts.subrange(i, i + a.len() + b.len());
    assert(w == a + b);
    assert(ts.subrange(i, i + a.len()) =~= a) by {
        assert forall|k: int| 0 <= k < a.len() implies ts.subrange(i, i + a.len())[k] == a[k] by {
            assert(w[k] == (a + b)[k]);
        }
    }
    assert(ts.subrange(i + a.len(), i + a.len() + b.len()) =~= b) by {
        assert forall|k: int| 0 <= k < b.len() implies ts.subrange(
            i + a.len(),
            i + a.len() + b.len(),
        )[k] == b[k] by {
            assert(w[a.len() + k] == (a + b)[a.len() + k]);
        }
    }
}

proof fn lemma_at_index(ts: Seq<FatToken>, i: int, xs: Seq<FatToken>, k: int)
    requires
        at(ts, i, xs),
        0 <= k < xs.len(),
    ensures
        ts[i + k] == xs[k],
{
    assert(ts.subrange(i, i + xs.len())[k] == ts[i + k]);
}

/// The token at `j` ends an expression: `)` or `End`.
pub open spec fn stops(ts: Seq<FatToken>, j: int) -> bool {
    0 <= j < ts.len() && (ts[j].1 is CParen || ts[j].1 is End)
}

/// A term other than a lambda prints the same way as the whole term, as
/// the function of an application and as the body of a lambda.
proof fn lemma_not_fun_positions(t: Term, f: u8, p: int)
    requires
        !(t is Fun),
        f == TOP || f == FUN || f == APP_LHS,
    ensures
        disp(t, f) == disp(t, TOP),
        toks(t, f, p) == toks(t, TOP, p),
{
}

/// Printed as an argument or a function part, a term does not start with `𝞴`.
proof fn lemma_first_token(t: Term, f: u8, p: int)
    requires
        valid_flag(f),
    ensures
        toks(t, f, p).len() >= 1,
        toks(t, f, p)[0].1 is Lambda ==> t is Fun && f == TOP,
        t is Fun && f == FUN ==> toks(t, f, p)[0].1 is Ident,
        !(t is Fun) || f == APP_LHS || f == APP_RHS ==> (toks(t, f, p)[0].1 is Ident || toks(
            t,
            f,
            p,
        )[0].1 is OParen),
    decreases t,
{
    match t {
        Term::Var { .. } => {},
        Term::Fun { .. } => {},
        Term::App { lhs, rhs } => {
            lemma_first_token(*lhs, APP_LHS, if f == APP_RHS {
                p + 1
            } else {
                p
            });
        },
    }
}

proof fn lemma_app_parts(s: Seq<char>, t: Term, f: u8, p: int)
    requires
        t is App,
        lex_ok(s, t, f, p),
    ensures
        ({
            let p0 = if f == APP_RHS {
                p + 1
            } else {
                p
            };
            let dl = disp(*t->lhs, APP_LHS);
            &&& lex_ok(s, *t->lhs, APP_LHS, p0)
            &&& lex_ok(s, *t->rhs, APP_RHS, p0 + dl.len() + 1)
            &&& (f == APP_RHS ==> lex_ok(s, t, TOP, p + 1))
        }),
{
    let lhs = *t->lhs;
    let rhs = *t->rhs;
    let dl = disp(lhs, APP_LHS);
    let dr = disp(rhs, APP_RHS);
    let inner = dl + seq![' '] + dr;
    let p0 = if f == APP_RHS {
        p + 1
    } else {
        p
    };
    if f == APP_RHS {
        lemma_paren_parts(s, p, inner);
    }
    assert(s.subrange(p0, p0 + inner.len()) == inner);
    lemma_sub(s, p0, inner, 0, dl.len() as int);
    assert(inner.subrange(0, dl.len() as int) =~= dl);
    lemma_sub(s, p0, inner, dl.len() + 1int, inner.len() as int);
    assert(inner.subrange(dl.len() + 1int, inner.len() as int) =~= dr);
    assert(s.subrange(p0, p0 + inner.len())[dl.len() as int] == s[p0 + dl.len()]);
}

proof fn lemma_fun_parts(s: Seq<char>, t: Term, f: u8, p: int)
    requires
        t is Fun,
        lex_ok(s, t, f, p),
    ensures
        ({
            let name = t->Fun_name;
            let body = *t->body;
            let lam = f != FUN;
            let dot = !(body is Fun);
            let p0 = if f == APP_LHS || f == APP_RHS {
                p + 1
            } else {
                p
            };
            let p1 = if lam {
                p0 + 1
            } else {
                p0
            };
            &&& s.subrange(p1, p1 + name.len()) == name
            &&& lex_ok(s, body, FUN, p0 + fun_body_offset(name, lam, dot))
            &&& (f == APP_LHS || f == APP_RHS ==> lex_ok(s, t, TOP, p + 1))
        }),
{
    let name = t->Fun_name;
    let body = *t->body;
    let lam = f != FUN;
    let dot = !(body is Fun);
    let db = disp(body, FUN);
    let inner = fun_text(name, db, lam, dot);
    let p0 = if f == APP_LHS || f == APP_RHS {
        p + 1
    } else {
        p
    };
    if f == APP_LHS || f == APP_RHS {
        lemma_paren_parts(s, p, inner);
    }
    assert(s.subrange(p0, p0 + inner.len()) == inner);
    let k1 = if lam {
        1int
    } else {
        0int
    };
    lemma_sub(s, p0, inner, k1, k1 + name.len() as int);
    assert(inner.subrange(k1, k1 + name.len() as int) =~= name);
    let off = fun_body_offset(name, lam, dot);
    lemma_sub(s, p0, inner, off, inner.len() as int);
    assert(inner.subrange(off, inner.len() as int) =~= db);
}

/// A printed term in the whole-term position parses back, up to identities.
proof fn lemma_parse_expr(
    s: Seq<char>,
    ts: Seq<FatToken>,
    i: int,
    base: u64,
    t: Term,
    p: int,
) -> (t2: Term)
    requires
        lex_ok(s, t, TOP, p),
        at(ts, i, toks(t, TOP, p)),
        stops(ts, i + toks(t, TOP, p).len()),
    ensures
        expr_at(s, ts, i, base) == Ok::<(int, Term), ParseError>((i + toks(t, TOP, p).len(), t2)),
        shape(t2) == shape(t),
    decreases t, 3int,
{
    let k = toks(t, TOP, p).len();
    lemma_first_token(t, TOP, p);
    lemma_at_index(ts, i, toks(t, TOP, p), 0);
    if t is Fun {
        let name = t->Fun_name;
        let body = *t->body;
        let dot = !(body is Fun);
        let rest = toks(t, FUN, p + 1);
        assert(toks(t, TOP, p) =~= seq![fat(p + 1, Token::Lambda)] + rest);
        lemma_at_split(ts, i, seq![fat(p + 1, Token::Lambda)], rest);
        assert(disp(t, TOP) =~= seq!['𝞴'] + disp(t, FUN));
        lemma_sub(s, p, disp(t, TOP), 1, disp(t, TOP).len() as int);
        assert(disp(t, TOP).subrange(1, disp(t, TOP).len() as int) =~= disp(t, FUN));
        assert(lex_ok(s, t, FUN, p + 1));
        let t2 = lemma_parse_after(s, ts, i + 1, base, t, p + 1);
        assert(fun_at(s, ts, i, base) == Ok::<(int, Term), ParseError>((i + k, t2)));
        t2
    } else {
        let t2 = lemma_parse_app(s, ts, i, base, t, p);
        lemma_at_index(ts, i, toks(t, TOP, p), 0);
        assert(!(ts[i].1 is Lambda));
        assert(fun_at(s, ts, i, base) is Err);
        assert(atom_at(s, ts, i + k, base) is Err);
        assert(app_tail_at(s, ts, i + k, t2, base) == (i + k, t2));
        t2
    }
}

/// A printed lambda in the body position (no `𝞴`) parses back after a `𝞴`.
proof fn lemma_parse_after(
    s: Seq<char>,
    ts: Seq<FatToken>,
    i: int,
    base: u64,
    t: Term,
    p: int,
) -> (t2: Term)
    requires
        t is Fun,
        lex_ok(s, t, FUN, p),
        at(ts, i, toks(t, FUN, p)),
        stops(ts, i + toks(t, FUN, p).len()),
    ensures
        after_lambda_at(s, ts, i, base) == Ok::<(int, Term), ParseError>(
            (i + toks(t, FUN, p).len(), t2),
        ),
        shape(t2) == shape(t),
    decreases t, 2int,
{
    let name = t->Fun_name;
    let body = *t->body;
    let dot = !(body is Fun);
    let k = toks(t, FUN, p).len();
    let off = fun_body_offset(name, false, dot);
    let bt = toks(body, FUN, p + off);
    lemma_fun_parts(s, t, FUN, p);
    let it = seq![
        fat(p + name.len(), Token::Ident { start: p as usize, end: (p + name.len()) as usize }),
    ];
    let dt: Seq<FatToken> = if dot {
        seq![fat(p + name.len() + 1, Token::Dot)]
    } else {
        Seq::empty()
    };
    assert(toks(t, FUN, p) =~= it + (dt + bt));
    lemma_at_split(ts, i, it, dt + bt);
    lemma_at_split(ts, i + 1, dt, bt);
    lemma_at_index(ts, i, it, 0);
    assert(ident_at(s, ts, i) == Ok::<(int, Seq<char>), ParseError>((i + 1, name)));
    let id = id_at(base, i);
    if dot {
        lemma_at_index(ts, i + 1, dt, 0);
        lemma_not_fun_positions(body, FUN, p + off);
        let b2 = lemma_parse_expr(s, ts, i + 2, base, body, p + off);
        lemma_capture_keeps_shape(name, id, b2);
        let t2 = mk_fun(name, id, capture_term(name, id, b2));
        assert(shape(t2) == mk_fun(name, 0, shape(b2)));
        t2
    } else {
        lemma_first_token(body, FUN, p + off);
        lemma_at_index(ts, i + 1, bt, 0);
        let b2 = lemma_parse_after(s, ts, i + 1, base, body, p + off);
        lemma_capture_keeps_shape(name, id, b2);
        let t2 = mk_fun(name, id, capture_term(name, id, b2));
        assert(shape(t2) == mk_fun(name, 0, shape(b2)));
        t2
    }
}

/// A printed application (or variable) parses as a run of atoms.
proof fn lemma_parse_app(
    s: Seq<char>,
    ts: Seq<FatToken>,
    i: int,
    base: u64,
    t: Term,
    p: int,
) -> (t2: Term)
    requires
        !(t is Fun),
        lex_ok(s, t, APP_LHS, p),
        at(ts, i, toks(t, APP_LHS, p)),
    ensures
        app_at(s, ts, i, base) == Ok::<(int, Term), ParseError>(
            app_tail_at(s, ts, i + toks(t, APP_LHS, p).len(), t2, base),
        ),
        shape(t2) == shape(t),
    decreases t, 2int,
{
    match t {
        Term::Var { name, .. } => {
            lemma_at_index(ts, i, toks(t, APP_LHS, p), 0);
            let t2 = Term::Var { name, id: id_at(base, i) };
            assert(var_at(s, ts, i, base) == Ok::<(int, Term), ParseError>((i + 1, t2)));
            t2
        },
        Term::App { lhs, rhs } => {
            let l = *lhs;
            let r = *rhs;
            lemma_app_parts(s, t, APP_LHS, p);
            let q = p + disp(l, APP_LHS).len() + 1;
            let tl = toks(l, APP_LHS, p);
            let tr = toks(r, APP_RHS, q);
            lemma_at_split(ts, i, tl, tr);
            let l2 = if l is Fun {
                let l2 = lemma_parse_atom(s, ts, i, base, l, APP_LHS, p);
                l2
            } else {
                lemma_parse_app(s, ts, i, base, l, p)
            };
            let r2 = lemma_parse_atom(s, ts, i + tl.len(), base, r, APP_RHS, q);
            let t2 = mk_app(l2, r2);
            t2
        },
        Term::Fun { .. } => {
            Term::Var { name: Seq::empty(), id: 0 }
        },
    }
}

/// A printed atom (a variable, or a term in parentheses) parses back.
proof fn lemma_parse_atom(
    s: Seq<char>,
    ts: Seq<FatToken>,
    i: int,
    base: u64,
    t: Term,
    f: u8,
    p: int,
) -> (t2: Term)
    requires
        f == APP_LHS || f == APP_RHS,
        f == APP_LHS ==> !(t is App),
        lex_ok(s, t, f, p),
        at(ts, i, toks(t, f, p)),
    ensures
        atom_at(s, ts, i, base) == Ok::<(int, Term), ParseError>((i + toks(t, f, p).len(), t2)),
        shape(t2) == shape(t),
    decreases t, 4int,
{
    lemma_at_index(ts, i, toks(t, f, p), 0);
    if t is Var {
        let name = t->Var_name;
        let t2 = Term::Var { name, id: id_at(base, i) };
        assert(var_at(s, ts, i, base) == Ok::<(int, Term), ParseError>((i + 1, t2)));
        t2
    } else {
        let inner = toks(t, TOP, p + 1);
        let len = disp(t, TOP).len() as int;
        if t is Fun {
            lemma_fun_parts(s, t, f, p);
        } else {
            lemma_app_parts(s, t, f, p);
        }
        assert(toks(t, f, p) == paren_toks(p, inner, len));
        let lparen = seq![fat(p + 1, Token::OParen)];
        let rparen = seq![fat(p + len + 2, Token::CParen)];
        assert(toks(t, f, p) =~= lparen + (inner + rparen));
        lemma_at_split(ts, i, lparen, inner + rparen);
        lemma_at_split(ts, i + 1, inner, rparen);
        lemma_at_index(ts, i + 1 + inner.len(), rparen, 0);
        let t2 = lemma_parse_expr(s, ts, i + 1, base, t, p + 1);
        assert(var_at(s, ts, i, base) is Err);
        t2
    }
}

/// Printing a term whose names are identifiers and parsing the text gives
/// back a term of the same shape, which prints as the same text; the parse
/// takes every token but `End`.
pub proof fn lemma_print_then_parse(t: Term, base: u64)
    requires
        printable(t),
        show(t, 0, TOP).len() <= usize::MAX,
    ensures
        ({
            let s = show(t, 0, TOP);
            &&& tokenized(s) is Ok
            &&& expr_at(s, tokenized(s)->Ok_0, 0, base) matches Ok((j, t2)) && j + 1
                == tokenized(s)->Ok_0.len() && shape(t2) == shape(t) && show(t2, 0, TOP) == s
        }),
{
    lemma_show_is_disp(t, TOP);
    let s = disp(t, TOP);
    assert(s.subrange(0, s.len() as int) =~= s);
    assert(lex_ok(s, t, TOP, 0));
    lemma_lex_disp(s, t, TOP, 0);
    let xs = toks(t, TOP, 0);
    let ts = xs + seq![(s.len() as usize, Token::End)];
    assert(tokens_from(s, s.len() as int) == Ok::<Seq<FatToken>, usize>(
        seq![(s.len() as usize, Token::End)],
    ));
    assert(tokenized(s) == Ok::<Seq<FatToken>, usize>(ts));
    assert(ts.subrange(0, xs.len() as int) =~= xs);
    assert(ts[xs.len() as int].1 is End);
    let t2 = lemma_parse_expr(s, ts, 0, base, t, 0);
    lemma_plain_text_ignores_identities(t, TOP);
    lemma_plain_text_ignores_identities(t2, TOP);
}

} // verus!
