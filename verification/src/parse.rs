//! The parser, by recursive descent over the tokens:
//!
//! ```text
//! root  → var '::' expr | expr
//! expr  → '\' var+ '.' expr | app
//! app   → app atom | atom
//! atom  → var | '(' expr ')'
//! ```
//!
//! Every parser takes the input's characters, the tokens, the index of the
//! first token to read and a base identity: the variable or binder made
//! from the token at index `i` gets the identity `base + i`.
use vstd::prelude::*;
use std::rc::Rc;
use crate::expr::{
    Expression, Term, app, capture_term, fun, ids_below, lemma_capture_ids_below,
    lemma_fun_keeps_well_bound, mk_app, mk_fun, var, well_bound,
};
use crate::text::string_of;
use crate::token::{FatToken, Token, TokenKind, kind_of};

verus! {

/// Why parsing failed: the kind of token that was wanted, and the token
/// found instead with the position just after it; or no token was left.
#[derive(Clone, Copy, Debug, PartialEq, Eq, Structural)]
pub enum ParseError {
    UnexpectedToken { wanted: TokenKind, found: Token, content: usize },
    OutOfTokens { wanted: TokenKind },
}

pub type Parsed = Result<(usize, Rc<Expression>), ParseError>;

pub type SpecParsed = Result<(int, Term), ParseError>;

/// A parser's result with the term taken by its model.
pub open spec fn parsed_view(r: Parsed) -> SpecParsed {
    match r {
        Ok((j, e)) => Ok((j as int, e@)),
        Err(e) => Err(e),
    }
}

/// Of two errors, the one that got further: a lack of tokens first, then
/// the later position (the first error on a tie).
pub open spec fn better_error(err1: ParseError, err2: ParseError) -> ParseError {
    match (err1, err2) {
        (ParseError::OutOfTokens { .. }, _) => err1,
        (_, ParseError::OutOfTokens { .. }) => err2,
        (
            ParseError::UnexpectedToken { content: c1, .. },
            ParseError::UnexpectedToken { content: c2, .. },
        ) => if c1 >= c2 {
            err1
        } else {
            err2
        },
    }
}

/// The identity given to what is made from the token at index `i`.
pub open spec fn id_at(base: u64, i: int) -> u64 {
    (base + i) as u64
}

/// The token at index `i` if it is of kind `wanted`, with the next index.
pub open spec fn token_at(ts: Seq<FatToken>, i: int, wanted: TokenKind) -> Result<
    (int, Token),
    ParseError,
> {
    if 0 <= i < ts.len() {
        if kind_of(ts[i].1) == wanted {
            Ok((i + 1, ts[i].1))
        } else {
            Err(ParseError::UnexpectedToken { wanted, found: ts[i].1, content: ts[i].0 })
        }
    } else {
        Err(ParseError::OutOfTokens { wanted })
    }
}

/// The name of the identifier at index `i`, with the next index.
pub open spec fn ident_at(s: Seq<char>, ts: Seq<FatToken>, i: int) -> Result<
    (int, Seq<char>),
    ParseError,
> {
    if 0 <= i < ts.len() {
        match ts[i].1 {
            Token::Ident { start, end } => Ok((i + 1, s.subrange(start as int, end as int))),
            found => Err(
                ParseError::UnexpectedToken { wanted: TokenKind::Ident, found, content: ts[i].0 },
            ),
        }
    } else {
        Err(ParseError::OutOfTokens { wanted: TokenKind::Ident })
    }
}

/// `var`: an identifier, as a variable.
pub open spec fn var_at(s: Seq<char>, ts: Seq<FatToken>, i: int, base: u64) -> SpecParsed {
    match ident_at(s, ts, i) {
        Ok((j, name)) => Ok((j, Term::Var { name, id: id_at(base, i) })),
        Err(e) => Err(e),
    }
}

/// `expr`: a lambda, or else an application; on failure the error that got further.
pub open spec fn expr_at(s: Seq<char>, ts: Seq<FatToken>, i: int, base: u64) -> SpecParsed
    decreases ts.len() - i, 5int,
{
    match fun_at(s, ts, i, base) {
        Ok(r) => Ok(r),
        Err(err1) => match app_at(s, ts, i, base) {
            Ok(r) => Ok(r),
            Err(err2) => Err(better_error(err1, err2)),
        },
    }
}

/// `'\\' var+ '.' expr`.
pub open spec fn fun_at(s: Seq<char>, ts: Seq<FatToken>, i: int, base: u64) -> SpecParsed
    decreases ts.len() - i, 4int,
{
    match token_at(ts, i, TokenKind::Lambda) {
        Ok((j, _)) => after_lambda_at(s, ts, j, base),
        Err(e) => Err(e),
    }
}

/// `var+ '.' expr`: each name binds all that follows it.
pub open spec fn after_lambda_at(s: Seq<char>, ts: Seq<FatToken>, i: int, base: u64) -> SpecParsed
    decreases ts.len() - i, 3int,
{
    match ident_at(s, ts, i) {
        Err(e) => Err(e),
        Ok((j, name)) => {
            let body = match token_at(ts, j, TokenKind::Dot) {
                Ok((k, _)) => expr_at(s, ts, k, base),
                Err(_) => after_lambda_at(s, ts, j, base),
            };
            match body {
                Err(e) => Err(e),
                Ok((m, b)) => Ok(
                    (m, mk_fun(name, id_at(base, i), capture_term(name, id_at(base, i), b))),
                ),
            }
        },
    }
}

/// `atom`: a variable, or an expression in parentheses.
pub open spec fn atom_at(s: Seq<char>, ts: Seq<FatToken>, i: int, base: u64) -> SpecParsed
    decreases ts.len() - i, 2int,
{
    match var_at(s, ts, i, base) {
        Ok(r) => Ok(r),
        Err(err1) => match token_at(ts, i, TokenKind::OParen) {
            Err(e) => Err(e),
            Ok((j, _)) => match expr_at(s, ts, j, base) {
                Err(err2) => Err(better_error(err1, err2)),
                Ok((k, t)) => match token_at(ts, k, TokenKind::CParen) {
                    Err(e) => Err(e),
                    Ok((m, _)) => Ok((m, t)),
                },
            },
        },
    }
}

/// `app`: one or more atoms, applied left to right.
pub open spec fn app_at(s: Seq<char>, ts: Seq<FatToken>, i: int, base: u64) -> SpecParsed
    decreases ts.len() - i, 4int,
{
    match atom_at(s, ts, i, base) {
        Err(e) => Err(e),
        Ok((j, lhs)) => if i < j <= ts.len() {
            Ok(app_tail_at(s, ts, j, lhs, base))
        } else {
            Ok((j, lhs))
        },
    }
}

/// Applies `lhs` to each atom that follows, left to right.
pub open spec fn app_tail_at(s: Seq<char>, ts: Seq<FatToken>, i: int, lhs: Term, base: u64) -> (
    int,
    Term,
)
    decreases ts.len() - i, 3int,
{
    match atom_at(s, ts, i, base) {
        Ok((j, rhs)) => if i < j <= ts.len() {
            app_tail_at(s, ts, j, mk_app(lhs, rhs), base)
        } else {
            (i, lhs)
        },
        Err(_) => (i, lhs),
    }
}

/// `var '::' expr`, as a lambda binding the name over the expression.
pub open spec fn assign_at(s: Seq<char>, ts: Seq<FatToken>, i: int, base: u64) -> SpecParsed {
    match ident_at(s, ts, i) {
        Err(e) => Err(e),
        Ok((j, name)) => match token_at(ts, j, TokenKind::Assign) {
            Err(e) => Err(e),
            Ok((k, _)) => match expr_at(s, ts, k, base) {
                Err(e) => Err(e),
                Ok((m, t)) => Ok(
                    (m, mk_fun(name, id_at(base, i), capture_term(name, id_at(base, i), t))),
                ),
            },
        },
    }
}

/// The identifier tokens name ranges of the input.
pub open spec fn idents_in(s: Seq<char>, ts: Seq<FatToken>) -> bool {
    forall|k: int|
        0 <= k < ts.len() ==> (#[trigger] ts[k].1 matches Token::Ident { start, end } ==> start
            <= end <= s.len())
}

/// An error names a token of the input, or no token.
pub open spec fn error_from(ts: Seq<FatToken>, e: ParseError) -> bool {
    e matches ParseError::UnexpectedToken { found, content, .. } ==> exists|k: int|
        0 <= k < ts.len() && #[trigger] ts[k] == (content, found)
}

/// What every parser promises beyond its result: progress, identities
/// below those of later tokens, and errors that name tokens of the input.
pub open spec fn parsed_well(ts: Seq<FatToken>, i: int, base: u64, r: Parsed) -> bool {
    &&& (r matches Ok((j, e)) ==> i < j <= ts.len() && ids_below(e@, base + ts.len()))
    &&& (r matches Err(e) ==> error_from(ts, e))
}

/// The error that got further, as `better_error` says.
pub fn best_error(err1: ParseError, err2: ParseError) -> (e: ParseError)
    ensures
        e == better_error(err1, err2),
{
    match (&err1, &err2) {
        (ParseError::OutOfTokens { .. }, _) => err1,
        (_, ParseError::OutOfTokens { .. }) => err2,
        (
            ParseError::UnexpectedToken { content: c1, .. },
            ParseError::UnexpectedToken { content: c2, .. },
        ) => if *c1 >= *c2 {
            err1
        } else {
            err2
        },
    }
}

/// Reads a token of kind `wanted`.
pub fn parse_token(ts: &Vec<FatToken>, i: usize, wanted: TokenKind) -> (r: Result<
    (usize, Token),
    ParseError,
>)
    ensures
        match r {
            Ok((j, t)) => token_at(ts@, i as int, wanted) == Ok::<(int, Token), ParseError>(
                (j as int, t),
            ),
            Err(e) => token_at(ts@, i as int, wanted) == Err::<(int, Token), ParseError>(e),
        },
        r matches Err(e) ==> error_from(ts@, e),
{
    if i < ts.len() {
        let (content, found) = ts[i];
        if found.kind() == wanted {
            Ok((i + 1, found))
        } else {
            Err(ParseError::UnexpectedToken { wanted, found, content })
        }
    } else {
        Err(ParseError::OutOfTokens { wanted })
    }
}

/// Reads an identifier and gives its name.
pub fn parse_ident(chars: &[char], ts: &Vec<FatToken>, i: usize) -> (r: Result<
    (usize, String),
    ParseError,
>)
    requires
        idents_in(chars@, ts@),
    ensures
        match r {
            Ok((j, name)) => ident_at(chars@, ts@, i as int) == Ok::<(int, Seq<char>), ParseError>(
                (j as int, name@),
            ),
            Err(e) => ident_at(chars@, ts@, i as int) == Err::<(int, Seq<char>), ParseError>(e),
        },
        r matches Err(e) ==> error_from(ts@, e),
{
    if i < ts.len() {
        let (content, found) = ts[i];
        match found {
            Token::Ident { start, end } => Ok((i + 1, string_of(chars, start, end))),
            _ => Err(ParseError::UnexpectedToken { wanted: TokenKind::Ident, found, content }),
        }
    } else {
        Err(ParseError::OutOfTokens { wanted: TokenKind::Ident })
    }
}

/// Parses `var`.
pub fn parse_var(chars: &[char], ts: &Vec<FatToken>, i: usize, base: u64) -> (r: Parsed)
    requires
        i <= ts.len(),
        base + ts.len() <= u64::MAX,
        idents_in(chars@, ts@),
    ensures
        parsed_view(r) == var_at(chars@, ts@, i as int, base),
        parsed_well(ts@, i as int, base, r),
{
    match parse_ident(chars, ts, i) {
        Ok((j, name)) => Ok((j, var(name.as_str(), base + i as u64))),
        Err(e) => Err(e),
    }
}

/// Parses `var+ '.' expr`.
pub fn parse_fun_after_lambda(chars: &[char], ts: &Vec<FatToken>, i: usize, base: u64) -> (r:
    Parsed)
    requires
        i <= ts.len(),
        base + ts.len() <= u64::MAX,
        idents_in(chars@, ts@),
    ensures
        parsed_view(r) == after_lambda_at(chars@, ts@, i as int, base),
        parsed_well(ts@, i as int, base, r),
    decreases ts.len() - i, 3int,
{
    let (j, arg) = match parse_ident(chars, ts, i) {
        Ok(x) => x,
        Err(e) => {
            return Err(e);
        },
    };
    let body = match parse_token(ts, j, TokenKind::Dot) {
        Ok((k, _)) => parse_expr(chars, ts, k, base),
        Err(_) => parse_fun_after_lambda(chars, ts, j, base),
    };
    match body {
        Ok((m, b)) => {
            let id = base + i as u64;
            proof {
                lemma_capture_ids_below(arg@, id, b@, base + ts.len());
            }
            Ok((m, fun(arg.as_str(), id, &b)))
        },
        Err(e) => Err(e),
    }
}

/// Parses a lambda.
pub fn parse_fun(chars: &[char], ts: &Vec<FatToken>, i: usize, base: u64) -> (r: Parsed)
    requires
        i <= ts.len(),
        base + ts.len() <= u64::MAX,
        idents_in(chars@, ts@),
    ensures
        parsed_view(r) == fun_at(chars@, ts@, i as int, base),
        parsed_well(ts@, i as int, base, r),
    decreases ts.len() - i, 4int,
{
    match parse_token(ts, i, TokenKind::Lambda) {
        Ok((j, _)) => parse_fun_after_lambda(chars, ts, j, base),
        Err(e) => Err(e),
    }
}

/// Parses `atom`.
pub fn parse_atom(chars: &[char], ts: &Vec<FatToken>, i: usize, base: u64) -> (r: Parsed)
    requires
        i <= ts.len(),
        base + ts.len() <= u64::MAX,
        idents_in(chars@, ts@),
    ensures
        parsed_view(r) == atom_at(chars@, ts@, i as int, base),
        parsed_well(ts@, i as int, base, r),
    decreases ts.len() - i, 2int,
{
    match parse_var(chars, ts, i, base) {
        Ok(r) => Ok(r),
        Err(err1) => {
            let (j, _) = match parse_token(ts, i, TokenKind::OParen) {
                Ok(x) => x,
                Err(e) => {
                    return Err(e);
                },
            };
            let (k, expr) = match parse_expr(chars, ts, j, base) {
                Ok(x) => x,
                Err(err2) => {
                    return Err(best_error(err1, err2));
                },
            };
            let (m, _) = match parse_token(ts, k, TokenKind::CParen) {
                Ok(x) => x,
                Err(e) => {
                    return Err(e);
                },
            };
            Ok((m, expr))
        },
    }
}

/// Parses `app`.
pub fn parse_app(chars: &[char], ts: &Vec<FatToken>, i: usize, base: u64) -> (r: Parsed)
    requires
        i <= ts.len(),
        base + ts.len() <= u64::MAX,
        idents_in(chars@, ts@),
    ensures
        parsed_view(r) == app_at(chars@, ts@, i as int, base),
        parsed_well(ts@, i as int, base, r),
    decreases ts.len() - i, 4int,
{
    let (mut j, mut lhs) = match parse_atom(chars, ts, i, base) {
        Ok(x) => x,
        Err(e) => {
            return Err(e);
        },
    };
    let ghost j0 = j as int;
    let ghost lhs0 = lhs@;
    loop
        invariant
            i < j <= ts.len(),
            base + ts.len() <= u64::MAX,
            idents_in(chars@, ts@),
            ids_below(lhs@, base + ts.len()),
            app_tail_at(chars@, ts@, j0, lhs0, base) == app_tail_at(chars@, ts@, j as int, lhs@, base),
        ensures
            i < j <= ts.len(),
            ids_below(lhs@, base + ts.len()),
            app_tail_at(chars@, ts@, j0, lhs0, base) == (j as int, lhs@),
        decreases ts.len() - j,
    {
        match parse_atom(chars, ts, j, base) {
            Ok((k, rhs)) => {
                j = k;
                lhs = app(&lhs, &rhs);
            },
            Err(_) => {
                break ;
            },
        }
    }
    Ok((j, lhs))
}

/// Parses `expr`.
pub fn parse_expr(chars: &[char], ts: &Vec<FatToken>, i: usize, base: u64) -> (r: Parsed)
    requires
        i <= ts.len(),
        base + ts.len() <= u64::MAX,
        idents_in(chars@, ts@),
    ensures
        parsed_view(r) == expr_at(chars@, ts@, i as int, base),
        parsed_well(ts@, i as int, base, r),
    decreases ts.len() - i, 5int,
{
    match parse_fun(chars, ts, i, base) {
        Ok(r) => Ok(r),
        Err(err1) => match parse_app(chars, ts, i, base) {
            Ok(r) => Ok(r),
            Err(err2) => Err(best_error(err1, err2)),
        },
    }
}

/// Parses a definition `var '::' expr`.
pub fn parse_assign(chars: &[char], ts: &Vec<FatToken>, i: usize, base: u64) -> (r: Parsed)
    requires
        i <= ts.len(),
        base + ts.len() <= u64::MAX,
        idents_in(chars@, ts@),
    ensures
        parsed_view(r) == assign_at(chars@, ts@, i as int, base),
        parsed_well(ts@, i as int, base, r),
        r matches Ok((_, e)) ==> e@ is Fun,
{
    let (j, bind) = match parse_ident(chars, ts, i) {
        Ok(x) => x,
        Err(e) => {
            return Err(e);
        },
    };
    let (k, _) = match parse_token(ts, j, TokenKind::Assign) {
        Ok(x) => x,
        Err(e) => {
            return Err(e);
        },
    };
    let (m, expr) = match parse_expr(chars, ts, k, base) {
        Ok(x) => x,
        Err(e) => {
            return Err(e);
        },
    };
    let id = base + i as u64;
    proof {
        lemma_capture_ids_below(bind@, id, expr@, base + ts.len());
    }
    Ok((m, fun(bind.as_str(), id, &expr)))
}

/// Every expression parsed is well bound: each variable under a lambda of
/// its spelling, written anywhere in that lambda's body, is linked to the
/// nearest such lambda.
pub proof fn lemma_expr_well_bound(s: Seq<char>, ts: Seq<FatToken>, i: int, base: u64)
    ensures
        expr_at(s, ts, i, base) matches Ok((_, t)) ==> well_bound(t),
    decreases ts.len() - i, 5int,
{
    lemma_fun_well_bound(s, ts, i, base);
    lemma_app_well_bound(s, ts, i, base);
}

/// Every lambda parsed is well bound.
pub proof fn lemma_fun_well_bound(s: Seq<char>, ts: Seq<FatToken>, i: int, base: u64)
    ensures
        fun_at(s, ts, i, base) matches Ok((_, t)) ==> well_bound(t),
    decreases ts.len() - i, 4int,
{
    if let Ok((j, _)) = token_at(ts, i, TokenKind::Lambda) {
        lemma_after_lambda_well_bound(s, ts, j, base);
    }
}

/// What follows a `\` parses to a well-bound lambda.
pub proof fn lemma_after_lambda_well_bound(s: Seq<char>, ts: Seq<FatToken>, i: int, base: u64)
    ensures
        after_lambda_at(s, ts, i, base) matches Ok((_, t)) ==> well_bound(t),
    decreases ts.len() - i, 3int,
{
    if let Ok((j, name)) = ident_at(s, ts, i) {
        match token_at(ts, j, TokenKind::Dot) {
            Ok((k, _)) => {
                lemma_expr_well_bound(s, ts, k, base);
                if let Ok((_, b)) = expr_at(s, ts, k, base) {
                    lemma_fun_keeps_well_bound(name, id_at(base, i), b);
                }
            },
            Err(_) => {
                lemma_after_lambda_well_bound(s, ts, j, base);
                if let Ok((_, b)) = after_lambda_at(s, ts, j, base) {
                    lemma_fun_keeps_well_bound(name, id_at(base, i), b);
                }
            },
        }
    }
}

/// Every atom parsed is well bound.
pub proof fn lemma_atom_well_bound(s: Seq<char>, ts: Seq<FatToken>, i: int, base: u64)
    ensures
        atom_at(s, ts, i, base) matches Ok((_, t)) ==> well_bound(t),
    decreases ts.len() - i, 2int,
{
    if var_at(s, ts, i, base) is Err {
        if let Ok((j, _)) = token_at(ts, i, TokenKind::OParen) {
            lemma_expr_well_bound(s, ts, j, base);
        }
    }
}

/// Every application parsed is well bound.
pub proof fn lemma_app_well_bound(s: Seq<char>, ts: Seq<FatToken>, i: int, base: u64)
    ensures
        app_at(s, ts, i, base) matches Ok((_, t)) ==> well_bound(t),
    decreases ts.len() - i, 4int,
{
    lemma_atom_well_bound(s, ts, i, base);
    if let Ok((j, lhs)) = atom_at(s, ts, i, base) {
        if i < j <= ts.len() {
            lemma_app_tail_well_bound(s, ts, j, lhs, base);
        }
    }
}

/// Applying a well-bound term to the atoms that follow gives a well-bound term.
pub proof fn lemma_app_tail_well_bound(
    s: Seq<char>,
    ts: Seq<FatToken>,
    i: int,
    lhs: Term,
    base: u64,
)
    requires
        well_bound(lhs),
    ensures
        well_bound(app_tail_at(s, ts, i, lhs, base).1),
    decreases ts.len() - i, 3int,
{
    lemma_atom_well_bound(s, ts, i, base);
    if let Ok((j, rhs)) = atom_at(s, ts, i, base) {
        if i < j <= ts.len() {
            lemma_app_tail_well_bound(s, ts, j, mk_app(lhs, rhs), base);
        }
    }
}

/// Every definition parsed is a well-bound lambda.
pub proof fn lemma_assign_well_bound(s: Seq<char>, ts: Seq<FatToken>, i: int, base: u64)
    ensures
        assign_at(s, ts, i, base) matches Ok((_, t)) ==> well_bound(t),
{
    if let Ok((j, name)) = ident_at(s, ts, i) {
        if let Ok((k, _)) = token_at(ts, j, TokenKind::Assign) {
            lemma_expr_well_bound(s, ts, k, base);
            if let Ok((_, t)) = expr_at(s, ts, k, base) {
                lemma_fun_keeps_well_bound(name, id_at(base, i), t);
            }
        }
    }
}

} // verus!
