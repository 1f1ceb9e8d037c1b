//! One line of interpreter input: a definition `name :: expr`, which is
//! stored and handed back to be printed; or an expression, optionally
//! followed by `?`, which is handed back with the definitions substituted,
//! to be printed and reduced. Errors come back as the text that the
//! interpreter prints.
use vstd::prelude::*;
use std::rc::Rc;
use crate::expr::{
    Expression, Name, Term, apply_binding, bind_term, ids_below, lemma_bind_ids_below,
    lemma_ids_below_mono,
};
use crate::parse::{
    ParseError, assign_at, better_error, best_error, expr_at, ident_at, idents_in, parse_assign,
    parse_expr, parse_token, token_at,
};
use crate::text::{chars_of, debug_quoted, digits, push_char, push_digits, push_str, str_debug, string_of};
use crate::token::{
    FatToken, Token, TokenKind, lemma_tokens_well_formed, tokenize, tokenized,
};

verus! {

/// A stored definition: its name, the identity of its binder, its value.
pub type Binding = (Seq<char>, u64, Term);

/// A stored definition by its model.
pub open spec fn binding_view(b: (Rc<Name>, Rc<Expression>)) -> Binding {
    (b.0.text@, b.0.id, b.1@)
}

/// The stored definitions by their model, in order.
pub open spec fn bindings_view(v: Seq<(Rc<Name>, Rc<Expression>)>) -> Seq<Binding> {
    v.map_values(|b: (Rc<Name>, Rc<Expression>)| binding_view(b))
}

/// The definitions substituted into `t`, in the order in which they are stored.
pub open spec fn apply_bindings(bs: Seq<Binding>, t: Term) -> Term
    decreases bs.len(),
{
    if bs.len() == 0 {
        t
    } else {
        let b = bs.last();
        bind_term(b.0, apply_bindings(bs.drop_last(), t), b.2)
    }
}

/// Whether a definition of `name` is stored.
pub open spec fn has_name(bs: Seq<Binding>, name: Seq<char>) -> bool {
    exists|k: int| 0 <= k < bs.len() && #[trigger] bs[k].0 == name
}

/// No name is stored twice.
pub open spec fn distinct_names(bs: Seq<Binding>) -> bool {
    forall|a: int, b: int| 0 <= a < b < bs.len() ==> #[trigger] bs[a].0 != #[trigger] bs[b].0
}

/// Storing a definition: a name already stored keeps its place and its
/// binder and takes the new value; a new name is added at the end.
pub open spec fn insert_binding(bs: Seq<Binding>, name: Seq<char>, id: u64, val: Term) -> Seq<
    Binding,
> {
    if has_name(bs, name) {
        let k = choose|k: int| 0 <= k < bs.len() && #[trigger] bs[k].0 == name;
        bs.update(k, (bs[k].0, bs[k].1, val))
    } else {
        bs.push((name, id, val))
    }
}

/// The value stored under `name`.
pub open spec fn lookup(bs: Seq<Binding>, name: Seq<char>) -> Option<Term> {
    if has_name(bs, name) {
        let k = choose|k: int| 0 <= k < bs.len() && #[trigger] bs[k].0 == name;
        Some(bs[k].2)
    } else {
        None
    }
}

/// Every identity stored, in a binder or in a value, lies below `n`.
pub open spec fn bindings_below(bs: Seq<Binding>, n: int) -> bool {
    forall|k: int| 0 <= k < bs.len() ==> #[trigger] bs[k].1 < n && ids_below(bs[k].2, n)
}

/// A bound on stored identities holds of every larger bound.
pub proof fn lemma_bindings_below_mono(bs: Seq<Binding>, n: int, m: int)
    requires
        bindings_below(bs, n),
        n <= m,
    ensures
        bindings_below(bs, m),
{
    assert forall|k: int| 0 <= k < bs.len() implies #[trigger] bs[k].1 < m && ids_below(bs[k].2, m) by {
        assert(bs[k].1 < n);
        lemma_ids_below_mono(bs[k].2, n, m);
    }
}

/// Storing a definition and then looking its name up gives back the value
/// stored; every other name keeps its value; names stay distinct.
pub proof fn lemma_insert_then_lookup(bs: Seq<Binding>, name: Seq<char>, id: u64, val: Term)
    requires
        distinct_names(bs),
    ensures
        distinct_names(insert_binding(bs, name, id, val)),
        lookup(insert_binding(bs, name, id, val), name) == Some(val),
        forall|other: Seq<char>|
            other != name ==> lookup(#[trigger] insert_binding(bs, name, id, val), other) == lookup(
                bs,
                other,
            ),
{
    let nbs = insert_binding(bs, name, id, val);
    if has_name(bs, name) {
        let k = choose|k: int| 0 <= k < bs.len() && #[trigger] bs[k].0 == name;
        assert(nbs[k].0 == name);
        assert forall|other: Seq<char>| other != name implies lookup(
            #[trigger] insert_binding(bs, name, id, val),
            other,
        ) == lookup(bs, other) by {
            if has_name(bs, other) {
                let j = choose|j: int| 0 <= j < bs.len() && #[trigger] bs[j].0 == other;
                assert(nbs[j].0 == other);
            }
            if has_name(nbs, other) {
                let j = choose|j: int| 0 <= j < nbs.len() && #[trigger] nbs[j].0 == other;
                assert(bs[j].0 == other);
            }
        }
    } else {
        assert(nbs[bs.len() as int].0 == name);
        assert forall|other: Seq<char>| other != name implies lookup(
            #[trigger] insert_binding(bs, name, id, val),
            other,
        ) == lookup(bs, other) by {
            if has_name(bs, other) {
                let j = choose|j: int| 0 <= j < bs.len() && #[trigger] bs[j].0 == other;
                assert(nbs[j].0 == other);
            }
            if has_name(nbs, other) {
                let j = choose|j: int| 0 <= j < nbs.len() && #[trigger] nbs[j].0 == other;
                assert(bs[j].0 == other);
            }
        }
    }
}

/// A variable whose name no definition has is left as it is.
pub proof fn lemma_apply_bindings_unbound_var(bs: Seq<Binding>, name: Seq<char>, id: u64)
    requires
        !has_name(bs, name),
    ensures
        apply_bindings(bs, Term::Var { name, id }) == (Term::Var { name, id }),
    decreases bs.len(),
{
    if bs.len() > 0 {
        assert(bs.last().0 != name) by {
            if bs.last().0 == name {
                assert(bs[bs.len() - 1].0 == name);
            }
        }
        assert(!has_name(bs.drop_last(), name)) by {
            if has_name(bs.drop_last(), name) {
                let k = choose|k: int|
                    0 <= k < bs.drop_last().len() && #[trigger] bs.drop_last()[k].0 == name;
                assert(bs[k].0 == name);
            }
        }
        lemma_apply_bindings_unbound_var(bs.drop_last(), name, id);
    }
}

/// Once a new name is defined, the variable of that name stands for the
/// value defined: substituting the definitions into it gives that value.
pub proof fn lemma_new_definition_read_back(
    bs: Seq<Binding>,
    name: Seq<char>,
    id: u64,
    val: Term,
    var_id: u64,
)
    requires
        !has_name(bs, name),
    ensures
        apply_bindings(insert_binding(bs, name, id, val), Term::Var { name, id: var_id }) == val,
{
    let nbs = insert_binding(bs, name, id, val);
    assert(nbs.drop_last() =~= bs);
    lemma_apply_bindings_unbound_var(bs, name, var_id);
}

/// The result of one statement: the index of the first token after it, the
/// expression to print, whether it is to be reduced, and the definitions
/// afterwards.
pub open spec fn statement_at(
    s: Seq<char>,
    ts: Seq<FatToken>,
    i: int,
    base: u64,
    bs: Seq<Binding>,
) -> Result<(int, Term, bool, Seq<Binding>), ParseError> {
    match assign_at(s, ts, i, base) {
        Ok((j, t)) => match t {
            Term::Fun { name, id, body } => {
                let b = apply_bindings(bs, *body);
                Ok((j, b, false, insert_binding(bs, name, id, b)))
            },
            _ => Ok((j, t, false, bs)),
        },
        Err(err1) => match expr_at(s, ts, i, base) {
            Err(err2) => Err(better_error(err1, err2)),
            Ok((j, t)) => match token_at(ts, j, TokenKind::Print) {
                Err(_) => Ok((j, apply_bindings(bs, t), true, bs)),
                Ok((k, _)) => Ok((k, apply_bindings(bs, t), true, bs)),
            },
        },
    }
}

/// The row and column of the character at `offset`, counting from row 1;
/// `\n` and `\r` each start a row. `None` when `offset` is no position of
/// a character.
pub open spec fn line_col_from(s: Seq<char>, offset: int, i: int, row: int, col: int) -> Option<
    (int, int),
>
    decreases s.len() - i,
{
    if i < 0 || i >= s.len() {
        None
    } else if i == offset {
        Some((row, col - 1))
    } else if s[i] == '\n' || s[i] == '\r' {
        line_col_from(s, offset, i + 1, row + 1, 1)
    } else {
        line_col_from(s, offset, i + 1, row, col + 1)
    }
}

/// The row and column of the character at `offset` (see `line_col_from`).
pub open spec fn line_col(s: Seq<char>, offset: int) -> Option<(int, int)> {
    line_col_from(s, offset, 0, 1, 0)
}

/// The name of a kind of token.
pub open spec fn kind_text(k: TokenKind) -> Seq<char> {
    match k {
        TokenKind::End => "End"@,
        TokenKind::OParen => "OParen"@,
        TokenKind::CParen => "CParen"@,
        TokenKind::Lambda => "Lambda"@,
        TokenKind::Dot => "Dot"@,
        TokenKind::Assign => "Assign"@,
        TokenKind::Print => "Print"@,
        TokenKind::Ident => "Ident"@,
    }
}

/// How a wanted token of kind `k` is printed in full: an identifier as one
/// with the empty name.
pub open spec fn kind_debug(k: TokenKind) -> Seq<char> {
    match k {
        TokenKind::Ident => "Ident(\"\")"@,
        _ => kind_text(k),
    }
}

/// How a found token is printed: an identifier with its name quoted.
pub open spec fn token_text(t: Token, s: Seq<char>) -> Seq<char> {
    match t {
        Token::Ident { start, end } => "Ident("@ + debug_quoted(s.subrange(start as int, end as int))
            + ")"@,
        _ => kind_text(crate::token::kind_of(t)),
    }
}

/// `row:col`.
pub open spec fn position_text(row: int, col: int) -> Seq<char> {
    digits(row as nat, 10) + ":"@ + digits(col as nat, 10)
}

/// The text of a parse error in the input `s`.
pub open spec fn parse_error_text(e: ParseError, s: Seq<char>) -> Seq<char> {
    match e {
        ParseError::UnexpectedToken { wanted, found, content } => {
            let (row, col) = line_col(s, content as int)->Some_0;
            "Unexpected token, wanted "@ + kind_text(wanted) + " found "@ + token_text(found, s)
                + " at ("@ + position_text(row, col) + ")"@
        },
        ParseError::OutOfTokens { wanted } => "Out of tokens, wanted "@ + kind_debug(wanted),
    }
}

/// The characters with each newline written as `\n`.
pub open spec fn escape_newlines(s: Seq<char>) -> Seq<char>
    decreases s.len(),
{
    if s.len() == 0 {
        s
    } else {
        escape_newlines(s.drop_last()) + if s.last() == '\n' {
            seq!['\\', 'n']
        } else {
            seq![s.last()]
        }
    }
}

/// The first `n` elements of `s`, or all of them when there are fewer.
pub open spec fn prefix(s: Seq<char>, n: int) -> Seq<char> {
    if s.len() <= n {
        s
    } else {
        s.take(n)
    }
}

/// The text of an error on the character at `p`.
pub open spec fn unexpected_char_text(s: Seq<char>, p: int) -> Seq<char> {
    "Unexpected character '"@ + seq![
        if 0 <= p < s.len() {
            s[p]
        } else {
            ' '
        },
    ] + "'"@
}

/// What follows a statement that ends at token index `j`: nothing but
/// `End`, or an error.
pub open spec fn trailing_check(s: Seq<char>, ts: Seq<FatToken>, j: int) -> Result<
    (),
    Option<Seq<char>>,
> {
    if j + 1 == ts.len() && ts[j].1 is End {
        Ok(())
    } else if !(0 <= j < ts.len()) {
        Err(Some("No END token found"@))
    } else {
        let content = ts[j].0 as int;
        match line_col(s, content) {
            None => Err(Some("Could not get row:col of error"@)),
            Some((row, col)) => Err(
                Some(
                    "Trailing characters at "@ + position_text(row, col) + ": \""@
                        + prefix(escape_newlines(s.subrange(content, s.len() as int)), 20) + "\""@,
                ),
            ),
        }
    }
}

/// The report of a parse error: its text, or `None` when its position has
/// no row and column (the end of the input).
pub open spec fn error_report(e: ParseError, s: Seq<char>) -> Option<Seq<char>> {
    match e {
        ParseError::UnexpectedToken { content, .. } => if line_col(s, content as int) is None {
            None
        } else {
            Some(parse_error_text(e, s))
        },
        ParseError::OutOfTokens { .. } => Some(parse_error_text(e, s)),
    }
}

/// What one line of input gives: the expression to print, if any, and
/// whether to reduce it; success, or the error text (`None` for an error at
/// a position that has no row and column); and the definitions afterwards.
pub open spec fn respond(s: Seq<char>, bs: Seq<Binding>, base: u64) -> (
    Option<Term>,
    bool,
    Result<(), Option<Seq<char>>>,
    Seq<Binding>,
) {
    match tokenized(s) {
        Err(p) => (None, false, Err(Some(unexpected_char_text(s, p as int))), bs),
        Ok(ts) => if ts.len() == 1 && ts[0].1 is End {
            (None, false, Ok(()), bs)
        } else {
            match statement_at(s, ts, 0, base, bs) {
                Err(e) => (None, false, Err(error_report(e, s)), bs),
                Ok((j, t, reduce, nbs)) => (Some(t), reduce, trailing_check(s, ts, j), nbs),
            }
        },
    }
}

/// A definition line stores, under its name, exactly the value it shows:
/// looking the name up afterwards gives the value shown, every other name
/// keeps its value, and names stay distinct. Where the name is new, a
/// variable of that name on a later line reads back that value.
pub proof fn lemma_definition_stores_what_it_shows(
    s: Seq<char>,
    bs: Seq<Binding>,
    base: u64,
    ts: Seq<FatToken>,
    start: usize,
    end: usize,
)
    requires
        distinct_names(bs),
        tokenized(s) == Ok::<Seq<FatToken>, usize>(ts),
        ts.len() > 0,
        ts[0].1 == (Token::Ident { start, end }),
        respond(s, bs, base).0 is Some,
        !respond(s, bs, base).1,
    ensures
        ({
            let (shown, _, _, nbs) = respond(s, bs, base);
            let name = s.subrange(start as int, end as int);
            &&& distinct_names(nbs)
            &&& lookup(nbs, name) == shown
            &&& forall|other: Seq<char>| other != name ==> #[trigger] lookup(nbs, other) == lookup(bs, other)
            &&& !has_name(bs, name) ==> forall|var_id: u64|
                Some(#[trigger] apply_bindings(nbs, Term::Var { name, id: var_id })) == shown
        }),
{
    let name = s.subrange(start as int, end as int);
    assert(!(ts.len() == 1 && ts[0].1 is End));
    let r = statement_at(s, ts, 0, base, bs);
    assert(r is Ok);
    if let Ok((j, t)) = assign_at(s, ts, 0, base) {
        assert(ident_at(s, ts, 0) == Ok::<(int, Seq<char>), ParseError>((1, name)));
        if let Term::Fun { name: n, id, body } = t {
            assert(n == name);
            let b = apply_bindings(bs, *body);
            lemma_insert_then_lookup(bs, name, id, b);
            if !has_name(bs, name) {
                assert forall|var_id: u64|
                    Some(#[trigger] apply_bindings(insert_binding(bs, name, id, b), Term::Var { name, id: var_id })) == Some(b) by {
                    lemma_new_definition_read_back(bs, name, id, b, var_id);
                }
            }
        }
    }
}

/// Why a line of input was refused.
pub enum Failure {
    /// The text of the error.
    Message(String),
    /// A parse error at the end of the input, where no row and column
    /// exist; the interpreter stops on it.
    Unlocated,
}

/// What a line of input gave.
pub struct Outcome {
    /// The expression to print: the value stored by a definition, or the
    /// expression with the definitions substituted.
    pub shown: Option<Rc<Expression>>,
    /// Whether the expression shown is to be reduced, step by step.
    pub reduce: bool,
    pub result: Result<(), Failure>,
}

/// A failure by its text, `None` for an error without a row and column.
pub open spec fn failure_view(f: Failure) -> Option<Seq<char>> {
    match f {
        Failure::Message(m) => Some(m@),
        Failure::Unlocated => None,
    }
}

/// An outcome by its model.
pub open spec fn outcome_view(o: Outcome) -> (Option<Term>, bool, Result<(), Option<Seq<char>>>) {
    (
        match o.shown {
            Some(e) => Some(e@),
            None => None,
        },
        o.reduce,
        match o.result {
            Ok(()) => Ok(()),
            Err(f) => Err(failure_view(f)),
        },
    )
}

/// The definitions made so far, and the identity from which the next line
/// numbers its binders and variables.
pub struct Session {
    bindings: Vec<(Rc<Name>, Rc<Expression>)>,
    next_id: u64,
}

impl Session {
    /// The definitions, in the order in which they were first made.
    pub closed spec fn definitions(&self) -> Seq<Binding> {
        bindings_view(self.bindings@)
    }

    /// The identity from which the next line numbers its names.
    pub closed spec fn next_identity(&self) -> u64 {
        self.next_id
    }

    /// Names are stored once each, and every stored identity lies below
    /// the next one to be given out.
    pub open spec fn wf(&self) -> bool {
        &&& distinct_names(self.definitions())
        &&& bindings_below(self.definitions(), self.next_identity() as int)
    }

    /// A session with no definitions.
    pub fn new() -> (s: Session)
        ensures
            s.wf(),
            s.definitions() == Seq::<Binding>::empty(),
            s.next_identity() == 0,
    {
        let s = Session { bindings: Vec::new(), next_id: 0 };
        assert(s.definitions() =~= Seq::<Binding>::empty());
        s
    }

    /// The identity from which the next line numbers its names.
    pub fn next_id(&self) -> (n: u64)
        ensures
            n == self.next_identity(),
    {
        self.next_id
    }
}

/// The definitions substituted into `expr`, in the order in which they are stored.
fn apply_all(bindings: &Vec<(Rc<Name>, Rc<Expression>)>, expr: &Rc<Expression>) -> (e: Rc<
    Expression,
>)
    ensures
        e@ == apply_bindings(bindings_view(bindings@), expr@),
        forall|n: int|
            bindings_below(bindings_view(bindings@), n) && ids_below(expr@, n) ==> ids_below(e@, n),
{
    let ghost bs = bindings_view(bindings@);
    let mut e = Rc::clone(expr);
    let mut k: usize = 0;
    while k < bindings.len()
        invariant
            k <= bindings.len(),
            bs == bindings_view(bindings@),
            e@ == apply_bindings(bs.take(k as int), expr@),
            forall|n: int| bindings_below(bs, n) && ids_below(expr@, n) ==> ids_below(e@, n),
        decreases bindings.len() - k,
    {
        let (pat, val) = &bindings[k];
        let ghost prev = e@;
        e = apply_binding(pat, &e, val);
        proof {
            assert(bs.take(k + 1).drop_last() =~= bs.take(k as int));
            assert(bs[k as int] == binding_view(bindings@[k as int]));
            assert forall|n: int| bindings_below(bs, n) && ids_below(expr@, n) implies ids_below(
                e@,
                n,
            ) by {
                assert(bs[k as int].1 < n);
                lemma_bind_ids_below(pat.text@, prev, val@, n);
            }
        }
        k = k + 1;
    }
    assert(bs.take(bindings.len() as int) =~= bs);
    e
}

/// Stores `val` under the name of `arg`, as `insert_binding` says.
fn insert(bindings: &mut Vec<(Rc<Name>, Rc<Expression>)>, arg: &Rc<Name>, val: Rc<Expression>)
    requires
        distinct_names(bindings_view(old(bindings)@)),
    ensures
        bindings_view(final(bindings)@) == insert_binding(
            bindings_view(old(bindings)@),
            arg.text@,
            arg.id,
            val@,
        ),
{
    let ghost bs = bindings_view(bindings@);
    let mut k: usize = 0;
    while k < bindings.len()
        invariant
            k <= bindings.len(),
            bindings@ == old(bindings)@,
            bs == bindings_view(bindings@),
            distinct_names(bs),
            forall|j: int| 0 <= j < k ==> #[trigger] bs[j].0 != arg.text@,
        decreases bindings.len() - k,
    {
        if bindings[k].0.text == arg.text {
            let key = Rc::clone(&bindings[k].0);
            bindings.set(k, (key, val));
            proof {
                assert(bs[k as int].0 == arg.text@);
                let c = choose|c: int| 0 <= c < bs.len() && #[trigger] bs[c].0 == arg.text@;
                if c < k {
                    assert(bs[c].0 != bs[k as int].0);
                } else if c > k {
                    assert(bs[k as int].0 != bs[c].0);
                }
                assert(c == k);
                assert(bindings_view(bindings@) =~= insert_binding(bs, arg.text@, arg.id, val@));
            }
            return ;
        }
        k = k + 1;
    }
    bindings.push((Rc::clone(arg), val));
    proof {
        assert(!has_name(bs, arg.text@));
        assert(bindings_view(bindings@) =~= insert_binding(bs, arg.text@, arg.id, val@));
    }
}

/// Parses one statement from token index `i`: a definition is stored and
/// its value returned; an expression, optionally followed by `?`, is
/// returned with the definitions substituted and the flag that asks for it
/// to be reduced.
fn parse_statement(
    chars: &[char],
    ts: &Vec<FatToken>,
    i: usize,
    base: u64,
    bindings: &mut Vec<(Rc<Name>, Rc<Expression>)>,
) -> (r: Result<(usize, Rc<Expression>, bool), ParseError>)
    requires
        i <= ts.len(),
        base + ts.len() <= u64::MAX,
        idents_in(chars@, ts@),
        distinct_names(bindings_view(old(bindings)@)),
    ensures
        match r {
            Ok((j, e, reduce)) => statement_at(
                chars@,
                ts@,
                i as int,
                base,
                bindings_view(old(bindings)@),
            ) == Ok::<(int, Term, bool, Seq<Binding>), ParseError>(
                (j as int, e@, reduce, bindings_view(final(bindings)@)),
            ),
            Err(e) => statement_at(chars@, ts@, i as int, base, bindings_view(old(bindings)@))
                == Err::<(int, Term, bool, Seq<Binding>), ParseError>(e) && bindings_view(
                final(bindings)@,
            ) == bindings_view(old(bindings)@),
        },
        r matches Ok((j, _, _)) ==> i < j <= ts.len(),
        r matches Err(e) ==> crate::parse::error_from(ts@, e),
        forall|n: int|
            base + ts.len() <= n && bindings_below(bindings_view(old(bindings)@), n)
                ==> bindings_below(bindings_view(final(bindings)@), n),
{
    let ghost bs = bindings_view(bindings@);
    match parse_assign(chars, ts, i, base) {
        Ok((j, expr)) => {
            match &*expr {
                Expression::Fun { arg, body } => {
                    let b = apply_all(bindings, body);
                    insert(bindings, arg, Rc::clone(&b));
                    proof {
                        lemma_insert_then_lookup(bs, arg.text@, arg.id, b@);
                        assert forall|n: int|
                            base + ts.len() <= n && bindings_below(bs, n) implies bindings_below(
                            bindings_view(bindings@),
                            n,
                        ) by {
                            let nbs = bindings_view(bindings@);
                            lemma_ids_below_mono(expr@, base + ts.len(), n);
                            assert(ids_below(body@, n));
                            assert(ids_below(b@, n));
                            assert(arg.id < n);
                            assert forall|k: int| 0 <= k < nbs.len() implies #[trigger] nbs[k].1 < n
                                && ids_below(nbs[k].2, n) by {
                                if k < bs.len() {
                                    assert(bs[k].1 < n);
                                    assert(ids_below(bs[k].2, n));
                                }
                            }
                        }
                    }
                    Ok((j, b, false))
                },
                _ => {
                    proof {
                        assert(false);
                    }
                    Ok((j, expr, false))
                },
            }
        },
        Err(err1) => {
            let (j, expr) = match parse_expr(chars, ts, i, base) {
                Ok(x) => x,
                Err(err2) => {
                    return Err(best_error(err1, err2));
                },
            };
            let k = match parse_token(ts, j, TokenKind::Print) {
                Err(_) => j,
                Ok((k, _)) => k,
            };
            Ok((k, apply_all(bindings, &expr), true))
        },
    }
}

/// The row and column of the character at `offset`, as `line_col` says.
pub fn get_line_col(text: &[char], offset: usize) -> (r: Option<(usize, usize)>)
    requires
        offset > 0 || text@.len() == 0,
        text@.len() < usize::MAX,
    ensures
        match r {
            Some((row, col)) => line_col(text@, offset as int) == Some((row as int, col as int)),
            None => line_col(text@, offset as int) is None,
        },
{
    let mut row: usize = 1;
    let mut col: usize = 0;
    let mut i: usize = 0;
    while i < text.len()
        invariant
            i <= text@.len() < usize::MAX,
            offset > 0 || text@.len() == 0,
            row <= i + 1,
            col <= i,
            i > 0 ==> col >= 1,
            line_col_from(text@, offset as int, i as int, row as int, col as int) == line_col(
                text@,
                offset as int,
            ),
        decreases text.len() - i,
    {
        if i == offset {
            return Some((row, col - 1));
        }
        if text[i] == '\n' || text[i] == '\r' {
            row = row + 1;
            col = 0;
        }
        col = col + 1;
        i = i + 1;
    }
    None
}

fn kind_string(k: TokenKind) -> (s: String)
    ensures
        s@ == kind_text(k),
{
    match k {
        TokenKind::End => "End".to_owned(),
        TokenKind::OParen => "OParen".to_owned(),
        TokenKind::CParen => "CParen".to_owned(),
        TokenKind::Lambda => "Lambda".to_owned(),
        TokenKind::Dot => "Dot".to_owned(),
        TokenKind::Assign => "Assign".to_owned(),
        TokenKind::Print => "Print".to_owned(),
        TokenKind::Ident => "Ident".to_owned(),
    }
}

fn token_string(t: Token, text: &[char]) -> (s: String)
    requires
        t matches Token::Ident { start, end } ==> start <= end <= text@.len(),
    ensures
        s@ == token_text(t, text@),
{
    match t {
        Token::Ident { start, end } => {
            let name = string_of(text, start, end);
            let mut s = "Ident(".to_owned();
            let q = str_debug(name.as_str());
            push_str(&mut s, &q);
            s.append(")");
            s
        },
        _ => kind_string(t.kind()),
    }
}

fn push_position(s: &mut String, row: usize, col: usize)
    ensures
        final(s)@ == old(s)@ + position_text(row as int, col as int),
{
    push_digits(s, row as u64, 10);
    s.append(":");
    push_digits(s, col as u64, 10);
    assert(final(s)@ =~= old(s)@ + position_text(row as int, col as int));
}

/// The text of a parse error.
pub fn format_parse_error(err: &ParseError, text: &[char]) -> (s: String)
    requires
        text@.len() < usize::MAX,
        *err matches ParseError::UnexpectedToken { found, content, .. } ==> {
            &&& content > 0 || text@.len() == 0
            &&& line_col(text@, content as int) is Some
            &&& found matches Token::Ident { start, end } ==> start <= end <= text@.len()
        },
    ensures
        s@ == parse_error_text(*err, text@),
{
    match err {
        ParseError::UnexpectedToken { wanted, found, content } => {
            let wanted_str = kind_string(*wanted);
            let (line, col) = get_line_col(text, *content).unwrap();
            let mut s = "Unexpected token, wanted ".to_owned();
            push_str(&mut s, &wanted_str);
            s.append(" found ");
            let f = token_string(*found, text);
            push_str(&mut s, &f);
            s.append(" at (");
            push_position(&mut s, line, col);
            s.append(")");
            s
        },
        ParseError::OutOfTokens { wanted } => {
            let mut s = "Out of tokens, wanted ".to_owned();
            match wanted {
                TokenKind::Ident => s.append("Ident(\"\")"),
                _ => {
                    let w = kind_string(*wanted);
                    push_str(&mut s, &w);
                },
            }
            s
        },
    }
}

fn unexpected_char(text: &[char], p: usize) -> (s: String)
    ensures
        s@ == unexpected_char_text(text@, p as int),
{
    let mut s = "Unexpected character '".to_owned();
    if p < text.len() {
        push_char(&mut s, text[p]);
    } else {
        push_char(&mut s, ' ');
    }
    s.append("'");
    assert(s@ =~= unexpected_char_text(text@, p as int));
    s
}

/// The characters from `from` on with newlines escaped, at most twenty.
fn escaped_prefix(text: &[char], from: usize) -> (s: String)
    requires
        from <= text@.len(),
    ensures
        s@ == prefix(escape_newlines(text@.subrange(from as int, text@.len() as int)), 20),
{
    let mut esc: Vec<char> = Vec::new();
    let mut k = from;
    assert(text@.subrange(from as int, from as int) =~= Seq::<char>::empty());
    while k < text.len()
        invariant
            from <= k <= text@.len(),
            esc@ == escape_newlines(text@.subrange(from as int, k as int)),
        decreases text.len() - k,
    {
        assert(text@.subrange(from as int, k + 1).drop_last() =~= text@.subrange(
            from as int,
            k as int,
        ));
        if text[k] == '\n' {
            esc.push('\\');
            esc.push('n');
        } else {
            esc.push(text[k]);
        }
        k = k + 1;
    }
    let mut s = String::new();
    let mut i: usize = 0;
    while i < esc.len() && i < 20
        invariant
            i <= esc@.len(),
            i <= 20,
            s@ == esc@.take(i as int),
        decreases esc.len() - i,
    {
        push_char(&mut s, esc[i]);
        i = i + 1;
        assert(s@ =~= esc@.take(i as int));
    }
    assert(s@ =~= prefix(esc@, 20));
    s
}

fn trailing(text: &[char], ts: &Vec<FatToken>, j: usize) -> (r: Result<(), Failure>)
    requires
        text@.len() < usize::MAX,
        j < ts.len() ==> ts[j as int].0 > 0 && ts[j as int].0 <= text@.len(),
    ensures
        match r {
            Ok(()) => trailing_check(text@, ts@, j as int) == Ok::<(), Option<Seq<char>>>(()),
            Err(f) => trailing_check(text@, ts@, j as int) == Err::<(), Option<Seq<char>>>(
                failure_view(f),
            ),
        },
{
    if j >= ts.len() {
        return Err(Failure::Message("No END token found".to_owned()));
    }
    if j + 1 == ts.len() {
        if let Token::End = ts[j].1 {
            return Ok(());
        }
    }
    let content = ts[j].0;
    match get_line_col(text, content) {
        None => Err(Failure::Message("Could not get row:col of error".to_owned())),
        Some((row, col)) => {
            let mut s = "Trailing characters at ".to_owned();
            push_position(&mut s, row, col);
            s.append(": \"");
            let e = escaped_prefix(text, content);
            push_str(&mut s, &e);
            s.append("\"");
            Err(Failure::Message(s))
        },
    }
}

/// Handles one line of input, as `respond` says: the definitions it makes
/// are stored in `session`, and the names of the line take the identities
/// from the session's next one on, one for each token.
pub fn process_input(input: &str, session: &mut Session) -> (o: Outcome)
    requires
        old(session).wf(),
        old(session).next_identity() + input@.len() + 1 <= u64::MAX,
        input@.len() < usize::MAX,
    ensures
        final(session).wf(),
        ({
            let (t, reduce, res, bs) = respond(
                input@,
                old(session).definitions(),
                old(session).next_identity(),
            );
            &&& outcome_view(o) == (t, reduce, res)
            &&& final(session).definitions() == bs
        }),
        final(session).next_identity() == match tokenized(input@) {
            Ok(ts) => (old(session).next_identity() + ts.len()) as u64,
            Err(_) => old(session).next_identity(),
        },
{
    let chars = chars_of(input);
    let tokens = match tokenize(chars.as_slice()) {
        Ok(t) => t,
        Err(p) => {
            return Outcome {
                shown: None,
                reduce: false,
                result: Err(Failure::Message(unexpected_char(chars.as_slice(), p))),
            };
        },
    };
    proof {
        lemma_tokens_well_formed(chars@, 0);
        assert(idents_in(chars@, tokens@)) by {
            assert forall|k: int| 0 <= k < tokens@.len() implies (
            #[trigger] tokens@[k].1 matches Token::Ident { start, end } ==> start <= end
                <= chars@.len()) by {
                assert(tokens@[k].0 <= chars@.len());
            }
        }
    }
    let base = session.next_id;
    session.next_id = base + tokens.len() as u64;
    proof {
        lemma_bindings_below_mono(old(session).definitions(), base as int, session.next_id as int);
    }
    if tokens.len() == 1 {
        if let Token::End = tokens[0].1 {
            return Outcome { shown: None, reduce: false, result: Ok(()) };
        }
    }
    match parse_statement(chars.as_slice(), &tokens, 0, base, &mut session.bindings) {
        Err(e) => {
            let failure = match e {
                ParseError::UnexpectedToken { found, content, .. } => {
                    proof {
                        let k = choose|k: int|
                            0 <= k < tokens@.len() && #[trigger] tokens@[k] == (content, found);
                        assert(tokens@[k].0 > 0);
                        assert(tokens@[k].1 == found);
                    }
                    if get_line_col(chars.as_slice(), content).is_none() {
                        Failure::Unlocated
                    } else {
                        Failure::Message(format_parse_error(&e, chars.as_slice()))
                    }
                },
                ParseError::OutOfTokens { .. } => Failure::Message(
                    format_parse_error(&e, chars.as_slice()),
                ),
            };
            Outcome { shown: None, reduce: false, result: Err(failure) }
        },
        Ok((j, expr, reduce)) => {
            let result = trailing(chars.as_slice(), &tokens, j);
            Outcome { shown: Some(expr), reduce, result }
        },
    }
}

} // verus!
