//! Printing terms: `𝞴x y. body` for nested lambdas, parentheses where the
//! position of a subterm asks for them, and, at a higher verbosity, the
//! identity of every name and parentheses around every compound term.
use vstd::prelude::*;
use crate::expr::{Expression, Term, shape};
use crate::text::{digits, push_char, push_digits, push_str};

verus! {

/// The position in which a subterm is printed, as a set of the bits below.
#[derive(Clone, Copy)]
pub struct PrintFlags(pub u8);

/// The whole term.
pub const TOP: u8 = 1u8;

/// The function part of an application.
pub const APP_LHS: u8 = 2u8;

/// The argument part of an application.
pub const APP_RHS: u8 = 4u8;

/// The body of a lambda.
pub const FUN: u8 = 8u8;

impl PrintFlags {
    /// Whether `self` and `rhs` have a position in common.
    pub fn any_set(self, rhs: Self) -> (r: bool)
        ensures
            r == (self.0 & rhs.0 != 0),
    {
        self.0 & rhs.0 != 0
    }
}

impl std::ops::BitOr for PrintFlags {
    type Output = PrintFlags;

    fn bitor(self, rhs: Self) -> (r: PrintFlags)
        ensures
            r.0 == self.0 | rhs.0,
    {
        PrintFlags(self.0 | rhs.0)
    }
}

impl vstd::std_specs::ops::BitOrSpecImpl for PrintFlags {
    open spec fn obeys_bitor_spec() -> bool {
        true
    }

    open spec fn bitor_req(self, rhs: Self) -> bool {
        true
    }

    open spec fn bitor_spec(self, rhs: Self) -> Self {
        PrintFlags(self.0 | rhs.0)
    }
}

/// How a term is printed: the verbosity `v` and the position `f`.
pub struct PrintArguments {
    v: u8,
    f: PrintFlags,
}

impl PrintArguments {
    /// The verbosity: 0 plain, above 0 with identities, 2 and above with
    /// parentheses around every compound term.
    pub closed spec fn verbosity(&self) -> u8 {
        self.v
    }

    /// The position, as flag bits.
    pub closed spec fn flags(&self) -> u8 {
        self.f.0
    }

    /// Arguments for verbosity `v` in position `f`.
    pub fn new(v: u8, f: PrintFlags) -> (a: PrintArguments)
        ensures
            a.verbosity() == v,
            a.flags() == f.0,
    {
        PrintArguments { v, f }
    }
}

/// `_` and the low twelve bits of an identity, in hexadecimal.
pub open spec fn id_tag(id: u64) -> Seq<char> {
    seq!['_'] + digits((id % 4096) as nat, 16)
}

/// `s` in parentheses.
pub open spec fn parenthesized(s: Seq<char>) -> Seq<char> {
    seq!['('] + s + seq![')']
}

/// The text of `t` printed at verbosity `v` in position `f`.
pub open spec fn show(t: Term, v: u8, f: u8) -> Seq<char>
    decreases t,
{
    match t {
        Term::Var { name, id } => if v > 0 {
            name + id_tag(id)
        } else {
            name
        },
        Term::Fun { name, id, body } => {
            let s = (if f & FUN == 0 {
                seq!['𝞴']
            } else {
                Seq::empty()
            }) + name + (if v > 0 {
                id_tag(id)
            } else {
                Seq::empty()
            }) + (if *body is Fun {
                Seq::empty()
            } else {
                seq!['.']
            }) + seq![' '] + show(*body, v, FUN);
            if v >= 2 || f & (APP_LHS | APP_RHS) != 0 {
                parenthesized(s)
            } else {
                s
            }
        },
        Term::App { lhs, rhs } => {
            let s = show(*lhs, v, APP_LHS) + seq![' '] + show(*rhs, v, APP_RHS);
            if v >= 2 || f & APP_RHS != 0 {
                parenthesized(s)
            } else {
                s
            }
        },
    }
}

/// At verbosity 0 the text of a term does not depend on identities.
pub proof fn lemma_plain_text_ignores_identities(t: Term, f: u8)
    ensures
        show(t, 0, f) == show(shape(t), 0, f),
    decreases t,
{
    match t {
        Term::Var { .. } => {},
        Term::Fun { body, .. } => {
            lemma_plain_text_ignores_identities(*body, FUN);
        },
        Term::App { lhs, rhs } => {
            lemma_plain_text_ignores_identities(*lhs, APP_LHS);
            lemma_plain_text_ignores_identities(*rhs, APP_RHS);
        },
    }
}

fn push_id_tag(s: &mut String, id: u64)
    ensures
        final(s)@ == old(s)@ + id_tag(id),
{
    push_char(s, '_');
    push_digits(s, id % 4096, 16);
    proof {
        assert(final(s)@ =~= old(s)@ + id_tag(id));
    }
}

fn parens(s: &String) -> (r: String)
    ensures
        r@ == parenthesized(s@),
{
    let mut r = String::new();
    push_char(&mut r, '(');
    push_str(&mut r, s);
    push_char(&mut r, ')');
    assert(r@ =~= parenthesized(s@));
    r
}

impl Expression {
    /// The text of `self` printed with the arguments `a`.
    pub fn display(&self, a: PrintArguments) -> (s: String)
        ensures
            s@ == show(self@, a.verbosity(), a.flags()),
        decreases self,
    {
        let mut s = String::new();
        match self {
            Expression::Var(arg) => {
                push_str(&mut s, &arg.text);
                if a.v > 0 {
                    push_id_tag(&mut s, arg.id);
                }
                assert(s@ =~= show(self@, a.verbosity(), a.flags()));
                s
            },
            Expression::Fun { arg, body } => {
                if !a.f.any_set(PrintFlags(FUN)) {
                    push_char(&mut s, '𝞴');
                }
                push_str(&mut s, &arg.text);
                if a.v > 0 {
                    push_id_tag(&mut s, arg.id);
                }
                if !matches!(**body, Expression::Fun { .. }) {
                    push_char(&mut s, '.');
                }
                push_char(&mut s, ' ');
                let inner = (**body).display(PrintArguments { f: PrintFlags(FUN), ..a });
                push_str(&mut s, &inner);
                let ghost t = show(self@, a.verbosity(), a.flags());
                if a.v >= 2 || a.f.any_set(PrintFlags(APP_LHS) | PrintFlags(APP_RHS)) {
                    let r = parens(&s);
                    assert(r@ =~= t);
                    r
                } else {
                    assert(s@ =~= t);
                    s
                }
            },
            Expression::App { lhs, rhs } => {
                let l = (**lhs).display(PrintArguments { f: PrintFlags(APP_LHS), ..a });
                let r = (**rhs).display(PrintArguments { f: PrintFlags(APP_RHS), ..a });
                push_str(&mut s, &l);
                push_char(&mut s, ' ');
                push_str(&mut s, &r);
                let ghost t = show(self@, a.verbosity(), a.flags());
                if a.v >= 2 || a.f.any_set(PrintFlags(APP_RHS)) {
                    let p = parens(&s);
                    assert(p@ =~= t);
                    p
                } else {
                    assert(s@ =~= t);
                    s
                }
            },
        }
    }

    /// The text that `{}` prints: verbosity 0, the whole term.
    pub fn to_string(&self) -> (s: String)
        ensures
            s@ == show(self@, 0, TOP),
    {
        self.display(PrintArguments { v: 0, f: PrintFlags(TOP) })
    }

    /// The text that `{:?}` prints: verbosity 2, the whole term.
    pub fn to_debug_string(&self) -> (s: String)
        ensures
            s@ == show(self@, 2, TOP),
    {
        self.display(PrintArguments { v: 2, f: PrintFlags(TOP) })
    }
}

} // verus!
