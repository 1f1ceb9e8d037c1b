//! Lambda terms, binding by identity, substitution and one step of
//! beta reduction.
//!
//! Every binder and every variable carries an identity (`Name::id`).
//! A variable refers to the binder whose identity it carries, not to the
//! nearest binder of the same spelling: `capture` links the free
//! occurrences of a spelling to a new binder, and `apply` substitutes by
//! identity.
use vstd::prelude::*;
use std::rc::Rc;

verus! {

/// The spelling of a binder or variable together with its identity.
pub struct Name {
    pub text: String,
    pub id: u64,
}

/// A lambda term.
pub enum Expression {
    Var(Rc<Name>),
    Fun { arg: Rc<Name>, body: Rc<Expression> },
    App { lhs: Rc<Expression>, rhs: Rc<Expression> },
}

/// The mathematical model of an `Expression`.
pub enum Term {
    Var { name: Seq<char>, id: u64 },
    Fun { name: Seq<char>, id: u64, body: Box<Term> },
    App { lhs: Box<Term>, rhs: Box<Term> },
}

impl View for Expression {
    type V = Term;

    open spec fn view(&self) -> Term
        decreases self,
    {
        match self {
            Expression::Var(n) => Term::Var { name: n.text@, id: n.id },
            Expression::Fun { arg, body } => Term::Fun {
                name: arg.text@,
                id: arg.id,
                body: Box::new((**body)@),
            },
            Expression::App { lhs, rhs } => Term::App {
                lhs: Box::new((**lhs)@),
                rhs: Box::new((**rhs)@),
            },
        }
    }
}

/// The lambda binding `name` with identity `id` over `body`.
pub open spec fn mk_fun(name: Seq<char>, id: u64, body: Term) -> Term {
    Term::Fun { name, id, body: Box::new(body) }
}

/// The application of `lhs` to `rhs`.
pub open spec fn mk_app(lhs: Term, rhs: Term) -> Term {
    Term::App { lhs: Box::new(lhs), rhs: Box::new(rhs) }
}

/// Links every free occurrence of the spelling `name` in `t` to the binder
/// identity `id`; a binder with the same spelling shadows it.
pub open spec fn capture_term(name: Seq<char>, id: u64, t: Term) -> Term
    decreases t,
{
    match t {
        Term::Var { name: n, id: i } => if n == name {
            Term::Var { name, id }
        } else {
            t
        },
        Term::Fun { name: n, id: i, body } => if n == name {
            t
        } else {
            mk_fun(n, i, capture_term(name, id, *body))
        },
        Term::App { lhs, rhs } => mk_app(capture_term(name, id, *lhs), capture_term(name, id, *rhs)),
    }
}

/// Substitution by identity: every variable of identity `id` becomes `val`;
/// a binder of identity `id` rebinds it, so the lambda it heads is left as
/// it is.
pub open spec fn apply_term(id: u64, t: Term, val: Term) -> Term
    decreases t,
{
    match t {
        Term::Var { name, id: i } => if i == id {
            val
        } else {
            t
        },
        Term::Fun { name, id: i, body } => if i == id {
            t
        } else {
            mk_fun(name, i, apply_term(id, *body, val))
        },
        Term::App { lhs, rhs } => mk_app(apply_term(id, *lhs, val), apply_term(id, *rhs, val)),
    }
}

/// Substitution of a named definition: every free variable spelled `name`
/// becomes `val`, at any depth; a lambda binding the same spelling shadows
/// the definition, so the lambda it heads is left as it is.
pub open spec fn bind_term(name: Seq<char>, t: Term, val: Term) -> Term
    decreases t,
{
    match t {
        Term::Var { name: n, id: i } => if n == name {
            val
        } else {
            t
        },
        Term::Fun { name: n, id: i, body } => if n == name {
            t
        } else {
            mk_fun(n, i, bind_term(name, *body, val))
        },
        Term::App { lhs, rhs } => mk_app(bind_term(name, *lhs, val), bind_term(name, *rhs, val)),
    }
}

/// Whether a variable spelled `name` occurs in `t` outside every lambda
/// that binds that spelling.
pub open spec fn occurs_free(t: Term, name: Seq<char>) -> bool
    decreases t,
{
    match t {
        Term::Var { name: n, .. } => n == name,
        Term::Fun { name: n, body, .. } => n != name && occurs_free(*body, name),
        Term::App { lhs, rhs } => occurs_free(*lhs, name) || occurs_free(*rhs, name),
    }
}

/// Whether a variable of identity `id` occurs in `t` outside every lambda
/// whose binder has that identity.
pub open spec fn id_free(t: Term, id: u64) -> bool
    decreases t,
{
    match t {
        Term::Var { id: i, .. } => i == id,
        Term::Fun { id: i, body, .. } => i != id && id_free(*body, id),
        Term::App { lhs, rhs } => id_free(*lhs, id) || id_free(*rhs, id),
    }
}

/// One reduction step: the function part of an application is reduced
/// first; an application of a lambda is contracted; then the argument is
/// reduced. `None` when no step applies.
pub open spec fn step_term(t: Term) -> Option<Term>
    decreases t,
{
    match t {
        Term::Var { .. } => None,
        Term::Fun { name, id, body } => match step_term(*body) {
            Some(b) => Some(mk_fun(name, id, b)),
            None => None,
        },
        Term::App { lhs, rhs } => match step_term(*lhs) {
            Some(l) => Some(mk_app(l, *rhs)),
            None => match *lhs {
                Term::Fun { name, id, body } => Some(apply_term(id, *body, *rhs)),
                _ => match step_term(*rhs) {
                    Some(r) => Some(mk_app(*lhs, r)),
                    None => None,
                },
            },
        },
    }
}

/// A term in which no lambda stands in function position.
pub open spec fn is_normal(t: Term) -> bool
    decreases t,
{
    match t {
        Term::Var { .. } => true,
        Term::Fun { body, .. } => is_normal(*body),
        Term::App { lhs, rhs } => !(*lhs is Fun) && is_normal(*lhs) && is_normal(*rhs),
    }
}

/// The term with every identity forgotten.
pub open spec fn shape(t: Term) -> Term
    decreases t,
{
    match t {
        Term::Var { name, id } => Term::Var { name, id: 0 },
        Term::Fun { name, id, body } => mk_fun(name, 0, shape(*body)),
        Term::App { lhs, rhs } => mk_app(shape(*lhs), shape(*rhs)),
    }
}

/// Every free variable of identity `id` in `t` is spelled `name`.
pub open spec fn names_of_id(t: Term, id: u64, name: Seq<char>) -> bool
    decreases t,
{
    match t {
        Term::Var { name: n, id: i } => i == id ==> n == name,
        Term::Fun { id: i, body, .. } => i != id ==> names_of_id(*body, id, name),
        Term::App { lhs, rhs } => names_of_id(*lhs, id, name) && names_of_id(*rhs, id, name),
    }
}

/// Every variable in `t` whose spelling is bound, by `env` or by an
/// enclosing lambda of `t`, carries the identity of the nearest such
/// binder; `env` maps a spelling to the identity of its binder outside `t`.
pub open spec fn well_bound_in(t: Term, env: Map<Seq<char>, u64>) -> bool
    decreases t,
{
    match t {
        Term::Var { name, id } => env.contains_key(name) ==> id == env[name],
        Term::Fun { name, id, body } => well_bound_in(*body, env.insert(name, id)),
        Term::App { lhs, rhs } => well_bound_in(*lhs, env) && well_bound_in(*rhs, env),
    }
}

/// Every variable of `t` that stands under a lambda of its spelling
/// carries the identity of the nearest such lambda.
pub open spec fn well_bound(t: Term) -> bool {
    well_bound_in(t, Map::empty())
}

/// A variable named `arg` with a new binder identity `id`.
pub fn var(arg: &str, id: u64) -> (e: Rc<Expression>)
    ensures
        e@ == (Term::Var { name: arg@, id }),
{
    _var(&Rc::new(Name { text: arg.to_owned(), id }))
}

/// A lambda binding `arg`, with the new binder identity `id`; the free
/// occurrences of `arg` in `body` are linked to it.
pub fn fun(arg: &str, id: u64, body: &Rc<Expression>) -> (e: Rc<Expression>)
    ensures
        e@ == mk_fun(arg@, id, capture_term(arg@, id, body@)),
        well_bound(body@) ==> well_bound(e@),
{
    proof {
        if well_bound(body@) {
            lemma_fun_keeps_well_bound(arg@, id, body@);
        }
    }
    _fun(&Rc::new(Name { text: arg.to_owned(), id }), body)
}

/// The application of `lhs` to `rhs`.
pub fn app(lhs: &Rc<Expression>, rhs: &Rc<Expression>) -> (e: Rc<Expression>)
    ensures
        e@ == mk_app(lhs@, rhs@),
{
    Rc::new(Expression::App { lhs: Rc::clone(lhs), rhs: Rc::clone(rhs) })
}

/// A variable that shares the name and identity `arg`.
pub fn _var(arg: &Rc<Name>) -> (e: Rc<Expression>)
    ensures
        e@ == (Term::Var { name: arg.text@, id: arg.id }),
{
    Rc::new(Expression::Var(arg.clone()))
}

/// A lambda whose binder is `arg`; the free occurrences of its spelling
/// in `body` are linked to it.
pub fn _fun(arg: &Rc<Name>, body: &Rc<Expression>) -> (e: Rc<Expression>)
    ensures
        e@ == mk_fun(arg.text@, arg.id, capture_term(arg.text@, arg.id, body@)),
        well_bound(body@) ==> well_bound(e@),
{
    proof {
        if well_bound(body@) {
            lemma_fun_keeps_well_bound(arg.text@, arg.id, body@);
        }
    }
    Rc::new(Expression::Fun { arg: arg.clone(), body: capture(arg, body) })
}

/// Links the free occurrences of the spelling of `pat` in `expr` to `pat`.
pub fn capture(pat: &Rc<Name>, expr: &Rc<Expression>) -> (e: Rc<Expression>)
    ensures
        e@ == capture_term(pat.text@, pat.id, expr@),
    decreases expr,
{
    match &**expr {
        Expression::Var(v) => if pat.text == v.text {
            _var(pat)
        } else {
            Rc::clone(expr)
        },
        Expression::Fun { arg, body } => if pat.text == arg.text {
            Rc::clone(expr)
        } else {
            Rc::new(Expression::Fun { arg: Rc::clone(arg), body: capture(pat, body) })
        },
        Expression::App { lhs, rhs } => app(&capture(pat, lhs), &capture(pat, rhs)),
    }
}

/// Substitutes the definition `pat` = `val` into `expr`, as `bind_term` says.
pub fn apply_binding(pat: &Rc<Name>, expr: &Rc<Expression>, val: &Rc<Expression>) -> (e: Rc<
    Expression,
>)
    ensures
        e@ == bind_term(pat.text@, expr@, val@),
    decreases expr,
{
    match &**expr {
        Expression::Var(v) => if v.text == pat.text {
            Rc::clone(val)
        } else {
            Rc::clone(expr)
        },
        Expression::Fun { arg, body } => if arg.text == pat.text {
            Rc::clone(expr)
        } else {
            Rc::new(Expression::Fun { arg: Rc::clone(arg), body: apply_binding(pat, body, val) })
        },
        Expression::App { lhs, rhs } => app(
            &apply_binding(pat, lhs, val),
            &apply_binding(pat, rhs, val),
        ),
    }
}

/// Substitutes `val` for the identity of `pat` in `expr`, as `apply_term` says.
pub fn apply(pat: &Rc<Name>, expr: &Rc<Expression>, val: &Rc<Expression>) -> (e: Rc<Expression>)
    ensures
        e@ == apply_term(pat.id, expr@, val@),
    decreases expr,
{
    match &**expr {
        Expression::Var(v) => if v.id == pat.id {
            Rc::clone(val)
        } else {
            Rc::clone(expr)
        },
        Expression::Fun { arg, body } => if arg.id == pat.id {
            Rc::clone(expr)
        } else {
            Rc::new(Expression::Fun { arg: Rc::clone(arg), body: apply(pat, body, val) })
        },
        Expression::App { lhs, rhs } => app(&apply(pat, lhs, val), &apply(pat, rhs, val)),
    }
}

/// One reduction step, `None` when the term is in normal form.
pub fn beta1(expr: &Rc<Expression>) -> (r: Option<Rc<Expression>>)
    ensures
        match r {
            Some(e) => step_term(expr@) == Some(e@),
            None => step_term(expr@) is None,
        },
    decreases expr,
{
    match &**expr {
        Expression::Var(_) => None,
        Expression::Fun { arg, body } => match beta1(body) {
            Some(b) => Some(Rc::new(Expression::Fun { arg: Rc::clone(arg), body: b })),
            None => None,
        },
        Expression::App { lhs, rhs } => {
            match beta1(lhs) {
                Some(l) => {
                    return Some(app(&l, rhs));
                },
                None => {},
            }
            if let Expression::Fun { arg, body } = &**lhs {
                return Some(apply(arg, body, rhs));
            }
            match beta1(rhs) {
                Some(r) => Some(app(lhs, &r)),
                None => None,
            }
        },
    }
}

/// A term admits no reduction step exactly when it is in normal form.
pub proof fn lemma_step_none_iff_normal(t: Term)
    ensures
        step_term(t) is None <==> is_normal(t),
    decreases t,
{
    match t {
        Term::Var { .. } => {},
        Term::Fun { body, .. } => {
            lemma_step_none_iff_normal(*body);
        },
        Term::App { lhs, rhs } => {
            lemma_step_none_iff_normal(*lhs);
            lemma_step_none_iff_normal(*rhs);
        },
    }
}

/// Linking a spelling to a binder changes identities only: the term keeps
/// its shape.
pub proof fn lemma_capture_keeps_shape(name: Seq<char>, id: u64, t: Term)
    ensures
        shape(capture_term(name, id, t)) == shape(t),
    decreases t,
{
    match t {
        Term::Var { .. } => {},
        Term::Fun { body, .. } => {
            lemma_capture_keeps_shape(name, id, *body);
        },
        Term::App { lhs, rhs } => {
            lemma_capture_keeps_shape(name, id, *lhs);
            lemma_capture_keeps_shape(name, id, *rhs);
        },
    }
}

/// Linking the same spelling to the same binder twice is linking it once.
pub proof fn lemma_capture_idempotent(name: Seq<char>, id: u64, t: Term)
    ensures
        capture_term(name, id, capture_term(name, id, t)) == capture_term(name, id, t),
    decreases t,
{
    match t {
        Term::Var { .. } => {},
        Term::Fun { body, .. } => {
            lemma_capture_idempotent(name, id, *body);
        },
        Term::App { lhs, rhs } => {
            lemma_capture_idempotent(name, id, *lhs);
            lemma_capture_idempotent(name, id, *rhs);
        },
    }
}

/// Substituting an identity that has no free occurrence in a term leaves
/// it as it is.
pub proof fn lemma_apply_absent(id: u64, t: Term, val: Term)
    requires
        !id_free(t, id),
    ensures
        apply_term(id, t, val) == t,
    decreases t,
{
    match t {
        Term::Var { .. } => {},
        Term::Fun { id: i, body, .. } => {
            if i != id {
                lemma_apply_absent(id, *body, val);
            }
        },
        Term::App { lhs, rhs } => {
            lemma_apply_absent(id, *lhs, val);
            lemma_apply_absent(id, *rhs, val);
        },
    }
}

/// Every identity in `t` lies below `n`.
pub open spec fn ids_below(t: Term, n: int) -> bool
    decreases t,
{
    match t {
        Term::Var { id, .. } => id < n,
        Term::Fun { id, body, .. } => id < n && ids_below(*body, n),
        Term::App { lhs, rhs } => ids_below(*lhs, n) && ids_below(*rhs, n),
    }
}

/// Linking to a binder below a bound keeps every identity below it.
pub proof fn lemma_capture_ids_below(name: Seq<char>, id: u64, t: Term, n: int)
    requires
        ids_below(t, n),
        id < n,
    ensures
        ids_below(capture_term(name, id, t), n),
    decreases t,
{
    match t {
        Term::Var { .. } => {},
        Term::Fun { body, .. } => lemma_capture_ids_below(name, id, *body, n),
        Term::App { lhs, rhs } => {
            lemma_capture_ids_below(name, id, *lhs, n);
            lemma_capture_ids_below(name, id, *rhs, n);
        },
    }
}

/// A bound on identities holds of every larger bound.
pub proof fn lemma_ids_below_mono(t: Term, n: int, m: int)
    requires
        ids_below(t, n),
        n <= m,
    ensures
        ids_below(t, m),
    decreases t,
{
    match t {
        Term::Var { .. } => {},
        Term::Fun { body, .. } => lemma_ids_below_mono(*body, n, m),
        Term::App { lhs, rhs } => {
            lemma_ids_below_mono(*lhs, n, m);
            lemma_ids_below_mono(*rhs, n, m);
        },
    }
}

/// Substitution keeps every identity below a bound that both terms keep.
pub proof fn lemma_apply_ids_below(id: u64, t: Term, val: Term, n: int)
    requires
        ids_below(t, n),
        ids_below(val, n),
    ensures
        ids_below(apply_term(id, t, val), n),
    decreases t,
{
    match t {
        Term::Var { .. } => {},
        Term::Fun { body, .. } => lemma_apply_ids_below(id, *body, val, n),
        Term::App { lhs, rhs } => {
            lemma_apply_ids_below(id, *lhs, val, n);
            lemma_apply_ids_below(id, *rhs, val, n);
        },
    }
}

/// Substituting a definition keeps every identity below a bound that both terms keep.
pub proof fn lemma_bind_ids_below(name: Seq<char>, t: Term, val: Term, n: int)
    requires
        ids_below(t, n),
        ids_below(val, n),
    ensures
        ids_below(bind_term(name, t, val), n),
    decreases t,
{
    match t {
        Term::Var { .. } => {},
        Term::Fun { body, .. } => lemma_bind_ids_below(name, *body, val, n),
        Term::App { lhs, rhs } => {
            lemma_bind_ids_below(name, *lhs, val, n);
            lemma_bind_ids_below(name, *rhs, val, n);
        },
    }
}

/// Substituting a definition into a term in which its name has no free
/// occurrence leaves the term as it is.
pub proof fn lemma_bind_not_free(name: Seq<char>, t: Term, val: Term)
    requires
        !occurs_free(t, name),
    ensures
        bind_term(name, t, val) == t,
    decreases t,
{
    match t {
        Term::Var { .. } => {},
        Term::Fun { name: n, body, .. } => {
            if n != name {
                lemma_bind_not_free(name, *body, val);
            }
        },
        Term::App { lhs, rhs } => {
            lemma_bind_not_free(name, *lhs, val);
            lemma_bind_not_free(name, *rhs, val);
        },
    }
}

/// Substituting a definition replaces every free occurrence of its name:
/// afterwards, where `val` itself has no free occurrence of the name,
/// none is left.
pub proof fn lemma_bind_leaves_no_free(name: Seq<char>, t: Term, val: Term)
    requires
        !occurs_free(val, name),
    ensures
        !occurs_free(bind_term(name, t, val), name),
    decreases t,
{
    match t {
        Term::Var { .. } => {},
        Term::Fun { body, .. } => {
            lemma_bind_leaves_no_free(name, *body, val);
        },
        Term::App { lhs, rhs } => {
            lemma_bind_leaves_no_free(name, *lhs, val);
            lemma_bind_leaves_no_free(name, *rhs, val);
        },
    }
}

/// Linking a spelling to a binder whose identity `env` then gives it keeps
/// a term well bound.
pub proof fn lemma_capture_well_bound_in(
    name: Seq<char>,
    id: u64,
    t: Term,
    env: Map<Seq<char>, u64>,
)
    requires
        well_bound_in(t, env),
    ensures
        well_bound_in(capture_term(name, id, t), env.insert(name, id)),
    decreases t,
{
    match t {
        Term::Var { .. } => {},
        Term::Fun { name: n, id: i, body } => {
            if n == name {
                assert(env.insert(name, id).insert(n, i) =~= env.insert(n, i));
            } else {
                lemma_capture_well_bound_in(name, id, *body, env.insert(n, i));
                assert(env.insert(n, i).insert(name, id) =~= env.insert(name, id).insert(n, i));
            }
        },
        Term::App { lhs, rhs } => {
            lemma_capture_well_bound_in(name, id, *lhs, env);
            lemma_capture_well_bound_in(name, id, *rhs, env);
        },
    }
}

/// Making a lambda of a well-bound body keeps it well bound: every
/// variable spelled like the binder that was free in the body now carries
/// the binder's identity, and every other variable keeps its binder.
pub proof fn lemma_fun_keeps_well_bound(name: Seq<char>, id: u64, body: Term)
    requires
        well_bound(body),
    ensures
        well_bound(mk_fun(name, id, capture_term(name, id, body))),
{
    lemma_capture_well_bound_in(name, id, body, Map::empty());
}

/// Substitution by identity removes every free occurrence of the
/// substituted identity, where the value itself has none.
pub proof fn lemma_apply_leaves_no_free(id: u64, t: Term, val: Term)
    requires
        !id_free(val, id),
    ensures
        !id_free(apply_term(id, t, val), id),
    decreases t,
{
    match t {
        Term::Var { .. } => {},
        Term::Fun { id: i, body, .. } => {
            if i != id {
                lemma_apply_leaves_no_free(id, *body, val);
            }
        },
        Term::App { lhs, rhs } => {
            lemma_apply_leaves_no_free(id, *lhs, val);
            lemma_apply_leaves_no_free(id, *rhs, val);
        },
    }
}

/// Substitution by identity touches no other identity: every other
/// identity free in the term stays free, and an identity free afterwards
/// was free in the term or in the value.
pub proof fn lemma_apply_other_ids(id: u64, t: Term, val: Term, j: u64)
    requires
        j != id,
    ensures
        id_free(t, j) ==> id_free(apply_term(id, t, val), j),
        id_free(apply_term(id, t, val), j) ==> id_free(t, j) || id_free(val, j),
    decreases t,
{
    match t {
        Term::Var { .. } => {},
        Term::Fun { id: i, body, .. } => {
            if i != id {
                lemma_apply_other_ids(id, *body, val, j);
            }
        },
        Term::App { lhs, rhs } => {
            lemma_apply_other_ids(id, *lhs, val, j);
            lemma_apply_other_ids(id, *rhs, val, j);
        },
    }
}

/// Substituting for an identity a variable of that identity, spelled as
/// its free occurrences are, gives the term back: substitution changes
/// nothing but the free occurrences.
pub proof fn lemma_apply_same_var(name: Seq<char>, id: u64, t: Term)
    requires
        names_of_id(t, id, name),
    ensures
        apply_term(id, t, Term::Var { name, id }) == t,
    decreases t,
{
    match t {
        Term::Var { .. } => {},
        Term::Fun { id: i, body, .. } => {
            if i != id {
                lemma_apply_same_var(name, id, *body);
            }
        },
        Term::App { lhs, rhs } => {
            lemma_apply_same_var(name, id, *lhs);
            lemma_apply_same_var(name, id, *rhs);
        },
    }
}

} // verus!
