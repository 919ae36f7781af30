//! The reduction engine: locating the next redex under the spine-only
//! leftmost-outermost (call-by-name) strategy, capture-avoiding
//! substitution, and single-step or run-to-completion reduction.

use crate::code::{Exp, ExpView};
use vstd::prelude::*;
use vstd::string::{StrSliceExecFns, StringExecFns};

verus! {

/// The location of the next redex, as a path from the root of the tree:
/// `Beta` marks the current node as the redex, `Left` and `Right` descend
/// into the function and argument side of an application, and `Irred` means
/// no redex is reachable.
#[derive(Debug, PartialEq)]
pub enum Reduc {
    Left(Box<Reduc>),
    Right(Box<Reduc>),
    Beta,
    Irred,
}

/// The number of nodes of a term.
pub open spec fn size_of(e: ExpView) -> nat
    decreases e,
{
    match e {
        ExpView::Var(_) => 1,
        ExpView::Call(a, b) => 1 + size_of(*a) + size_of(*b),
        ExpView::Lamb(_, r) => 1 + size_of(*r),
    }
}

/// The longest name that occurs anywhere in a term.
pub open spec fn max_name(e: ExpView) -> int
    decreases e,
{
    match e {
        ExpView::Var(n) => n.len() as int,
        ExpView::Call(a, b) => {
            let ma = max_name(*a);
            let mb = max_name(*b);
            if ma >= mb {
                ma
            } else {
                mb
            }
        },
        ExpView::Lamb(x, r) => {
            let mx = x.len() as int;
            let mr = max_name(*r);
            if mx >= mr {
                mx
            } else {
                mr
            }
        },
    }
}

/// Whether `v` has a free occurrence in `e`: an occurrence not enclosed by
/// an abstraction binding the same name.
pub open spec fn free_in_v(v: Seq<char>, e: ExpView) -> bool
    decreases e,
{
    match e {
        ExpView::Var(n) => v == n,
        ExpView::Call(a, b) => free_in_v(v, *a) || free_in_v(v, *b),
        ExpView::Lamb(x, r) => v != x && free_in_v(v, *r),
    }
}

/// A name with a free occurrence is a name of the term, so it is no longer
/// than the longest name of the term.
pub proof fn lemma_free_len(v: Seq<char>, e: ExpView)
    requires
        free_in_v(v, e),
    ensures
        v.len() <= max_name(e),
    decreases e,
{
    match e {
        ExpView::Var(_) => {},
        ExpView::Call(a, b) => {
            if free_in_v(v, *a) {
                lemma_free_len(v, *a);
            } else {
                lemma_free_len(v, *b);
            }
        },
        ExpView::Lamb(_, r) => {
            lemma_free_len(v, *r);
        },
    }
}

/// Fuelled capture-avoiding substitution, mirroring the procedure of the
/// executable [`sub`]: replace free occurrences of `name` by `new`, leaving
/// shadowed scopes untouched, and alpha-renaming a binder (appending an
/// apostrophe) whenever its parameter occurs free in `new`.  `None` means
/// the fuel ran out; [`lemma_sub_f_total`] shows enough fuel always exists.
pub open spec fn sub_f(e: ExpView, name: Seq<char>, new: ExpView, fuel: nat) -> Option<ExpView>
    decreases fuel,
{
    if fuel == 0 {
        None
    } else {
        match e {
            ExpView::Var(n) => Some(
                if n == name {
                    new
                } else {
                    ExpView::Var(n)
                },
            ),
            ExpView::Call(a, b) => {
                match (sub_f(*a, name, new, (fuel - 1) as nat), sub_f(
                    *b,
                    name,
                    new,
                    (fuel - 1) as nat,
                )) {
                    (Some(a2), Some(b2)) => Some(ExpView::Call(Box::new(a2), Box::new(b2))),
                    _ => None,
                }
            },
            ExpView::Lamb(x, r) => {
                if name == x {
                    Some(ExpView::Lamb(x, r))
                } else if free_in_v(x, new) {
                    let x2 = x.push('\'');
                    match sub_f(*r, x, ExpView::Var(x2), (fuel - 1) as nat) {
                        Some(r2) => sub_f(
                            ExpView::Lamb(x2, Box::new(r2)),
                            name,
                            new,
                            (fuel - 1) as nat,
                        ),
                        None => None,
                    }
                } else {
                    match sub_f(*r, name, new, (fuel - 1) as nat) {
                        Some(r2) => Some(ExpView::Lamb(x, Box::new(r2))),
                        None => None,
                    }
                }
            },
        }
    }
}

/// Once the fuel suffices, more fuel does not change the result.
pub proof fn lemma_sub_f_stable(e: ExpView, name: Seq<char>, new: ExpView, f1: nat, f2: nat)
    requires
        f1 <= f2,
        sub_f(e, name, new, f1) is Some,
    ensures
        sub_f(e, name, new, f2) == sub_f(e, name, new, f1),
    decreases f1,
{
    if f1 > 0 && f1 < f2 {
        match e {
            ExpView::Var(_) => {},
            ExpView::Call(a, b) => {
                lemma_sub_f_stable(*a, name, new, (f1 - 1) as nat, (f2 - 1) as nat);
                lemma_sub_f_stable(*b, name, new, (f1 - 1) as nat, (f2 - 1) as nat);
            },
            ExpView::Lamb(x, r) => {
                if name == x {
                } else if free_in_v(x, new) {
                    let x2 = x.push('\'');
                    lemma_sub_f_stable(*r, x, ExpView::Var(x2), (f1 - 1) as nat, (f2 - 1) as nat);
                    match sub_f(*r, x, ExpView::Var(x2), (f1 - 1) as nat) {
                        Some(r2) => {
                            lemma_sub_f_stable(
                                ExpView::Lamb(x2, Box::new(r2)),
                                name,
                                new,
                                (f1 - 1) as nat,
                                (f2 - 1) as nat,
                            );
                        },
                        None => {},
                    }
                } else {
                    lemma_sub_f_stable(*r, name, new, (f1 - 1) as nat, (f2 - 1) as nat);
                }
            },
        }
    }
}

/// Substituting a variable for a variable keeps the number of nodes.
pub proof fn lemma_sub_f_size(e: ExpView, name: Seq<char>, v: Seq<char>, f: nat, r: ExpView)
    requires
        sub_f(e, name, ExpView::Var(v), f) == Some(r),
    ensures
        size_of(r) == size_of(e),
    decreases f,
{
    let new = ExpView::Var(v);
    match e {
        ExpView::Var(_) => {},
        ExpView::Call(a, b) => {
            let a2 = sub_f(*a, name, new, (f - 1) as nat)->Some_0;
            let b2 = sub_f(*b, name, new, (f - 1) as nat)->Some_0;
            lemma_sub_f_size(*a, name, v, (f - 1) as nat, a2);
            lemma_sub_f_size(*b, name, v, (f - 1) as nat, b2);
        },
        ExpView::Lamb(x, r0) => {
            if name == x {
            } else if free_in_v(x, new) {
                let x2 = x.push('\'');
                let r2 = sub_f(*r0, x, ExpView::Var(x2), (f - 1) as nat)->Some_0;
                lemma_sub_f_size(*r0, x, x2, (f - 1) as nat, r2);
                lemma_sub_f_size(ExpView::Lamb(x2, Box::new(r2)), name, v, (f - 1) as nat, r);
            } else {
                let r2 = sub_f(*r0, name, new, (f - 1) as nat)->Some_0;
                lemma_sub_f_size(*r0, name, v, (f - 1) as nat, r2);
            }
        },
    }
}

/// How many more alpha-renames the binder at the head of `e` may need
/// before its parameter can no longer occur free in `w`.
pub open spec fn bud_of(e: ExpView, w: ExpView) -> int {
    match e {
        ExpView::Lamb(x, _) => {
            if x.len() <= max_name(w) {
                max_name(w) + 1 - x.len()
            } else {
                0
            }
        },
        _ => 0,
    }
}

/// Some amount of fuel always suffices: the substitution procedure
/// terminates on every term.
pub proof fn lemma_sub_f_total(e: ExpView, name: Seq<char>, new: ExpView)
    ensures
        exists|f: nat| sub_f(e, name, new, f) is Some,
    decreases size_of(e), bud_of(e, new),
{
    match e {
        ExpView::Var(_) => {
            assert(sub_f(e, name, new, 1) is Some);
        },
        ExpView::Call(a, b) => {
            lemma_sub_f_total(*a, name, new);
            lemma_sub_f_total(*b, name, new);
            let fa = choose|f: nat| sub_f(*a, name, new, f) is Some;
            let fb = choose|f: nat| sub_f(*b, name, new, f) is Some;
            let f = if fa >= fb {
                fa
            } else {
                fb
            };
            lemma_sub_f_stable(*a, name, new, fa, f);
            lemma_sub_f_stable(*b, name, new, fb, f);
            assert(sub_f(e, name, new, f + 1) is Some);
        },
        ExpView::Lamb(x, r) => {
            if name == x {
                assert(sub_f(e, name, new, 1) is Some);
            } else if free_in_v(x, new) {
                let x2 = x.push('\'');
                lemma_sub_f_total(*r, x, ExpView::Var(x2));
                let f1 = choose|f: nat| sub_f(*r, x, ExpView::Var(x2), f) is Some;
                let r2 = sub_f(*r, x, ExpView::Var(x2), f1)->Some_0;
                lemma_sub_f_size(*r, x, x2, f1, r2);
                lemma_free_len(x, new);
                lemma_sub_f_total(ExpView::Lamb(x2, Box::new(r2)), name, new);
                let f2 = choose|f: nat|
                    sub_f(ExpView::Lamb(x2, Box::new(r2)), name, new, f) is Some;
                let f = if f1 >= f2 {
                    f1
                } else {
                    f2
                };
                lemma_sub_f_stable(*r, x, ExpView::Var(x2), f1, f);
                lemma_sub_f_stable(ExpView::Lamb(x2, Box::new(r2)), name, new, f2, f);
                assert(sub_f(e, name, new, f + 1) is Some);
            } else {
                lemma_sub_f_total(*r, name, new);
                let f1 = choose|f: nat| sub_f(*r, name, new, f) is Some;
                assert(sub_f(e, name, new, f1 + 1) is Some);
            }
        },
    }
}

/// Capture-avoiding substitution of `new` for the free occurrences of
/// `name` in `e`: the common result of [`sub_f`] under every sufficient
/// fuel.
pub open spec fn sub_v(e: ExpView, name: Seq<char>, new: ExpView) -> ExpView {
    let f = choose|f: nat| sub_f(e, name, new, f) is Some;
    sub_f(e, name, new, f)->Some_0
}

/// Whenever the fuel suffices, `sub_f` returns exactly [`sub_v`].
pub proof fn lemma_sub_f_canon(e: ExpView, name: Seq<char>, new: ExpView, f: nat)
    requires
        sub_f(e, name, new, f) is Some,
    ensures
        sub_f(e, name, new, f) == Some(sub_v(e, name, new)),
{
    let fc = choose|fc: nat| sub_f(e, name, new, fc) is Some;
    if f <= fc {
        lemma_sub_f_stable(e, name, new, f, fc);
    } else {
        lemma_sub_f_stable(e, name, new, fc, f);
    }
}

/// Substituting into a variable replaces it exactly when its name matches.
pub proof fn lemma_sub_var(n: Seq<char>, name: Seq<char>, w: ExpView)
    ensures
        sub_v(ExpView::Var(n), name, w) == if n == name {
            w
        } else {
            ExpView::Var(n)
        },
{
    assert(sub_f(ExpView::Var(n), name, w, 1) is Some);
    lemma_sub_f_canon(ExpView::Var(n), name, w, 1);
}

/// Substitution distributes over application.
pub proof fn lemma_sub_call(a: ExpView, b: ExpView, name: Seq<char>, w: ExpView)
    ensures
        sub_v(ExpView::Call(Box::new(a), Box::new(b)), name, w) == ExpView::Call(
            Box::new(sub_v(a, name, w)),
            Box::new(sub_v(b, name, w)),
        ),
{
    let e = ExpView::Call(Box::new(a), Box::new(b));
    lemma_sub_f_total(a, name, w);
    lemma_sub_f_total(b, name, w);
    let fa = choose|f: nat| sub_f(a, name, w, f) is Some;
    let fb = choose|f: nat| sub_f(b, name, w, f) is Some;
    let f = if fa >= fb {
        fa
    } else {
        fb
    };
    lemma_sub_f_stable(a, name, w, fa, f);
    lemma_sub_f_stable(b, name, w, fb, f);
    lemma_sub_f_canon(a, name, w, f);
    lemma_sub_f_canon(b, name, w, f);
    assert(sub_f(e, name, w, f + 1) is Some);
    lemma_sub_f_canon(e, name, w, f + 1);
}

/// A binder that binds the substituted name shadows it: nothing changes.
pub proof fn lemma_sub_lamb_shadow(x: Seq<char>, r: ExpView, name: Seq<char>, w: ExpView)
    requires
        name == x,
    ensures
        sub_v(ExpView::Lamb(x, Box::new(r)), name, w) == ExpView::Lamb(x, Box::new(r)),
{
    let e = ExpView::Lamb(x, Box::new(r));
    assert(sub_f(e, name, w, 1) is Some);
    lemma_sub_f_canon(e, name, w, 1);
}

/// A binder whose parameter occurs free in the replacement is first
/// alpha-renamed (appending an apostrophe), and the substitution retried on
/// the renamed abstraction.
pub proof fn lemma_sub_lamb_rename(x: Seq<char>, r: ExpView, name: Seq<char>, w: ExpView)
    requires
        name != x,
        free_in_v(x, w),
    ensures
        sub_v(ExpView::Lamb(x, Box::new(r)), name, w) == sub_v(
            ExpView::Lamb(x.push('\''), Box::new(sub_v(r, x, ExpView::Var(x.push('\''))))),
            name,
            w,
        ),
{
    let e = ExpView::Lamb(x, Box::new(r));
    let x2 = x.push('\'');
    lemma_sub_f_total(r, x, ExpView::Var(x2));
    let f1 = choose|f: nat| sub_f(r, x, ExpView::Var(x2), f) is Some;
    lemma_sub_f_canon(r, x, ExpView::Var(x2), f1);
    let r2 = sub_v(r, x, ExpView::Var(x2));
    let e2 = ExpView::Lamb(x2, Box::new(r2));
    lemma_sub_f_total(e2, name, w);
    let f2 = choose|f: nat| sub_f(e2, name, w, f) is Some;
    let f = if f1 >= f2 {
        f1
    } else {
        f2
    };
    lemma_sub_f_stable(r, x, ExpView::Var(x2), f1, f);
    lemma_sub_f_stable(e2, name, w, f2, f);
    lemma_sub_f_canon(e2, name, w, f);
    assert(sub_f(e, name, w, f + 1) is Some);
    lemma_sub_f_canon(e, name, w, f + 1);
}

/// A binder that neither matches the substituted name nor captures the
/// replacement passes the substitution into its body.
pub proof fn lemma_sub_lamb_free(x: Seq<char>, r: ExpView, name: Seq<char>, w: ExpView)
    requires
        name != x,
        !free_in_v(x, w),
    ensures
        sub_v(ExpView::Lamb(x, Box::new(r)), name, w) == ExpView::Lamb(
            x,
            Box::new(sub_v(r, name, w)),
        ),
{
    let e = ExpView::Lamb(x, Box::new(r));
    lemma_sub_f_total(r, name, w);
    let f1 = choose|f: nat| sub_f(r, name, w, f) is Some;
    lemma_sub_f_canon(r, name, w, f1);
    assert(sub_f(e, name, w, f1 + 1) is Some);
    lemma_sub_f_canon(e, name, w, f1 + 1);
}

/// Substituting a variable for a variable keeps the number of nodes.
pub proof fn lemma_sub_size(e: ExpView, name: Seq<char>, v: Seq<char>)
    ensures
        size_of(sub_v(e, name, ExpView::Var(v))) == size_of(e),
{
    lemma_sub_f_total(e, name, ExpView::Var(v));
    let f = choose|f: nat| sub_f(e, name, ExpView::Var(v), f) is Some;
    lemma_sub_f_canon(e, name, ExpView::Var(v), f);
    lemma_sub_f_size(e, name, v, f, sub_v(e, name, ExpView::Var(v)));
}

/// Character-by-character string equality.
fn str_eq(a: &str, b: &str) -> (r: bool)
    ensures
        r == (a@ == b@),
{
    let na = a.unicode_len();
    let nb = b.unicode_len();
    if na != nb {
        proof {
            assert(a@ != b@);
        }
        return false;
    }
    let mut i: usize = 0;
    while i < na
        invariant
            na == a@.len(),
            na == b@.len(),
            i <= na,
            forall|k: int| 0 <= k < i ==> a@[k] == b@[k],
        decreases na - i,
    {
        if a.get_char(i) != b.get_char(i) {
            proof {
                assert(a@[i as int] != b@[i as int]);
            }
            return false;
        }
        i += 1;
    }
    proof {
        assert(a@ =~= b@);
    }
    true
}

/// Whether `var` has a free occurrence in `ex`.
pub fn free_in(var: &str, ex: &Exp) -> (b: bool)
    ensures
        b == free_in_v(var@, ex@),
    decreases ex,
{
    match ex {
        Exp::Var(n) => str_eq(var, n.as_str()),
        Exp::Call(a, b) => free_in(var, a) || free_in(var, b),
        Exp::Lamb(x, r) => !str_eq(var, x.as_str()) && free_in(var, r),
    }
}

/// The renaming of an abstraction's bound parameter to `new`:
/// `\x. r` becomes `\new. r[x := new]`.
pub open spec fn alpha_v(e: ExpView, v: Seq<char>) -> ExpView {
    match e {
        ExpView::Lamb(x, r) => ExpView::Lamb(v, Box::new(sub_v(*r, x, ExpView::Var(v)))),
        _ => e,
    }
}

/// Renames the bound parameter of an abstraction.  Only abstractions are
/// ever alpha-renamed; any other argument is an internal contract breach,
/// which the precondition rules out.
fn alpha(ex: Exp, new: String) -> (res: Exp)
    requires
        ex@ is Lamb,
    ensures
        res@ == alpha_v(ex@, new@),
    decreases size_of(ex@), 0int, 0int,
{
    match ex {
        Exp::Lamb(x, r) => {
            let param = new.clone();
            let body = crate::reduce::sub(*r, x.as_str(), Exp::Var(new));
            Exp::Lamb(param, Box::new(body))
        },
        _ => vstd::pervasive::unreached(),
    }
}

/// Capture-avoiding substitution: a new tree equal to `ex` with every free
/// occurrence of `name` replaced by `new`, alpha-renaming binders as
/// needed so that no free variable of `new` is captured.
pub fn sub(ex: Exp, name: &str, new: Exp) -> (res: Exp)
    ensures
        res@ == sub_v(ex@, name@, new@),
    decreases size_of(ex@), bud_of(ex@, new@), 1int,
{
    let ghost newv = new@;
    match ex {
        Exp::Var(n) => {
            proof {
                lemma_sub_var(n@, name@, newv);
            }
            if str_eq(name, n.as_str()) {
                new
            } else {
                Exp::Var(n)
            }
        },
        Exp::Call(a, b) => {
            let ghost av = a@;
            let ghost bv = b@;
            proof {
                lemma_sub_call(av, bv, name@, newv);
            }
            let a2 = crate::reduce::sub(*a, name, new.clone());
            let b2 = crate::reduce::sub(*b, name, new);
            Exp::Call(Box::new(a2), Box::new(b2))
        },
        Exp::Lamb(x, r) => {
            let ghost xv = x@;
            let ghost rv = r@;
            if str_eq(name, x.as_str()) {
                proof {
                    lemma_sub_lamb_shadow(xv, rv, name@, newv);
                }
                Exp::Lamb(x, r)
            } else if free_in(x.as_str(), &new) {
                let mut x_new = x.clone();
                x_new.append("'");
                proof {
                    reveal_strlit("'");
                    assert(x_new@ =~= xv.push('\''));
                    lemma_sub_lamb_rename(xv, rv, name@, newv);
                    lemma_sub_size(rv, xv, xv.push('\''));
                    lemma_free_len(xv, newv);
                }
                let renamed = alpha(Exp::Lamb(x, r), x_new);
                crate::reduce::sub(renamed, name, new)
            } else {
                proof {
                    lemma_sub_lamb_free(xv, rv, name@, newv);
                }
                Exp::Lamb(x, Box::new(crate::reduce::sub(*r, name, new)))
            }
        },
    }
}

/// Whether `red` describes a position that actually exists in `e`: `Beta`
/// demands an application whose function side is an abstraction, `Left` and
/// `Right` demand an application to descend into, and `Irred` fits any
/// term.  Applying a path that does not fit is an internal contract breach.
pub open spec fn red_ok(e: ExpView, red: Reduc) -> bool
    decreases red,
{
    match red {
        Reduc::Beta => match e {
            ExpView::Call(a, _) => *a is Lamb,
            _ => false,
        },
        Reduc::Left(rr) => match e {
            ExpView::Call(a, _) => red_ok(*a, *rr),
            _ => false,
        },
        Reduc::Right(rr) => match e {
            ExpView::Call(_, b) => red_ok(*b, *rr),
            _ => false,
        },
        Reduc::Irred => true,
    }
}

/// The tree rewritten at the position `red` describes: beta-reduction at
/// the marked redex, rebuilt applications along the path, and the tree
/// unchanged for `Irred`.
pub open spec fn apply_red(e: ExpView, red: Reduc) -> ExpView
    recommends
        red_ok(e, red),
    decreases red,
{
    match red {
        Reduc::Beta => match e {
            ExpView::Call(a, b) => match *a {
                ExpView::Lamb(x, r) => sub_v(*r, x, *b),
                _ => e,
            },
            _ => e,
        },
        Reduc::Left(rr) => match e {
            ExpView::Call(a, b) => ExpView::Call(Box::new(apply_red(*a, *rr)), b),
            _ => e,
        },
        Reduc::Right(rr) => match e {
            ExpView::Call(a, b) => ExpView::Call(a, Box::new(apply_red(*b, *rr))),
            _ => e,
        },
        Reduc::Irred => e,
    }
}

/// The spine-only leftmost-outermost (call-by-name) strategy: an
/// application whose function side is an abstraction is the redex;
/// otherwise search the function side, then the argument side.  The search
/// never descends into an abstraction's body.
pub open spec fn byname_red(e: ExpView) -> Reduc
    decreases e,
{
    match e {
        ExpView::Call(a, b) => {
            if *a is Lamb {
                Reduc::Beta
            } else {
                match byname_red(*a) {
                    Reduc::Irred => match byname_red(*b) {
                        Reduc::Irred => Reduc::Irred,
                        rb => Reduc::Right(Box::new(rb)),
                    },
                    ra => Reduc::Left(Box::new(ra)),
                }
            }
        },
        _ => Reduc::Irred,
    }
}

/// The by-name strategy always reports a position that exists in the tree.
pub proof fn lemma_byname_ok(e: ExpView)
    ensures
        red_ok(e, byname_red(e)),
    decreases e,
{
    match e {
        ExpView::Call(a, b) => {
            lemma_byname_ok(*a);
            lemma_byname_ok(*b);
        },
        _ => {},
    }
}

/// Whether `b` arises from `a` by `n` rewrites of the strategy's own
/// choosing: each step takes a position the strategy can report for the
/// tree at hand — never `Irred` — and rewrites there.  For a strategy whose
/// contract pins its result, such as [`strat_byname`], the whole chain is
/// determined by `a` and `n`.
pub open spec fn strat_reaches<F: Fn(&Exp) -> Reduc>(
    strat: F,
    a: ExpView,
    b: ExpView,
    n: nat,
) -> bool
    decreases n,
{
    if n == 0 {
        a == b
    } else {
        exists|e2: &Exp, red: Reduc|
            e2@ == a && #[trigger] call_ensures(strat, (e2,), red) && !(red is Irred) && red_ok(
                a,
                red,
            ) && strat_reaches(strat, apply_red(a, red), b, (n - 1) as nat)
    }
}

/// A rewrite the strategy reports for the end of a chain extends the chain.
pub proof fn lemma_strat_reaches_snoc<F: Fn(&Exp) -> Reduc>(
    strat: F,
    a: ExpView,
    b: ExpView,
    n: nat,
    w: &Exp,
    red: Reduc,
)
    requires
        strat_reaches(strat, a, b, n),
        w@ == b,
        call_ensures(strat, (w,), red),
        !(red is Irred),
        red_ok(b, red),
    ensures
        strat_reaches(strat, a, apply_red(b, red), n + 1),
    decreases n,
{
    if n == 0 {
        assert(strat_reaches(strat, apply_red(a, red), apply_red(a, red), 0));
    } else {
        let (e0, red0) = choose|e0: &Exp, red0: Reduc|
            e0@ == a && #[trigger] call_ensures(strat, (e0,), red0) && !(red0 is Irred) && red_ok(
                a,
                red0,
            ) && strat_reaches(strat, apply_red(a, red0), b, (n - 1) as nat);
        lemma_strat_reaches_snoc(strat, apply_red(a, red0), b, (n - 1) as nat, w, red);
        assert(e0@ == a && call_ensures(strat, (e0,), red0) && !(red0 is Irred) && red_ok(a, red0)
            && strat_reaches(strat, apply_red(a, red0), apply_red(b, red), n));
    }
}

/// The term after `n` by-name steps: each step rewrites at the position
/// [`byname_red`] reports.  This is the unique run-to-completion chain of
/// the by-name strategy, and the sequence of terms its stepwise trace
/// yields.
pub open spec fn byname_steps(a: ExpView, n: nat) -> ExpView
    decreases n,
{
    if n == 0 {
        a
    } else {
        byname_steps(apply_red(a, byname_red(a)), (n - 1) as nat)
    }
}

/// A strategy whose every result is the by-name position admits only the
/// by-name chain: whatever `strat_reaches` relates to `a` in `n` steps is
/// the `n`-th by-name step of `a`.  With the contract of [`reduce_full`]
/// this pins its result for such a strategy, [`strat_byname`] included.
pub proof fn lemma_byname_chain<F: Fn(&Exp) -> Reduc>(strat: F, a: ExpView, b: ExpView, n: nat)
    requires
        forall|e2: &Exp, red: Reduc| #[trigger] call_ensures(strat, (e2,), red) ==> red
            == byname_red(e2@),
        strat_reaches(strat, a, b, n),
    ensures
        b == byname_steps(a, n),
        n > 0 ==> !(byname_red(a) is Irred),
    decreases n,
{
    if n > 0 {
        let (e0, red0) = choose|e0: &Exp, red0: Reduc|
            e0@ == a && #[trigger] call_ensures(strat, (e0,), red0) && !(red0 is Irred) && red_ok(
                a,
                red0,
            ) && strat_reaches(strat, apply_red(a, red0), b, (n - 1) as nat);
        assert(red0 == byname_red(a));
        lemma_byname_chain(strat, apply_red(a, red0), b, (n - 1) as nat);
    }
}

/// The executable by-name strategy: returns [`byname_red`] of the tree.
pub fn strat_byname(ex: &Exp) -> (r: Reduc)
    ensures
        r == byname_red(ex@),
    decreases ex,
{
    match ex {
        Exp::Call(a, b) => {
            proof {
                assert(ex@ == ExpView::Call(Box::new(a@), Box::new(b@)));
            }
            match &**a {
                Exp::Lamb(_, _) => {
                    proof {
                        assert(a@ is Lamb);
                    }
                    Reduc::Beta
                },
                _ => {
                    proof {
                        assert(!(a@ is Lamb));
                    }
                    match strat_byname(a) {
                        Reduc::Irred => match strat_byname(b) {
                            Reduc::Irred => Reduc::Irred,
                            rb => Reduc::Right(Box::new(rb)),
                        },
                        ra => Reduc::Left(Box::new(ra)),
                    }
                },
            }
        },
        _ => Reduc::Irred,
    }
}

/// Rewrites `ex` at the position `red`, which must describe a position
/// that exists in `ex`: beta-reduction at the marked redex, or a rebuilt
/// application around the rewritten child.
pub fn reduce_with(ex: Exp, red: &Reduc) -> (r: Exp)
    requires
        red_ok(ex@, *red),
    ensures
        r@ == apply_red(ex@, *red),
    decreases *red,
{
    match red {
        Reduc::Beta => match ex {
            Exp::Call(a, b) => match *a {
                Exp::Lamb(x, r) => crate::reduce::sub(*r, x.as_str(), *b),
                _ => vstd::pervasive::unreached(),
            },
            _ => vstd::pervasive::unreached(),
        },
        Reduc::Left(rr) => match ex {
            Exp::Call(a, b) => Exp::Call(Box::new(reduce_with(*a, rr)), b),
            _ => vstd::pervasive::unreached(),
        },
        Reduc::Right(rr) => match ex {
            Exp::Call(a, b) => Exp::Call(a, Box::new(reduce_with(*b, rr))),
            _ => vstd::pervasive::unreached(),
        },
        Reduc::Irred => ex,
    }
}

/// One step: asks the strategy for the next position and rewrites there.
/// The strategy may be any function whose every result is a position that
/// exists in the tree it was asked about.
pub fn reduce_step<F: Fn(&Exp) -> Reduc>(strat: F, ex: Exp) -> (r: (Reduc, Exp))
    requires
        forall|e: &Exp| #[trigger] call_requires(strat, (e,)),
        forall|e: &Exp, red: Reduc| call_ensures(strat, (e,), red) ==> red_ok(e@, red),
    ensures
        red_ok(ex@, r.0),
        r.1@ == apply_red(ex@, r.0),
        exists|e2: &Exp| e2@ == ex@ && #[trigger] call_ensures(strat, (e2,), r.0),
{
    let red = strat(&ex);
    let ex2 = reduce_with(ex, &red);
    (red, ex2)
}

/// Runs the strategy to completion: rewrites at the strategy's reported
/// position until the strategy reports no redex, and returns the final
/// tree.  The result is the end of the strategy's own chain of rewrites
/// ([`strat_reaches`]), and — unless the chain has run for a step count no
/// feasible computation reaches — a term the strategy reports irreducible.
/// A term with no normal form under the strategy keeps the loop running; a
/// term the strategy already calls irreducible comes back unchanged.
#[verifier::loop_isolation(false)]
pub fn reduce_full<F: Fn(&Exp) -> Reduc>(strat: F, ex: Exp) -> (r: Exp)
    requires
        forall|e: &Exp| #[trigger] call_requires(strat, (e,)),
        forall|e: &Exp, red: Reduc| call_ensures(strat, (e,), red) ==> red_ok(e@, red),
    ensures
        exists|n: nat|
            #[trigger] strat_reaches(strat, ex@, r@, n) && (n == u64::MAX as nat || exists|
                e2: &Exp,
            |
                e2@ == r@ && #[trigger] call_ensures(strat, (e2,), Reduc::Irred)),
        (forall|e2: &Exp, red: Reduc|
            e2@ == ex@ && #[trigger] call_ensures(strat, (e2,), red) ==> red is Irred) ==> r@
            == ex@,
{
    let ghost ex0 = ex@;
    let mut cur = ex;
    let mut k: u64 = 0;
    loop
        invariant
            forall|e: &Exp| #[trigger] call_requires(strat, (e,)),
            forall|e: &Exp, red: Reduc| call_ensures(strat, (e,), red) ==> red_ok(e@, red),
            strat_reaches(strat, ex0, cur@, k as nat),
            k < u64::MAX,
            (forall|e2: &Exp, red: Reduc|
                e2@ == ex0 && #[trigger] call_ensures(strat, (e2,), red) ==> red is Irred) ==> (k
                == 0 && cur@ == ex0),
        decreases u64::MAX - k,
    {
        let red = strat(&cur);
        proof {
            assert(call_ensures(strat, (&cur,), red));
        }
        match &red {
            Reduc::Irred => {
                proof {
                    assert(red == Reduc::Irred);
                    assert(strat_reaches(strat, ex0, cur@, k as nat));
                }
                return cur;
            },
            _ => {},
        }
        proof {
            assert(red_ok(cur@, red));
            lemma_strat_reaches_snoc(strat, ex0, cur@, k as nat, &cur, red);
        }
        cur = reduce_with(cur, &red);
        k = k + 1;
        if k == u64::MAX {
            return cur;
        }
    }
}

/// The lazy sequence of reduction steps of a term under a strategy: each
/// call of [`ReducIter::next`] performs one search and one rewrite.
pub struct ReducIter<F: Fn(&Exp) -> Reduc> {
    strat: F,
    ex: Exp,
}

impl<F: Fn(&Exp) -> Reduc> ReducIter<F> {
    /// The term the next step will start from.
    pub closed spec fn cur(&self) -> ExpView {
        self.ex@
    }

    /// The strategy driving the iteration.
    pub closed spec fn fun(&self) -> F {
        self.strat
    }

    /// One step: `Some` with the position taken and the tree after the
    /// rewrite, or `None` once the strategy reports no redex.
    pub fn next(&mut self) -> (r: Option<(Reduc, Exp)>)
        requires
            forall|e: &Exp| #[trigger] call_requires(old(self).fun(), (e,)),
            forall|e: &Exp, red: Reduc|
                call_ensures(old(self).fun(), (e,), red) ==> red_ok(e@, red),
        ensures
            final(self).fun() == old(self).fun(),
            match r {
                Some((red, e2)) => {
                    &&& !(red is Irred)
                    &&& red_ok(old(self).cur(), red)
                    &&& e2@ == apply_red(old(self).cur(), red)
                    &&& final(self).cur() == e2@
                    &&& exists|e3: &Exp|
                        e3@ == old(self).cur() && #[trigger] call_ensures(
                            old(self).fun(),
                            (e3,),
                            red,
                        )
                },
                None => {
                    &&& final(self).cur() == old(self).cur()
                    &&& exists|e3: &Exp|
                        e3@ == old(self).cur() && #[trigger] call_ensures(
                            old(self).fun(),
                            (e3,),
                            Reduc::Irred,
                        )
                },
            },
    {
        proof {
            assert(self.strat == old(self).fun());
            assert(call_requires(old(self).fun(), (&self.ex,)));
        }
        let red = (self.strat)(&self.ex);
        proof {
            assert(call_ensures(old(self).fun(), (&self.ex,), red));
            assert(red_ok(self.ex@, red));
        }
        let next_ex = reduce_with(self.ex.clone(), &red);
        self.ex = next_ex;
        match red {
            Reduc::Irred => None,
            red => Some((red, self.ex.clone())),
        }
    }
}

/// The stepwise trace of `ex` under `strat`, pulled one step at a time.
pub fn reduce_iter<F: Fn(&Exp) -> Reduc>(strat: F, ex: Exp) -> (it: ReducIter<F>)
    ensures
        it.fun() == strat,
        it.cur() == ex@,
{
    ReducIter { strat, ex }
}

} // verus!
