//! The expression tree of the lambda calculus and its textual rendering.

use vstd::prelude::*;
use vstd::string::StringExecFns;

verus! {

/// A lambda-calculus term: a variable, an application of a function to an
/// argument, or an abstraction binding a parameter over a body.
#[derive(Debug, PartialEq)]
pub enum Exp {
    Var(String),
    Call(Box<Exp>, Box<Exp>),
    Lamb(String, Box<Exp>),
}

/// The mathematical shape of an [`Exp`]: the same tree with every name taken
/// as its sequence of characters.
#[verifier::ext_equal]
pub enum ExpView {
    Var(Seq<char>),
    Call(Box<ExpView>, Box<ExpView>),
    Lamb(Seq<char>, Box<ExpView>),
}

impl Exp {
    /// The mathematical value of this tree.
    pub open spec fn model(&self) -> ExpView
        decreases self,
    {
        match self {
            Exp::Var(n) => ExpView::Var(n@),
            Exp::Call(a, b) => ExpView::Call(Box::new(a.model()), Box::new(b.model())),
            Exp::Lamb(x, r) => ExpView::Lamb(x@, Box::new(r.model())),
        }
    }
}

impl View for Exp {
    type V = ExpView;

    open spec fn view(&self) -> ExpView {
        self.model()
    }
}

impl DeepView for Exp {
    type V = ExpView;

    open spec fn deep_view(&self) -> ExpView {
        self.model()
    }
}

impl Exp {
    /// A structural copy of the tree, equal to the original under the view.
    pub fn duplicate(&self) -> (r: Exp)
        ensures
            r@ == self@,
        decreases self,
    {
        match self {
            Exp::Var(n) => Exp::Var(n.clone()),
            Exp::Call(a, b) => Exp::Call(Box::new(a.duplicate()), Box::new(b.duplicate())),
            Exp::Lamb(x, r) => Exp::Lamb(x.clone(), Box::new(r.duplicate())),
        }
    }
}

/// The rendering context of a sub-term, propagated top-down by the printer.
///
/// `Plain` is the top level or the spine of a left-associated application;
/// `Fun` is the function side of an application; `Arg` is the argument side,
/// which must parenthesize itself when it is an application or an
/// abstraction; `Cont` continues a chain of abstraction parameters, so that
/// nested binders render as a single parameter list.
#[derive(Clone, Copy)]
pub enum Mode {
    Plain,
    Fun,
    Arg,
    Cont,
}

/// The canonical rendering of a term in a given context, with minimal
/// parenthesization: application spines print flat, arguments and inner
/// abstractions are parenthesized, and nested binders merge into one
/// parameter list introduced by the lambda glyph.
pub open spec fn print_at(e: ExpView, m: Mode) -> Seq<char>
    decreases e,
{
    match e {
        ExpView::Var(n) => match m {
            Mode::Cont => seq!['.', ' '] + n,
            _ => n,
        },
        ExpView::Call(a, b) => match m {
            Mode::Cont => seq!['.', ' '] + print_at(*a, Mode::Fun) + seq![' '] + print_at(
                *b,
                Mode::Arg,
            ),
            Mode::Arg => seq!['('] + print_at(*a, Mode::Fun) + seq![' '] + print_at(*b, Mode::Arg)
                + seq![')'],
            _ => print_at(*a, Mode::Fun) + seq![' '] + print_at(*b, Mode::Arg),
        },
        ExpView::Lamb(x, r) => match m {
            Mode::Cont => seq![' '] + x + print_at(*r, Mode::Cont),
            Mode::Fun | Mode::Arg => seq!['(', '\u{3bb}'] + x + print_at(*r, Mode::Cont)
                + seq![')'],
            Mode::Plain => seq!['\u{3bb}'] + x + print_at(*r, Mode::Cont),
        },
    }
}

/// The canonical rendering of a whole term.
pub open spec fn print_of(e: ExpView) -> Seq<char> {
    print_at(e, Mode::Plain)
}

impl Exp {
    /// Appends the rendering of `self` in context `m` to `out`.
    fn print_onto(&self, m: Mode, out: &mut String)
        ensures
            final(out)@ == old(out)@ + print_at(self@, m),
        decreases self,
    {
        proof {
            reveal_strlit(". ");
            reveal_strlit(" ");
            reveal_strlit("(");
            reveal_strlit(")");
            reveal_strlit("\u{3bb}");
            reveal_strlit("(\u{3bb}");
        }
        match self {
            Exp::Var(n) => {
                match m {
                    Mode::Cont => {
                        out.append(". ");
                        out.append(n.as_str());
                    },
                    _ => {
                        out.append(n.as_str());
                    },
                }
            },
            Exp::Call(a, b) => {
                match m {
                    Mode::Cont => {
                        out.append(". ");
                        a.print_onto(Mode::Fun, out);
                        out.append(" ");
                        b.print_onto(Mode::Arg, out);
                    },
                    Mode::Arg => {
                        out.append("(");
                        a.print_onto(Mode::Fun, out);
                        out.append(" ");
                        b.print_onto(Mode::Arg, out);
                        out.append(")");
                    },
                    _ => {
                        a.print_onto(Mode::Fun, out);
                        out.append(" ");
                        b.print_onto(Mode::Arg, out);
                    },
                }
            },
            Exp::Lamb(x, r) => {
                match m {
                    Mode::Cont => {
                        out.append(" ");
                        out.append(x.as_str());
                        r.print_onto(Mode::Cont, out);
                    },
                    Mode::Fun | Mode::Arg => {
                        out.append("(\u{3bb}");
                        out.append(x.as_str());
                        r.print_onto(Mode::Cont, out);
                        out.append(")");
                    },
                    Mode::Plain => {
                        out.append("\u{3bb}");
                        out.append(x.as_str());
                        r.print_onto(Mode::Cont, out);
                    },
                }
            },
        }
    }

    /// The canonical textual form of this term, re-parseable by the parser.
    pub fn to_text(&self) -> (r: String)
        ensures
            r@ == print_of(self@),
    {
        let mut out = String::new();
        self.print_onto(Mode::Plain, &mut out);
        out
    }
}

impl Clone for Exp {
    fn clone(&self) -> (r: Self)
        ensures
            r@ == self@,
    {
        self.duplicate()
    }
}

} // verus!
