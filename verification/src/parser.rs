//! A recursive-descent parser from source text to an [`Exp`] tree.
//!
//! The grammar is byte-oriented: an expression is a left-associated fold of
//! atoms (parenthesized groups, abstractions, let-bindings and variables),
//! whitespace separates tokens, `#` starts a line comment, and every
//! diagnostic carries the byte offset at which it arose.  The whole parse is
//! specified by the spec-level functions [`sp_parse`] and [`sp_loop`], which
//! the executable parser provably implements.

use crate::code::{print_at, print_of, Exp, ExpView, Mode};
use crate::reduce::size_of;
use vstd::prelude::*;
use vstd::string::StrSliceExecFns;

verus! {

/// A diagnostic: what went wrong, and the byte offset in the input at which
/// it was detected.
#[derive(Debug, PartialEq, Eq)]
pub struct ParseError {
    pub typ: PErrType,
    pub pos: usize,
}

/// Every way an input can be malformed.
#[derive(Debug, PartialEq, Eq)]
pub enum PErrType {
    /// A group, body or input that contains no expression at all.
    EmptyCall,
    /// A `)` with no matching `(`.
    CloseEarly,
    /// A `(` whose group is still open at the end of the input.
    NoClose,
    /// Input left over after the top-level expression.
    Incomplete,
    /// An abstraction whose parameter list ends — at the `.`, at a reserved
    /// token, or at the end of the input — before any parameter was
    /// collected.
    EmptyArgs,
    /// A reserved token other than `.` in an abstraction's parameter list,
    /// after at least one parameter.
    BadArgs,
    /// A let-binding whose name is not followed by `:=`.
    BadLet,
    /// A reserved token (`:=`, `;` or `.`) where an atom was expected.
    Reserved,
}

/// The surrounding context of a sub-parse, which decides how `)` and `;` are
/// handled and where the sub-parse ends.
#[derive(Clone, Copy, PartialEq, Eq, Structural)]
pub enum PCtx {
    /// The whole input: ends only at the end of the text.
    Root,
    /// Inside `( ... )`: ends at the matching close paren.
    Paren,
    /// An abstraction body: ends at an unmatched `)`, a `;`, or the end.
    Fun,
    /// A let-binding's value: ends at `;`, and rejects an unmatched `)`.
    Let,
}

/// Whitespace: space, tab, carriage return or line feed.
pub open spec fn is_space_char(c: char) -> bool {
    c == ' ' || c == '\n' || c == '\r' || c == '\t'
}

/// How many bytes the UTF-8 encoding of `c` occupies.
pub open spec fn char_w(c: char) -> int {
    if (c as u32) < 0x80 {
        1
    } else if (c as u32) < 0x800 {
        2
    } else if (c as u32) < 0x10000 {
        3
    } else {
        4
    }
}

/// The byte offset of the `i`-th character of `s`: the total width of the
/// characters before it.
pub open spec fn boff(s: Seq<char>, i: int) -> int
    decreases i,
{
    if i <= 0 {
        0
    } else {
        boff(s, i - 1) + char_w(s[i - 1])
    }
}

/// `char_w` is the length of the UTF-8 encoding vstd ascribes to a character.
pub proof fn lemma_char_w(c: char)
    ensures
        char_w(c) == vstd::utf8::encode_scalar(c as u32).len(),
        1 <= char_w(c) <= 4,
{
    broadcast use vstd::utf8::char_is_scalar;

}

/// Byte offsets grow with the character index.
pub proof fn lemma_boff_mono(s: Seq<char>, i: int, j: int)
    requires
        i <= j,
    ensures
        boff(s, i) <= boff(s, j),
    decreases j - i,
{
    if i < j {
        lemma_char_w(s[j - 1]);
        lemma_boff_mono(s, i, j - 1);
    }
}

proof fn lemma_boff_drop_first(s: Seq<char>, k: int)
    requires
        s.len() > 0,
        1 <= k <= s.len(),
    ensures
        boff(s, k) == char_w(s[0]) + boff(s.drop_first(), k - 1),
    decreases k,
{
    reveal_with_fuel(boff, 2);
    if k == 1 {
        assert(boff(s, 1) == boff(s, 0) + char_w(s[0]));
    } else {
        lemma_boff_drop_first(s, k - 1);
        assert(s.drop_first()[k - 2] == s[k - 1]);
        assert(boff(s, k) == boff(s, k - 1) + char_w(s[k - 1]));
        assert(boff(s.drop_first(), k - 1) == boff(s.drop_first(), k - 2) + char_w(
            s.drop_first()[k - 2],
        ));
    }
}

/// The byte offset at the end of the text is the length of its UTF-8
/// encoding.
pub proof fn lemma_boff_total(s: Seq<char>)
    ensures
        boff(s, s.len() as int) == vstd::utf8::encode_utf8(s).len(),
    decreases s.len(),
{
    if s.len() == 0 {
    } else {
        lemma_boff_drop_first(s, s.len() as int);
        lemma_boff_total(s.drop_first());
        lemma_char_w(s[0]);
    }
}

/// Whether the two-character sequence `:=` starts at position `i`.
pub open spec fn at_assign(s: Seq<char>, i: int) -> bool {
    &&& i + 2 <= s.len()
    &&& s[i] == ':'
    &&& s[i + 1] == '='
}

/// Whether the word `let`, followed by further input beginning with
/// whitespace, starts at position `i`.  A trailing `let` at the very end of
/// the input is an ordinary variable.
pub open spec fn at_let_kw(s: Seq<char>, i: int) -> bool {
    &&& i + 3 < s.len()
    &&& s[i] == 'l'
    &&& s[i + 1] == 'e'
    &&& s[i + 2] == 't'
    &&& is_space_char(s[i + 3])
}

/// Whether position `i` starts a reserved token, which ends a variable name:
/// whitespace, one of `( ) \ . ;`, the lambda glyph, `:=`, or the word `let`
/// preceded by whitespace.  `let` at the very start of the input is not
/// reserved here.
pub open spec fn reserved_at(s: Seq<char>, i: int) -> bool {
    ||| is_space_char(s[i])
    ||| s[i] == '('
    ||| s[i] == ')'
    ||| s[i] == '\\'
    ||| s[i] == '.'
    ||| s[i] == ';'
    ||| s[i] == '\u{3bb}'
    ||| at_assign(s, i)
    ||| (i > 0 && is_space_char(s[i - 1]) && at_let_kw(s, i))
}

/// The end of the variable name starting at `i`: the first position at or
/// after `i` that is reserved or past the input.
pub open spec fn var_end(s: Seq<char>, i: int) -> int
    decreases s.len() - i,
{
    if i < 0 || i >= s.len() || reserved_at(s, i) {
        i
    } else {
        var_end(s, i + 1)
    }
}

/// The position just past the line comment starting at `i`: past the next
/// line feed, or the end of the input.
pub open spec fn comment_end(s: Seq<char>, i: int) -> int
    decreases s.len() - i,
{
    if i < 0 || i >= s.len() {
        i
    } else if s[i] == '\n' {
        i + 1
    } else {
        comment_end(s, i + 1)
    }
}

/// The first position at or after `i` that is not whitespace.
pub open spec fn space_end(s: Seq<char>, i: int) -> int
    decreases s.len() - i,
{
    if i < 0 || i >= s.len() || !is_space_char(s[i]) {
        i
    } else {
        space_end(s, i + 1)
    }
}

/// Folds a new atom into the expression accumulated so far: the first atom
/// seeds the accumulator, every later one becomes the argument of an
/// application whose function is the accumulated expression.
pub open spec fn push_acc(acc: Option<ExpView>, e: ExpView) -> Option<ExpView> {
    match acc {
        Some(a) => Some(ExpView::Call(Box::new(a), Box::new(e))),
        None => Some(e),
    }
}

/// Wraps `body` in one abstraction per parameter, right to left, so that
/// `\x y z. B` becomes `\x. \y. \z. B`.
pub open spec fn wrap_params(args: Seq<Seq<char>>, body: ExpView) -> ExpView
    decreases args.len(),
{
    if args.len() == 0 {
        body
    } else {
        wrap_params(args.drop_last(), ExpView::Lamb(args.last(), Box::new(body)))
    }
}

/// The position a sub-parse hands back to its caller.  Every sub-parse of
/// this grammar moves strictly forward and stays within the text, so this is
/// `j` itself; the fallback keeps the recursion below well founded.
pub open spec fn adv(i: int, j: int, n: int) -> int {
    if i < j && j <= n {
        j
    } else {
        i + 1
    }
}

/// What a sub-parse returns once its context ends: the accumulated
/// expression, or `EmptyCall` if there was none, or `NoClose` for a
/// parenthesized group that was never closed.
pub open spec fn sp_finish(s: Seq<char>, i: int, ctx: PCtx, acc: Option<ExpView>, closed: bool) -> Result<
    (ExpView, int),
    (PErrType, int),
> {
    if ctx == PCtx::Paren && !closed {
        Err((PErrType::NoClose, boff(s, i)))
    } else {
        match acc {
            Some(e) => Ok((e, i)),
            None => Err(
                (
                    PErrType::EmptyCall,
                    if ctx == PCtx::Paren {
                        boff(s, i) - 1
                    } else {
                        boff(s, i)
                    },
                ),
            ),
        }
    }
}

/// One sub-parse: starting at position `i` in context `ctx` with the
/// expression accumulated so far, consumes atoms until the context ends and
/// returns the resulting expression and the position just past it, or the
/// first error.  This is the specification the executable parser implements.
pub open spec fn sp_loop(s: Seq<char>, i: int, ctx: PCtx, acc: Option<ExpView>) -> Result<
    (ExpView, int),
    (PErrType, int),
>
    decreases s.len() - i, 3int,
{
    let n = s.len() as int;
    if i >= n {
        sp_finish(s, i, ctx, acc, false)
    } else {
        let c = s[i];
        if c == '#' {
            sp_loop(s, adv(i, comment_end(s, i + 1), n), ctx, acc)
        } else if c == '(' {
            match sp_loop(s, i + 1, PCtx::Paren, None) {
                Ok((e, j)) => sp_loop(s, adv(i, j, n), ctx, push_acc(acc, e)),
                Err(er) => Err(er),
            }
        } else if c == ')' {
            match ctx {
                PCtx::Paren => sp_finish(s, i + 1, ctx, acc, true),
                PCtx::Root | PCtx::Let => Err((PErrType::CloseEarly, boff(s, i))),
                PCtx::Fun => sp_finish(s, i, ctx, acc, false),
            }
        } else if c == ';' {
            match ctx {
                PCtx::Let => sp_finish(s, i + 1, ctx, acc, false),
                PCtx::Root | PCtx::Paren => Err((PErrType::Reserved, boff(s, i))),
                PCtx::Fun => sp_finish(s, i, ctx, acc, false),
            }
        } else if c == '\\' || c == '\u{3bb}' {
            match sp_fun(s, i + 1) {
                Ok((e, j)) => sp_loop(s, adv(i, j, n), ctx, push_acc(acc, e)),
                Err(er) => Err(er),
            }
        } else if at_assign(s, i) {
            Err((PErrType::Reserved, boff(s, i)))
        } else if c == '.' {
            Err((PErrType::Reserved, boff(s, i)))
        } else if at_let_kw(s, i) {
            match sp_let(s, i + 3) {
                Ok((name, v, j)) => match sp_loop(s, adv(i, j, n), PCtx::Fun, None) {
                    Ok((body, j2)) => sp_loop(
                        s,
                        adv(i, j2, n),
                        ctx,
                        push_acc(
                            acc,
                            ExpView::Call(
                                Box::new(ExpView::Lamb(name, Box::new(body))),
                                Box::new(v),
                            ),
                        ),
                    ),
                    Err(er) => Err(er),
                },
                Err(er) => Err(er),
            }
        } else if is_space_char(c) {
            sp_loop(s, i + 1, ctx, acc)
        } else {
            let j = var_end(s, i);
            sp_loop(s, adv(i, j, n), ctx, push_acc(acc, ExpView::Var(s.subrange(i, j))))
        }
    }
}

/// An abstraction, starting just past its `\` or lambda glyph: one or more
/// parameter names terminated by `.`, then a body in the `Fun` context,
/// wrapped right to left into nested single-parameter abstractions.
pub open spec fn sp_fun(s: Seq<char>, i: int) -> Result<(ExpView, int), (PErrType, int)>
    decreases s.len() - i, 2int,
{
    match sp_funargs(s, i, Seq::empty()) {
        Ok((args, j)) => {
            if args.len() == 0 {
                Err((PErrType::EmptyArgs, boff(s, j) - 1))
            } else {
                match sp_loop(s, adv(i, j, s.len() as int), PCtx::Fun, None) {
                    Ok((body, j2)) => Ok((wrap_params(args, body), j2)),
                    Err(er) => Err(er),
                }
            }
        },
        Err(er) => Err(er),
    }
}

/// The parameter list of an abstraction: names separated by whitespace,
/// ended by `.` (consumed) or the end of the input.  Any other reserved
/// token is `EmptyArgs` while no parameter has been collected, and
/// `BadArgs` after at least one.
pub open spec fn sp_funargs(s: Seq<char>, i: int, args: Seq<Seq<char>>) -> Result<
    (Seq<Seq<char>>, int),
    (PErrType, int),
>
    decreases s.len() - i, 1int,
{
    let n = s.len() as int;
    if i >= n {
        Ok((args, i))
    } else {
        let c = s[i];
        if c == '.' {
            Ok((args, i + 1))
        } else if is_space_char(c) {
            sp_funargs(s, i + 1, args)
        } else if reserved_at(s, i) {
            Err(
                (
                    if args.len() == 0 {
                        PErrType::EmptyArgs
                    } else {
                        PErrType::BadArgs
                    },
                    boff(s, i),
                ),
            )
        } else {
            let j = var_end(s, i);
            sp_funargs(s, adv(i, j, n), args.push(s.subrange(i, j)))
        }
    }
}

/// A let-binding, starting just past the word `let`: a name, the literal
/// `:=`, and a value parsed in the `Let` context, which ends at the `;`.
pub open spec fn sp_let(s: Seq<char>, i: int) -> Result<
    (Seq<char>, ExpView, int),
    (PErrType, int),
>
    decreases s.len() - i, 2int,
{
    let n = s.len() as int;
    let j1 = space_end(s, i);
    let j2 = var_end(s, j1);
    let j3 = space_end(s, j2);
    if at_assign(s, j3) {
        match sp_loop(s, adv(i, j3 + 2, n), PCtx::Let, None) {
            Ok((v, j4)) => Ok((s.subrange(j1, j2), v, j4)),
            Err(er) => Err(er),
        }
    } else {
        Err((PErrType::BadLet, boff(s, j3)))
    }
}

/// The whole parse: a sub-parse in the `Root` context that must consume the
/// entire input.
pub open spec fn sp_parse(s: Seq<char>) -> Result<ExpView, (PErrType, int)> {
    match sp_loop(s, 0, PCtx::Root, None) {
        Ok((e, i)) => {
            if i == s.len() {
                Ok(e)
            } else {
                Err((PErrType::Incomplete, boff(s, i)))
            }
        },
        Err(er) => Err(er),
    }
}

pub proof fn lemma_var_end_bounds(s: Seq<char>, i: int)
    requires
        0 <= i <= s.len(),
    ensures
        i <= var_end(s, i) <= s.len(),
    decreases s.len() - i,
{
    if !(i >= s.len() || reserved_at(s, i)) {
        lemma_var_end_bounds(s, i + 1);
    }
}

/// Whether positions `i` up to `j` of `s` all lie at or below the length of
/// the text, with `off` the byte offset of position `i`.
pub open spec fn cursor_ok(s: Seq<char>, i: int, off: int) -> bool {
    &&& 0 <= i <= s.len()
    &&& off == boff(s, i)
}

/// Every byte offset lies at or beyond its character index.
pub proof fn lemma_boff_ge(s: Seq<char>, i: int)
    requires
        0 <= i <= s.len(),
    ensures
        boff(s, i) >= i,
    decreases i,
{
    if i > 0 {
        lemma_boff_ge(s, i - 1);
        lemma_char_w(s[i - 1]);
    }
}

fn is_space(c: char) -> (b: bool)
    ensures
        b == is_space_char(c),
{
    c == ' ' || c == '\n' || c == '\r' || c == '\t'
}

fn char_width(c: char) -> (w: usize)
    ensures
        w == char_w(c),
{
    let u = c as u32;
    if u < 0x80 {
        1
    } else if u < 0x800 {
        2
    } else if u < 0x10000 {
        3
    } else {
        4
    }
}

/// The byte offset of position `i + 1`, given the byte offset of position
/// `i`.  The sum cannot overflow because it is bounded by the byte length of
/// the text.
fn step_off(s: &str, i: usize, off: usize) -> (noff: usize)
    requires
        i < s@.len(),
        off == boff(s@, i as int),
    ensures
        noff == boff(s@, i as int + 1),
        noff == off + char_w(s@[i as int]),
{
    let c = s.get_char(i);
    let w = char_width(c);
    let bl = s.as_bytes().len();
    proof {
        lemma_char_w(s@[i as int]);
        assert(boff(s@, i as int + 1) == boff(s@, i as int) + char_w(s@[i as int]));
        lemma_boff_mono(s@, i as int + 1, s@.len() as int);
        lemma_boff_total(s@);
        assert(bl == vstd::utf8::encode_utf8(s@).len());
    }
    off + w
}

fn check_assign(s: &str, i: usize) -> (b: bool)
    requires
        i <= s@.len(),
    ensures
        b == at_assign(s@, i as int),
{
    let n = s.unicode_len();
    n - i >= 2 && s.get_char(i) == ':' && s.get_char(i + 1) == '='
}

fn is_let(s: &str, i: usize) -> (b: bool)
    requires
        i <= s@.len(),
    ensures
        b == at_let_kw(s@, i as int),
{
    let n = s.unicode_len();
    n - i > 3 && s.get_char(i) == 'l' && s.get_char(i + 1) == 'e' && s.get_char(i + 2) == 't'
        && is_space(s.get_char(i + 3))
}

fn is_reserved(s: &str, i: usize) -> (b: bool)
    requires
        i < s@.len(),
    ensures
        b == reserved_at(s@, i as int),
{
    let c = s.get_char(i);
    is_space(c) || c == '(' || c == ')' || c == '\\' || c == '.' || c == ';' || c == '\u{3bb}'
        || check_assign(s, i) || (i > 0 && is_space(s.get_char(i - 1)) && is_let(s, i))
}

fn find_var_end(s: &str, i: usize, off: usize) -> (r: (usize, usize))
    requires
        cursor_ok(s@, i as int, off as int),
    ensures
        r.0 == var_end(s@, i as int),
        cursor_ok(s@, r.0 as int, r.1 as int),
        i <= r.0,
    decreases s@.len() - i,
{
    let n = s.unicode_len();
    if i >= n {
        (i, off)
    } else if is_reserved(s, i) {
        (i, off)
    } else {
        let noff = step_off(s, i, off);
        find_var_end(s, i + 1, noff)
    }
}

fn find_comment_end(s: &str, i: usize, off: usize) -> (r: (usize, usize))
    requires
        cursor_ok(s@, i as int, off as int),
    ensures
        r.0 == comment_end(s@, i as int),
        cursor_ok(s@, r.0 as int, r.1 as int),
        i <= r.0,
    decreases s@.len() - i,
{
    let n = s.unicode_len();
    if i >= n {
        (i, off)
    } else if s.get_char(i) == '\n' {
        let noff = step_off(s, i, off);
        (i + 1, noff)
    } else {
        let noff = step_off(s, i, off);
        find_comment_end(s, i + 1, noff)
    }
}

fn find_space_end(s: &str, i: usize, off: usize) -> (r: (usize, usize))
    requires
        cursor_ok(s@, i as int, off as int),
    ensures
        r.0 == space_end(s@, i as int),
        cursor_ok(s@, r.0 as int, r.1 as int),
        i <= r.0,
    decreases s@.len() - i,
{
    let n = s.unicode_len();
    if i >= n {
        (i, off)
    } else if is_space(s.get_char(i)) {
        let noff = step_off(s, i, off);
        find_space_end(s, i + 1, noff)
    } else {
        (i, off)
    }
}

/// The variable name starting at `i`: the characters up to the next reserved
/// token, and the position and byte offset just past them.
fn get_var(s: &str, i: usize, off: usize) -> (r: (String, usize, usize))
    requires
        cursor_ok(s@, i as int, off as int),
    ensures
        r.0@ == s@.subrange(i as int, var_end(s@, i as int)),
        r.1 == var_end(s@, i as int),
        cursor_ok(s@, r.1 as int, r.2 as int),
        i <= r.1,
    decreases s@.len() - i,
{
    let (j, joff) = find_var_end(s, i, off);
    let name = s.substring_char(i, j).to_owned();
    (name, j, joff)
}

/// Folds a new atom into the expression accumulated so far.
fn push_call(ex: Option<Exp>, new: Exp) -> (r: Option<Exp>)
    ensures
        r.deep_view() == push_acc(ex.deep_view(), new@),
{
    Some(
        match ex {
            Some(ex) => Exp::Call(Box::new(ex), Box::new(new)),
            None => new,
        },
    )
}

fn finish(s: &str, i: usize, off: usize, ctx: PCtx, acc: Option<Exp>, closed: bool) -> (r: Result<
    (Exp, usize, usize),
    ParseError,
>)
    requires
        cursor_ok(s@, i as int, off as int),
        ctx == PCtx::Paren && closed ==> off >= 1,
    ensures
        ({
            let sp = sp_finish(s@, i as int, ctx, acc.deep_view(), closed);
            match r {
                Ok((e, j, joff)) => {
                    &&& sp == Ok::<(ExpView, int), (PErrType, int)>((e@, j as int))
                    &&& j == i
                    &&& joff == off
                    &&& acc is Some
                },
                Err(pe) => sp == Err::<(ExpView, int), (PErrType, int)>(
                    (pe.typ, pe.pos as int),
                ),
            }
        }),
{
    if ctx == PCtx::Paren && !closed {
        Err(ParseError { typ: PErrType::NoClose, pos: off })
    } else {
        match acc {
            Some(e) => Ok((e, i, off)),
            None => Err(
                ParseError {
                    typ: PErrType::EmptyCall,
                    pos: if ctx == PCtx::Paren {
                        off - 1
                    } else {
                        off
                    },
                },
            ),
        }
    }
}

/// The parameter list of an abstraction, collected into `args`.
fn parse_args(s: &str, i: usize, off: usize, args: Vec<String>) -> (r: Result<
    (Vec<String>, usize, usize),
    ParseError,
>)
    requires
        cursor_ok(s@, i as int, off as int),
    ensures
        ({
            let sp = sp_funargs(s@, i as int, args.deep_view());
            match r {
                Ok((a2, j, joff)) => {
                    &&& sp == Ok::<(Seq<Seq<char>>, int), (PErrType, int)>(
                        (a2.deep_view(), j as int),
                    )
                    &&& cursor_ok(s@, j as int, joff as int)
                    &&& i <= j
                    &&& (a2.deep_view().len() > args.deep_view().len() ==> i < j)
                },
                Err(pe) => sp == Err::<(Seq<Seq<char>>, int), (PErrType, int)>(
                    (pe.typ, pe.pos as int),
                ),
            }
        }),
    decreases s@.len() - i, 1int,
{
    let n = s.unicode_len();
    if i >= n {
        Ok((args, i, off))
    } else {
        let c = s.get_char(i);
        if c == '.' {
            let noff = step_off(s, i, off);
            Ok((args, i + 1, noff))
        } else if is_space(c) {
            let noff = step_off(s, i, off);
            parse_args(s, i + 1, noff, args)
        } else if is_reserved(s, i) {
            proof {
                assert(args.deep_view().len() == args@.len());
            }
            Err(
                ParseError {
                    typ: if args.is_empty() {
                        PErrType::EmptyArgs
                    } else {
                        PErrType::BadArgs
                    },
                    pos: off,
                },
            )
        } else {
            let (name, j, joff) = get_var(s, i, off);
            proof {
                lemma_var_end_bounds(s@, i as int + 1);
                assert(var_end(s@, i as int) == var_end(s@, i as int + 1));
                assert(adv(i as int, j as int, s@.len() as int) == j as int);
            }
            let mut args2 = args;
            args2.push(name);
            proof {
                assert(args2.deep_view() =~= args.deep_view().push(
                    s@.subrange(i as int, var_end(s@, i as int)),
                ));
            }
            parse_args(s, j, joff, args2)
        }
    }
}

/// An abstraction, starting just past its `\` or lambda glyph.
fn get_fun(s: &str, i: usize, off: usize) -> (r: Result<(Exp, usize, usize), ParseError>)
    requires
        cursor_ok(s@, i as int, off as int),
        1 <= i,
    ensures
        ({
            let sp = sp_fun(s@, i as int);
            match r {
                Ok((e, j, joff)) => {
                    &&& sp == Ok::<(ExpView, int), (PErrType, int)>((e@, j as int))
                    &&& cursor_ok(s@, j as int, joff as int)
                    &&& i < j
                },
                Err(pe) => sp == Err::<(ExpView, int), (PErrType, int)>(
                    (pe.typ, pe.pos as int),
                ),
            }
        }),
    decreases s@.len() - i, 2int,
{
    let args0: Vec<String> = Vec::new();
    proof {
        assert(args0.deep_view() =~= Seq::<Seq<char>>::empty());
    }
    match parse_args(s, i, off, args0) {
        Err(pe) => Err(pe),
        Ok((argsv, j, joff)) => {
            if argsv.len() == 0 {
                proof {
                    lemma_boff_ge(s@, j as int);
                }
                Err(ParseError { typ: PErrType::EmptyArgs, pos: joff - 1 })
            } else {
                proof {
                    assert(adv(i as int, j as int, s@.len() as int) == j as int);
                }
                match get_parse(s, j, joff, PCtx::Fun, None) {
                    Err(pe) => Err(pe),
                    Ok((body, j2, joff2)) => {
                        let ghost bodyv = body@;
                        let ghost argsdv = argsv.deep_view();
                        let mut e = body;
                        let mut k = argsv.len();
                        proof {
                            assert(argsdv.take(k as int) =~= argsdv);
                        }
                        while k > 0
                            invariant
                                k <= argsv.len(),
                                argsdv == argsv.deep_view(),
                                wrap_params(argsdv.take(k as int), e@) == wrap_params(
                                    argsdv,
                                    bodyv,
                                ),
                            decreases k,
                        {
                            k = k - 1;
                            proof {
                                assert(argsdv.take(k as int + 1).drop_last() =~= argsdv.take(
                                    k as int,
                                ));
                                assert(argsdv.take(k as int + 1).last() == argsdv[k as int]);
                            }
                            e = Exp::Lamb(argsv[k].clone(), Box::new(e));
                        }
                        proof {
                            assert(argsdv.take(0) =~= Seq::<Seq<char>>::empty());
                        }
                        Ok((e, j2, joff2))
                    },
                }
            }
        },
    }
}

/// A let-binding, starting just past the word `let`: its name, its value,
/// and the position just past the `;`.
fn get_let(s: &str, i: usize, off: usize) -> (r: Result<(String, Exp, usize, usize), ParseError>)
    requires
        cursor_ok(s@, i as int, off as int),
    ensures
        ({
            let sp = sp_let(s@, i as int);
            match r {
                Ok((name, v, j, joff)) => {
                    &&& sp == Ok::<(Seq<char>, ExpView, int), (PErrType, int)>(
                        (name@, v@, j as int),
                    )
                    &&& cursor_ok(s@, j as int, joff as int)
                    &&& i < j
                },
                Err(pe) => sp == Err::<(Seq<char>, ExpView, int), (PErrType, int)>(
                    (pe.typ, pe.pos as int),
                ),
            }
        }),
    decreases s@.len() - i, 2int,
{
    let n = s.unicode_len();
    let (j1, off1) = find_space_end(s, i, off);
    let (name, j2, off2) = get_var(s, j1, off1);
    let (j3, off3) = find_space_end(s, j2, off2);
    if check_assign(s, j3) {
        let o4 = step_off(s, j3, off3);
        let o5 = step_off(s, j3 + 1, o4);
        proof {
            assert(adv(i as int, j3 as int + 2, s@.len() as int) == j3 as int + 2);
        }
        match get_parse(s, j3 + 2, o5, PCtx::Let, None) {
            Ok((v, j4, off4)) => Ok((name, v, j4, off4)),
            Err(pe) => Err(pe),
        }
    } else {
        Err(ParseError { typ: PErrType::BadLet, pos: off3 })
    }
}

/// One sub-parse in context `ctx`: the executable counterpart of
/// [`sp_loop`], consuming atoms from position `i` (at byte offset `off`)
/// until the context ends.
#[verifier::rlimit(60)]
fn get_parse(s: &str, i: usize, off: usize, ctx: PCtx, acc: Option<Exp>) -> (r: Result<
    (Exp, usize, usize),
    ParseError,
>)
    requires
        cursor_ok(s@, i as int, off as int),
    ensures
        ({
            let sp = sp_loop(s@, i as int, ctx, acc.deep_view());
            match r {
                Ok((e, j, joff)) => {
                    &&& sp == Ok::<(ExpView, int), (PErrType, int)>((e@, j as int))
                    &&& cursor_ok(s@, j as int, joff as int)
                    &&& i <= j
                    &&& (acc is None ==> i < j)
                },
                Err(pe) => sp == Err::<(ExpView, int), (PErrType, int)>(
                    (pe.typ, pe.pos as int),
                ),
            }
        }),
    decreases s@.len() - i, 3int,
{
    let n = s.unicode_len();
    if i >= n {
        finish(s, i, off, ctx, acc, false)
    } else {
        let c = s.get_char(i);
        if c == '#' {
            let noff = step_off(s, i, off);
            let (j, joff) = find_comment_end(s, i + 1, noff);
            proof {
                assert(adv(i as int, comment_end(s@, i as int + 1), s@.len() as int) == j as int);
            }
            proof {
                assert(sp_loop(s@, i as int, ctx, acc.deep_view()) == sp_loop(
                    s@,
                    j as int,
                    ctx,
                    acc.deep_view(),
                ));
            }
            get_parse(s, j, joff, ctx, acc)
        } else if c == '(' {
            let noff = step_off(s, i, off);
            match get_parse(s, i + 1, noff, PCtx::Paren, None) {
                Ok((e, j, joff)) => {
                    proof {
                        assert(adv(i as int, j as int, s@.len() as int) == j as int);
                    }
                    let acc2 = push_call(acc, e);
                    proof {
                        assert(sp_loop(s@, i as int, ctx, acc.deep_view()) == sp_loop(
                            s@,
                            j as int,
                            ctx,
                            acc2.deep_view(),
                        ));
                    }
                    get_parse(s, j, joff, ctx, acc2)
                },
                Err(pe) => Err(pe),
            }
        } else if c == ')' {
            match ctx {
                PCtx::Paren => {
                    let noff = step_off(s, i, off);
                    finish(s, i + 1, noff, ctx, acc, true)
                },
                PCtx::Root | PCtx::Let => Err(
                    ParseError { typ: PErrType::CloseEarly, pos: off },
                ),
                PCtx::Fun => finish(s, i, off, ctx, acc, false),
            }
        } else if c == ';' {
            match ctx {
                PCtx::Let => {
                    let noff = step_off(s, i, off);
                    finish(s, i + 1, noff, ctx, acc, false)
                },
                PCtx::Root | PCtx::Paren => Err(
                    ParseError { typ: PErrType::Reserved, pos: off },
                ),
                PCtx::Fun => finish(s, i, off, ctx, acc, false),
            }
        } else if c == '\\' || c == '\u{3bb}' {
            let noff = step_off(s, i, off);
            match get_fun(s, i + 1, noff) {
                Ok((e, j, joff)) => {
                    proof {
                        assert(adv(i as int, j as int, s@.len() as int) == j as int);
                    }
                    let acc2 = push_call(acc, e);
                    proof {
                        assert(sp_loop(s@, i as int, ctx, acc.deep_view()) == sp_loop(
                            s@,
                            j as int,
                            ctx,
                            acc2.deep_view(),
                        ));
                    }
                    get_parse(s, j, joff, ctx, acc2)
                },
                Err(pe) => Err(pe),
            }
        } else if check_assign(s, i) {
            Err(ParseError { typ: PErrType::Reserved, pos: off })
        } else if c == '.' {
            Err(ParseError { typ: PErrType::Reserved, pos: off })
        } else if is_let(s, i) {
            let o1 = step_off(s, i, off);
            let o2 = step_off(s, i + 1, o1);
            let o3 = step_off(s, i + 2, o2);
            match get_let(s, i + 3, o3) {
                Ok((name, v, j, joff)) => {
                    proof {
                        assert(adv(i as int, j as int, s@.len() as int) == j as int);
                    }
                    match get_parse(s, j, joff, PCtx::Fun, None) {
                        Ok((body, j2, joff2)) => {
                            proof {
                                assert(adv(i as int, j2 as int, s@.len() as int) == j2 as int);
                            }
                            let ghost namev = name@;
                            let ghost bodyv = body@;
                            let ghost vv = v@;
                            let lam = Exp::Lamb(name, Box::new(body));
                            proof {
                                assert(lam@ == ExpView::Lamb(namev, Box::new(bodyv)));
                            }
                            let atom = Exp::Call(Box::new(lam), Box::new(v));
                            proof {
                                assert(atom@ == ExpView::Call(
                                    Box::new(ExpView::Lamb(namev, Box::new(bodyv))),
                                    Box::new(vv),
                                ));
                            }
                            let acc2 = push_call(acc, atom);
                            proof {
                                assert(sp_loop(s@, i as int, ctx, acc.deep_view()) == sp_loop(
                                    s@,
                                    j2 as int,
                                    ctx,
                                    acc2.deep_view(),
                                ));
                            }
                            get_parse(s, j2, joff2, ctx, acc2)
                        },
                        Err(pe) => Err(pe),
                    }
                },
                Err(pe) => Err(pe),
            }
        } else if is_space(c) {
            let noff = step_off(s, i, off);
            proof {
                assert(sp_loop(s@, i as int, ctx, acc.deep_view()) == sp_loop(
                    s@,
                    i as int + 1,
                    ctx,
                    acc.deep_view(),
                ));
            }
            get_parse(s, i + 1, noff, ctx, acc)
        } else {
            let (name, j, joff) = get_var(s, i, off);
            proof {
                lemma_var_end_bounds(s@, i as int + 1);
                assert(var_end(s@, i as int) == var_end(s@, i as int + 1));
                assert(adv(i as int, j as int, s@.len() as int) == j as int);
            }
            let acc2 = push_call(acc, Exp::Var(name));
            proof {
                assert(sp_loop(s@, i as int, ctx, acc.deep_view()) == sp_loop(
                    s@,
                    j as int,
                    ctx,
                    acc2.deep_view(),
                ));
            }
            get_parse(s, j, joff, ctx, acc2)
        }
    }
}

/// A character that can never occur in a printable name: whitespace and the
/// single-character reserved tokens.
pub open spec fn bad_name_char(c: char) -> bool {
    ||| is_space_char(c)
    ||| c == '('
    ||| c == ')'
    ||| c == '\\'
    ||| c == '.'
    ||| c == ';'
    ||| c == '\u{3bb}'
}

/// A name whose printed form scans back as exactly this name: non-empty,
/// not the word `let`, not starting a comment, with no reserved character
/// and no embedded `:=`.
pub open spec fn good_name(n: Seq<char>) -> bool {
    &&& n.len() > 0
    &&& n != seq!['l', 'e', 't']
    &&& n[0] != '#'
    &&& forall|k: int|
        0 <= k < n.len() ==> !bad_name_char(#[trigger] n[k]) && (k + 1 < n.len() ==> !(n[k] == ':'
            && n[k + 1] == '='))
}

/// A term whose canonical rendering parses back to exactly this term:
/// every name in it is a [`good_name`].
pub open spec fn printable(e: ExpView) -> bool
    decreases e,
{
    match e {
        ExpView::Var(n) => good_name(n),
        ExpView::Call(a, b) => printable(*a) && printable(*b),
        ExpView::Lamb(x, r) => good_name(x) && printable(*r),
    }
}

/// A position at which a variable scan stops: the end of the text, or one
/// of the delimiters the printer places after a name.
pub open spec fn stopper_at(s: Seq<char>, j: int) -> bool {
    ||| j == s.len()
    ||| s[j] == ' '
    ||| s[j] == ')'
    ||| s[j] == '.'
}

proof fn lemma_var_end_run(s: Seq<char>, i: int, j: int)
    requires
        0 <= i <= j <= s.len(),
        forall|k: int| i <= k < j ==> !reserved_at(s, k),
        j == s.len() || reserved_at(s, j),
    ensures
        var_end(s, i) == j,
    decreases j - i,
{
    if i < j {
        lemma_var_end_run(s, i + 1, j);
    }
}

/// A [`good_name`] embedded in a text, followed by a stopper, scans as one
/// whole variable, and its first position triggers none of the dispatch
/// conditions of the parse loop.
proof fn lemma_name_scan(s: Seq<char>, i: int, n: Seq<char>)
    requires
        good_name(n),
        0 <= i,
        i + n.len() <= s.len(),
        s.subrange(i, i + n.len()) == n,
        stopper_at(s, i + n.len()),
    ensures
        var_end(s, i) == i + n.len(),
        s.subrange(i, var_end(s, i)) == n,
        !reserved_at(s, i),
        !at_assign(s, i),
        !at_let_kw(s, i),
        s[i] == n[0],
{
    let len = n.len() as int;
    assert forall|k: int| 0 <= k < len implies s[i + k] == n[k] by {
        assert(s.subrange(i, i + len)[k] == s[i + k]);
    }
    assert(!at_let_kw(s, i)) by {
        if at_let_kw(s, i) {
            if len >= 4 {
                assert(n[3] == s[i + 3]);
                assert(!bad_name_char(n[3]));
            } else if len == 3 {
                assert(n[0] == 'l' && n[1] == 'e' && n[2] == 't');
                assert(n =~= seq!['l', 'e', 't']);
            } else if i + len == s.len() {
                assert(i + 3 < s.len());
            } else if len == 2 {
                assert(s[i + 2] == 't');
                assert(stopper_at(s, i + 2));
            } else {
                assert(s[i + 1] == 'e');
                assert(stopper_at(s, i + 1));
            }
            assert(false);
        }
    }
    assert forall|k: int| i <= k < i + len implies !reserved_at(s, k) by {
        let d = k - i;
        assert(s[k] == n[d]);
        assert(!bad_name_char(n[d]));
        if at_assign(s, k) {
            if d + 1 < len {
                assert(s[k + 1] == n[d + 1]);
            } else {
                assert(k + 1 == i + len);
                assert(stopper_at(s, k + 1));
            }
            assert(false);
        }
        if k > i {
            assert(s[k - 1] == n[d - 1]);
            assert(!is_space_char(s[k - 1]));
        }
    }
    if i + len == s.len() {
        lemma_var_end_run(s, i, i + len);
    } else {
        assert(reserved_at(s, i + len)) by {
            assert(stopper_at(s, i + len));
        }
        lemma_var_end_run(s, i, i + len);
    }
    assert(s.subrange(i, i + len) =~= n);
}

/// A position at which the body of an abstraction ends: the end of the
/// text, or a close paren the body parse hands back to its caller.
pub open spec fn fun_follow(s: Seq<char>, j: int) -> bool {
    j == s.len() || s[j] == ')'
}

/// The parameters of a chain of nested abstractions, outermost first.
pub open spec fn chain_params(e: ExpView) -> Seq<Seq<char>>
    decreases e,
{
    match e {
        ExpView::Lamb(x, r) => seq![x] + chain_params(*r),
        _ => seq![],
    }
}

/// The innermost body of a chain of nested abstractions.
pub open spec fn chain_body(e: ExpView) -> ExpView
    decreases e,
{
    match e {
        ExpView::Lamb(_, r) => chain_body(*r),
        _ => e,
    }
}

proof fn lemma_chain_body_size(r: ExpView)
    ensures
        size_of(chain_body(r)) <= size_of(r),
    decreases r,
{
    match r {
        ExpView::Lamb(_, r2) => {
            lemma_chain_body_size(*r2);
        },
        _ => {},
    }
}

proof fn lemma_wrap_chain(args: Seq<Seq<char>>, e: ExpView)
    ensures
        wrap_params(args + chain_params(e), chain_body(e)) == wrap_params(args, e),
    decreases e,
{
    match e {
        ExpView::Lamb(x, r) => {
            lemma_wrap_chain(args.push(x), *r);
            assert(args + chain_params(e) =~= args.push(x) + chain_params(*r));
            assert(args.push(x).drop_last() =~= args);
            assert(args.push(x).last() == x);
            assert(wrap_params(args.push(x), *r) == wrap_params(args, e));
        },
        _ => {
            assert(args + chain_params(e) =~= args);
        },
    }
}

proof fn lemma_embed_split(s: Seq<char>, i: int, a: Seq<char>, b: Seq<char>)
    requires
        0 <= i,
        i + a.len() + b.len() <= s.len(),
        s.subrange(i, i + a.len() + b.len()) == a + b,
    ensures
        s.subrange(i, i + a.len()) == a,
        s.subrange(i + a.len(), i + a.len() + b.len()) == b,
        forall|k: int| 0 <= k < a.len() ==> s[i + k] == a[k],
        forall|k: int| 0 <= k < b.len() ==> s[i + a.len() + k] == b[k],
        a.len() > 0 ==> s[i] == a[0],
        b.len() > 0 ==> s[i + a.len()] == b[0],
{
    let al = a.len() as int;
    let bl = b.len() as int;
    assert forall|k: int| 0 <= k < al implies s[i + k] == a[k] by {
        assert(s.subrange(i, i + al + bl)[k] == s[i + k]);
        assert((a + b)[k] == a[k]);
    }
    assert forall|k: int| 0 <= k < bl implies s[i + al + k] == b[k] by {
        assert(s.subrange(i, i + al + bl)[al + k] == s[i + al + k]);
        assert((a + b)[al + k] == b[k]);
    }
    assert(s.subrange(i, i + al) =~= a);
    assert(s.subrange(i + al, i + al + bl) =~= b);
    if al > 0 {
        assert(s[i + 0] == a[0]);
    }
    if bl > 0 {
        assert(s[i + al + 0] == b[0]);
    }
}

/// The parameter list of a printed abstraction chain `x` + the
/// continuation rendering of `r`, scanned from position `p`, collects
/// exactly the chain's parameters and stops just before the rendering of
/// the innermost body.
proof fn lemma_rt_funargs(x: Seq<char>, r: ExpView, s: Seq<char>, p: int, args: Seq<Seq<char>>)
    requires
        good_name(x),
        printable(r),
        0 <= p,
        p + x.len() + print_at(r, Mode::Cont).len() <= s.len(),
        s.subrange(p, p + x.len() + print_at(r, Mode::Cont).len()) == x + print_at(r, Mode::Cont),
    ensures
        ({
            let q = p + x.len() + print_at(r, Mode::Cont).len();
            let tb = print_at(chain_body(r), Mode::Fun);
            let bs = q - tb.len() - 1;
            &&& sp_funargs(s, p, args) == Ok::<(Seq<Seq<char>>, int), (PErrType, int)>(
                (args + chain_params(ExpView::Lamb(x, Box::new(r))), bs),
            )
            &&& p + x.len() <= bs < q
            &&& s[bs] == ' '
            &&& s.subrange(bs + 1, q) == tb
            &&& printable(chain_body(r))
        }),
    decreases r,
{
    let cr = print_at(r, Mode::Cont);
    let q = p + x.len() + cr.len();
    lemma_embed_split(s, p, x, cr);
    match r {
        ExpView::Lamb(y, r2) => {
            let c2 = print_at(*r2, Mode::Cont);
            assert(cr == seq![' '] + y + c2);
            lemma_embed_split(s, p + x.len(), seq![' '] + y, c2);
            assert(seq![' '] + y + c2 =~= seq![' '] + (y + c2));
            assert(s.subrange(p + x.len(), p + x.len() + 1 + y.len() + c2.len()) == seq![' '] + (y
                + c2));
            lemma_embed_split(s, p + x.len(), seq![' '], y + c2);
            assert(s[p + x.len()] == ' ');
            lemma_name_scan(s, p, x);
            let ve = var_end(s, p);
            assert(ve == p + x.len());
            assert(adv(p, ve, s.len() as int) == ve);
            assert(sp_funargs(s, p, args) == sp_funargs(s, ve, args.push(x)));
            assert(sp_funargs(s, ve, args.push(x)) == sp_funargs(s, ve + 1, args.push(x)));
            assert(s.subrange(p + x.len() + 1, p + x.len() + 1 + y.len() + c2.len()) == y + c2);
            lemma_rt_funargs(y, *r2, s, ve + 1, args.push(x));
            assert(r == ExpView::Lamb(y, Box::new(*r2)));
            assert(chain_params(ExpView::Lamb(x, Box::new(r))) =~= seq![x] + chain_params(r));
            assert(args.push(x) + chain_params(ExpView::Lamb(y, Box::new(*r2))) =~= args
                + chain_params(ExpView::Lamb(x, Box::new(r))));
            assert(chain_body(r) == chain_body(*r2));
        },
        _ => {
            let tb = print_at(r, Mode::Fun);
            assert(cr == seq!['.', ' '] + tb) by {
                match r {
                    ExpView::Var(n) => {
                        assert(print_at(r, Mode::Cont) =~= seq!['.', ' '] + n);
                    },
                    ExpView::Call(a, b) => {
                        assert(print_at(r, Mode::Cont) =~= seq!['.', ' '] + (print_at(
                            *a,
                            Mode::Fun,
                        ) + seq![' '] + print_at(*b, Mode::Arg)));
                    },
                    _ => {},
                }
            };
            lemma_embed_split(s, p + x.len(), seq!['.', ' '], tb);
            assert(s[p + x.len()] == '.');
            assert(s[p + x.len() + 1] == ' ');
            lemma_name_scan(s, p, x);
            let ve = var_end(s, p);
            assert(ve == p + x.len());
            assert(adv(p, ve, s.len() as int) == ve);
            assert(sp_funargs(s, p, args) == sp_funargs(s, ve, args.push(x)));
            assert(sp_funargs(s, ve, args.push(x)) == Ok::<(Seq<Seq<char>>, int), (
                PErrType,
                int,
            )>((args.push(x), ve + 1)));
            assert(chain_body(r) == r);
            assert(chain_params(r) =~= Seq::<Seq<char>>::empty());
            assert(chain_params(ExpView::Lamb(x, Box::new(r))) =~= seq![x]);
            assert(args + chain_params(ExpView::Lamb(x, Box::new(r))) =~= args.push(x));
            assert(s.subrange(p + x.len() + 2, q) == tb);
        },
    }
}

/// An abstraction rendered just past its lambda glyph — parameters,
/// dot, body — parses back as exactly that abstraction, ending where the
/// rendering ends.
proof fn lemma_rt_fun(x: Seq<char>, r: ExpView, s: Seq<char>, p: int)
    requires
        good_name(x),
        printable(r),
        0 <= p,
        p + x.len() + print_at(r, Mode::Cont).len() <= s.len(),
        s.subrange(p, p + x.len() + print_at(r, Mode::Cont).len()) == x + print_at(r, Mode::Cont),
        fun_follow(s, p + x.len() + print_at(r, Mode::Cont).len()),
    ensures
        sp_fun(s, p) == Ok::<(ExpView, int), (PErrType, int)>(
            (ExpView::Lamb(x, Box::new(r)), p + x.len() + print_at(r, Mode::Cont).len()),
        ),
    decreases size_of(r), 2int,
{
    let lam = ExpView::Lamb(x, Box::new(r));
    let q = p + x.len() + print_at(r, Mode::Cont).len();
    let b = chain_body(r);
    let tb = print_at(b, Mode::Fun);
    let bs = q - tb.len() - 1;
    lemma_rt_funargs(x, r, s, p, Seq::empty());
    let ps = Seq::<Seq<char>>::empty() + chain_params(lam);
    assert(chain_params(lam) == seq![x] + chain_params(r));
    assert(ps.len() > 0);
    assert(adv(p, bs, s.len() as int) == bs);
    assert(sp_loop(s, bs, PCtx::Fun, None) == sp_loop(s, bs + 1, PCtx::Fun, None));
    assert(stopper_at(s, q));
    lemma_chain_body_size(r);
    lemma_rt_spine(b, s, bs + 1, PCtx::Fun);
    assert(sp_loop(s, q, PCtx::Fun, Some(b)) == Ok::<(ExpView, int), (PErrType, int)>((b, q)));
    lemma_wrap_chain(Seq::empty(), lam);
    assert(Seq::<Seq<char>>::empty() + chain_params(lam) =~= chain_params(lam));
    assert(chain_body(lam) == b);
    assert(wrap_params(ps, b) == lam);
}

/// A parenthesized abstraction folds onto the accumulated expression like
/// any other atom.
proof fn lemma_rt_lamb(
    x: Seq<char>,
    r: ExpView,
    s: Seq<char>,
    i: int,
    ctx: PCtx,
    acc: Option<ExpView>,
)
    requires
        good_name(x),
        printable(r),
        0 <= i,
        i + 3 + x.len() + print_at(r, Mode::Cont).len() <= s.len(),
        s.subrange(i, i + 3 + x.len() + print_at(r, Mode::Cont).len()) == seq!['(', '\u{3bb}'] + x
            + print_at(r, Mode::Cont) + seq![')'],
    ensures
        sp_loop(s, i, ctx, acc) == sp_loop(
            s,
            i + 3 + x.len() + print_at(r, Mode::Cont).len(),
            ctx,
            push_acc(acc, ExpView::Lamb(x, Box::new(r))),
        ),
    decreases size_of(ExpView::Lamb(x, Box::new(r))), 0int,
{
    let lam = ExpView::Lamb(x, Box::new(r));
    assert(size_of(lam) == 1 + size_of(r));
    let c = print_at(r, Mode::Cont);
    let xc = x + c;
    let q = i + 2 + x.len() + c.len();
    let n = s.len() as int;
    assert(seq!['(', '\u{3bb}'] + x + c + seq![')'] =~= seq!['(', '\u{3bb}'] + (xc + seq![')']));
    assert(s.subrange(i, i + 2 + xc.len() + 1) == seq!['(', '\u{3bb}'] + (xc + seq![')']));
    lemma_embed_split(s, i, seq!['(', '\u{3bb}'], xc + seq![')']);
    lemma_embed_split(s, i + 2, xc, seq![')']);
    assert(s[i] == '(');
    assert(s[i + 1] == '\u{3bb}');
    assert(s[q] == ')');
    assert(s.subrange(i + 2, i + 2 + xc.len()) == xc);
    assert(fun_follow(s, q));
    lemma_rt_fun(x, r, s, i + 2);
    assert(sp_loop(s, i + 1, PCtx::Paren, None) == Ok::<(ExpView, int), (PErrType, int)>(
        (lam, q + 1),
    )) by {
        assert(adv(i + 1, q, n) == q);
        assert(sp_loop(s, q, PCtx::Paren, Some(lam)) == sp_finish(s, q + 1, PCtx::Paren, Some(lam), true));
    }
    assert(adv(i, q + 1, n) == q + 1);
}

/// The flat rendering of a term — an application spine, a bare variable,
/// or a parenthesized abstraction — parsed with an empty accumulator,
/// rebuilds exactly that term.
proof fn lemma_rt_spine(e: ExpView, s: Seq<char>, i: int, ctx: PCtx)
    requires
        printable(e),
        0 <= i,
        i + print_at(e, Mode::Fun).len() <= s.len(),
        s.subrange(i, i + print_at(e, Mode::Fun).len()) == print_at(e, Mode::Fun),
        stopper_at(s, i + print_at(e, Mode::Fun).len()),
    ensures
        sp_loop(s, i, ctx, None) == sp_loop(s, i + print_at(e, Mode::Fun).len(), ctx, Some(e)),
    decreases size_of(e), 1int,
{
    let n = s.len() as int;
    match e {
        ExpView::Var(name) => {
            assert(print_at(e, Mode::Fun) == name);
            lemma_name_scan(s, i, name);
            assert(s[i] == name[0]);
            assert(!bad_name_char(name[0]));
            assert(adv(i, var_end(s, i), n) == i + name.len());
            assert(push_acc(None, ExpView::Var(s.subrange(i, var_end(s, i)))) == Some(e));
        },
        ExpView::Call(a, b) => {
            let ta = print_at(*a, Mode::Fun);
            let tb = print_at(*b, Mode::Arg);
            let ja = i + ta.len();
            assert(print_at(e, Mode::Fun) == ta + seq![' '] + tb);
            assert(ta + seq![' '] + tb =~= ta + (seq![' '] + tb));
            assert(s.subrange(i, i + ta.len() + (seq![' '] + tb).len()) == ta + (seq![' ']
                + tb));
            lemma_embed_split(s, i, ta, seq![' '] + tb);
            lemma_embed_split(s, ja, seq![' '], tb);
            assert(s[ja] == ' ');
            assert(stopper_at(s, ja));
            assert(size_of(e) == 1 + size_of(*a) + size_of(*b));
            lemma_rt_spine(*a, s, i, ctx);
            assert(sp_loop(s, ja, ctx, Some(*a)) == sp_loop(s, ja + 1, ctx, Some(*a)));
            lemma_rt_atom(*b, s, ja + 1, ctx, Some(*a));
            assert(push_acc(Some(*a), *b) == Some(e));
        },
        ExpView::Lamb(x, r) => {
            assert(print_at(e, Mode::Fun) == seq!['(', '\u{3bb}'] + x + print_at(*r, Mode::Cont)
                + seq![')']);
            assert(size_of(ExpView::Lamb(x, Box::new(*r))) == size_of(e));
            lemma_rt_lamb(x, *r, s, i, ctx, None);
            assert(push_acc(None, ExpView::Lamb(x, Box::new(*r))) == Some(e));
        },
    }
}

/// The argument-position rendering of a term — self-parenthesized unless
/// it is a variable — folds onto the accumulated expression as one atom.
proof fn lemma_rt_atom(e: ExpView, s: Seq<char>, i: int, ctx: PCtx, acc: Option<ExpView>)
    requires
        printable(e),
        0 <= i,
        i + print_at(e, Mode::Arg).len() <= s.len(),
        s.subrange(i, i + print_at(e, Mode::Arg).len()) == print_at(e, Mode::Arg),
        stopper_at(s, i + print_at(e, Mode::Arg).len()),
    ensures
        sp_loop(s, i, ctx, acc) == sp_loop(
            s,
            i + print_at(e, Mode::Arg).len(),
            ctx,
            push_acc(acc, e),
        ),
    decreases size_of(e), 3int,
{
    let n = s.len() as int;
    match e {
        ExpView::Var(name) => {
            assert(print_at(e, Mode::Arg) == name);
            lemma_name_scan(s, i, name);
            assert(s[i] == name[0]);
            assert(!bad_name_char(name[0]));
            assert(adv(i, var_end(s, i), n) == i + name.len());
            assert(s.subrange(i, var_end(s, i)) == name);
        },
        ExpView::Call(_, _) => {
            let tf = print_at(e, Mode::Fun);
            let jq = i + 1 + tf.len();
            assert(print_at(e, Mode::Arg) =~= seq!['('] + (tf + seq![')'])) by {
                match e {
                    ExpView::Call(a, b) => {
                        assert(print_at(e, Mode::Arg) == seq!['('] + print_at(*a, Mode::Fun)
                            + seq![' '] + print_at(*b, Mode::Arg) + seq![')']);
                        assert(tf == print_at(*a, Mode::Fun) + seq![' '] + print_at(
                            *b,
                            Mode::Arg,
                        ));
                    },
                    _ => {},
                }
            }
            assert(s.subrange(i, i + 1 + (tf + seq![')']).len()) == seq!['('] + (tf
                + seq![')']));
            lemma_embed_split(s, i, seq!['('], tf + seq![')']);
            lemma_embed_split(s, i + 1, tf, seq![')']);
            assert(s[i] == '(');
            assert(s[jq] == ')');
            assert(stopper_at(s, jq));
            lemma_rt_spine(e, s, i + 1, PCtx::Paren);
            assert(sp_loop(s, jq, PCtx::Paren, Some(e)) == sp_finish(
                s,
                jq + 1,
                PCtx::Paren,
                Some(e),
                true,
            ));
            assert(sp_loop(s, i + 1, PCtx::Paren, None) == Ok::<(ExpView, int), (
                PErrType,
                int,
            )>((e, jq + 1)));
            assert(adv(i, jq + 1, n) == jq + 1);
        },
        ExpView::Lamb(x, r) => {
            assert(print_at(e, Mode::Arg) == seq!['(', '\u{3bb}'] + x + print_at(*r, Mode::Cont)
                + seq![')']);
            assert(size_of(ExpView::Lamb(x, Box::new(*r))) == size_of(e));
            lemma_rt_lamb(x, *r, s, i, ctx, acc);
        },
    }
}

/// Round trip: parsing the canonical rendering of a printable term gives
/// back exactly that term.
pub proof fn lemma_round_trip(e: ExpView)
    requires
        printable(e),
    ensures
        sp_parse(print_of(e)) == Ok::<ExpView, (PErrType, int)>(e),
{
    let s = print_of(e);
    let n = s.len() as int;
    match e {
        ExpView::Lamb(x, r) => {
            let c = print_at(*r, Mode::Cont);
            assert(s == seq!['\u{3bb}'] + x + c);
            assert(s =~= seq!['\u{3bb}'] + (x + c));
            assert(s.subrange(0, n) =~= s);
            lemma_embed_split(s, 0, seq!['\u{3bb}'], x + c);
            assert(s[0] == '\u{3bb}');
            assert(s.subrange(1, 1 + x.len() as int + c.len() as int) == x + c);
            assert(fun_follow(s, n));
            lemma_rt_fun(x, *r, s, 1);
            assert(adv(0, n, n) == n);
            assert(sp_loop(s, 0, PCtx::Root, None) == sp_loop(
                s,
                n,
                PCtx::Root,
                Some(ExpView::Lamb(x, Box::new(*r))),
            ));
            assert(sp_loop(s, n, PCtx::Root, Some(e)) == Ok::<(ExpView, int), (PErrType, int)>(
                (e, n),
            ));
        },
        _ => {
            assert(s == print_at(e, Mode::Fun));
            assert(s.subrange(0, n) =~= s);
            assert(stopper_at(s, n));
            lemma_rt_spine(e, s, 0, PCtx::Root);
            assert(sp_loop(s, n, PCtx::Root, Some(e)) == Ok::<(ExpView, int), (PErrType, int)>(
                (e, n),
            ));
        },
    }
}

/// Parses a whole source text into an expression tree, or reports the first
/// error with its byte offset.  The result is exactly what the grammar
/// specification [`sp_parse`] assigns to the text.
pub fn parse(input: &str) -> (r: Result<Exp, ParseError>)
    ensures
        match r {
            Ok(e) => sp_parse(input@) == Ok::<ExpView, (PErrType, int)>(e@),
            Err(pe) => sp_parse(input@) == Err::<ExpView, (PErrType, int)>(
                (pe.typ, pe.pos as int),
            ),
        },
{
    let n = input.unicode_len();
    match get_parse(input, 0, 0, PCtx::Root, None) {
        Ok((e, j, joff)) => {
            if j == n {
                Ok(e)
            } else {
                Err(ParseError { typ: PErrType::Incomplete, pos: joff })
            }
        },
        Err(pe) => Err(pe),
    }
}

} // verus!
