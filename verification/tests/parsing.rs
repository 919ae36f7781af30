use lambda::code::Exp::{Call, Lamb, Var};
use lambda::parser::PErrType::{
    BadArgs, BadLet, CloseEarly, EmptyArgs, EmptyCall, NoClose, Reserved,
};
use lambda::parser::{parse, PErrType, ParseError};

fn p_err<T>(typ: PErrType, pos: usize) -> Result<T, ParseError> {
    Err(ParseError { typ, pos })
}

#[test]
fn basic_parse() {
    assert_eq!(parse("x"), Ok(Var("x".to_string())));
    assert_eq!(
        parse("a b"),
        Ok(Call(
            Box::new(Var("a".to_string())),
            Box::new(Var("b".to_string()))
        ))
    );
    assert_eq!(
        parse("\\z.z"),
        Ok(Lamb("z".to_string(), Box::new(Var("z".to_string()))))
    );
}

#[test]
fn parens() {
    assert_eq!(parse("x"), parse("(((x)))"));
    assert_eq!(parse("x y"), parse("(x y)"));
    assert_eq!(parse("(x) y"), parse("x (y)"));
    assert_eq!(parse("\\x.y x"), parse("(\\x. (y x))"));
}

#[test]
fn calls() {
    assert_eq!(
        parse("x y z"),
        Ok(Call(
            Box::new(Call(
                Box::new(Var("x".to_string())),
                Box::new(Var("y".to_string()))
            )),
            Box::new(Var("z".to_string()))
        ))
    );
    assert_eq!(parse("x y z"), parse("(x y) z"));
    assert_eq!(parse("a b c d"), parse("(((a b) c) d)"));
    assert_ne!(parse("x y z"), parse("x (y z)"));
    assert_eq!(parse("x z (y z)"), parse("(x z) (y z)"));
}

#[test]
fn lambdas() {
    assert_eq!(parse("\\x y. z"), parse("\\x. \\y. z"));
    assert_eq!(parse("a \\x. z"), parse("a (\\x. z)"));
    assert_eq!(parse("\\x y z. x z (y z)"), parse("\\x. \\y. \\z. (x z) (y z)"));
}

#[test]
fn spaces() {
    assert_eq!(parse("  \\x .    x   "), parse("\\x.x"));
    assert_eq!(parse("   a        b    c  "), parse("a b c"));
}

#[test]
fn unicode() {
    assert_eq!(parse("α"), Ok(Var("α".to_string())));
    assert_eq!(parse("λx.x"), parse("\\x.x"));
    assert_eq!(parse("yλx.x"), parse("y\\x.x"));
    assert_eq!(parse("ζλx.x"), parse("ζ \\x.x"));
}

#[test]
fn comments() {
    assert_eq!(parse("\\x y. z # foo"), parse("\\x y. z"));
    assert_eq!(
        parse(
            "\
(\\S K. S K K)       # substitute in combinators\n\
(\\x y z. x z (y z)) # S combinator: calls first argument on third, then\n\
                     # calls the result on the second applied to the third\n\
(\\x y. x)           # K combinator: returns first argument, ignores second\
        "
        ),
        parse("(\\S K. S K K) (\\x y z. x z (y z)) (\\x y. x)")
    );
}

#[test]
fn lets() {
    assert_eq!(parse("let x:=y; x x"), parse("(\\x. x x) y"));
    assert_eq!(
        parse("let x := y; let z := x w; x z"),
        parse("(\\x. (\\z. x z) (x w)) y")
    );
    assert_eq!(parse("\\y. let x := y y; x x"), parse("\\y. (\\x. x x) (y y)"));
    assert_eq!(parse("a let x := \\y. y; x x"), parse("a ((\\x. x x) \\y. y)"));
}

#[test]
fn lets_not() {
    assert_eq!(parse("lettuce"), Ok(Var("lettuce".to_string())));
    assert_eq!(parse("islet"), Ok(Var("islet".to_string())));
    assert_eq!(
        parse("\\filets. filets"),
        Ok(Lamb(
            "filets".to_string(),
            Box::new(Var("filets".to_string()))
        ))
    );
}

#[test]
fn reserved() {
    assert_eq!(parse(":="), p_err(Reserved, 0));
    assert_eq!(parse("x := y"), p_err(Reserved, 2));
    assert_eq!(parse("f ;"), p_err(Reserved, 2));
    assert_eq!(parse("(a ; b)"), p_err(Reserved, 3));
    assert_eq!(parse(";"), p_err(Reserved, 0));
    assert_eq!(parse("a b; c"), p_err(Reserved, 3));
}

#[test]
fn err_empty_calls() {
    assert_eq!(parse(""), p_err(EmptyCall, 0));
    assert_eq!(parse("()"), p_err(EmptyCall, 1));
    assert_eq!(parse("\\x."), p_err(EmptyCall, 3));
}

#[test]
fn err_bad_args() {
    assert_eq!(parse("\\.x"), p_err(EmptyArgs, 1));
    assert_eq!(parse("\\"), p_err(EmptyArgs, 0));
    assert_eq!(parse("\\ "), p_err(EmptyArgs, 1));
    assert_eq!(parse("\\x\\"), p_err(BadArgs, 2));
    assert_eq!(parse("\\x)"), p_err(BadArgs, 2));
}

#[test]
fn err_bad_args_unicode() {
    assert_eq!(parse("λ.α"), p_err(EmptyArgs, 2));
    assert_eq!(parse("λ"), p_err(EmptyArgs, 1));
    assert_eq!(parse("λ "), p_err(EmptyArgs, 2));
    assert_eq!(parse("λαλ"), p_err(BadArgs, 4));
}

#[test]
fn err_no_close() {
    assert_eq!(parse("("), p_err(NoClose, 1));
    assert_eq!(parse("(x y z"), p_err(NoClose, 6));
    assert_eq!(parse("(x (y z)"), p_err(NoClose, 8));
}

#[test]
fn err_close_early() {
    assert_eq!(parse(")"), p_err(CloseEarly, 0));
    assert_eq!(parse("x y) z"), p_err(CloseEarly, 3));
    assert_eq!(parse("(x y) z)"), p_err(CloseEarly, 7));
}

#[test]
fn err_bad_let() {
    assert_eq!(parse("let x y"), p_err(BadLet, 6));
    assert_eq!(parse("let x = y; x"), p_err(BadLet, 6));
    assert_eq!(parse("let x"), p_err(BadLet, 5));
}

#[test]
fn let_without_space_is_reserved() {
    assert_eq!(parse("let:=y; x"), p_err(Reserved, 3));
}

#[test]
fn let_with_empty_name() {
    assert_eq!(
        parse("let := y; b"),
        Ok(Call(
            Box::new(Lamb("".to_string(), Box::new(Var("b".to_string())))),
            Box::new(Var("y".to_string()))
        ))
    );
}

#[test]
fn stray_dot_is_reserved() {
    assert_eq!(parse("."), p_err(Reserved, 0));
    assert_eq!(parse("x . y"), p_err(Reserved, 2));
}

#[test]
fn names_with_odd_characters() {
    assert_eq!(parse("a:b"), Ok(Var("a:b".to_string())));
    assert_eq!(parse("a#b"), Ok(Var("a#b".to_string())));
    assert_eq!(
        parse("\\#x. y"),
        Ok(Lamb("#x".to_string(), Box::new(Var("y".to_string()))))
    );
    assert_eq!(
        parse("\\let. x"),
        Ok(Lamb("let".to_string(), Box::new(Var("x".to_string()))))
    );
}

#[test]
fn trailing_let_is_a_variable() {
    assert_eq!(
        parse("a let"),
        Ok(Call(
            Box::new(Var("a".to_string())),
            Box::new(Var("let".to_string()))
        ))
    );
    assert_eq!(parse("let"), Ok(Var("let".to_string())));
}

#[test]
fn err_empty_args_reserved() {
    assert_eq!(parse("\\("), p_err(EmptyArgs, 1));
    assert_eq!(parse("\\)x"), p_err(EmptyArgs, 1));
    assert_eq!(parse("λ("), p_err(EmptyArgs, 2));
    assert_eq!(parse("\\:=x"), p_err(EmptyArgs, 1));
}
