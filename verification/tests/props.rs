use lambda::parser::{parse, ParseError};

fn round_trips(src: &str) -> Result<(), ParseError> {
    let e = parse(src)?;
    let printed = e.to_text();
    assert_eq!(parse(&printed), Ok(e));
    Ok(())
}

#[test]
fn print_examples() -> Result<(), ParseError> {
    assert_eq!(parse("x y z")?.to_text(), "x y z");
    assert_eq!(parse("x (y z)")?.to_text(), "x (y z)");
    assert_eq!(parse("(x y) z")?.to_text(), "x y z");
    Ok(())
}

#[test]
fn round_trip_examples() -> Result<(), ParseError> {
    round_trips("x")?;
    round_trips("x y z")?;
    round_trips("x (y z)")?;
    round_trips("(x y) z")?;
    round_trips("\\x y. x (y y)")?;
    round_trips("a \\x. z")?;
    round_trips("λs z. s (s z)")?;
    round_trips("let x := y; x x")?;
    round_trips("(\\S K. S K K) (\\x y z. x z (y z)) (\\x y. x)")?;
    round_trips("α (β γ)")?;
    Ok(())
}

#[test]
fn print_nested_lambdas() -> Result<(), ParseError> {
    assert_eq!(parse("\\x. \\y. \\z. (x z) (y z)")?.to_text(), "λx y z. x z (y z)");
    assert_eq!(parse("a (\\x. z)")?.to_text(), "a (λx. z)");
    assert_eq!(parse("(\\x. x) y")?.to_text(), "(λx. x) y");
    Ok(())
}

#[test]
fn comments_produce_no_nodes() -> Result<(), ParseError> {
    assert_eq!(parse("# only a comment\nx")?.to_text(), "x");
    assert_eq!(parse("x # trailing")?.to_text(), "x");
    Ok(())
}
