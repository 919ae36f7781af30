use lambda::code::Exp;
use lambda::parser::{parse, ParseError};
use lambda::reduce::{
    free_in, reduce_full, reduce_iter, reduce_step, reduce_with, strat_byname, sub, Reduc,
};

#[test]
fn reductions() -> Result<(), ParseError> {
    assert_eq!(reduce_with(parse("x")?, &Reduc::Irred), parse("x")?);
    assert_eq!(
        reduce_with(parse("(\\x. y x) z")?, &Reduc::Irred),
        parse("(\\x. y x) z")?
    );
    assert_eq!(reduce_with(parse("(\\x. y x) z")?, &Reduc::Beta), parse("y z")?);
    assert_eq!(
        reduce_with(parse("((\\x z. y x z) z)")?, &Reduc::Beta),
        parse("\\z'. y z z'")?
    );
    assert_eq!(
        reduce_with(
            parse("(\\a. a) b ((\\x. x) y)")?,
            &Reduc::Left(Box::new(Reduc::Beta))
        ),
        parse("b ((\\x. x) y)")?
    );
    assert_eq!(
        reduce_with(
            parse("(\\a. a) b ((\\x. x) y)")?,
            &Reduc::Right(Box::new(Reduc::Beta))
        ),
        parse("(\\a. a) b y")?
    );
    Ok(())
}

#[test]
fn step_byname() -> Result<(), ParseError> {
    assert_eq!(
        reduce_step(strat_byname, parse("x")?),
        (Reduc::Irred, parse("x")?)
    );
    assert_eq!(
        reduce_step(strat_byname, parse("(\\a. a) b ((\\x. x) y)")?),
        (Reduc::Left(Box::new(Reduc::Beta)), parse("b ((\\x. x) y)")?)
    );
    Ok(())
}

#[test]
fn skk_step_byname() -> Result<(), ParseError> {
    assert_eq!(
        reduce_step(
            strat_byname,
            parse("(\\S K. S K K) (\\x y z. x z (y z)) (\\x y. x)")?
        ),
        (
            Reduc::Left(Box::new(Reduc::Beta)),
            parse("(\\K. (\\x y z. x z (y z)) K K) (\\x y. x)")?
        )
    );

    assert_eq!(
        reduce_step(strat_byname, parse("(\\K. (\\x y z. x z (y z)) K K) (\\x y. x)")?),
        (
            Reduc::Beta,
            parse("(\\x y z. x z (y z)) (\\x y. x) (\\x y. x)")?
        )
    );

    assert_eq!(
        reduce_step(
            strat_byname,
            parse("(\\x y z. x z (y z)) (\\x y. x) (\\x y. x)")?
        ),
        (
            Reduc::Left(Box::new(Reduc::Beta)),
            parse("(\\y z. (\\x y. x) z (y z)) (\\x y. x)")?
        )
    );

    assert_eq!(
        reduce_step(strat_byname, parse("(\\y z. (\\x y. x) z (y z)) (\\x y. x)")?),
        (Reduc::Beta, parse("\\z. (\\x y. x) z ((\\x y. x) z)")?)
    );

    assert_eq!(
        reduce_step(strat_byname, parse("\\z. (\\x y. x) z ((\\x y. x) z)")?),
        (Reduc::Irred, parse("\\z. (\\x y. x) z ((\\x y. x) z)")?)
    );
    Ok(())
}

#[test]
fn skk_iter_byname() -> Result<(), ParseError> {
    let mut it = reduce_iter(
        strat_byname,
        parse("(\\S K. S K K) (\\x y z. x z (y z)) (\\x y. x)")?,
    );
    let mut steps: Vec<(Reduc, Exp)> = Vec::new();
    while let Some(step) = it.next() {
        steps.push(step);
    }
    assert_eq!(
        steps,
        vec![
            (
                Reduc::Left(Box::new(Reduc::Beta)),
                parse("(\\K. (\\x y z. x z (y z)) K K) (\\x y. x)")?
            ),
            (
                Reduc::Beta,
                parse("(\\x y z. x z (y z)) (\\x y. x) (\\x y. x)")?
            ),
            (
                Reduc::Left(Box::new(Reduc::Beta)),
                parse("(\\y z. (\\x y. x) z (y z)) (\\x y. x)")?
            ),
            (Reduc::Beta, parse("\\z. (\\x y. x) z ((\\x y. x) z)")?)
        ]
    );
    Ok(())
}

#[test]
fn skk_full_byname() -> Result<(), ParseError> {
    assert_eq!(
        reduce_full(
            strat_byname,
            parse("(\\S K. S K K) (\\x y z. x z (y z)) (\\x y. x)")?
        ),
        parse("\\z. (\\x y. x) z ((\\x y. x) z)")?
    );
    assert_eq!(
        reduce_full(
            strat_byname,
            parse("(\\S K. S K K) (\\x y z. x z (y z)) (\\x y. x) a")?
        ),
        parse("a")?
    );
    Ok(())
}

#[test]
fn skk_steps_byname() -> Result<(), ParseError> {
    assert_eq!(
        reduce_full(
            strat_byname,
            parse("(\\S K. S K K) (\\x y z. x z (y z)) (\\x y. x)")?
        ),
        parse("\\z. (\\x y. x) z ((\\x y. x) z)")?
    );
    assert_eq!(
        reduce_full(
            strat_byname,
            parse("(\\S K. S K K) (\\x y z. x z (y z)) (\\x y. x) a")?
        ),
        parse("a")?
    );
    Ok(())
}

#[test]
fn irstrat_byname() -> Result<(), ParseError> {
    assert_eq!(strat_byname(&parse("x")?), Reduc::Irred);
    assert_eq!(strat_byname(&parse("a b")?), Reduc::Irred);
    assert_eq!(strat_byname(&parse("\\x.x")?), Reduc::Irred);
    assert_eq!(strat_byname(&parse("\\x. (\\y.y) z")?), Reduc::Irred);
    Ok(())
}

#[test]
fn beta_byname() -> Result<(), ParseError> {
    assert_eq!(strat_byname(&parse("(\\x. x) y")?), Reduc::Beta);
    assert_eq!(
        strat_byname(&parse("(\\x. x) y z")?),
        Reduc::Left(Box::new(Reduc::Beta))
    );
    assert_eq!(
        strat_byname(&parse("z ((\\x. x) y)")?),
        Reduc::Right(Box::new(Reduc::Beta))
    );
    Ok(())
}

#[test]
fn order_byname() -> Result<(), ParseError> {
    assert_eq!(
        strat_byname(&parse("(\\a. a) b ((\\x. x) y)")?),
        Reduc::Left(Box::new(Reduc::Beta))
    );
    assert_eq!(
        strat_byname(&parse("(\\x. (\\a. a) x) z w")?),
        Reduc::Left(Box::new(Reduc::Beta))
    );
    Ok(())
}

#[test]
fn free() -> Result<(), ParseError> {
    assert!(free_in("x", &parse("x")?));
    assert!(free_in("y", &parse("x y z")?));
    assert!(free_in("y", &parse("(\\x. x) y")?));
    assert!(!free_in("x", &parse("(\\x. x) y")?));
    assert!(!free_in("y", &parse("(\\x y. x)")?));
    assert!(free_in("y", &parse("(\\x y. x) y")?));
    Ok(())
}

#[test]
fn substitution() -> Result<(), ParseError> {
    assert_eq!(sub(parse("x")?, "x", parse("y")?), parse("y")?);
    assert_eq!(sub(parse("x y")?, "x", parse("z")?), parse("z y")?);
    assert_eq!(sub(parse("\\x. x z")?, "z", parse("w")?), parse("\\x. x w")?);
    assert_eq!(sub(parse("\\x. x")?, "x", parse("z")?), parse("\\x. x")?);
    assert_eq!(sub(parse("\\x. x z")?, "z", parse("x")?), parse("\\x'. x' x")?);
    Ok(())
}

#[test]
fn full_byname_idempotent() -> Result<(), ParseError> {
    assert_eq!(reduce_full(strat_byname, parse("x")?), parse("x")?);
    assert_eq!(reduce_full(strat_byname, parse("a b")?), parse("a b")?);
    assert_eq!(
        reduce_full(strat_byname, parse("\\x. (\\y.y) z")?),
        parse("\\x. (\\y.y) z")?
    );
    Ok(())
}

#[test]
fn repeated_rename() -> Result<(), ParseError> {
    assert_eq!(
        sub(parse("\\x. x z")?, "z", parse("x x'")?),
        parse("\\x''. x'' (x x')")?
    );
    Ok(())
}
