use lambda::code::Exp::{Call, Lamb, Var};

#[test]
fn display_var() {
    assert_eq!(Var("x".to_string()).to_text(), "x");
    assert_eq!(Var("α".to_string()).to_text(), "α");
}

#[test]
fn display_call() {
    assert_eq!(
        Call(
            Box::new(Var("x".to_string())),
            Box::new(Var("y".to_string())),
        )
        .to_text(),
        "x y"
    );
    assert_eq!(Var("α".to_string()).to_text(), "α");
}

#[test]
fn display_lambda() {
    assert_eq!(
        Lamb(
            "x".to_string(),
            Box::new(Lamb("y".to_string(), Box::new(Var("z".to_string())))),
        )
        .to_text(),
        "λx y. z"
    );
}
