use regex_nfa::parser::ast::{ClassRange, Expr, Repeat};

#[test]
fn test_repeat_constructors() {
    let star = Repeat::star(Expr::Literal('a'), true);
    assert_eq!(star.min, 0);
    assert_eq!(star.max, None);
    assert!(star.greedy);

    let plus = Repeat::plus(Expr::Literal('a'), false);
    assert_eq!(plus.min, 1);
    assert_eq!(plus.max, None);
    assert!(!plus.greedy);

    let question = Repeat::question(Expr::Literal('a'), true);
    assert_eq!(question.min, 0);
    assert_eq!(question.max, Some(1));
}

#[test]
fn test_class_range() {
    let range = ClassRange::new('a', 'z');
    assert!(range.contains('m'));
    assert!(!range.contains('A'));
}

#[test]
fn test_is_nullable() {
    assert!(Expr::Empty.is_nullable());
    assert!(!Expr::Literal('a').is_nullable());
    assert!(Expr::Repeat(Box::new(Repeat::star(Expr::Literal('a'), true))).is_nullable());
}
