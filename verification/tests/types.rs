use conformator::lexer::parser_prime;
use conformator::types::{Arg, Concept, Concepts, Expr, Function, Package};

#[test]
fn concepts_keep_first_of_equal_items() {
    let (_, items) = parser_prime("a: b; -- f does x; a: b; a: c; -- f does x;");
    let concepts = Concepts::from(items);
    assert_eq!(concepts.packages.len(), 2);
    assert_eq!(concepts.packages[0].dependency, vec!["b"]);
    assert_eq!(concepts.packages[1].dependency, vec!["c"]);
    assert_eq!(concepts.functions.len(), 1);
}

#[test]
fn constructors_fill_fields() {
    let p = Package::from_tuple((("n", Some("proc")), vec!["d"]));
    assert_eq!(p.name, "n");
    assert_eq!(p.processor, Some("proc"));
    assert_eq!(p.dependency, vec!["d"]);
    let q = Package::from_name("m");
    assert!(q.dependency.is_empty() && q.processor.is_none());
    assert_eq!(p.display(), "n");
    assert!(p.same_as(&p.duplicate()));
    assert!(!p.same_as(&q));
    let e = Expr::boxed_from_tuple(("f", Arg::String("x")));
    assert_eq!(e.name, "f");
    let f = Function::from_tuple(("g", Arg::Expr(e)));
    assert_eq!(f.name, "g");
    assert!(matches!(Concept::from(f), Concept::Function(_)));
    assert!(matches!(Concept::from(q), Concept::Package(_)));
}
