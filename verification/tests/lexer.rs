use conformator::lexer::{
    parse_dependency_tree, parse_function_definition, parse_function_expression, parse_identifier,
    parse_str, parser_prime, ParseError,
};
use conformator::types::{Arg, Concept};

fn arg_text(arg: &Arg) -> String {
    match arg {
        Arg::String(s) => format!("{:?}", s),
        Arg::Expr(e) => format!("${}({})", e.name, arg_text(&e.argument)),
    }
}

#[test]
fn parse_string() {
    let special_character = ":+ ;@\\";
    let input = "lost\\+found";
    let (rest, output) = parse_str(input, special_character).unwrap();
    assert_eq!(rest, "");
    assert_eq!(output, "lost\\+found");
}

#[test]
fn parse_dependency() {
    let sample = "zoxide: cargo + fzf;";
    let (rest, package) = parse_dependency_tree(sample).unwrap();
    assert_eq!(rest, "");
    assert_eq!(package.name, "zoxide");
    assert_eq!(package.dependency, vec!["cargo", "fzf"]);
    assert_eq!(package.processor, None);
}

#[test]
fn parse_str_stops_at_special() {
    assert_eq!(parse_str("abc;def", ";"), Ok((";def", "abc")));
    assert_eq!(parse_str("", ";"), Ok(("", "")));
    assert_eq!(parse_str(";x", ";"), Err(ParseError::Escaped));
    assert_eq!(parse_str("ab\\;c;d", ";\\"), Ok((";d", "ab\\;c")));
    assert_eq!(parse_str("ab\\", ";\\"), Err(ParseError::Escaped));
    assert_eq!(parse_str("ab\\x", ";\\"), Err(ParseError::Escaped));
    assert_eq!(parse_str("anything {at} all", ""), Ok(("", "anything {at} all")));
}

#[test]
fn identifier_forms() {
    assert_eq!(parse_identifier("  cargo + fzf"), Ok(("+ fzf", "cargo")));
    assert_eq!(parse_identifier("\"with space\" rest"), Ok(("rest", "with space")));
    assert_eq!(parse_identifier("'single' x"), Ok(("x", "single")));
    assert_eq!(parse_identifier("a\\:b:"), Ok((":", "a\\:b")));
    assert_eq!(parse_identifier(""), Ok(("", "")));
    assert_eq!(parse_identifier("\"\""), Err(ParseError::Identifier));
    assert_eq!(parse_identifier(":x"), Err(ParseError::Identifier));
    assert_eq!(parse_identifier("\"open"), Err(ParseError::Identifier));
}

#[test]
fn dependency_tree_with_processor() {
    let (rest, p) = parse_dependency_tree(" tool @ build : a+ 'b c' ; next").unwrap();
    assert_eq!(rest, "next");
    assert_eq!(p.name, "tool");
    assert_eq!(p.processor, Some("build"));
    assert_eq!(p.dependency, vec!["a", "b c"]);
}

#[test]
fn dependency_tree_errors() {
    assert!(matches!(parse_dependency_tree("a b;"), Err(ParseError::DependencyTree)));
    assert!(matches!(parse_dependency_tree("a: b"), Err(ParseError::DependencyTree)));
    assert!(matches!(parse_dependency_tree("a@: b;"), Err(ParseError::DependencyTree)));
    // A `+` that no identifier follows is left for `;`, which then fails.
    assert!(matches!(parse_dependency_tree("a: b +;"), Err(ParseError::DependencyTree)));
}

#[test]
fn function_expression_forms() {
    let (rest, arg) = parse_function_expression("$ print $ bash \"echo {}\" tail").unwrap();
    assert_eq!(rest, "tail");
    assert_eq!(arg_text(&arg), "$print($bash(\"echo {}\"))");
    let (rest, arg) = parse_function_expression("plain;").unwrap();
    assert_eq!(rest, ";");
    assert_eq!(arg_text(&arg), "\"plain\"");
    // A `$` at the end calls the empty name on the empty text.
    let (rest, arg) = parse_function_expression("$").unwrap();
    assert_eq!(rest, "");
    assert_eq!(arg_text(&arg), "$(\"\")");
    assert!(matches!(parse_function_expression(";"), Err(ParseError::FunctionBody)));
}

#[test]
fn function_definition_forms() {
    let (rest, f) = parse_function_definition("-- main does $ print \"hi\"; x").unwrap();
    assert_eq!(rest, "x");
    assert_eq!(f.name, "main");
    assert_eq!(arg_text(&f.args), "$print(\"hi\")");
    assert!(matches!(parse_function_definition("- main does x;"), Err(ParseError::FunctionDefinition)));
    assert!(matches!(parse_function_definition("-- main is x;"), Err(ParseError::FunctionDefinition)));
    assert!(matches!(parse_function_definition("-- main does x"), Err(ParseError::FunctionDefinition)));
}

#[test]
fn whole_configuration() {
    let config = "zoxide: cargo + fzf;\n cargo: curl;\n-- main does $ print \"hello {}\";\n";
    let (rest, items) = parser_prime(config);
    assert_eq!(rest, "");
    assert_eq!(items.len(), 3);
    match &items[0] {
        Concept::Package(p) => assert_eq!(p.name, "zoxide"),
        _ => panic!("expected a package"),
    }
    match &items[2] {
        Concept::Function(f) => assert_eq!(f.name, "main"),
        _ => panic!("expected a function"),
    }
}

#[test]
fn configuration_stops_at_unreadable_item() {
    let (rest, items) = parser_prime("a: b; !!! c: d;");
    assert_eq!(items.len(), 1);
    assert_eq!(rest, "!!! c: d;");
    let (rest, items) = parser_prime("   ");
    assert_eq!(rest, "");
    assert!(items.is_empty());
}

#[test]
fn optional_dependency_marker() {
    let (rest, p) = parse_dependency_tree("zoxide: cargo + !fzf;").unwrap();
    assert_eq!(rest, "");
    assert_eq!(p.name, "zoxide");
    assert_eq!(p.dependency, vec!["cargo", "fzf"]);
    assert_eq!(p.optional, vec!["fzf"]);
    let (_, p) = parse_dependency_tree("a: ! 'b c' + d + !e;").unwrap();
    assert_eq!(p.dependency, vec!["b c", "d", "e"]);
    assert_eq!(p.optional, vec!["b c", "e"]);
    // A `!` with no name after it is not a dependency.
    assert!(matches!(parse_dependency_tree("a: b + !;"), Err(ParseError::DependencyTree)));
    assert!(matches!(parse_dependency_tree("a: !;"), Err(ParseError::DependencyTree)));
    // Inside a name `!` is an ordinary character.
    let (_, p) = parse_dependency_tree("a!: b!c;").unwrap();
    assert_eq!(p.name, "a!");
    assert_eq!(p.dependency, vec!["b!c"]);
    assert!(p.optional.is_empty());
}
