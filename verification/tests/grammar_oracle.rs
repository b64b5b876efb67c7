//! Runs the configuration grammar as nom's combinators state it, and
//! compares what it recognizes with the library on many inputs.

use conformator::lexer::{
    parse_dependency_tree, parse_function_definition, parse_function_expression, parse_identifier,
    parse_str, parser_prime,
};
use conformator::types::{Arg, Concept};
use nom::{branch, bytes::complete as bcomplete, character::complete, combinator, error, multi, sequence, IResult};

type E<'a> = error::VerboseError<&'a str>;

const SPECIAL: &str = ":+ ;@$\\'\"";

#[derive(Debug, PartialEq, Eq, Clone)]
enum Body {
    Text(String),
    Call(String, Box<Body>),
}

#[derive(Debug, PartialEq, Eq, Clone)]
enum Item {
    Package(String, Option<String>, Vec<String>, Vec<String>),
    Function(String, Body),
}

fn escaped_run<'a>(special: &'a str) -> impl FnMut(&'a str) -> IResult<&'a str, &'a str, E<'a>> {
    bcomplete::escaped(complete::none_of(special), '\\', complete::one_of(special))
}

fn spaced<'a, O>(
    p: impl FnMut(&'a str) -> IResult<&'a str, O, E<'a>>,
) -> impl FnMut(&'a str) -> IResult<&'a str, O, E<'a>> {
    sequence::delimited(complete::multispace0, p, complete::multispace0)
}

fn ident(input: &str) -> IResult<&str, &str, E<'_>> {
    spaced(branch::alt((
        sequence::delimited(complete::char('"'), escaped_run("\""), complete::char('"')),
        sequence::delimited(complete::char('\''), escaped_run("'"), complete::char('\'')),
        escaped_run(SPECIAL),
    )))(input)
}

fn dependency(input: &str) -> IResult<&str, (&str, bool), E<'_>> {
    let (input, _) = complete::multispace0(input)?;
    let (input, bang) = combinator::opt(complete::char('!'))(input)?;
    let (input, name) = ident(input)?;
    Ok((input, (name, bang.is_some())))
}

fn tree(input: &str) -> IResult<&str, Item, E<'_>> {
    let (rest, (((name, processor), deps), _)) = spaced(sequence::pair(
        sequence::separated_pair(
            sequence::pair(ident, combinator::opt(sequence::preceded(complete::char('@'), ident))),
            complete::char(':'),
            multi::separated_list1(complete::char('+'), dependency),
        ),
        complete::char(';'),
    ))(input)?;
    Ok((
        rest,
        Item::Package(
            name.to_string(),
            processor.map(|p| p.to_string()),
            deps.iter().map(|d| d.0.to_string()).collect(),
            deps.iter().filter(|d| d.1).map(|d| d.0.to_string()).collect(),
        ),
    ))
}

fn text_body(input: &str) -> IResult<&str, Body, E<'_>> {
    let (rest, t) = ident(input)?;
    Ok((rest, Body::Text(t.to_string())))
}

fn call_body(input: &str) -> IResult<&str, Body, E<'_>> {
    let (rest, (name, inner)) = sequence::preceded(
        complete::char('$'),
        sequence::pair(ident, branch::alt((body, text_body))),
    )(input)?;
    Ok((rest, Body::Call(name.to_string(), Box::new(inner))))
}

fn body(input: &str) -> IResult<&str, Body, E<'_>> {
    spaced(branch::alt((call_body, text_body)))(input)
}

fn definition(input: &str) -> IResult<&str, Item, E<'_>> {
    let (rest, (name, b)) = spaced(sequence::delimited(
        bcomplete::tag("--"),
        spaced(sequence::separated_pair(ident, bcomplete::tag("does"), body)),
        complete::char(';'),
    ))(input)?;
    Ok((rest, Item::Function(name.to_string(), b)))
}

fn config(input: &str) -> IResult<&str, Vec<Item>, E<'_>> {
    spaced(multi::many0(branch::alt((definition, tree))))(input)
}

fn body_of(arg: &Arg) -> Body {
    match arg {
        Arg::String(s) => Body::Text(s.to_string()),
        Arg::Expr(e) => Body::Call(e.name.to_string(), Box::new(body_of(&e.argument))),
    }
}

fn item_of(c: &Concept) -> Item {
    match c {
        Concept::Package(p) => Item::Package(
            p.name.to_string(),
            p.processor.map(|s| s.to_string()),
            p.dependency.iter().map(|d| d.to_string()).collect(),
            p.optional.iter().map(|d| d.to_string()).collect(),
        ),
        Concept::Function(f) => Item::Function(f.name.to_string(), body_of(&f.args)),
        _ => unreachable!(),
    }
}

fn compare(input: &str) {
    for special in [SPECIAL, "\"", "'", "{", ""] {
        let expected = escaped_run(special)(input).ok();
        assert_eq!(parse_str(input, special).ok(), expected, "parse_str {:?} on {:?}", special, input);
    }
    assert_eq!(parse_identifier(input).ok(), ident(input).ok(), "identifier on {:?}", input);
    let mine = parse_dependency_tree(input).ok().map(|(r, p)| (r, item_of(&Concept::Package(p))));
    assert_eq!(mine, tree(input).ok(), "dependency tree on {:?}", input);
    let mine = parse_function_expression(input).ok().map(|(r, a)| (r, body_of(&a)));
    assert_eq!(mine, body(input).ok(), "body on {:?}", input);
    let mine = parse_function_definition(input).ok().map(|(r, f)| (r, item_of(&Concept::Function(f))));
    assert_eq!(mine, definition(input).ok(), "definition on {:?}", input);
    let (rest, items) = parser_prime(input);
    let expected = config(input).unwrap();
    assert_eq!((rest, items.iter().map(item_of).collect::<Vec<_>>()), expected, "config on {:?}", input);
}

#[test]
fn grammar_agrees_on_samples() {
    let samples = [
        "zoxide: cargo + fzf;",
        "zoxide: cargo + fzf;\ncargo: curl;",
        " a @ p : b + 'c d' + \"e;f\" ;  -- main does $ print $ bash \"echo {}\" \"x\";",
        "-- main does $ print \"hello {}\";",
        "--f does $a $b c;",
        "-- does does does;",
        "a\\:b: c\\+d;",
        "a: b +;",
        "a: b + ;",
        "a@: b;",
        "-- f does $;",
        "-- f does $ $;",
        "x:\ty\n+\rz;",
        "\"\": a;",
        "'a: b;",
        "a: 'b;",
        "é: ü + ß;",
        "-- g does \\$x;",
        "zoxide: cargo + !fzf;",
        "a: ! b + !'c d' + !;",
        "a!: !b!;",
        "-- f does {} world;",
    ];
    for s in samples {
        compare(s);
    }
}

#[test]
fn grammar_agrees_on_short_inputs() {
    let alphabet = ['a', 'd', '"', '\'', '\\', ':', '+', ' ', ';', '@', '$', '-', '\n', '{', '!'];
    let mut inputs: Vec<String> = vec![String::new()];
    let mut frontier: Vec<String> = vec![String::new()];
    for _ in 0..4 {
        let mut next = Vec::new();
        for s in &frontier {
            for c in alphabet {
                let mut t = s.clone();
                t.push(c);
                next.push(t);
            }
        }
        inputs.extend(next.iter().cloned());
        frontier = next;
    }
    for s in &inputs {
        compare(s);
    }
}
