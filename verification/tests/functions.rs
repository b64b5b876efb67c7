use conformator::functions::{
    apply_stage, format_string_consumer, function_interpreter, function_registry_composer,
    expression_consumer, standard_functions, Builtin, Callable, FnMap, FunctionError, Step, Stream,
};
use conformator::lexer::parser_prime;
use conformator::types::{Arg, Concepts, Expr, Function};

/// Runs a callable, with each command builtin giving its name and
/// argument, and written lines collected.
fn run_writing(c: &Callable, input: &str) -> (String, Vec<String>) {
    let mut value = input.to_string();
    let mut lines = Vec::new();
    for stage in c.stages() {
        value = match apply_stage(&stage, &value) {
            Step::Output(s) => s,
            Step::Run(b) => format!("{:?}[{}]", b, value),
            Step::Emit { stream, line, result } => {
                lines.push(format!("{:?}: {}", stream, line));
                result
            },
        };
    }
    (value, lines)
}

fn run(c: &Callable, input: &str) -> String {
    run_writing(c, input).0
}

#[test]
fn format_strings_and_constants() {
    let c = format_string_consumer("hello {}!").unwrap();
    assert!(matches!(c, Callable::Format("hello ", "!")));
    assert_eq!(run(&c, "world"), "hello world!");
    // The hole may start the text.
    let c = format_string_consumer("{} world").unwrap();
    assert!(matches!(c, Callable::Format("", " world")));
    assert_eq!(run(&c, "hello"), "hello world");
    assert!(matches!(format_string_consumer("{}").unwrap(), Callable::Format("", "")));
    // The first `{` must be followed by `}`.
    assert!(matches!(format_string_consumer("a {x} {}").unwrap(), Callable::Constant("a {x} {}")));
    assert!(matches!(format_string_consumer("no hole").unwrap(), Callable::Constant("no hole")));
    assert!(matches!(format_string_consumer("end {").unwrap(), Callable::Constant("end {")));
    assert!(matches!(format_string_consumer("x{}").unwrap(), Callable::Format("x", "")));
}

#[test]
fn standard_registry_holds_builtins() {
    let m: FnMap = standard_functions();
    assert!(matches!(m.get("print"), Some(Callable::Builtin(Builtin::Print))));
    assert!(matches!(m.get("bash"), Some(Callable::Builtin(Builtin::Bash))));
    assert!(matches!(m.get("bash_status"), Some(Callable::Builtin(Builtin::BashStatus))));
    assert!(matches!(m.get("debug"), Some(Callable::Builtin(Builtin::Debug))));
    assert!(m.get("main").is_none());
}

#[test]
fn interpreter_reads_bodies() {
    let m = standard_functions();
    let f = Function { name: "f", args: Arg::String("bash") };
    assert!(matches!(function_interpreter(f, &m), Ok(Callable::Builtin(Builtin::Bash))));
    let call = Expr { name: "print", argument: Arg::String("hi {}") };
    let f = Function { name: "f", args: Arg::Expr(Box::new(call)) };
    let c = function_interpreter(f, &m).unwrap();
    assert_eq!(run_writing(&c, "x"), (String::new(), vec!["Output: hi x".to_string()]));
    let call = Expr { name: "missing", argument: Arg::String("hi") };
    let f = Function { name: "f", args: Arg::Expr(Box::new(call)) };
    assert!(matches!(function_interpreter(f, &m), Err(FunctionError::NotInScope("missing"))));
}

#[test]
fn registry_composes_in_order() {
    let config = "-- greet does \"hello {}\";\n-- main does $ print $ greet $ bash \"echo\";";
    let (_, items) = parser_prime(config);
    let concepts = Concepts::from(items);
    let registry = function_registry_composer(concepts.functions).unwrap();
    let main = registry.get("main").unwrap();
    assert_eq!(run_writing(main, ""), (String::new(), vec!["Output: hello Bash[echo]".to_string()]));
}

#[test]
fn registry_reports_missing_function() {
    let (_, items) = parser_prime("-- main does $ nothing \"x\";");
    let concepts = Concepts::from(items);
    assert!(matches!(function_registry_composer(concepts.functions), Err(FunctionError::NotInScope("nothing"))));
}

#[test]
fn later_definition_replaces_earlier() {
    let (_, items) = parser_prime("-- a does \"one\"; -- a does \"two\"; -- b does a;");
    let concepts = Concepts::from(items);
    let registry = function_registry_composer(concepts.functions).unwrap();
    assert_eq!(run(registry.get("a").unwrap(), ""), "two");
    assert_eq!(run(registry.get("b").unwrap(), ""), "two");
}

#[test]
fn stages_run_inner_first() {
    let inner = Callable::Format("<", ">");
    let outer = Callable::Format("[", "]");
    let c = Callable::Compose(Box::new(outer), Box::new(inner));
    assert_eq!(c.stages().len(), 2);
    assert_eq!(run(&c, "x"), "[<x>]");
}

#[test]
fn print_and_debug_results() {
    let m = standard_functions();
    let call = Expr { name: "debug", argument: Arg::String("hello {}") };
    let f = expression_consumer(call, &m).unwrap();
    assert_eq!(run_writing(&f, "world"), ("hello world".to_string(), vec!["Error: hello world".to_string()]));
    let call = Expr { name: "print", argument: Arg::String("{}!") };
    let f = expression_consumer(call, &m).unwrap();
    assert_eq!(run_writing(&f, "hi"), (String::new(), vec!["Output: hi!".to_string()]));
    assert!(matches!(apply_stage(&Callable::Builtin(Builtin::Debug), "x"),
        Step::Emit { stream: Stream::Error, ref line, ref result } if line == "x" && result == "x"));
    assert!(matches!(apply_stage(&Callable::Builtin(Builtin::BashStatus), "x"), Step::Run(Builtin::BashStatus)));
}
