//! Function definitions turned into callables.  A callable is a builtin
//! (which the caller runs, as it does input and output), a format string
//! with one `{}` hole, a constant text, or the composition of two callables.

use vstd::prelude::*;

use crate::lexer::tag_at;
use crate::text::{str_eq, to_chars};
use crate::types::{Arg, ArgModel, Expr, Function, FunctionModel, Functions, function_views};

verus! {

broadcast use vstd::string::group_string_axioms;

/// The functions every registry starts with.  `print` and `debug` write
/// their input, on the standard output and the standard error, and give
/// the empty text and their input; `bash` and `bash_status` run their
/// input as a command, which the caller does.
#[derive(Debug, Clone, Copy, PartialEq, Eq, Structural)]
pub enum Builtin {
    /// Writes its input on a line; gives the empty text.
    Print,
    /// Runs its input with `bash -c`; gives what it wrote, trimmed.
    Bash,
    /// Runs its input with `bash -c`; gives its exit code.
    BashStatus,
    /// Writes its input on the error stream; gives its input.
    Debug,
}

/// A function of one text argument.
#[derive(Debug)]
pub enum Callable<'a> {
    Builtin(Builtin),
    /// Gives the first text, the argument, then the second text.
    Format(&'a str, &'a str),
    /// Gives its text, whatever the argument.
    Constant(&'a str),
    /// Gives the first callable applied to what the second gives.
    Compose(Box<Callable<'a>>, Box<Callable<'a>>),
}

/// The meaning of a callable.
pub enum CallableModel {
    Builtin(Builtin),
    Format(Seq<char>, Seq<char>),
    Constant(Seq<char>),
    Compose(Box<CallableModel>, Box<CallableModel>),
}

pub open spec fn callable_model<'a>(c: &Callable<'a>) -> CallableModel
    decreases c,
{
    match c {
        Callable::Builtin(b) => CallableModel::Builtin(*b),
        Callable::Format(p, s) => CallableModel::Format(p@, s@),
        Callable::Constant(t) => CallableModel::Constant(t@),
        Callable::Compose(o, i) => CallableModel::Compose(
            Box::new(callable_model(&**o)),
            Box::new(callable_model(&**i)),
        ),
    }
}

impl<'a> View for Callable<'a> {
    type V = CallableModel;

    open spec fn view(&self) -> CallableModel {
        callable_model(self)
    }
}

/// Why a function definition could not be turned into a callable.
#[derive(Debug)]
pub enum FunctionError<'a> {
    /// A call names a function that is not in the registry.
    NotInScope(&'a str),
}

impl<'a> View for FunctionError<'a> {
    type V = Seq<char>;

    open spec fn view(&self) -> Seq<char> {
        match self {
            FunctionError::NotInScope(name) => name@,
        }
    }
}

// ------------------------------ specs ------------------------------ //

/// The position of the first `{` at or after `i`, or the end of the text.
pub open spec fn first_brace(s: Seq<char>, i: int) -> int
    decreases s.len() - i,
{
    if 0 <= i < s.len() {
        if s[i] == '{' {
            i
        } else {
            first_brace(s, i + 1)
        }
    } else {
        i
    }
}

/// What a text means as a function body of its own: a format string when
/// its first `{` is followed by `}`, giving the text before and after that
/// `{}`; otherwise the constant text.
pub open spec fn format_spec(s: Seq<char>) -> CallableModel {
    let e = first_brace(s, 0);
    if tag_at(s, e, seq!['{', '}']) {
        CallableModel::Format(s.subrange(0, e), s.subrange(e + 2, s.len() as int))
    } else {
        CallableModel::Constant(s)
    }
}

/// What a function body means against a registry: a text names a function
/// of the registry, or else is a format string or constant; a call
/// composes the function it names with what its argument means.  The error
/// is the first name, outside in, that the registry lacks.
pub open spec fn interpret_spec(arg: ArgModel, dir: Map<Seq<char>, CallableModel>) -> Result<CallableModel, Seq<char>>
    decreases arg,
{
    match arg {
        ArgModel::Text(v) => Ok(if dir.contains_key(v) { dir[v] } else { format_spec(v) }),
        ArgModel::Call(name, inner) => if !dir.contains_key(name) {
            Err(name)
        } else {
            match interpret_spec(*inner, dir) {
                Ok(c) => Ok(CallableModel::Compose(Box::new(dir[name]), Box::new(c))),
                Err(e) => Err(e),
            }
        },
    }
}

pub open spec fn print_name() -> Seq<char> {
    seq!['p', 'r', 'i', 'n', 't']
}

pub open spec fn bash_name() -> Seq<char> {
    seq!['b', 'a', 's', 'h']
}

pub open spec fn bash_status_name() -> Seq<char> {
    seq!['b', 'a', 's', 'h', '_', 's', 't', 'a', 't', 'u', 's']
}

pub open spec fn debug_name() -> Seq<char> {
    seq!['d', 'e', 'b', 'u', 'g']
}

/// The registry every composition starts from.
pub open spec fn standard_map() -> Map<Seq<char>, CallableModel> {
    Map::empty()
        .insert(print_name(), CallableModel::Builtin(Builtin::Print))
        .insert(bash_name(), CallableModel::Builtin(Builtin::Bash))
        .insert(bash_status_name(), CallableModel::Builtin(Builtin::BashStatus))
        .insert(debug_name(), CallableModel::Builtin(Builtin::Debug))
}

/// The registry after the functions in order, each read against the
/// registry before it and then added under its name (a later one replacing
/// an earlier of the same name); the first function that cannot be read
/// gives the error.
pub open spec fn registry_spec(fs: Seq<FunctionModel>) -> Result<Map<Seq<char>, CallableModel>, Seq<char>>
    decreases fs.len(),
{
    if fs.len() == 0 {
        Ok(standard_map())
    } else {
        match registry_spec(fs.drop_last()) {
            Err(e) => Err(e),
            Ok(m) => match interpret_spec(fs.last().args, m) {
                Ok(c) => Ok(m.insert(fs.last().name, c)),
                Err(e) => Err(e),
            },
        }
    }
}

// ----------------------------- registry ---------------------------- //

/// Named callables; a later entry of a name hides an earlier one.
pub struct FnMap<'a> {
    entries: Vec<(&'a str, Callable<'a>)>,
}

pub open spec fn entries_view<'a>(es: Seq<(&'a str, Callable<'a>)>) -> Map<Seq<char>, CallableModel>
    decreases es.len(),
{
    if es.len() == 0 {
        Map::empty()
    } else {
        entries_view(es.drop_last()).insert(es.last().0@, es.last().1@)
    }
}

proof fn lemma_entries_view_prefix<'a>(es: Seq<(&'a str, Callable<'a>)>, i: int, n: Seq<char>)
    requires
        0 <= i <= es.len(),
        forall|k: int| i <= k < es.len() ==> (#[trigger] es[k]).0@ != n,
    ensures
        entries_view(es).contains_key(n) == entries_view(es.take(i)).contains_key(n),
        entries_view(es)[n] == entries_view(es.take(i))[n],
    decreases es.len() - i,
{
    if i < es.len() {
        assert(es.drop_last().take(i) =~= es.take(i));
        assert forall|k: int| i <= k < es.drop_last().len() implies (#[trigger] es.drop_last()[k]).0@ != n by {
            assert(es.drop_last()[k] == es[k]);
        }
        lemma_entries_view_prefix(es.drop_last(), i, n);
        assert(es[es.len() - 1].0@ != n);
    } else {
        assert(es.take(i) =~= es);
    }
}

impl<'a> View for FnMap<'a> {
    type V = Map<Seq<char>, CallableModel>;

    closed spec fn view(&self) -> Map<Seq<char>, CallableModel> {
        entries_view(self.entries@)
    }
}

impl<'a> FnMap<'a> {
    /// An empty registry.
    pub fn new() -> (m: Self)
        ensures
            m@ == Map::<Seq<char>, CallableModel>::empty(),
    {
        FnMap { entries: Vec::new() }
    }

    /// Adds `c` under `name`, replacing what was there.
    pub fn insert(&mut self, name: &'a str, c: Callable<'a>)
        ensures
            final(self)@ == old(self)@.insert(name@, c@),
    {
        self.entries.push((name, c));
        proof {
            assert(self.entries@.drop_last() =~= old(self).entries@);
        }
    }

    /// The callable under `name`.
    pub fn get(&self, name: &str) -> (r: Option<&Callable<'a>>)
        ensures
            match r {
                Some(c) => self@.contains_key(name@) && c@ == self@[name@],
                None => !self@.contains_key(name@),
            },
    {
        let mut i: usize = self.entries.len();
        while i > 0
            invariant
                0 <= i <= self.entries@.len(),
                forall|k: int| i <= k < self.entries@.len() ==> (#[trigger] self.entries@[k]).0@ != name@,
            decreases i,
        {
            if str_eq(self.entries[i - 1].0, name) {
                proof {
                    let es = self.entries@;
                    lemma_entries_view_prefix(es, i as int, name@);
                    assert(es.take(i as int).drop_last() =~= es.take(i - 1));
                    assert(es.take(i as int).last() == es[i - 1]);
                }
                return Some(&self.entries[i - 1].1);
            }
            i = i - 1;
        }
        proof {
            lemma_entries_view_prefix(self.entries@, 0, name@);
            assert(self.entries@.take(0) =~= Seq::<(&'a str, Callable<'a>)>::empty());
        }
        None
    }
}

// ----------------------------- callables --------------------------- //

impl<'a> Callable<'a> {
    /// A copy of the callable.
    pub fn duplicate(&self) -> (c: Self)
        ensures
            c@ == self@,
        decreases self,
    {
        match self {
            Callable::Builtin(b) => Callable::Builtin(*b),
            Callable::Format(p, s) => Callable::Format(*p, *s),
            Callable::Constant(t) => Callable::Constant(*t),
            Callable::Compose(o, i) => {
                let o2 = (&**o).duplicate();
                let i2 = (&**i).duplicate();
                Callable::Compose(Box::new(o2), Box::new(i2))
            },
        }
    }
}

/// The registry every composition starts from: `print`, `bash`,
/// `bash_status` and `debug`.
pub fn standard_functions<'a>() -> (m: FnMap<'a>)
    ensures
        m@ == standard_map(),
{
    let mut m = FnMap::new();
    m.insert("print", Callable::Builtin(Builtin::Print));
    m.insert("bash", Callable::Builtin(Builtin::Bash));
    m.insert("bash_status", Callable::Builtin(Builtin::BashStatus));
    m.insert("debug", Callable::Builtin(Builtin::Debug));
    proof {
        reveal_strlit("print");
        reveal_strlit("bash");
        reveal_strlit("bash_status");
        reveal_strlit("debug");
        assert("print"@ =~= print_name());
        assert("bash"@ =~= bash_name());
        assert("bash_status"@ =~= bash_status_name());
        assert("debug"@ =~= debug_name());
    }
    m
}

/// A text as a function body of its own: a format string or a constant.
pub fn format_string_consumer<'a>(input: &'a str) -> (r: Result<Callable<'a>, FunctionError<'a>>)
    ensures
        r matches Ok(c) && c@ == format_spec(input@),
{
    let text = to_chars(input);
    let ghost s = text@;
    let mut e: usize = 0;
    while e < text.len() && text[e] != '{'
        invariant
            s == text@,
            e <= text@.len(),
            first_brace(s, e as int) == first_brace(s, 0),
        decreases text.len() - e,
    {
        e = e + 1;
    }
    if e < text.len() && e + 1 < text.len() && text[e + 1] == '}' {
        proof {
            assert(s.subrange(e as int, e + 2) =~= seq!['{', '}']);
        }
        let part_1 = input.substring_char(0, e);
        let part_2 = input.substring_char(e + 2, text.len());
        Ok(Callable::Format(part_1, part_2))
    } else {
        proof {
            if tag_at(s, e as int, seq!['{', '}']) {
                assert(s.subrange(e as int, e + 2)[1] == s[e + 1]);
            }
        }
        Ok(Callable::Constant(input))
    }
}

/// A call expression read against the registry.
pub fn expression_consumer<'a>(expression: Expr<'a>, function_dir: &FnMap<'a>) -> (r: Result<Callable<'a>, FunctionError<'a>>)
    ensures
        match interpret_spec(ArgModel::Call(expression.name@, Box::new(expression.argument@)), function_dir@) {
            Ok(m) => r matches Ok(c) && c@ == m,
            Err(e) => r matches Err(err) && err@ == e,
        },
    decreases expression.argument,
{
    let parent = match function_dir.get(expression.name) {
        Some(inner) => inner.duplicate(),
        None => {
            return Err(FunctionError::NotInScope(expression.name));
        },
    };
    let inner = match expression.argument {
        Arg::String(value) => match function_dir.get(value) {
            Some(inner) => inner.duplicate(),
            None => match format_string_consumer(value) {
                Ok(c) => c,
                Err(e) => {
                    return Err(e);
                },
            },
        },
        Arg::Expr(inner_expr) => {
            proof {
                assert(expression.argument@ == ArgModel::Call(inner_expr.name@, Box::new(inner_expr.argument@)));
            }
            match expression_consumer(*inner_expr, function_dir) {
                Ok(c) => c,
                Err(e) => {
                    return Err(e);
                },
            }
        },
    };
    proof {
        assert(interpret_spec(expression.argument@, function_dir@) == Ok::<CallableModel, Seq<char>>(inner@));
    }
    Ok(Callable::Compose(Box::new(parent), Box::new(inner)))
}

/// A function definition's body read against the registry.
pub fn function_interpreter<'a>(fun: Function<'a>, function_dir: &FnMap<'a>) -> (r: Result<Callable<'a>, FunctionError<'a>>)
    ensures
        match interpret_spec(fun.args@, function_dir@) {
            Ok(m) => r matches Ok(c) && c@ == m,
            Err(e) => r matches Err(err) && err@ == e,
        },
{
    match fun.args {
        Arg::String(value) => match function_dir.get(value) {
            Some(inner) => Ok(inner.duplicate()),
            None => format_string_consumer(value),
        },
        Arg::Expr(expr) => expression_consumer(*expr, function_dir),
    }
}

/// The registry of all the functions, each read against the ones before it.
pub fn function_registry_composer<'a>(functions: Functions<'a>) -> (r: Result<FnMap<'a>, FunctionError<'a>>)
    ensures
        match registry_spec(function_views(functions@)) {
            Ok(m) => r matches Ok(map) && map@ == m,
            Err(e) => r matches Err(err) && err@ == e,
        },
{
    let ghost fs = function_views(functions@);
    let mut dir = standard_functions();
    proof {
        assert(fs.take(0) =~= Seq::<FunctionModel>::empty());
    }
    for fun in it: functions
        invariant
            it.seq() == functions@,
            fs == function_views(functions@),
            registry_spec(fs.take(it.index() as int)) == Ok::<Map<Seq<char>, CallableModel>, Seq<char>>(dir@),
    {
        let ghost i = it.index() as int;
        proof {
            assert(fs.take(i + 1).drop_last() =~= fs.take(i));
            assert(fs.take(i + 1).last() == fun@);
        }
        let fun_name = fun.name;
        match function_interpreter(fun, &dir) {
            Ok(c) => {
                dir.insert(fun_name, c);
            },
            Err(e) => {
                proof {
                    lemma_registry_error_stays(fs, i + 1);
                }
                return Err(e);
            },
        }
    }
    proof {
        assert(fs.take(fs.len() as int) =~= fs);
    }
    Ok(dir)
}

/// Once reading the functions fails, reading more fails the same way.
proof fn lemma_registry_error_stays(fs: Seq<FunctionModel>, i: int)
    requires
        0 <= i <= fs.len(),
        registry_spec(fs.take(i)) is Err,
    ensures
        registry_spec(fs) == registry_spec(fs.take(i)),
    decreases fs.len() - i,
{
    if i < fs.len() {
        assert(fs.take(i + 1).drop_last() =~= fs.take(i));
        lemma_registry_error_stays(fs, i + 1);
    } else {
        assert(fs.take(i) =~= fs);
    }
}


// ----------------------------- running ----------------------------- //

/// The leaf callables of `c` in the order they run: a composition runs its
/// inner callable first, then its outer one.
pub open spec fn stages_spec(c: CallableModel) -> Seq<CallableModel>
    decreases c,
{
    match c {
        CallableModel::Compose(o, i) => stages_spec(*i) + stages_spec(*o),
        _ => seq![c],
    }
}

pub open spec fn callable_views<'a>(cs: Seq<Callable<'a>>) -> Seq<CallableModel> {
    cs.map_values(|c: Callable<'a>| c@)
}

/// What a builtin gives for `x`: `print` the empty text, `debug` its
/// input; `run` says what the command builtins `bash` and `bash_status`
/// give, which depends on the command's outcome.
pub open spec fn builtin_result(b: Builtin, x: Seq<char>, run: spec_fn(Builtin, Seq<char>) -> Seq<char>) -> Seq<char> {
    match b {
        Builtin::Print => Seq::empty(),
        Builtin::Debug => x,
        _ => run(b, x),
    }
}

/// What a leaf callable gives for `x`, where `run` says what the command
/// builtins give.
pub open spec fn apply_leaf(c: CallableModel, x: Seq<char>, run: spec_fn(Builtin, Seq<char>) -> Seq<char>) -> Seq<char> {
    match c {
        CallableModel::Builtin(b) => builtin_result(b, x, run),
        CallableModel::Format(p, s) => p + x + s,
        CallableModel::Constant(t) => t,
        CallableModel::Compose(_, _) => x,
    }
}

/// The stages run one after another on `x`.
pub open spec fn run_stages(st: Seq<CallableModel>, x: Seq<char>, run: spec_fn(Builtin, Seq<char>) -> Seq<char>) -> Seq<char>
    decreases st.len(),
{
    if st.len() == 0 {
        x
    } else {
        apply_leaf(st.last(), run_stages(st.drop_last(), x, run), run)
    }
}

/// What calling `c` on `x` gives: a composition applies its outer callable
/// to what its inner one gives.
pub open spec fn call_spec(c: CallableModel, x: Seq<char>, run: spec_fn(Builtin, Seq<char>) -> Seq<char>) -> Seq<char>
    decreases c,
{
    match c {
        CallableModel::Compose(o, i) => call_spec(*o, call_spec(*i, x, run), run),
        _ => apply_leaf(c, x, run),
    }
}

proof fn lemma_run_stages_append(a: Seq<CallableModel>, b: Seq<CallableModel>, x: Seq<char>, run: spec_fn(Builtin, Seq<char>) -> Seq<char>)
    ensures
        run_stages(a + b, x, run) == run_stages(b, run_stages(a, x, run), run),
    decreases b.len(),
{
    if b.len() == 0 {
        assert(a + b =~= a);
    } else {
        assert((a + b).drop_last() =~= a + b.drop_last());
        lemma_run_stages_append(a, b.drop_last(), x, run);
    }
}

/// Running the stages of a callable in order gives what calling it gives,
/// whatever the builtins give.
pub proof fn law_stages_run_as_call(c: CallableModel, x: Seq<char>, run: spec_fn(Builtin, Seq<char>) -> Seq<char>)
    ensures
        run_stages(stages_spec(c), x, run) == call_spec(c, x, run),
    decreases c,
{
    match c {
        CallableModel::Compose(o, i) => {
            law_stages_run_as_call(*i, x, run);
            law_stages_run_as_call(*o, call_spec(*i, x, run), run);
            lemma_run_stages_append(stages_spec(*i), stages_spec(*o), x, run);
        },
        _ => {
            let st = stages_spec(c);
            assert(st == seq![c]);
            assert(st.drop_last() =~= Seq::<CallableModel>::empty());
            assert(st.last() == c);
            assert(run_stages(st, x, run) == apply_leaf(c, run_stages(st.drop_last(), x, run), run));
        },
    }
}

impl<'a> Callable<'a> {
    /// The leaf callables in the order they run.
    pub fn stages(&self) -> (v: Vec<Callable<'a>>)
        ensures
            callable_views(v@) == stages_spec(self@),
        decreases self,
    {
        match self {
            Callable::Compose(o, i) => {
                let mut first = (&**i).stages();
                let mut second = (&**o).stages();
                let ghost a = first@;
                let ghost b = second@;
                first.append(&mut second);
                proof {
                    assert(callable_views(first@) =~= callable_views(a) + callable_views(b));
                }
                first
            },
            _ => {
                let mut v: Vec<Callable<'a>> = Vec::new();
                v.push(self.duplicate());
                proof {
                    assert(callable_views(v@) =~= seq![self@]);
                }
                v
            },
        }
    }
}

/// Where a builtin writes a line.
#[derive(Debug, Clone, Copy, PartialEq, Eq, Structural)]
pub enum Stream {
    /// The standard output.
    Output,
    /// The standard error.
    Error,
}

/// What running one stage on a value needs.
#[derive(Debug)]
pub enum Step {
    /// The caller runs the command builtin on the value; what it gives is
    /// the next value.
    Run(Builtin),
    /// The caller writes `line` on `stream`; the next value is `result`.
    Emit { stream: Stream, line: String, result: String },
    /// The stage gives this text.
    Output(String),
}

/// Runs one leaf stage on `value`, or says what the caller writes or runs.
pub fn apply_stage<'a>(stage: &Callable<'a>, value: &str) -> (r: Step)
    requires
        !(stage@ is Compose),
    ensures
        match stage@ {
            CallableModel::Builtin(Builtin::Print) => r matches Step::Emit { stream, line, result }
                && stream == Stream::Output && line@ == value@ && result@ == Seq::<char>::empty(),
            CallableModel::Builtin(Builtin::Debug) => r matches Step::Emit { stream, line, result }
                && stream == Stream::Error && line@ == value@ && result@ == value@,
            CallableModel::Builtin(b) => r == Step::Run(b),
            CallableModel::Format(p, s) => r matches Step::Output(o) && o@ == p + value@ + s,
            CallableModel::Constant(t) => r matches Step::Output(o) && o@ == t,
            CallableModel::Compose(_, _) => false,
        },
{
    match stage {
        Callable::Builtin(Builtin::Print) => Step::Emit {
            stream: Stream::Output,
            line: String::from_str(value),
            result: String::new(),
        },
        Callable::Builtin(Builtin::Debug) => Step::Emit {
            stream: Stream::Error,
            line: String::from_str(value),
            result: String::from_str(value),
        },
        Callable::Builtin(b) => Step::Run(*b),
        Callable::Format(prefix, suffix) => {
            let mut out = String::from_str(prefix);
            out.append(value);
            out.append(suffix);
            Step::Output(out)
        },
        Callable::Constant(text) => Step::Output(String::from_str(text)),
        // A composition is not a stage; the precondition leaves it out.
        Callable::Compose(_, _) => Step::Output(String::new()),
    }
}

/// Once the functions are read, the registry holds each of their names
/// and the standard ones, and nothing else; a name holds what its last
/// definition means against the registry of the functions before it.
pub proof fn law_registry_names(fs: Seq<FunctionModel>, n: Seq<char>)
    requires
        registry_spec(fs) is Ok,
    ensures
        registry_spec(fs)->Ok_0.contains_key(n) <==> (standard_map().contains_key(n) || exists|i: int| 0 <= i < fs.len() && #[trigger] fs[i].name == n),
        fs.len() > 0 ==> registry_spec(fs)->Ok_0[fs.last().name] == interpret_spec(fs.last().args, registry_spec(fs.drop_last())->Ok_0)->Ok_0,
    decreases fs.len(),
{
    if fs.len() > 0 {
        let q = fs.drop_last();
        assert(registry_spec(q) is Ok);
        law_registry_names(q, n);
        if exists|i: int| 0 <= i < q.len() && #[trigger] q[i].name == n {
            let i = choose|i: int| 0 <= i < q.len() && #[trigger] q[i].name == n;
            assert(fs[i] == q[i]);
        }
        if exists|i: int| 0 <= i < fs.len() && #[trigger] fs[i].name == n {
            let i = choose|i: int| 0 <= i < fs.len() && #[trigger] fs[i].name == n;
            if i < q.len() {
                assert(q[i] == fs[i]);
            }
        }
    }
}


// ----------------------------- more laws ---------------------------- //

/// A text that names a function of the registry means that function.
pub proof fn law_registered_name_means_its_function(v: Seq<char>, dir: Map<Seq<char>, CallableModel>)
    requires
        dir.contains_key(v),
    ensures
        interpret_spec(ArgModel::Text(v), dir) == Ok::<CallableModel, Seq<char>>(dir[v]),
{
}

/// A call of a function of the registry means that function composed with
/// what its argument means, read exactly as a body of its own would be;
/// the argument's error is the call's error.
pub proof fn law_call_composes(n: Seq<char>, a: ArgModel, dir: Map<Seq<char>, CallableModel>)
    requires
        dir.contains_key(n),
    ensures
        interpret_spec(ArgModel::Call(n, Box::new(a)), dir) == match interpret_spec(a, dir) {
            Ok(c) => Ok(CallableModel::Compose(Box::new(dir[n]), Box::new(c))),
            Err(e) => Err(e),
        },
{
}

/// A call of a function of the registry on a text that names another
/// function of the registry composes the two functions.
pub proof fn law_call_on_registered_name(n: Seq<char>, v: Seq<char>, dir: Map<Seq<char>, CallableModel>)
    requires
        dir.contains_key(n),
        dir.contains_key(v),
    ensures
        interpret_spec(ArgModel::Call(n, Box::new(ArgModel::Text(v))), dir)
            == Ok::<CallableModel, Seq<char>>(CallableModel::Compose(Box::new(dir[n]), Box::new(dir[v]))),
{
    law_call_composes(n, ArgModel::Text(v), dir);
    law_registered_name_means_its_function(v, dir);
}

/// A call of a name the registry lacks is refused with that name.
pub proof fn law_call_of_unknown_name(n: Seq<char>, a: ArgModel, dir: Map<Seq<char>, CallableModel>)
    requires
        !dir.contains_key(n),
    ensures
        interpret_spec(ArgModel::Call(n, Box::new(a)), dir) == Err::<CallableModel, Seq<char>>(n),
{
}

/// How many builtins, format strings and constants a callable is built from.
pub open spec fn leaf_count(c: CallableModel) -> nat
    decreases c,
{
    match c {
        CallableModel::Compose(o, i) => leaf_count(*o) + leaf_count(*i),
        _ => 1,
    }
}

/// The stages of a composition are all the stages of its inner callable,
/// then all the stages of its outer callable, whatever the outer one is.
pub proof fn law_stages_of_composition(o: CallableModel, i: CallableModel)
    ensures
        stages_spec(CallableModel::Compose(Box::new(o), Box::new(i))) == stages_spec(i) + stages_spec(o),
{
}

/// Every builtin, format string and constant of a callable is one of its
/// stages, and no stage is a composition.
pub proof fn law_stages_are_the_leaves(c: CallableModel)
    ensures
        stages_spec(c).len() == leaf_count(c),
        forall|k: int| 0 <= k < stages_spec(c).len() ==> !(#[trigger] stages_spec(c)[k] is Compose),
    decreases c,
{
    match c {
        CallableModel::Compose(o, i) => {
            law_stages_are_the_leaves(*o);
            law_stages_are_the_leaves(*i);
            let a = stages_spec(*i);
            let b = stages_spec(*o);
            assert forall|k: int| 0 <= k < (a + b).len() implies !(#[trigger] (a + b)[k] is Compose) by {
                if k < a.len() {
                    assert((a + b)[k] == a[k]);
                } else {
                    assert((a + b)[k] == b[k - a.len()]);
                }
            }
        },
        _ => {},
    }
}

} // verus!
