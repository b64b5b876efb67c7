//! The syntax tree of a configuration: packages with their dependencies,
//! and function definitions whose bodies are nested call expressions.

use vstd::prelude::*;

use crate::text::{str_eq, strs_eq, views};

verus! {

/// A package: its name, the names it depends on, which of those are
/// optional (written with a leading `!`), and an optional processor.
#[derive(Debug, PartialEq, Eq)]
pub struct Package<'a> {
    pub name: &'a str,
    pub dependency: Vec<&'a str>,
    pub optional: Vec<&'a str>,
    pub processor: Option<&'a str>,
}

/// A named function definition.
#[derive(Debug, PartialEq, Eq)]
pub struct Function<'a> {
    pub name: &'a str,
    pub args: Arg<'a>,
}

/// A call of the function `name` on `argument`.
#[derive(Debug, PartialEq, Eq)]
pub struct Expr<'a> {
    pub name: &'a str,
    pub argument: Arg<'a>,
}

/// A function body: plain text, or a call expression.
#[derive(Debug, PartialEq, Eq)]
pub enum Arg<'a> {
    String(&'a str),
    Expr(Box<Expr<'a>>),
}

/// One top-level item of a configuration.
#[derive(Debug, PartialEq, Eq)]
#[non_exhaustive]
pub enum Concept<'a> {
    Package(Package<'a>),
    Function(Function<'a>),
}

/// A collection of packages.
pub type Packages<'a> = Vec<Package<'a>>;

/// A collection of function definitions.
pub type Functions<'a> = Vec<Function<'a>>;

/// The items of a configuration, packages and functions apart, each
/// distinct item once.
#[derive(Debug)]
pub struct Concepts<'a> {
    pub packages: Packages<'a>,
    pub functions: Functions<'a>,
}

// ----------------------------- models ------------------------------ //

/// The text of a package.
pub struct PackageModel {
    pub name: Seq<char>,
    pub dependency: Seq<Seq<char>>,
    pub optional: Seq<Seq<char>>,
    pub processor: Option<Seq<char>>,
}

/// The text of a function body.
pub enum ArgModel {
    Text(Seq<char>),
    Call(Seq<char>, Box<ArgModel>),
}

/// The text of a function definition.
pub struct FunctionModel {
    pub name: Seq<char>,
    pub args: ArgModel,
}

/// The text of a top-level item.
pub enum ConceptModel {
    Package(PackageModel),
    Function(FunctionModel),
}

pub open spec fn option_view(o: Option<&str>) -> Option<Seq<char>> {
    match o {
        Some(s) => Some(s@),
        None => None,
    }
}

impl<'a> View for Package<'a> {
    type V = PackageModel;

    open spec fn view(&self) -> PackageModel {
        PackageModel {
            name: self.name@,
            dependency: views(self.dependency@),
            optional: views(self.optional@),
            processor: option_view(self.processor),
        }
    }
}

pub open spec fn arg_model<'a>(a: &Arg<'a>) -> ArgModel
    decreases a,
{
    match a {
        Arg::String(s) => ArgModel::Text(s@),
        Arg::Expr(e) => ArgModel::Call(e.name@, Box::new(arg_model(&e.argument))),
    }
}

impl<'a> View for Arg<'a> {
    type V = ArgModel;

    open spec fn view(&self) -> ArgModel {
        arg_model(self)
    }
}

impl<'a> View for Expr<'a> {
    type V = (Seq<char>, ArgModel);

    open spec fn view(&self) -> (Seq<char>, ArgModel) {
        (self.name@, self.argument@)
    }
}

impl<'a> View for Function<'a> {
    type V = FunctionModel;

    open spec fn view(&self) -> FunctionModel {
        FunctionModel { name: self.name@, args: self.args@ }
    }
}

impl<'a> View for Concept<'a> {
    type V = ConceptModel;

    open spec fn view(&self) -> ConceptModel {
        match self {
            Concept::Package(p) => ConceptModel::Package(p@),
            Concept::Function(f) => ConceptModel::Function(f@),
        }
    }
}

pub open spec fn package_views<'a>(ps: Seq<Package<'a>>) -> Seq<PackageModel> {
    ps.map_values(|p: Package<'a>| p@)
}

pub open spec fn function_views<'a>(fs: Seq<Function<'a>>) -> Seq<FunctionModel> {
    fs.map_values(|f: Function<'a>| f@)
}

pub open spec fn concept_views<'a>(cs: Seq<Concept<'a>>) -> Seq<ConceptModel> {
    cs.map_values(|c: Concept<'a>| c@)
}

/// `s` with every element after its first occurrence left out.
pub open spec fn first_occurrences<A>(s: Seq<A>) -> Seq<A>
    decreases s.len(),
{
    if s.len() == 0 {
        Seq::empty()
    } else {
        let rest = first_occurrences(s.drop_last());
        if rest.contains(s.last()) {
            rest
        } else {
            rest.push(s.last())
        }
    }
}

/// The packages of a sequence of items, in order.
pub open spec fn packages_of(cs: Seq<ConceptModel>) -> Seq<PackageModel>
    decreases cs.len(),
{
    if cs.len() == 0 {
        Seq::empty()
    } else {
        match cs.last() {
            ConceptModel::Package(p) => packages_of(cs.drop_last()).push(p),
            ConceptModel::Function(_) => packages_of(cs.drop_last()),
        }
    }
}

/// The functions of a sequence of items, in order.
pub open spec fn functions_of(cs: Seq<ConceptModel>) -> Seq<FunctionModel>
    decreases cs.len(),
{
    if cs.len() == 0 {
        Seq::empty()
    } else {
        match cs.last() {
            ConceptModel::Function(f) => functions_of(cs.drop_last()).push(f),
            ConceptModel::Package(_) => functions_of(cs.drop_last()),
        }
    }
}

// --------------------------- constructors --------------------------- //

impl<'a> Package<'a> {
    /// A package from its name and processor, and its dependencies, none
    /// of them optional.
    pub fn from_tuple(
        value: ((&'a str, Option<&'a str>), Vec<&'a str>),
    ) -> (p: Self)
        ensures
            p.name == value.0.0,
            p.processor == value.0.1,
            p.dependency == value.1,
            p.optional@.len() == 0,
    {
        let ((name, processor), dependency) = value;
        Package { name, dependency, optional: Vec::new(), processor }
    }

    /// A package that has a name only.
    pub fn from_name(name: &'a str) -> (p: Self)
        ensures
            p.name == name,
            p.dependency@.len() == 0,
            p.optional@.len() == 0,
            p.processor.is_none(),
    {
        Package { name, dependency: Vec::new(), optional: Vec::new(), processor: None }
    }

    /// The package as it is shown: its name.
    pub fn display(&self) -> (s: String)
        ensures
            s@ == self.name@,
    {
        String::from_str(self.name)
    }

    /// A copy of the package.
    pub fn duplicate(&self) -> (p: Self)
        ensures
            p@ == self@,
    {
        let dependency = copy_strs(&self.dependency);
        let optional = copy_strs(&self.optional);
        Package { name: self.name, dependency, optional, processor: self.processor }
    }

    /// Whether two packages have the same text.
    pub fn same_as(&self, other: &Package<'a>) -> (r: bool)
        ensures
            r == (self@ == other@),
    {
        if !str_eq(self.name, other.name) {
            return false;
        }
        if !strs_eq(&self.dependency, &other.dependency) {
            return false;
        }
        if !strs_eq(&self.optional, &other.optional) {
            return false;
        }
        match (self.processor, other.processor) {
            (None, None) => true,
            (Some(a), Some(b)) => str_eq(a, b),
            _ => false,
        }
    }
}

/// A copy of a sequence of string slices.
pub fn copy_strs<'a>(v: &Vec<&'a str>) -> (r: Vec<&'a str>)
    ensures
        r@ == v@,
{
    let mut r: Vec<&'a str> = Vec::new();
    let mut i: usize = 0;
    while i < v.len()
        invariant
            0 <= i <= v.len(),
            r@ == v@.take(i as int),
        decreases v.len() - i,
    {
        r.push(v[i]);
        i = i + 1;
    }
    proof {
        assert(r@ =~= v@);
    }
    r
}

impl<'a> Expr<'a> {
    /// A boxed call of `value.0` on `value.1`.
    pub fn boxed_from_tuple(value: (&'a str, Arg<'a>)) -> (e: Box<Self>)
        ensures
            e.name == value.0,
            e.argument == value.1,
    {
        let (name, args) = value;
        Box::new(Expr { name, argument: args })
    }
}

impl<'a> Function<'a> {
    /// A function named `value.0` with body `value.1`.
    pub fn from_tuple(value: (&'a str, Arg<'a>)) -> (f: Self)
        ensures
            f.name == value.0,
            f.args == value.1,
    {
        let (name, args) = value;
        Function { name, args }
    }

    /// Whether two function definitions have the same text.
    pub fn same_as(&self, other: &Function<'a>) -> (r: bool)
        ensures
            r == (self@ == other@),
    {
        str_eq(self.name, other.name) && args_same(&self.args, &other.args)
    }
}

/// Whether two function bodies have the same text.
pub fn args_same<'a>(a: &Arg<'a>, b: &Arg<'a>) -> (r: bool)
    ensures
        r == (a@ == b@),
    decreases a,
{
    match (a, b) {
        (Arg::String(x), Arg::String(y)) => str_eq(x, y),
        (Arg::Expr(x), Arg::Expr(y)) => {
            if !str_eq(x.name, y.name) {
                return false;
            }
            let r = args_same(&x.argument, &y.argument);
            proof {
                if r {
                    assert(a@ == b@);
                } else {
                    assert(a@ != b@) by {
                        if a@ == b@ {
                            assert(arg_model(&x.argument) == arg_model(&y.argument));
                        }
                    }
                }
            }
            r
        },
        _ => false,
    }
}

impl<'a> From<Package<'a>> for Concept<'a> {
    /// The item that holds a package.
    fn from(value: Package<'a>) -> (c: Self) {
        Concept::Package(value)
    }
}

impl<'a> vstd::std_specs::convert::FromSpecImpl<Package<'a>> for Concept<'a> {
    open spec fn obeys_from_spec() -> bool {
        true
    }

    open spec fn from_spec(v: Package<'a>) -> Self {
        Concept::Package(v)
    }
}

impl<'a> From<Function<'a>> for Concept<'a> {
    /// The item that holds a function definition.
    fn from(value: Function<'a>) -> (c: Self) {
        Concept::Function(value)
    }
}

impl<'a> vstd::std_specs::convert::FromSpecImpl<Function<'a>> for Concept<'a> {
    open spec fn obeys_from_spec() -> bool {
        true
    }

    open spec fn from_spec(v: Function<'a>) -> Self {
        Concept::Function(v)
    }
}

fn holds_package<'a>(v: &Vec<Package<'a>>, p: &Package<'a>) -> (r: bool)
    ensures
        r == package_views(v@).contains(p@),
{
    let mut i: usize = 0;
    while i < v.len()
        invariant
            0 <= i <= v.len(),
            forall|j: int| 0 <= j < i ==> v@[j]@ != p@,
        decreases v.len() - i,
    {
        if v[i].same_as(p) {
            proof {
                assert(package_views(v@)[i as int] == p@);
            }
            return true;
        }
        i = i + 1;
    }
    proof {
        if package_views(v@).contains(p@) {
            let j = choose|j: int|
                0 <= j < package_views(v@).len() && package_views(v@)[j] == p@;
            assert(v@[j]@ == p@);
        }
    }
    false
}

fn holds_function<'a>(v: &Vec<Function<'a>>, f: &Function<'a>) -> (r: bool)
    ensures
        r == function_views(v@).contains(f@),
{
    let mut i: usize = 0;
    while i < v.len()
        invariant
            0 <= i <= v.len(),
            forall|j: int| 0 <= j < i ==> v@[j]@ != f@,
        decreases v.len() - i,
    {
        if v[i].same_as(f) {
            proof {
                assert(function_views(v@)[i as int] == f@);
            }
            return true;
        }
        i = i + 1;
    }
    proof {
        if function_views(v@).contains(f@) {
            let j = choose|j: int|
                0 <= j < function_views(v@).len() && function_views(v@)[j] == f@;
            assert(v@[j]@ == f@);
        }
    }
    false
}

impl<'a> Concepts<'a> {
    /// Sorts items into packages and functions; an item equal to one
    /// already taken is left out, as a set would.
    pub fn from(value: Vec<Concept<'a>>) -> (r: Self)
        ensures
            package_views(r.packages@) == first_occurrences(packages_of(concept_views(value@))),
            function_views(r.functions@) == first_occurrences(
                functions_of(concept_views(value@)),
            ),
    {
        let ghost cs = concept_views(value@);
        let mut packages: Vec<Package<'a>> = Vec::new();
        let mut functions: Vec<Function<'a>> = Vec::new();
        proof {
            assert(cs.take(0) =~= Seq::<ConceptModel>::empty());
            assert(package_views(packages@) =~= Seq::<PackageModel>::empty());
            assert(function_views(functions@) =~= Seq::<FunctionModel>::empty());
        }
        for c in it: value
            invariant
                it.seq() == value@,
                cs == concept_views(value@),
                package_views(packages@) == first_occurrences(
                    packages_of(cs.take(it.index() as int)),
                ),
                function_views(functions@) == first_occurrences(
                    functions_of(cs.take(it.index() as int)),
                ),
        {
            let ghost i = it.index() as int;
            proof {
                assert(cs.take(i + 1).drop_last() =~= cs.take(i));
                assert(cs.take(i + 1).last() == c@);
            }
            match c {
                Concept::Package(p) => {
                    proof {
                        assert(functions_of(cs.take(i + 1)) == functions_of(cs.take(i)));
                        assert(packages_of(cs.take(i + 1)) == packages_of(cs.take(i)).push(p@));
                        let s2 = packages_of(cs.take(i + 1));
                        assert(s2.drop_last() =~= packages_of(cs.take(i)));
                        assert(s2.last() == p@);
                    }
                    if !holds_package(&packages, &p) {
                        packages.push(p);
                        proof {
                            assert(package_views(packages@) =~= package_views(
                                packages@.drop_last(),
                            ).push(packages@.last()@));
                        }
                    }
                },
                Concept::Function(f) => {
                    proof {
                        assert(packages_of(cs.take(i + 1)) == packages_of(cs.take(i)));
                        assert(functions_of(cs.take(i + 1)) == functions_of(cs.take(i)).push(f@));
                        let s2 = functions_of(cs.take(i + 1));
                        assert(s2.drop_last() =~= functions_of(cs.take(i)));
                        assert(s2.last() == f@);
                    }
                    if !holds_function(&functions, &f) {
                        functions.push(f);
                        proof {
                            assert(function_views(functions@) =~= function_views(
                                functions@.drop_last(),
                            ).push(functions@.last()@));
                        }
                    }
                },
            }
        }
        proof {
            assert(cs.take(cs.len() as int) =~= cs);
        }
        Concepts { packages, functions }
    }
}


/// Sorting items keeps each distinct item exactly once: the kept items
/// have no repeats and are exactly the items given.
pub proof fn law_first_occurrences<A>(s: Seq<A>)
    ensures
        first_occurrences(s).no_duplicates(),
        first_occurrences(s).to_set() == s.to_set(),
    decreases s.len(),
{
    if s.len() > 0 {
        let t = s.drop_last();
        law_first_occurrences(t);
        let r = first_occurrences(t);
        assert(s =~= t.push(s.last()));
        crate::text::lemma_to_set_push(t, s.last());
        if !r.contains(s.last()) {
            crate::text::lemma_to_set_push(r, s.last());
            assert forall|i: int, j: int| 0 <= i < j < r.push(s.last()).len() implies r.push(s.last())[i] != r.push(s.last())[j] by {
                if j == r.len() {
                    assert(r.contains(r[i]));
                }
            }
        } else {
            assert(r.to_set().contains(s.last()));
            assert(s.to_set() =~= r.to_set());
        }
    } else {
        assert(s.to_set() =~= Set::<A>::empty());
        assert(first_occurrences(s).to_set() =~= Set::<A>::empty());
    }
}

} // verus!
