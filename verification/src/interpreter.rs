//! The interpreter: values in, values out.
//!
//! What a value evaluates to, and what evaluating it shows on the way, is said
//! by `evaluate`. The interpreter shows nothing by itself: it keeps what was
//! shown, in order, for the host to write out.

use vstd::prelude::*;
use vstd::string::StringExecFns;
use crate::parser::{
    ProgramError,
    SpecExpression,
    all_numerals_fit,
    lemma_typed_is_the_same_data,
    parse_program,
    pre_views,
    program_failure,
    program_of,
    typed_all,
};
use crate::data::{
    Builtin,
    Data,
    data_of_expression,
    data_of_pre,
    Float,
    Fragment,
    SpecData,
    SpecFloat,
    SpecFragment,
    data_views,
    float_views,
    fragment_views,
    lemma_data_list_view,
    lisp_string_of,
    push_text,
    repr_of,
    text,
};

verus! {

/// A name and the value bound to it.
struct Binding {
    name: String,
    value: Data,
}

/// The mapping that a sequence of bindings makes: each name to its value, a
/// later binding of a name before an earlier one.
spec fn mapping(bindings: Seq<Binding>) -> Map<Seq<char>, SpecData>
    decreases bindings.len(),
{
    if bindings.len() == 0 {
        Map::empty()
    } else {
        mapping(bindings.drop_last()).insert(bindings.last().name@, bindings.last().value@)
    }
}

/// No name is bound twice.
spec fn names_differ(bindings: Seq<Binding>) -> bool {
    forall|i: int, j: int|
        0 <= i < j < bindings.len() ==> (#[trigger] bindings[i]).name@ != (
        #[trigger] bindings[j]).name@
}

/// A name that no binding holds is not in the mapping.
proof fn lemma_unbound(bindings: Seq<Binding>, name: Seq<char>)
    requires
        forall|i: int| 0 <= i < bindings.len() ==> (#[trigger] bindings[i]).name@ != name,
    ensures
        !mapping(bindings).contains_key(name),
    decreases bindings.len(),
{
    if bindings.len() > 0 {
        lemma_unbound(bindings.drop_last(), name);
    }
}

/// Where no name is bound twice, the mapping gives each name the value of its
/// binding.
proof fn lemma_bound(bindings: Seq<Binding>, i: int)
    requires
        names_differ(bindings),
        0 <= i < bindings.len(),
    ensures
        mapping(bindings).contains_key(bindings[i].name@),
        mapping(bindings)[bindings[i].name@] == bindings[i].value@,
    decreases bindings.len(),
{
    let last = bindings.len() - 1;
    if i < last {
        lemma_bound(bindings.drop_last(), i);
    }
}

/// Giving the binding at `i` a new value changes the mapping at its name only.
proof fn lemma_rebound(bindings: Seq<Binding>, i: int, binding: Binding)
    requires
        names_differ(bindings),
        0 <= i < bindings.len(),
        binding.name@ == bindings[i].name@,
    ensures
        names_differ(bindings.update(i, binding)),
        mapping(bindings.update(i, binding)) == mapping(bindings).insert(
            binding.name@,
            binding.value@,
        ),
    decreases bindings.len(),
{
    let updated = bindings.update(i, binding);
    let last = bindings.len() - 1;
    if i < last {
        lemma_rebound(bindings.drop_last(), i, binding);
        assert(updated.drop_last() =~= bindings.drop_last().update(i, binding));
    } else {
        assert(updated.drop_last() =~= bindings.drop_last());
    }
}

/// A scope: a mapping from names to values. No name is bound twice.
pub struct Scope {
    bindings: Vec<Binding>,
}

impl View for Scope {
    type V = Map<Seq<char>, SpecData>;

    closed spec fn view(&self) -> Map<Seq<char>, SpecData> {
        mapping(self.bindings@)
    }
}

impl Scope {
    #[verifier::type_invariant]
    spec fn well_formed(&self) -> bool {
        names_differ(self.bindings@)
    }

    /// The scope that binds no name.
    pub fn new() -> (scope: Scope)
        ensures
            scope@ == Map::<Seq<char>, SpecData>::empty(),
    {
        Scope { bindings: Vec::new() }
    }

    /// Where `name` is bound, if it is.
    fn position(&self, name: &String) -> (at: Option<usize>)
        ensures
            match at {
                Some(i) => i < self.bindings@.len() && self.bindings@[i as int].name@ == name@,
                None => forall|i: int|
                    0 <= i < self.bindings@.len() ==> (#[trigger] self.bindings@[i]).name@
                        != name@,
            },
    {
        let mut i: usize = 0;
        while i < self.bindings.len()
            invariant
                i <= self.bindings.len(),
                forall|k: int| 0 <= k < i ==> (#[trigger] self.bindings@[k]).name@ != name@,
            decreases self.bindings.len() - i,
        {
            if self.bindings[i].name == *name {
                return Some(i);
            }
            i += 1;
        }
        None
    }

    /// Binds `name` to `value`, in place of what `name` was bound to.
    pub fn insert(&mut self, name: String, value: Data)
        ensures
            final(self)@ == old(self)@.insert(name@, value@),
    {
        proof {
            use_type_invariant(&*self);
        }
        let binding = Binding { name, value };
        match self.position(&binding.name) {
            Some(i) => {
                proof {
                    lemma_rebound(self.bindings@, i as int, binding);
                }
                let mut bindings: Vec<Binding> = Vec::new();
                std::mem::swap(&mut self.bindings, &mut bindings);
                bindings.set(i, binding);
                self.bindings = bindings;
            },
            None => {
                proof {
                    assert(self.bindings@.push(binding).drop_last() =~= self.bindings@);
                }
                let mut bindings: Vec<Binding> = Vec::new();
                std::mem::swap(&mut self.bindings, &mut bindings);
                bindings.push(binding);
                self.bindings = bindings;
            },
        }
    }

    /// The value that `name` is bound to, if it is bound.
    pub fn get(&self, name: &String) -> (value: Option<&Data>)
        ensures
            match value {
                Some(v) => self@.contains_key(name@) && self@[name@] == v@,
                None => !self@.contains_key(name@),
            },
    {
        proof {
            use_type_invariant(self);
        }
        match self.position(name) {
            Some(i) => {
                proof {
                    lemma_bound(self.bindings@, i as int);
                }
                Some(&self.bindings[i].value)
            },
            None => {
                proof {
                    lemma_unbound(self.bindings@, name@);
                }
                None
            },
        }
    }
}

/// Why a value could not be evaluated.
#[derive(Debug, PartialEq)]
pub enum EvalError {
    /// No scope binds this name.
    UndefinedVariable(String),
    /// This value stands where an operation is called, and is none.
    NotCallable(Data),
    /// This operation cannot work on this argument.
    WrongArgumentType(Builtin, Data),
}

/// An `EvalError` as contracts speak of it.
pub enum SpecEvalError {
    UndefinedVariable(Seq<char>),
    NotCallable(SpecData),
    WrongArgumentType(Builtin, SpecData),
}

impl View for EvalError {
    type V = SpecEvalError;

    open spec fn view(&self) -> SpecEvalError {
        match self {
            EvalError::UndefinedVariable(name) => SpecEvalError::UndefinedVariable(name@),
            EvalError::NotCallable(value) => SpecEvalError::NotCallable(value@),
            EvalError::WrongArgumentType(builtin, value) => SpecEvalError::WrongArgumentType(
                *builtin,
                value@,
            ),
        }
    }
}

impl Clone for EvalError {
    fn clone(&self) -> (copy: EvalError)
        ensures
            copy@ == self@,
    {
        match self {
            EvalError::UndefinedVariable(name) => EvalError::UndefinedVariable(name.clone()),
            EvalError::NotCallable(value) => EvalError::NotCallable(value.clone()),
            EvalError::WrongArgumentType(builtin, value) => EvalError::WrongArgumentType(
                *builtin,
                value.clone(),
            ),
        }
    }
}

/// What an evaluation gives, as contracts speak of it.
pub open spec fn outcome_view(r: Result<Data, EvalError>) -> Result<SpecData, SpecEvalError> {
    match r {
        Ok(value) => Ok(value@),
        Err(error) => Err(error@),
    }
}

/// The name under which the standard library binds `builtin`.
pub open spec fn builtin_name(builtin: Builtin) -> Seq<char> {
    match builtin {
        Builtin::Print => "print"@,
        Builtin::Println => "println"@,
        Builtin::Add => "+"@,
    }
}

/// The scope that every interpreter starts with: `print`, `println` and `+`.
pub open spec fn standard_library() -> Map<Seq<char>, SpecData> {
    Map::<Seq<char>, SpecData>::empty().insert(
        builtin_name(Builtin::Print),
        SpecData::NativeFunction(Builtin::Print),
    ).insert(builtin_name(Builtin::Println), SpecData::NativeFunction(Builtin::Println)).insert(
        builtin_name(Builtin::Add),
        SpecData::NativeFunction(Builtin::Add),
    )
}

/// The value that `name` is bound to in the innermost scope that binds it;
/// the innermost scope is the last.
pub open spec fn resolve(scopes: Seq<Map<Seq<char>, SpecData>>, name: Seq<char>) -> Option<
    SpecData,
>
    decreases scopes.len(),
{
    if scopes.len() == 0 {
        None
    } else if scopes.last().contains_key(name) {
        Some(scopes.last()[name])
    } else {
        resolve(scopes.drop_last(), name)
    }
}

/// The sum of two 64-bit integers as a 64-bit integer holds it: where the sum
/// does not fit, it wraps around.
pub open spec fn wrapped_sum(x: int, y: int) -> int {
    if x + y > i64::MAX {
        x + y - 0x1_0000_0000_0000_0000
    } else if x + y < i64::MIN {
        x + y + 0x1_0000_0000_0000_0000
    } else {
        x + y
    }
}

/// The recipe for `total` with `term` added to it.
pub open spec fn float_plus(total: SpecFloat, term: SpecFloat) -> SpecFloat {
    match total {
        SpecFloat::Sum(terms) => SpecFloat::Sum(terms.push(term)),
        _ => SpecFloat::Sum(seq![total, term]),
    }
}

/// The running total `total` with the argument `argument` added to it. Two
/// integers give an integer. Where either is a float the other is converted
/// and the result is a float. An argument that is no number is an error.
pub open spec fn add_to(total: SpecData, argument: SpecData) -> Result<SpecData, SpecEvalError> {
    match argument {
        SpecData::Int(a) => match total {
            SpecData::Int(t) => Ok(SpecData::Int(wrapped_sum(t, a))),
            SpecData::Float(f) => Ok(SpecData::Float(float_plus(f, SpecFloat::Promoted(a)))),
            _ => Err(SpecEvalError::WrongArgumentType(Builtin::Add, total)),
        },
        SpecData::Float(a) => match total {
            SpecData::Int(t) => Ok(SpecData::Float(float_plus(SpecFloat::Promoted(t), a))),
            SpecData::Float(f) => Ok(SpecData::Float(float_plus(f, a))),
            _ => Err(SpecEvalError::WrongArgumentType(Builtin::Add, total)),
        },
        _ => Err(SpecEvalError::WrongArgumentType(Builtin::Add, argument)),
    }
}

/// What `+` gives for `arguments`: it starts from the integer 0 and adds the
/// arguments in turn; the first argument that is no number is an error.
pub open spec fn sum(arguments: Seq<SpecData>) -> Result<SpecData, SpecEvalError>
    decreases arguments.len(),
{
    if arguments.len() == 0 {
        Ok(SpecData::Int(0))
    } else {
        match sum(arguments.drop_last()) {
            Ok(total) => add_to(total, arguments.last()),
            Err(error) => Err(error),
        }
    }
}

/// What `print` shows for `arguments`: each as it is shown to the user, a
/// space between each two.
pub open spec fn shown_by(arguments: Seq<SpecData>) -> Seq<SpecFragment>
    decreases arguments.len(),
{
    if arguments.len() == 0 {
        Seq::empty()
    } else if arguments.len() == 1 {
        lisp_string_of(arguments[0])
    } else {
        shown_by(arguments.drop_last()) + text(" "@) + lisp_string_of(arguments.last())
    }
}

/// What evaluating one value gives and shows.
pub struct Evaluation {
    pub outcome: Result<SpecData, SpecEvalError>,
    pub shown: Seq<SpecFragment>,
}

/// What evaluating values one after the other gives and shows.
pub struct Evaluations {
    pub outcome: Result<Seq<SpecData>, SpecEvalError>,
    pub shown: Seq<SpecFragment>,
}

/// What calling `builtin` with `arguments` gives and shows.
pub open spec fn apply(builtin: Builtin, arguments: Seq<SpecData>) -> Evaluation {
    match builtin {
        Builtin::Print => Evaluation { outcome: Ok(SpecData::Nil), shown: shown_by(arguments) },
        Builtin::Println => Evaluation {
            outcome: Ok(SpecData::Nil),
            shown: shown_by(arguments) + text("\n"@),
        },
        Builtin::Add => Evaluation { outcome: sum(arguments), shown: Seq::empty() },
    }
}

/// What evaluating `data` in `scopes` gives and shows.
///
/// A symbol is the value that it is bound to. The empty list is `Nil`. Any
/// other list is a call: its items are evaluated from left to right, the first
/// must come out as a built-in operation, and that operation is called with
/// the others. Every other value is itself.
pub open spec fn evaluate(scopes: Seq<Map<Seq<char>, SpecData>>, data: SpecData) -> Evaluation
    decreases data, 0int,
{
    match data {
        SpecData::Symbol(name) => Evaluation {
            outcome: match resolve(scopes, name) {
                Some(value) => Ok(value),
                None => Err(SpecEvalError::UndefinedVariable(name)),
            },
            shown: Seq::empty(),
        },
        SpecData::List(items) => if items.len() == 0 {
            Evaluation { outcome: Ok(SpecData::Nil), shown: Seq::empty() }
        } else {
            let all = evaluate_all(scopes, items);
            match all.outcome {
                Ok(values) => match values[0] {
                    SpecData::NativeFunction(builtin) => {
                        let call = apply(builtin, values.skip(1));
                        Evaluation { outcome: call.outcome, shown: all.shown + call.shown }
                    },
                    head => Evaluation {
                        outcome: Err(SpecEvalError::NotCallable(head)),
                        shown: all.shown,
                    },
                },
                Err(error) => Evaluation { outcome: Err(error), shown: all.shown },
            }
        },
        _ => Evaluation { outcome: Ok(data), shown: Seq::empty() },
    }
}

/// What evaluating `items` from left to right gives and shows. It stops at
/// the first error: what comes behind is not evaluated.
pub open spec fn evaluate_all(
    scopes: Seq<Map<Seq<char>, SpecData>>,
    items: Seq<SpecData>,
) -> Evaluations
    decreases items, 1int,
{
    if items.len() == 0 {
        Evaluations { outcome: Ok(Seq::empty()), shown: Seq::empty() }
    } else {
        let before = evaluate_all(scopes, items.drop_last());
        match before.outcome {
            Ok(values) => {
                let last = evaluate(scopes, items.last());
                Evaluations {
                    outcome: match last.outcome {
                        Ok(value) => Ok(values.push(value)),
                        Err(error) => Err(error),
                    },
                    shown: before.shown + last.shown,
                }
            },
            Err(error) => before,
        }
    }
}

/// Once evaluating the first `n` items has failed, evaluating more of them
/// gives and shows the same.
pub proof fn lemma_first_error_stays(
    scopes: Seq<Map<Seq<char>, SpecData>>,
    items: Seq<SpecData>,
    n: int,
)
    requires
        0 <= n <= items.len(),
        evaluate_all(scopes, items.take(n)).outcome is Err,
    ensures
        evaluate_all(scopes, items) == evaluate_all(scopes, items.take(n)),
    decreases items.len() - n,
{
    if n < items.len() {
        assert(items.take(n + 1).drop_last() =~= items.take(n));
        lemma_first_error_stays(scopes, items, n + 1);
    } else {
        assert(items.take(n) =~= items);
    }
}

/// The name under which the standard library binds `builtin`.
pub fn name_of(builtin: Builtin) -> (name: String)
    ensures
        name@ == builtin_name(builtin),
{
    match builtin {
        Builtin::Print => String::from_str("print"),
        Builtin::Println => String::from_str("println"),
        Builtin::Add => String::from_str("+"),
    }
}

/// What `+` gives for the values behind the first of `values`.
fn add_up(values: &Vec<Data>) -> (r: Result<Data, EvalError>)
    requires
        values@.len() >= 1,
    ensures
        outcome_view(r) == sum(data_views(values@).skip(1)),
{
    let ghost arguments = data_views(values@).skip(1);
    let mut whole: i64 = 0;
    let mut terms: Vec<Float> = Vec::new();
    let mut floating = false;
    let mut i: usize = 1;
    while i < values.len()
        invariant
            1 <= i <= values.len(),
            arguments == data_views(values@).skip(1),
            !floating ==> terms@.len() == 0,
            sum(arguments.take(i - 1)) == Ok::<SpecData, SpecEvalError>(
                if floating {
                    SpecData::Float(SpecFloat::Sum(float_views(terms@)))
                } else {
                    SpecData::Int(whole as int)
                },
            ),
        decreases values.len() - i,
    {
        assert(arguments.take(i as int).drop_last() =~= arguments.take(i - 1));
        match &values[i] {
            Data::Int(a) => {
                if floating {
                    let ghost before = float_views(terms@);
                    terms.push(Float::Promoted(*a));
                    assert(float_views(terms@) =~= before.push(SpecFloat::Promoted(*a as int)));
                } else {
                    whole = whole.wrapping_add(*a);
                }
            },
            Data::Float(a) => {
                if !floating {
                    terms.push(Float::Promoted(whole));
                    floating = true;
                    terms.push(a.clone());
                    assert(float_views(terms@) =~= seq![SpecFloat::Promoted(whole as int), a@]);
                } else {
                    let ghost before = float_views(terms@);
                    terms.push(a.clone());
                    assert(float_views(terms@) =~= before.push(a@));
                }
            },
            other => {
                proof {
                    lemma_first_wrong_argument_stays(arguments, i as int);
                }
                return Err(EvalError::WrongArgumentType(Builtin::Add, other.clone()));
            },
        }
        i += 1;
    }
    assert(arguments.take(values.len() - 1) =~= arguments);
    if floating {
        let total = Float::Sum(terms);
        assert(total@->Sum_0 =~= float_views(terms@));
        Ok(Data::Float(total))
    } else {
        Ok(Data::Int(whole))
    }
}

/// Once `+` has failed on the first `n` arguments, it fails alike on more.
pub proof fn lemma_first_wrong_argument_stays(arguments: Seq<SpecData>, n: int)
    requires
        0 <= n <= arguments.len(),
        sum(arguments.take(n)) is Err,
    ensures
        sum(arguments) == sum(arguments.take(n)),
    decreases arguments.len() - n,
{
    if n < arguments.len() {
        assert(arguments.take(n + 1).drop_last() =~= arguments.take(n));
        lemma_first_wrong_argument_stays(arguments, n + 1);
    } else {
        assert(arguments.take(n) =~= arguments);
    }
}

/// An interpreter: the scopes, innermost last, the program to run, and what
/// has been shown so far.
pub struct Interpreter {
    scopes: Vec<Scope>,
    program: Vec<Data>,
    output: Vec<Fragment>,
}

impl Interpreter {
    /// The scopes, innermost last.
    pub closed spec fn scopes(&self) -> Seq<Map<Seq<char>, SpecData>> {
        Seq::new(self.scopes@.len(), |i: int| self.scopes@[i]@)
    }

    /// The program.
    pub closed spec fn program(&self) -> Seq<SpecData> {
        data_views(self.program@)
    }

    /// What has been shown so far, in order.
    pub closed spec fn shown(&self) -> Seq<SpecFragment> {
        fragment_views(self.output@)
    }

    /// An interpreter for the program `data`. It has one scope, the standard
    /// library, and has shown nothing.
    pub fn new(data: Vec<Data>) -> (interpreter: Interpreter)
        ensures
            interpreter.scopes() == seq![standard_library()],
            interpreter.program() == data_views(data@),
            interpreter.shown() == Seq::<SpecFragment>::empty(),
    {
        let mut interpreter = Interpreter {
            scopes: Vec::new(),
            program: data,
            output: Vec::new(),
        };
        interpreter.scopes.push(Interpreter::make_standard_library());
        interpreter
    }

    /// The scope of the built-in operations.
    fn make_standard_library() -> (standard: Scope)
        ensures
            standard@ == standard_library(),
    {
        let mut standard = Scope::new();
        standard.insert(name_of(Builtin::Print), Data::NativeFunction(Builtin::Print));
        standard.insert(name_of(Builtin::Println), Data::NativeFunction(Builtin::Println));
        standard.insert(name_of(Builtin::Add), Data::NativeFunction(Builtin::Add));
        standard
    }

    /// What has been shown so far, in order.
    pub fn output(&self) -> (output: &Vec<Fragment>)
        ensures
            fragment_views(output@) == self.shown(),
    {
        &self.output
    }

    /// The value that `var_name` is bound to in the innermost scope that
    /// binds it.
    fn scope_lookup(&self, var_name: &String) -> (value: Option<Data>)
        ensures
            match value {
                Some(v) => resolve(self.scopes(), var_name@) == Some(v@),
                None => resolve(self.scopes(), var_name@) is None,
            },
    {
        let mut i: usize = self.scopes.len();
        assert(self.scopes().take(i as int) =~= self.scopes());
        while i > 0
            invariant
                i <= self.scopes.len(),
                resolve(self.scopes(), var_name@) == resolve(
                    self.scopes().take(i as int),
                    var_name@,
                ),
            decreases i,
        {
            i -= 1;
            assert(self.scopes().take(i + 1).drop_last() =~= self.scopes().take(i as int));
            match self.scopes[i].get(var_name) {
                Some(data) => {
                    return Some(data.clone());
                },
                None => {},
            }
        }
        None
    }

    /// Shows the values behind the first of `values`, a space between each
    /// two.
    fn show_all(&mut self, values: &Vec<Data>)
        requires
            values@.len() >= 1,
        ensures
            final(self).scopes() == old(self).scopes(),
            final(self).program() == old(self).program(),
            final(self).shown() == old(self).shown() + shown_by(data_views(values@).skip(1)),
    {
        let ghost arguments = data_views(values@).skip(1);
        let ghost before = self.shown();
        let mut i: usize = 1;
        while i < values.len()
            invariant
                1 <= i <= values.len(),
                arguments == data_views(values@).skip(1),
                self.scopes() == old(self).scopes(),
                self.program() == old(self).program(),
                before == old(self).shown(),
                self.shown() == before + shown_by(arguments.take(i - 1)),
            decreases values.len() - i,
        {
            assert(arguments.take(i as int).drop_last() =~= arguments.take(i - 1));
            if i > 1 {
                push_text(&mut self.output, String::from_str(" "));
            }
            values[i].show(&mut self.output);
            i += 1;
        }
        assert(arguments.take(values.len() - 1) =~= arguments);
    }

    /// Calls `builtin` with the values behind the first of `values`.
    fn call(&mut self, builtin: Builtin, values: &Vec<Data>) -> (r: Result<Data, EvalError>)
        requires
            values@.len() >= 1,
        ensures
            final(self).scopes() == old(self).scopes(),
            final(self).program() == old(self).program(),
            final(self).shown() == old(self).shown() + apply(
                builtin,
                data_views(values@).skip(1),
            ).shown,
            outcome_view(r) == apply(builtin, data_views(values@).skip(1)).outcome,
    {
        match builtin {
            Builtin::Print => {
                self.show_all(values);
                Ok(Data::Nil)
            },
            Builtin::Println => {
                self.show_all(values);
                push_text(&mut self.output, String::from_str("\n"));
                Ok(Data::Nil)
            },
            Builtin::Add => add_up(values),
        }
    }

    /// Evaluates `data`, as `evaluate` says, and keeps what that shows behind
    /// what was shown before.
    pub fn eval(&mut self, data: Data) -> (r: Result<Data, EvalError>)
        ensures
            final(self).scopes() == old(self).scopes(),
            final(self).program() == old(self).program(),
            final(self).shown() == old(self).shown() + evaluate(old(self).scopes(), data@).shown,
            outcome_view(r) == evaluate(old(self).scopes(), data@).outcome,
    {
        self.eval_in_place(&data)
    }

    fn eval_in_place(&mut self, data: &Data) -> (r: Result<Data, EvalError>)
        ensures
            final(self).scopes() == old(self).scopes(),
            final(self).program() == old(self).program(),
            final(self).shown() == old(self).shown() + evaluate(old(self).scopes(), data@).shown,
            outcome_view(r) == evaluate(old(self).scopes(), data@).outcome,
        decreases data,
    {
        let ghost scopes = self.scopes();
        let ghost before = self.shown();
        match data {
            Data::Symbol(symbol) => match self.scope_lookup(symbol) {
                Some(thing) => Ok(thing),
                None => Err(EvalError::UndefinedVariable(symbol.clone())),
            },
            Data::List(list) => {
                proof {
                    lemma_data_list_view(*list);
                }
                if list.len() == 0 {
                    return Ok(Data::Nil);
                }
                let ghost items = data_views(list@);
                let mut evaluated_list: Vec<Data> = Vec::new();
                let mut i: usize = 0;
                assert(data_views(evaluated_list@) =~= Seq::<SpecData>::empty());
                while i < list.len()
                    invariant
                        i <= list.len(),
                        data is List,
                        data->List_0 == *list,
                        data@ == SpecData::List(items),
                        items == data_views(list@),
                        scopes == old(self).scopes(),
                        before == old(self).shown(),
                        self.scopes() == scopes,
                        self.program() == old(self).program(),
                        evaluate_all(scopes, items.take(i as int)).outcome == Ok::<
                            Seq<SpecData>,
                            SpecEvalError,
                        >(data_views(evaluated_list@)),
                        self.shown() == before + evaluate_all(scopes, items.take(i as int)).shown,
                    decreases list.len() - i,
                {
                    let ghost values = data_views(evaluated_list@);
                    assert(items.take(i + 1).drop_last() =~= items.take(i as int));
                    match self.eval_in_place(&list[i]) {
                        Ok(value) => {
                            evaluated_list.push(value);
                            assert(data_views(evaluated_list@) =~= values.push(value@));
                        },
                        Err(error) => {
                            proof {
                                lemma_first_error_stays(scopes, items, i + 1);
                            }
                            return Err(error);
                        },
                    }
                    i += 1;
                }
                assert(items.take(list.len() as int) =~= items);
                match &evaluated_list[0] {
                    Data::NativeFunction(f) => self.call(*f, &evaluated_list),
                    x => Err(EvalError::NotCallable(x.clone())),
                }
            },
            any => Ok(any.clone()),
        }
    }

    /// Evaluates the program from its first value to its last and stops at
    /// the first error. It gives 0 where there was none, and else 1, having
    /// shown the error in a line of its own.
    pub fn start(&mut self) -> (status: i32)
        ensures
            final(self).scopes() == old(self).scopes(),
            final(self).program() == old(self).program(),
            final(self).shown() == old(self).shown() + shown_in_all(
                old(self).scopes(),
                old(self).program(),
            ),
            status == match evaluate_all(old(self).scopes(), old(self).program()).outcome {
                Ok(_) => 0i32,
                Err(_) => 1i32,
            },
    {
        let ghost scopes = self.scopes();
        let ghost program = self.program();
        let ghost before = self.shown();
        let mut i: usize = 0;
        while i < self.program.len()
            invariant
                i <= self.program.len(),
                scopes == old(self).scopes(),
                program == old(self).program(),
                before == old(self).shown(),
                self.scopes() == scopes,
                self.program() == program,
                program.len() == self.program@.len(),
                evaluate_all(scopes, program.take(i as int)).outcome is Ok,
                self.shown() == before + evaluate_all(scopes, program.take(i as int)).shown,
            decreases self.program.len() - i,
        {
            assert(program.take(i + 1).drop_last() =~= program.take(i as int));
            let data = self.program[i].clone();
            let one = self.eval(data);
            if let Err(e) = one {
                proof {
                    lemma_first_error_stays(scopes, program, i + 1);
                }
                push_text(&mut self.output, String::from_str("An error ocurred: "));
                e.explain(&mut self.output);
                push_text(&mut self.output, String::from_str("\n"));
                return 1;
            }
            i += 1;
        }
        assert(program.take(self.program.len() as int) =~= program);
        0
    }
}

/// What an error says: the name that was not found, the value that was
/// called, or the argument that an operation could not work on.
pub open spec fn message_of(error: SpecEvalError) -> Seq<SpecFragment> {
    match error {
        SpecEvalError::UndefinedVariable(name) => text("Could not find variable \""@) + text(name)
            + text("\""@),
        SpecEvalError::NotCallable(value) => text("Is not a function: "@) + repr_of(value),
        SpecEvalError::WrongArgumentType(builtin, value) => text("attempted to use "@) + repr_of(
            value,
        ) + text(" in function "@) + text(builtin_name(builtin)) + text(
            " (wrong argument type)"@,
        ),
    }
}

/// What running `program` in `scopes` shows: what evaluating its values from
/// left to right shows and, where that fails, a line that reports the error.
pub open spec fn shown_in_all(
    scopes: Seq<Map<Seq<char>, SpecData>>,
    program: Seq<SpecData>,
) -> Seq<SpecFragment> {
    let run = evaluate_all(scopes, program);
    run.shown + match run.outcome {
        Ok(_) => Seq::empty(),
        Err(error) => text("An error ocurred: "@) + message_of(error) + text("\n"@),
    }
}

impl EvalError {
    /// Puts behind `out` what the error says.
    pub fn explain(&self, out: &mut Vec<Fragment>)
        ensures
            fragment_views(final(out)@) == fragment_views(old(out)@) + message_of(self@),
    {
        let ghost before = fragment_views(out@);
        match self {
            EvalError::UndefinedVariable(name) => {
                push_text(out, String::from_str("Could not find variable \""));
                push_text(out, name.clone());
                push_text(out, String::from_str("\""));
            },
            EvalError::NotCallable(value) => {
                push_text(out, String::from_str("Is not a function: "));
                let mut written = value.repr();
                out.append(&mut written);
                assert(before + (text("Is not a function: "@) + repr_of(value@)) =~= before + text(
                    "Is not a function: "@,
                ) + repr_of(value@));
            },
            EvalError::WrongArgumentType(builtin, value) => {
                push_text(out, String::from_str("attempted to use "));
                let mut written = value.repr();
                out.append(&mut written);
                push_text(out, String::from_str(" in function "));
                push_text(out, name_of(*builtin));
                push_text(out, String::from_str(" (wrong argument type)"));
                assert(before + (text("attempted to use "@) + repr_of(value@) + text(
                    " in function "@,
                ) + text(builtin_name(*builtin)) + text(" (wrong argument type)"@)) =~= before
                    + text("attempted to use "@) + repr_of(value@) + text(" in function "@) + text(
                    builtin_name(*builtin),
                ) + text(" (wrong argument type)"@));
            },
        }
    }
}

/// A value that is no symbol and no list evaluates to itself, in any scopes,
/// and shows nothing: evaluating it again changes nothing.
pub proof fn lemma_literal_evaluates_to_itself(
    scopes: Seq<Map<Seq<char>, SpecData>>,
    data: SpecData,
)
    requires
        data is Int || data is Float || data is Str || data is Nil || data is NativeFunction,
    ensures
        evaluate(scopes, data) == (Evaluation { outcome: Ok(data), shown: Seq::empty() }),
        evaluate(scopes, evaluate(scopes, data).outcome->Ok_0) == evaluate(scopes, data),
{
}

/// The values that expressions become, in order.
pub open spec fn data_of_expressions(expressions: Seq<SpecExpression>) -> Seq<SpecData> {
    Seq::new(expressions.len(), |i: int| data_of_expression(expressions[i]))
}

/// How running a text ended.
#[derive(Debug, PartialEq)]
pub struct Run {
    /// 0 where the text was read and run to its end, 1 where evaluating
    /// failed, 2 where the text could not be nested into expressions, and 3
    /// where it could not be cut into tokens.
    pub status: i32,
    /// Why the text is no program, where it is none.
    pub failure: Option<ProgramError>,
    /// What running the program has shown, in order.
    pub output: Vec<Fragment>,
}

/// The status that a text which is no program ends with.
pub open spec fn status_of(error: ProgramError) -> i32 {
    match error {
        ProgramError::Lexer(_) => 3i32,
        _ => 2i32,
    }
}

/// Reads the text `code` as a program and runs it in a new interpreter.
pub fn init_interpreter(code: &str) -> (run: Run)
    ensures
        run.failure == program_failure(code@),
        match program_failure(code@) {
            Some(error) => run.status == status_of(error) && run.output@.len() == 0,
            None => {
                let program = data_of_expressions(program_of(code@));
                let scopes = seq![standard_library()];
                &&& run.status == match evaluate_all(scopes, program).outcome {
                    Ok(_) => 0i32,
                    Err(_) => 1i32,
                }
                &&& fragment_views(run.output@) == shown_in_all(scopes, program)
            },
        },
{
    match parse_program(code) {
        Ok(prog) => {
            let mut data: Vec<Data> = Vec::new();
            let mut i: usize = 0;
            while i < prog.len()
                invariant
                    i <= prog.len(),
                    data@.len() == i,
                    all_numerals_fit(pre_views(prog@)),
                    forall|k: int| 0 <= k < i ==> data@[k]@ == data_of_pre(prog@[k]@),
                decreases prog.len() - i,
            {
                assert(pre_views(prog@)[i as int] == prog@[i as int]@);
                data.push(Data::from(prog[i].clone()));
                i += 1;
            }
            assert(data_views(data@) =~= data_of_expressions(typed_all(pre_views(prog@)))) by {
                assert forall|k: int| 0 <= k < prog@.len() implies data@[k]@ == data_of_expression(
                    typed_all(pre_views(prog@))[k],
                ) by {
                    lemma_typed_is_the_same_data(prog@[k]@);
                }
            }
            let mut interpreter = Interpreter::new(data);
            let status = interpreter.start();
            Run { status, failure: None, output: interpreter.output }
        },
        Err(error) => Run {
            status: match error {
                ProgramError::Lexer(_) => 3,
                _ => 2,
            },
            failure: Some(error),
            output: Vec::new(),
        },
    }
}

} // verus!
