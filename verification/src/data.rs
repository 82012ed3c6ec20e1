//! Values: what a program is made of when it runs, and how a value is shown.
//!
//! The library does no floating-point arithmetic. A floating-point number is
//! held as the recipe that makes it (`Float`): the numeral as written, an
//! integer to convert, or a sum to take from left to right. Nothing that the
//! library decides depends on what a recipe is worth; whoever needs the number
//! works the recipe out. For the same reason a value is shown as a sequence of
//! fragments (`Fragment`): text, and the numbers that stand between the texts.

use vstd::prelude::*;
use vstd::string::StringExecFns;
use crate::parser::{Expression, SpecExpression};
use crate::text::{format_integer, integer_text, integer_value, parse_integer};

verus! {

/// Data as a front end hands it over: numbers are still numerals.
#[derive(Debug, PartialEq)]
pub enum DataPre {
    List(Vec<DataPre>),
    Int(String),
    Float(String),
    Str(String),
    Symbol(String),
    Nil,
}

/// `DataPre` as contracts speak of it.
pub enum SpecDataPre {
    List(Seq<SpecDataPre>),
    Int(Seq<char>),
    Float(Seq<char>),
    Str(Seq<char>),
    Symbol(Seq<char>),
    Nil,
}

impl View for DataPre {
    type V = SpecDataPre;

    open spec fn view(&self) -> SpecDataPre
        decreases self,
    {
        match self {
            DataPre::List(items) => SpecDataPre::List(
                Seq::new(
                    items.len() as nat,
                    |i: int|
                        if 0 <= i < items.len() {
                            items[i]@
                        } else {
                            SpecDataPre::Nil
                        },
                ),
            ),
            DataPre::Int(s) => SpecDataPre::Int(s@),
            DataPre::Float(s) => SpecDataPre::Float(s@),
            DataPre::Str(s) => SpecDataPre::Str(s@),
            DataPre::Symbol(s) => SpecDataPre::Symbol(s@),
            DataPre::Nil => SpecDataPre::Nil,
        }
    }
}

impl Clone for DataPre {
    fn clone(&self) -> (copy: DataPre)
        ensures
            copy@ == self@,
        decreases self,
    {
        match self {
            DataPre::List(items) => {
                let mut copies: Vec<DataPre> = Vec::new();
                let mut i: usize = 0;
                while i < items.len()
                    invariant
                        i <= items.len(),
                        self is List,
                        self->List_0 == *items,
                        copies@.len() == i,
                        forall|k: int| 0 <= k < i ==> copies@[k]@ == items@[k]@,
                    decreases items.len() - i,
                {
                    copies.push(items[i].clone());
                    i += 1;
                }
                assert(DataPre::List(copies)@->List_0 =~= self@->List_0);
                DataPre::List(copies)
            },
            DataPre::Int(s) => DataPre::Int(s.clone()),
            DataPre::Float(s) => DataPre::Float(s.clone()),
            DataPre::Str(s) => DataPre::Str(s.clone()),
            DataPre::Symbol(s) => DataPre::Symbol(s.clone()),
            DataPre::Nil => DataPre::Nil,
        }
    }
}

/// An operation that the library itself performs.
#[derive(Debug, Clone, Copy, PartialEq, Eq, Structural)]
pub enum Builtin {
    /// Shows its arguments, a space between each two.
    Print,
    /// Shows its arguments, a space between each two, and ends the line.
    Println,
    /// Adds its arguments up.
    Add,
}

/// A floating-point number, held as the recipe that makes it.
#[derive(Debug, PartialEq)]
pub enum Float {
    /// The number that this decimal numeral writes.
    Literal(String),
    /// This integer, converted to floating point.
    Promoted(i64),
    /// The first of these numbers, with each of the others added to it in
    /// turn; zero where there is none.
    Sum(Vec<Float>),
}

/// `Float` as contracts speak of it.
pub enum SpecFloat {
    Literal(Seq<char>),
    Promoted(int),
    Sum(Seq<SpecFloat>),
}

impl View for Float {
    type V = SpecFloat;

    open spec fn view(&self) -> SpecFloat
        decreases self,
    {
        match self {
            Float::Literal(s) => SpecFloat::Literal(s@),
            Float::Promoted(i) => SpecFloat::Promoted(*i as int),
            Float::Sum(terms) => SpecFloat::Sum(
                Seq::new(
                    terms.len() as nat,
                    |i: int|
                        if 0 <= i < terms.len() {
                            terms[i]@
                        } else {
                            SpecFloat::Promoted(0)
                        },
                ),
            ),
        }
    }
}

/// The views of a sequence of recipes, in order.
pub open spec fn float_views(terms: Seq<Float>) -> Seq<SpecFloat> {
    Seq::new(terms.len(), |i: int| terms[i]@)
}

impl Clone for Float {
    fn clone(&self) -> (copy: Float)
        ensures
            copy@ == self@,
        decreases self,
    {
        match self {
            Float::Literal(s) => Float::Literal(s.clone()),
            Float::Promoted(i) => Float::Promoted(*i),
            Float::Sum(terms) => {
                let mut copies: Vec<Float> = Vec::new();
                let mut i: usize = 0;
                while i < terms.len()
                    invariant
                        i <= terms.len(),
                        self is Sum,
                        self->Sum_0 == *terms,
                        copies@.len() == i,
                        forall|k: int| 0 <= k < i ==> copies@[k]@ == terms@[k]@,
                    decreases terms.len() - i,
                {
                    copies.push(terms[i].clone());
                    i += 1;
                }
                assert(Float::Sum(copies)@->Sum_0 =~= self@->Sum_0);
                Float::Sum(copies)
            },
        }
    }
}

/// A value.
#[derive(Debug, PartialEq)]
pub enum Data {
    List(Vec<Data>),
    Int(i64),
    Float(Float),
    Str(String),
    Symbol(String),
    NativeFunction(Builtin),
    Nil,
}

/// A value as contracts speak of it.
pub enum SpecData {
    List(Seq<SpecData>),
    Int(int),
    Float(SpecFloat),
    Str(Seq<char>),
    Symbol(Seq<char>),
    NativeFunction(Builtin),
    Nil,
}

impl View for Data {
    type V = SpecData;

    open spec fn view(&self) -> SpecData
        decreases self,
    {
        match self {
            Data::List(items) => SpecData::List(
                Seq::new(
                    items.len() as nat,
                    |i: int|
                        if 0 <= i < items.len() {
                            items[i]@
                        } else {
                            SpecData::Nil
                        },
                ),
            ),
            Data::Int(i) => SpecData::Int(*i as int),
            Data::Float(f) => SpecData::Float(f@),
            Data::Str(s) => SpecData::Str(s@),
            Data::Symbol(s) => SpecData::Symbol(s@),
            Data::NativeFunction(b) => SpecData::NativeFunction(*b),
            Data::Nil => SpecData::Nil,
        }
    }
}

/// The views of a sequence of values, in order.
pub open spec fn data_views(values: Seq<Data>) -> Seq<SpecData> {
    Seq::new(values.len(), |i: int| values[i]@)
}

/// A list's view holds the views of its items.
pub proof fn lemma_data_list_view(items: Vec<Data>)
    ensures
        Data::List(items)@ == SpecData::List(data_views(items@)),
{
    assert(Data::List(items)@->List_0 =~= data_views(items@));
}

impl Clone for Data {
    fn clone(&self) -> (copy: Data)
        ensures
            copy@ == self@,
        decreases self,
    {
        match self {
            Data::List(items) => {
                let mut copies: Vec<Data> = Vec::new();
                let mut i: usize = 0;
                while i < items.len()
                    invariant
                        i <= items.len(),
                        self is List,
                        self->List_0 == *items,
                        copies@.len() == i,
                        forall|k: int| 0 <= k < i ==> copies@[k]@ == items@[k]@,
                    decreases items.len() - i,
                {
                    copies.push(items[i].clone());
                    i += 1;
                }
                assert(Data::List(copies)@->List_0 =~= self@->List_0);
                Data::List(copies)
            },
            Data::Int(i) => Data::Int(*i),
            Data::Float(f) => Data::Float(f.clone()),
            Data::Str(s) => Data::Str(s.clone()),
            Data::Symbol(s) => Data::Symbol(s.clone()),
            Data::NativeFunction(b) => Data::NativeFunction(*b),
            Data::Nil => Data::Nil,
        }
    }
}

/// A piece of what is shown: text, or a number for the host to write out.
#[derive(Debug, PartialEq)]
pub enum Fragment {
    Text(String),
    Float(Float),
}

/// A fragment as contracts speak of it.
pub enum SpecFragment {
    Text(Seq<char>),
    Float(SpecFloat),
}

impl View for Fragment {
    type V = SpecFragment;

    open spec fn view(&self) -> SpecFragment {
        match self {
            Fragment::Text(s) => SpecFragment::Text(s@),
            Fragment::Float(f) => SpecFragment::Float(f@),
        }
    }
}

impl Clone for Fragment {
    fn clone(&self) -> (copy: Fragment)
        ensures
            copy@ == self@,
    {
        match self {
            Fragment::Text(s) => Fragment::Text(s.clone()),
            Fragment::Float(f) => Fragment::Float(f.clone()),
        }
    }
}

/// The views of a sequence of fragments, in order.
pub open spec fn fragment_views(fragments: Seq<Fragment>) -> Seq<SpecFragment> {
    Seq::new(fragments.len(), |i: int| fragments[i]@)
}

/// The value that a name written in a program stands for before any lookup:
/// `nil` is the value `Nil`, every other name a symbol.
pub open spec fn named(name: Seq<char>) -> SpecData {
    if name == "nil"@ {
        SpecData::Nil
    } else {
        SpecData::Symbol(name)
    }
}

/// Every integer numeral in `pre` writes a value that a 64-bit integer can
/// hold.
pub open spec fn numerals_fit(pre: SpecDataPre) -> bool
    decreases pre,
{
    match pre {
        SpecDataPre::List(items) => forall|i: int|
            0 <= i < items.len() ==> numerals_fit(#[trigger] items[i]),
        SpecDataPre::Int(s) => integer_value(s) is Some,
        _ => true,
    }
}

/// The value that `pre` becomes: numerals are read, a float keeps its numeral
/// as its recipe, the symbol `nil` becomes `Nil`, and the rest stays as it is.
pub open spec fn data_of_pre(pre: SpecDataPre) -> SpecData
    decreases pre,
{
    match pre {
        SpecDataPre::List(items) => SpecData::List(
            Seq::new(
                items.len(),
                |i: int|
                    if 0 <= i < items.len() {
                        data_of_pre(items[i])
                    } else {
                        SpecData::Nil
                    },
            ),
        ),
        SpecDataPre::Int(s) => SpecData::Int(integer_value(s).unwrap()),
        SpecDataPre::Float(s) => SpecData::Float(SpecFloat::Literal(s)),
        SpecDataPre::Str(s) => SpecData::Str(s),
        SpecDataPre::Symbol(s) => named(s),
        SpecDataPre::Nil => SpecData::Nil,
    }
}

/// The value that `expression` becomes: a float keeps its numeral as its
/// recipe, the symbol `nil` becomes `Nil`, and the rest stays as it is.
pub open spec fn data_of_expression(expression: SpecExpression) -> SpecData
    decreases expression,
{
    match expression {
        SpecExpression::List(items) => SpecData::List(
            Seq::new(
                items.len(),
                |i: int|
                    if 0 <= i < items.len() {
                        data_of_expression(items[i])
                    } else {
                        SpecData::Nil
                    },
            ),
        ),
        SpecExpression::Integer(i) => SpecData::Int(i),
        SpecExpression::Float(s) => SpecData::Float(SpecFloat::Literal(s)),
        SpecExpression::StringLiteral(s) => SpecData::Str(s),
        SpecExpression::Symbol(s) => named(s),
    }
}

/// The value that the name `name` stands for before any lookup.
fn value_named(name: &String) -> (value: Data)
    ensures
        value@ == named(name@),
{
    let nil = String::from_str("nil");
    if *name == nil {
        Data::Nil
    } else {
        Data::Symbol(name.clone())
    }
}

impl DataPre {
    /// Whether every integer numeral in it writes a value that a 64-bit
    /// integer can hold.
    pub fn is_readable(&self) -> (readable: bool)
        ensures
            readable == numerals_fit(self@),
        decreases self,
    {
        match self {
            DataPre::List(items) => {
                let mut i: usize = 0;
                while i < items.len()
                    invariant
                        i <= items.len(),
                        self is List,
                        self->List_0 == *items,
                        forall|k: int| 0 <= k < i ==> numerals_fit(#[trigger] items@[k]@),
                    decreases items.len() - i,
                {
                    if !items[i].is_readable() {
                        assert(self@->List_0[i as int] == items@[i as int]@);
                        return false;
                    }
                    i += 1;
                }
                assert forall|k: int| 0 <= k < self@->List_0.len() implies numerals_fit(
                    #[trigger] self@->List_0[k],
                ) by {
                    assert(self@->List_0[k] == items@[k]@);
                }
                true
            },
            DataPre::Int(s) => parse_integer(s.as_str()).is_some(),
            _ => true,
        }
    }
}

impl Data {
    /// Makes a value of data as a front end hands it over.
    pub fn from(data_pre: DataPre) -> (data: Data)
        requires
            numerals_fit(data_pre@),
        ensures
            data@ == data_of_pre(data_pre@),
    {
        Data::from_pre(&data_pre)
    }

    fn from_pre(data_pre: &DataPre) -> (data: Data)
        requires
            numerals_fit(data_pre@),
        ensures
            data@ == data_of_pre(data_pre@),
        decreases data_pre,
    {
        match data_pre {
            DataPre::List(items) => {
                let mut values: Vec<Data> = Vec::new();
                let mut i: usize = 0;
                while i < items.len()
                    invariant
                        i <= items.len(),
                        data_pre is List,
                        data_pre->List_0 == *items,
                        numerals_fit(data_pre@),
                        values@.len() == i,
                        forall|k: int| 0 <= k < i ==> values@[k]@ == data_of_pre(items@[k]@),
                    decreases items.len() - i,
                {
                    proof {
                        assert(data_pre@->List_0[i as int] == items@[i as int]@);
                    }
                    values.push(Data::from_pre(&items[i]));
                    i += 1;
                }
                assert(Data::List(values)@->List_0 =~= data_of_pre(data_pre@)->List_0);
                Data::List(values)
            },
            DataPre::Int(s) => Data::Int(parse_integer(s.as_str()).unwrap()),
            DataPre::Float(s) => Data::Float(Float::Literal(s.clone())),
            DataPre::Str(s) => Data::Str(s.clone()),
            DataPre::Symbol(s) => value_named(s),
            DataPre::Nil => Data::Nil,
        }
    }

    /// Makes a value of an expression.
    pub fn from_expression(expression: &Expression) -> (data: Data)
        ensures
            data@ == data_of_expression(expression@),
        decreases expression,
    {
        match expression {
            Expression::List(items) => {
                let mut values: Vec<Data> = Vec::new();
                let mut i: usize = 0;
                while i < items.len()
                    invariant
                        i <= items.len(),
                        expression is List,
                        expression->List_0 == *items,
                        values@.len() == i,
                        forall|k: int|
                            0 <= k < i ==> values@[k]@ == data_of_expression(items@[k]@),
                    decreases items.len() - i,
                {
                    values.push(Data::from_expression(&items[i]));
                    i += 1;
                }
                assert(Data::List(values)@->List_0 =~= data_of_expression(expression@)->List_0);
                Data::List(values)
            },
            Expression::Integer(i) => Data::Int(*i),
            Expression::Float(s) => Data::Float(Float::Literal(s.clone())),
            Expression::StringLiteral(s) => Data::Str(s.clone()),
            Expression::Symbol(s) => value_named(s),
        }
    }
}

/// The text that the standard library's `{:?}` formatting makes of the string
/// `s`: `s` between double quotes, with the characters that cannot stand
/// there as they are written as escapes.
pub uninterp spec fn debug_text(s: Seq<char>) -> Seq<char>;

/// `s` as `{:?}` formats it. This calls `format!` with `{:?}` on a string; the
/// contract names what comes back and claims no more of it.
#[verifier::external_body]
fn quote(s: &str) -> (quoted: String)
    ensures
        quoted@ == debug_text(s@),
{
    format!("{:?}", s)
}

/// The one fragment that holds the text `s`.
pub open spec fn text(s: Seq<char>) -> Seq<SpecFragment> {
    seq![SpecFragment::Text(s)]
}

/// How a value is written: a symbol as its name, a string as `debug_text`
/// quotes it, an integer in base ten, a float as the number that its recipe
/// makes, a list as its items between parentheses with a space between each
/// two, a built-in operation as `#rust/fn`, and `Nil` as `nil`.
pub open spec fn repr_of(data: SpecData) -> Seq<SpecFragment>
    decreases data, 0int,
{
    match data {
        SpecData::List(items) => text("("@) + repr_of_all(items) + text(")"@),
        SpecData::Int(i) => text(integer_text(i)),
        SpecData::Float(f) => seq![SpecFragment::Float(f)],
        SpecData::Str(s) => text(debug_text(s)),
        SpecData::Symbol(s) => text(s),
        SpecData::NativeFunction(_) => text("#rust/fn"@),
        SpecData::Nil => text("nil"@),
    }
}

/// How values are written one after the other, a space between each two.
pub open spec fn repr_of_all(items: Seq<SpecData>) -> Seq<SpecFragment>
    decreases items, 1int,
{
    if items.len() == 0 {
        Seq::empty()
    } else if items.len() == 1 {
        repr_of(items[0])
    } else {
        repr_of_all(items.drop_last()) + text(" "@) + repr_of(items.last())
    }
}

/// How a value is shown to the user: a string as its own text, without
/// quotes, and every other value as it is written.
pub open spec fn lisp_string_of(data: SpecData) -> Seq<SpecFragment> {
    match data {
        SpecData::Str(s) => text(s),
        _ => repr_of(data),
    }
}

/// Puts the text `s` behind `out`.
pub fn push_text(out: &mut Vec<Fragment>, s: String)
    ensures
        fragment_views(final(out)@) == fragment_views(old(out)@) + text(s@),
{
    out.push(Fragment::Text(s));
}

impl Data {
    /// Puts behind `out` how the value is written.
    fn write(&self, out: &mut Vec<Fragment>)
        ensures
            fragment_views(final(out)@) == fragment_views(old(out)@) + repr_of(self@),
        decreases self,
    {
        let ghost before = fragment_views(out@);
        match self {
            Data::List(items) => {
                push_text(out, String::from_str("("));
                let mut i: usize = 0;
                while i < items.len()
                    invariant
                        i <= items.len(),
                        self is List,
                        self->List_0 == *items,
                        fragment_views(out@) == before + text("("@) + repr_of_all(
                            data_views(items@).take(i as int),
                        ),
                    decreases items.len() - i,
                {
                    let ghost views = data_views(items@);
                    proof {
                        assert(views.take(i + 1).drop_last() =~= views.take(i as int));
                    }
                    if i > 0 {
                        push_text(out, String::from_str(" "));
                    }
                    items[i].write(out);
                    i += 1;
                }
                push_text(out, String::from_str(")"));
                proof {
                    lemma_data_list_view(*items);
                    assert(data_views(items@).take(items.len() as int) =~= data_views(items@));
                }
            },
            Data::Int(i) => {
                push_text(out, format_integer(*i));
            },
            Data::Float(f) => {
                out.push(Fragment::Float(f.clone()));
            },
            Data::Str(s) => {
                push_text(out, quote(s.as_str()));
            },
            Data::Symbol(s) => {
                push_text(out, s.clone());
            },
            Data::NativeFunction(_) => {
                push_text(out, String::from_str("#rust/fn"));
            },
            Data::Nil => {
                push_text(out, String::from_str("nil"));
            },
        }
    }

    /// Puts behind `out` how the value is shown to the user.
    pub fn show(&self, out: &mut Vec<Fragment>)
        ensures
            fragment_views(final(out)@) == fragment_views(old(out)@) + lisp_string_of(self@),
    {
        match self {
            Data::Str(s) => {
                push_text(out, s.clone());
            },
            _ => {
                self.write(out);
            },
        }
    }

    /// How the value is written.
    pub fn repr(&self) -> (written: Vec<Fragment>)
        ensures
            fragment_views(written@) == repr_of(self@),
    {
        let mut written: Vec<Fragment> = Vec::new();
        self.write(&mut written);
        written
    }

    /// How the value is shown to the user.
    pub fn to_lisp_string(&self) -> (shown: Vec<Fragment>)
        ensures
            fragment_views(shown@) == lisp_string_of(self@),
    {
        let mut shown: Vec<Fragment> = Vec::new();
        self.show(&mut shown);
        shown
    }
}

} // verus!
