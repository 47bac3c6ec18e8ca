//! The document tree and the steps of a query.
use super::evaluate::{
    apply_each, apply_query, apply_step, keys_of, lookup, mismatch,
    requirement, step_name, values_in,
};
use super::query::JsonQuery;
use super::render::{
    fraction_text, integer_text, number_text, quoted, render, render_items, render_member,
    render_members,
};
use crate::text::{decimal, push_decimal, push_signed_decimal};
use vstd::prelude::*;

verus! {

/// A number as its literal writes it, digit for digit: the sign, the digits
/// of the integer part, the digits after the decimal point, and the sign
/// and the digits of the exponent. A part that the literal does not have is
/// empty.
///
/// It stands for the decimal number `±integer.fraction * 10^(±exponent)`;
/// how closely a floating-point number can follow it is left to whoever
/// converts it.
#[derive(Debug, PartialEq, Eq)]
pub struct Number {
    pub negative: bool,
    pub integer: String,
    pub fraction: String,
    pub exponent_negative: bool,
    pub exponent: String,
}

/// The mathematical form of a `Number`.
pub struct Decimal {
    pub negative: bool,
    pub integer: Seq<char>,
    pub fraction: Seq<char>,
    pub exponent_negative: bool,
    pub exponent: Seq<char>,
}

/// The whole number `n`, as its decimal notation writes it.
pub open spec fn whole_number(n: int) -> Decimal {
    Decimal {
        negative: n < 0,
        integer: decimal((if n < 0 {
            -n
        } else {
            n
        }) as nat),
        fraction: Seq::empty(),
        exponent_negative: false,
        exponent: Seq::empty(),
    }
}

impl View for Number {
    type V = Decimal;

    open spec fn view(&self) -> Decimal {
        Decimal {
            negative: self.negative,
            integer: self.integer@,
            fraction: self.fraction@,
            exponent_negative: self.exponent_negative,
            exponent: self.exponent@,
        }
    }
}

impl Clone for Number {
    /// A copy that stands for the same number.
    fn clone(&self) -> (copy: Self)
        ensures
            copy@ == self@,
    {
        Number {
            negative: self.negative,
            integer: self.integer.clone(),
            fraction: self.fraction.clone(),
            exponent_negative: self.exponent_negative,
            exponent: self.exponent.clone(),
        }
    }
}

impl Number {
    /// The whole number `integer`.
    pub fn whole(integer: i128) -> (number: Self)
        ensures
            number@ == whole_number(integer as int),
    {
        let mut digits = String::new();
        if integer < 0 {
            push_decimal(&mut digits, ((-(integer + 1)) as u128) + 1);
        } else {
            push_decimal(&mut digits, integer as u128);
        }
        assert(digits@ =~= whole_number(integer as int).integer);
        Number {
            negative: integer < 0,
            integer: digits,
            fraction: String::new(),
            exponent_negative: false,
            exponent: String::new(),
        }
    }

    /// Appends the number to `out` as a literal writes it.
    pub fn render_into(&self, out: &mut String)
        ensures
            final(out)@ == old(out)@ + number_text(self@),
    {
        if self.negative {
            out.push('-');
        }
        out.append(self.integer.as_str());
        assert(out@ =~= old(out)@ + integer_text(self@));
        if self.fraction.as_str().unicode_len() > 0 {
            out.push('.');
            out.append(self.fraction.as_str());
        }
        assert(out@ =~= old(out)@ + (integer_text(self@) + fraction_text(self@)));
        if self.exponent.as_str().unicode_len() > 0 {
            out.push('e');
            if self.exponent_negative {
                out.push('-');
            }
            out.append(self.exponent.as_str());
        }
        assert(out@ =~= old(out)@ + number_text(self@));
    }

    /// The number as a literal writes it.
    pub fn render(&self) -> (text: String)
        ensures
            text@ == number_text(self@),
    {
        let mut text = String::new();
        self.render_into(&mut text);
        assert(text@ =~= number_text(self@));
        text
    }
}

/// The mathematical tree that a `Json` document stands for.
pub enum Value {
    Null,
    Boolean(bool),
    Number(Decimal),
    Text(Seq<char>),
    Array(Seq<Value>),
    Object(Seq<(Seq<char>, Value)>),
}

/// Whether one of `members` is named `key`.
pub open spec fn has_key(members: Seq<(Seq<char>, Value)>, key: Seq<char>) -> bool {
    exists|i: int| 0 <= i < members.len() && (#[trigger] members[i]).0 == key
}

/// Whether no two of `members` share a name.
pub open spec fn distinct_keys(members: Seq<(Seq<char>, Value)>) -> bool {
    forall|i: int, j: int|
        0 <= i < j < members.len() ==> (#[trigger] members[i]).0 != (#[trigger] members[j]).0
}

impl Value {
    /// The name of the variant, as error messages give it.
    pub open spec fn variant(self) -> Seq<char> {
        match self {
            Value::Null => "Null"@,
            Value::Boolean(_) => "Boolean"@,
            Value::Number(_) => "Number"@,
            Value::Text(_) => "String"@,
            Value::Array(_) => "Array"@,
            Value::Object(_) => "Object"@,
        }
    }

    /// Whether every object in the tree names each of its keys once.
    pub open spec fn unique_keys(self) -> bool
        decreases self,
    {
        match self {
            Value::Array(items) => forall|i: int|
                0 <= i < items.len() ==> (#[trigger] items[i]).unique_keys(),
            Value::Object(members) => distinct_keys(members) && forall|i: int|
                0 <= i < members.len() ==> (#[trigger] members[i]).1.unique_keys(),
            _ => true,
        }
    }
}

/// The trees that the documents `items` stand for, in order.
pub open spec fn values_of(items: Seq<Json>) -> Seq<Value> {
    Seq::new(items.len(), |i: int| items[i]@)
}

/// The named trees that the members `members` stand for, in order.
pub open spec fn members_of(members: Seq<(String, Json)>) -> Seq<(Seq<char>, Value)> {
    Seq::new(members.len(), |i: int| (members[i].0@, members[i].1@))
}

/// An array stands for the trees of its elements.
pub proof fn lemma_array_view(whole: Json)
    requires
        whole is Array,
    ensures
        whole@ == Value::Array(values_of(whole->Array_0@)),
{
    assert(whole@->Array_0 =~= values_of(whole->Array_0@));
}

/// An object stands for the named trees of its members.
pub proof fn lemma_object_view(whole: Json)
    requires
        whole is Object,
    ensures
        whole@ == Value::Object(members_of(whole->Object_0@)),
{
    assert(whole@->Object_0 =~= members_of(whole->Object_0@));
}

/// The parsed document. An object keeps its members in the order of the
/// text; the parser never yields one that names a key twice.
#[derive(Debug, PartialEq)]
pub enum Json {
    Null,
    Boolean(bool),
    Number(Number),
    QString(String),
    Array(Vec<Json>),
    Object(Vec<(String, Json)>),
}

/// The tree that `json` stands for.
pub open spec fn value_of(json: Json) -> Value
    decreases json,
{
    match json {
        Json::Null => Value::Null,
        Json::Boolean(b) => Value::Boolean(b),
        Json::Number(n) => Value::Number(n@),
        Json::QString(s) => Value::Text(s@),
        Json::Array(items) => Value::Array(
            Seq::new(
                items@.len(),
                |i: int|
                    if 0 <= i < items@.len() {
                        value_of(items@[i])
                    } else {
                        Value::Null
                    },
            ),
        ),
        Json::Object(members) => Value::Object(
            Seq::new(
                members@.len(),
                |i: int|
                    if 0 <= i < members@.len() {
                        (members@[i].0@, value_of(members@[i].1))
                    } else {
                        (Seq::empty(), Value::Null)
                    },
            ),
        ),
    }
}

impl View for Json {
    type V = Value;

    open spec fn view(&self) -> Value {
        value_of(*self)
    }
}

impl Clone for Json {
    /// A copy that stands for the same tree.
    fn clone(&self) -> (copy: Self)
        ensures
            copy@ == self@,
        decreases self,
    {
        match self {
            Json::Null => Json::Null,
            Json::Boolean(b) => Json::Boolean(*b),
            Json::Number(n) => Json::Number(n.clone()),
            Json::QString(s) => Json::QString(s.clone()),
            Json::Array(items) => {
                let mut copies: Vec<Json> = Vec::new();
                let mut i: usize = 0;
                while i < items.len()
                    invariant
                        i <= items.len(),
                        copies.len() == i,
                        forall|k: int| 0 <= k < i ==> copies@[k]@ == items@[k]@,
                        *self == Json::Array(*items),
                    decreases items.len() - i,
                {
                    assert(decreases_to!(self => self->Array_0@[i as int]));
                    copies.push(items[i].clone());
                    i += 1;
                }
                assert(Json::Array(copies)@->Array_0 =~= self@->Array_0);
                Json::Array(copies)
            },
            Json::Object(members) => {
                let mut copies: Vec<(String, Json)> = Vec::new();
                let mut i: usize = 0;
                while i < members.len()
                    invariant
                        i <= members.len(),
                        copies.len() == i,
                        forall|k: int|
                            0 <= k < i ==> copies@[k].0@ == members@[k].0@ && copies@[k].1@
                                == members@[k].1@,
                        *self == Json::Object(*members),
                    decreases members.len() - i,
                {
                    assert(decreases_to!(self => self->Object_0@[i as int].1));
                    copies.push((members[i].0.clone(), members[i].1.clone()));
                    i += 1;
                }
                assert(Json::Object(copies)@->Object_0 =~= self@->Object_0);
                Json::Object(copies)
            },
        }
    }
}

/// The mathematical form of a `Property`.
pub enum Step {
    Dot(Seq<char>),
    Bracket(Seq<char>),
    Index(int),
    Keys,
    Values,
    Length,
    MapEach(Seq<Step>),
}

/// One step of a query.
#[derive(Debug, PartialEq)]
pub enum Property {
    /// equivalent to `jsonObject.prop`
    Dot(String),
    /// equivalent to `jsonObject["prop"]`
    Bracket(String),
    /// equivalent to `jsonArray[0]`
    Index(i32),
    /// the keys of an object
    Keys,
    /// the values of an object
    Values,
    /// the length of an array or a string
    Length,
    /// a query applied to every element of an array
    MapEach(JsonQuery),
}

/// The step that `property` stands for.
pub open spec fn step_of(property: Property) -> Step
    decreases property,
{
    match property {
        Property::Dot(name) => Step::Dot(name@),
        Property::Bracket(name) => Step::Bracket(name@),
        Property::Index(i) => Step::Index(i as int),
        Property::Keys => Step::Keys,
        Property::Values => Step::Values,
        Property::Length => Step::Length,
        Property::MapEach(query) => Step::MapEach(
            Seq::new(
                query.0@.len(),
                |i: int|
                    if 0 <= i < query.0@.len() {
                        step_of(query.0@[i])
                    } else {
                        Step::Keys
                    },
            ),
        ),
    }
}

impl View for Property {
    type V = Step;

    open spec fn view(&self) -> Step {
        step_of(*self)
    }
}

impl Clone for Property {
    /// A copy that stands for the same step.
    fn clone(&self) -> (copy: Self)
        ensures
            copy@ == self@,
        decreases self,
    {
        match self {
            Property::Dot(name) => Property::Dot(name.clone()),
            Property::Bracket(name) => Property::Bracket(name.clone()),
            Property::Index(i) => Property::Index(*i),
            Property::Keys => Property::Keys,
            Property::Values => Property::Values,
            Property::Length => Property::Length,
            Property::MapEach(query) => {
                let mut copies: Vec<Property> = Vec::new();
                let mut i: usize = 0;
                while i < query.0.len()
                    invariant
                        i <= query.0.len(),
                        copies.len() == i,
                        forall|k: int| 0 <= k < i ==> copies@[k]@ == query.0@[k]@,
                        *self == Property::MapEach(*query),
                    decreases query.0.len() - i,
                {
                    assert(decreases_to!(self => self->MapEach_0.0@[i as int]));
                    copies.push(query.0[i].clone());
                    i += 1;
                }
                assert(Property::MapEach(JsonQuery(copies))@->MapEach_0 =~= self@->MapEach_0);
                Property::MapEach(JsonQuery(copies))
            },
        }
    }
}

/// The steps that the properties `properties` stand for, in order.
pub open spec fn steps_of(properties: Seq<Property>) -> Seq<Step> {
    Seq::new(properties.len(), |i: int| properties[i]@)
}

/// A step that maps a query stands for the mapping of that query's steps.
pub proof fn lemma_map_view(property: Property)
    requires
        property is MapEach,
    ensures
        property@ == Step::MapEach(property->MapEach_0@),
{
    assert(property@->MapEach_0 =~= property->MapEach_0@);
}

/// Whether what an evaluation returned is what the query yields: the same
/// tree, or the same message.
pub open spec fn yields(returned: Result<Json, String>, expected: Result<Value, Seq<char>>) -> bool {
    match returned {
        Ok(json) => expected == Ok::<Value, Seq<char>>(json@),
        Err(message) => expected == Err::<Value, Seq<char>>(message@),
    }
}

impl Property {
    /// The property as a query writes it; a mapping without its query.
    pub fn name(&self) -> (text: String)
        ensures
            text@ == step_name(self@),
    {
        match self {
            Property::Dot(name) => {
                let mut text = ".".to_owned();
                text.append(name.as_str());
                text
            },
            Property::Bracket(name) => {
                let mut text = "[\"".to_owned();
                text.append(name.as_str());
                text.append("\"]");
                text
            },
            Property::Index(i) => {
                let mut text = "[".to_owned();
                push_signed_decimal(&mut text, *i as i128);
                text.append("]");
                text
            },
            Property::Keys => ".keys()".to_owned(),
            Property::Values => ".values()".to_owned(),
            Property::Length => ".length()".to_owned(),
            Property::MapEach(_) => ".map()".to_owned(),
        }
    }

    /// What the property asks of the value it is applied to.
    #[inline(always)]
    fn invalid(&self) -> (text: String)
        ensures
            text@ == requirement(self@),
    {
        match self {
            Property::Dot(_) | Property::Bracket(_) => {
                "Dot/Bracket properties are only valid on 'Object'".to_owned()
            },
            Property::Index(_) => "Indexing is only valid on 'Array'".to_owned(),
            Property::Keys | Property::Values => {
                let mut text = "'".to_owned();
                text.append(self.name().as_str());
                text.append("' can only be applied on 'Object'");
                text
            },
            Property::Length => {
                let mut text = "'".to_owned();
                text.append(self.name().as_str());
                text.append("' can only be applied on 'Array' or 'String'");
                text
            },
            Property::MapEach(_) => {
                let mut text = "'".to_owned();
                text.append(self.name().as_str());
                text.append("' can only be applied on 'Array'");
                text
            },
        }
    }
}

impl Json {
    /// The canonical text of the document: compact, on one line.
    pub fn render(&self) -> (text: String)
        ensures
            text@ == render(self@),
    {
        let mut text = String::new();
        self.render_into(&mut text);
        assert(text@ =~= render(self@));
        text
    }

    /// Appends the canonical text of the document to `out`.
    pub fn render_into(&self, out: &mut String)
        ensures
            final(out)@ == old(out)@ + render(self@),
        decreases self,
    {
        match self {
            Json::Null => {
                proof {
                    reveal_strlit("null");
                    assert("null"@ =~= seq!['n', 'u', 'l', 'l']);
                }
                out.append("null");
            },
            Json::Boolean(b) => {
                proof {
                    reveal_strlit("true");
                    reveal_strlit("false");
                    assert("true"@ =~= seq!['t', 'r', 'u', 'e']);
                    assert("false"@ =~= seq!['f', 'a', 'l', 's', 'e']);
                }
                if *b {
                    out.append("true");
                } else {
                    out.append("false");
                }
            },
            Json::Number(number) => {
                number.render_into(out);
            },
            Json::QString(string) => {
                out.push('"');
                out.append(string.as_str());
                out.push('"');
                assert(out@ =~= old(out)@ + quoted(string@));
            },
            Json::Array(items) => {
                proof {
                    lemma_array_view(*self);
                }
                out.push('[');
                let ghost trees = values_of(items@);
                let mut i: usize = 0;
                assert(trees.take(0) =~= Seq::<Value>::empty());
                assert(out@ =~= old(out)@ + (seq!['['] + render_items(trees.take(0))));
                while i < items.len()
                    invariant
                        i <= items.len(),
                        *self == Json::Array(*items),
                        trees == values_of(items@),
                        out@ == old(out)@ + (seq!['['] + render_items(trees.take(i as int))),
                    decreases items.len() - i,
                {
                    if i > 0 {
                        out.push(',');
                        out.push(' ');
                    }
                    assert(decreases_to!(self => self->Array_0@[i as int]));
                    items[i].render_into(out);
                    proof {
                        assert(trees.take(i + 1).drop_last() =~= trees.take(i as int));
                        assert(trees.take(i + 1).last() == items@[i as int]@);
                        assert(out@ =~= old(out)@ + (seq!['['] + render_items(trees.take(i + 1))));
                    }
                    i += 1;
                }
                assert(trees.take(items.len() as int) =~= trees);
                out.push(']');
                assert(out@ =~= old(out)@ + render(self@));
            },
            Json::Object(members) => {
                proof {
                    lemma_object_view(*self);
                }
                out.push('{');
                let ghost trees = members_of(members@);
                let mut i: usize = 0;
                assert(trees.take(0) =~= Seq::<(Seq<char>, Value)>::empty());
                assert(out@ =~= old(out)@ + (seq!['{'] + render_members(trees.take(0))));
                while i < members.len()
                    invariant
                        i <= members.len(),
                        *self == Json::Object(*members),
                        trees == members_of(members@),
                        out@ == old(out)@ + (seq!['{'] + render_members(trees.take(i as int))),
                    decreases members.len() - i,
                {
                    if i > 0 {
                        out.push(',');
                        out.push(' ');
                    }
                    let ghost before = out@;
                    out.push('"');
                    out.append(members[i].0.as_str());
                    out.push('"');
                    out.push(':');
                    out.push(' ');
                    assert(decreases_to!(self => self->Object_0@[i as int].1));
                    members[i].1.render_into(out);
                    proof {
                        assert(trees.take(i + 1).drop_last() =~= trees.take(i as int));
                        assert(trees.take(i + 1).last() == (members@[i as int].0@, members@[i as int].1@));
                        assert(out@ =~= before + render_member(trees.take(i + 1).last()));
                        assert(out@ =~= old(out)@ + (seq!['{'] + render_members(trees.take(i + 1))));
                    }
                    i += 1;
                }
                assert(trees.take(members.len() as int) =~= trees);
                out.push('}');
                assert(out@ =~= old(out)@ + render(self@));
            },
        }
    }

    /// The name of the variant.
    #[inline(always)]
    fn variant(&self) -> (name: &'static str)
        ensures
            name@ == self@.variant(),
    {
        match self {
            Self::Null => "Null",
            Self::Boolean(_) => "Boolean",
            Self::Number(_) => "Number",
            Self::QString(_) => "String",
            Self::Array(_) => "Array",
            Self::Object(_) => "Object",
        }
    }

    /// The message for `property` applied to this value, which has not the
    /// shape that the property asks for.
    fn mismatch(&self, property: &Property) -> (message: String)
        ensures
            message@ == mismatch(property@, self@),
    {
        let mut message = " ".to_owned();
        message.append(property.invalid().as_str());
        message.append(", found '");
        message.append(self.variant());
        message.append("' instead.");
        message
    }

    /// The value that `property` leads to from this one, which stays as it
    /// is.
    fn step(&self, property: &Property) -> (returned: Result<Json, String>)
        ensures
            yields(returned, apply_step(self@, property@)),
        decreases property, 0nat,
    {
        match property {
            Property::Dot(name) | Property::Bracket(name) => match self {
                Self::Object(members) => {
                    proof {
                        lemma_object_view(*self);
                    }
                    let mut i: usize = 0;
                    while i < members.len()
                        invariant
                            i <= members.len(),
                            self@ == Value::Object(members_of(members@)),
                            property@ == Step::Dot(name@) || property@ == Step::Bracket(name@),
                            lookup(members_of(members@), name@, 0) == lookup(
                                members_of(members@),
                                name@,
                                i as int,
                            ),
                        decreases members.len() - i,
                    {
                        if members[i].0 == *name {
                            return Ok(members[i].1.clone());
                        }
                        i += 1;
                    }
                    let mut message = " key doesn't exist: '".to_owned();
                    message.append(name.as_str());
                    message.append("'");
                    Err(message)
                },
                _ => Err(self.mismatch(property)),
            },
            Property::Index(i) => match self {
                Self::Array(array) => {
                    proof {
                        lemma_array_view(*self);
                    }
                    if 0 <= *i && (*i as usize) < array.len() {
                        Ok(array[*i as usize].clone())
                    } else {
                        let mut message = " Invalid index ".to_owned();
                        push_signed_decimal(&mut message, *i as i128);
                        message.append(" (for array of len ");
                        push_decimal(&mut message, array.len() as u128);
                        message.append(")");
                        Err(message)
                    }
                },
                _ => Err(self.mismatch(property)),
            },
            Property::Keys => match self {
                Self::Object(members) => {
                    proof {
                        lemma_object_view(*self);
                    }
                    let mut keys: Vec<Json> = Vec::new();
                    let mut i: usize = 0;
                    while i < members.len()
                        invariant
                            i <= members.len(),
                            keys.len() == i,
                            forall|k: int|
                                0 <= k < i ==> (#[trigger] keys@[k])@ == Value::Text(members@[k].0@),
                        decreases members.len() - i,
                    {
                        keys.push(Json::QString(members[i].0.clone()));
                        i += 1;
                    }
                    let whole = Json::Array(keys);
                    proof {
                        lemma_array_view(whole);
                        assert(values_of(keys@) =~= keys_of(members_of(members@)));
                    }
                    Ok(whole)
                },
                _ => Err(self.mismatch(property)),
            },
            Property::Values => match self {
                Self::Object(members) => {
                    proof {
                        lemma_object_view(*self);
                    }
                    let mut values: Vec<Json> = Vec::new();
                    let mut i: usize = 0;
                    while i < members.len()
                        invariant
                            i <= members.len(),
                            values.len() == i,
                            forall|k: int| 0 <= k < i ==> (#[trigger] values@[k])@ == members@[k].1@,
                        decreases members.len() - i,
                    {
                        values.push(members[i].1.clone());
                        i += 1;
                    }
                    let whole = Json::Array(values);
                    proof {
                        lemma_array_view(whole);
                        assert(values_of(values@) =~= values_in(members_of(members@)));
                    }
                    Ok(whole)
                },
                _ => Err(self.mismatch(property)),
            },
            Property::Length => match self {
                Self::Array(array) => {
                    proof {
                        lemma_array_view(*self);
                    }
                    Ok(Self::Number(Number::whole(array.len() as i128)))
                },
                Self::QString(string) => Ok(
                    Self::Number(Number::whole(string.as_str().unicode_len() as i128)),
                ),
                _ => Err(self.mismatch(property)),
            },
            Property::MapEach(query) => match self {
                Self::Array(array) => {
                    proof {
                        lemma_array_view(*self);
                        lemma_map_view(*property);
                    }
                    let mut results: Vec<Json> = Vec::new();
                    let mut i: usize = 0;
                    assert(array@.take(0) =~= Seq::<Json>::empty());
                    assert(values_of(results@) =~= Seq::<Value>::empty());
                    while i < array.len()
                        invariant
                            i <= array.len(),
                            *property == Property::MapEach(*query),
                            property@ == Step::MapEach(query@),
                            self@ == Value::Array(values_of(array@)),
                            apply_each(values_of(array@.take(i as int)), query@) == Ok::<
                                Seq<Value>,
                                Seq<char>,
                            >(values_of(results@)),
                        decreases array.len() - i,
                    {
                        proof {
                            assert(values_of(array@.take(i + 1)).drop_last() =~= values_of(
                                array@.take(i as int),
                            ));
                            assert(values_of(array@.take(i + 1)).last() == array@[i as int]@);
                        }
                        match array[i].apply(query) {
                            Ok(result) => {
                                proof {
                                    assert(values_of(results@.push(result)) =~= values_of(
                                        results@,
                                    ).push(result@));
                                }
                                results.push(result);
                            },
                            Err(message) => {
                                proof {
                                    lemma_apply_each_fails(
                                        values_of(array@),
                                        query@,
                                        i + 1,
                                    );
                                    assert(values_of(array@).take(i + 1) =~= values_of(
                                        array@.take(i + 1),
                                    ));
                                }
                                return Err(message);
                            },
                        }
                        i += 1;
                    }
                    assert(array@.take(array.len() as int) =~= array@);
                    let whole = Json::Array(results);
                    proof {
                        lemma_array_view(whole);
                    }
                    Ok(whole)
                },
                _ => Err(self.mismatch(property)),
            },
        }
    }

    /// Replaces this value by the one that `property` leads to. Where the
    /// property leads nowhere the value stays as it is.
    #[inline]
    pub fn update(&mut self, property: &Property) -> (returned: Result<&Self, String>)
        ensures
            match returned {
                Ok(json) => apply_step(old(self)@, property@) == Ok::<Value, Seq<char>>(
                    final(self)@,
                ) && *json == *final(self),
                Err(message) => apply_step(old(self)@, property@) == Err::<Value, Seq<char>>(
                    message@,
                ) && *final(self) == *old(self),
            },
        decreases property, 1nat,
    {
        match self.step(property) {
            Ok(next) => {
                *self = next;
                Ok(self)
            },
            Err(message) => Err(message),
        }
    }

    /// This is used for extracting a `Json` value that matches the given
    /// [`JsonQuery`](JsonQuery), from the current object.
    pub fn apply(&self, query: &JsonQuery) -> (returned: Result<Self, String>)
        ensures
            yields(returned, apply_query(self@, query@)),
        decreases query, 0nat,
    {
        let mut json = self.clone();
        let mut i: usize = 0;
        assert(query@.skip(0) =~= query@);
        while i < query.0.len()
            invariant
                i <= query.0.len(),
                apply_query(self@, query@) == apply_query(json@, query@.skip(i as int)),
            decreases query.0.len() - i,
        {
            proof {
                assert(query@.skip(i as int)[0] == query.0@[i as int]@);
                assert(query@.skip(i as int).skip(1) =~= query@.skip(i + 1));
            }
            match json.update(&query.0[i]) {
                Ok(_) => {},
                Err(message) => {
                    return Err(message);
                },
            }
            i += 1;
        }
        Ok(json)
    }
}

/// Where a query fails on the last of the first `upto` items and on none
/// before it, it fails with the same message on all the items.
pub proof fn lemma_apply_each_fails(items: Seq<Value>, query: Seq<Step>, upto: int)
    requires
        0 < upto <= items.len(),
        apply_each(items.take(upto), query) is Err,
    ensures
        apply_each(items, query) == apply_each(items.take(upto), query),
    decreases items.len() - upto,
{
    if upto < items.len() {
        assert(items.take(upto + 1).drop_last() =~= items.take(upto));
        lemma_apply_each_fails(items, query, upto + 1);
    } else {
        assert(items.take(upto) =~= items);
    }
}

} // verus!
