//! The utility plugin's nodes: an `If` router, a `Format`-to-string node,
//! and a `Select` chooser, with the decisions each run makes. The router's
//! and the formatter's value ports declare the union of the base scalar
//! types; Select chooses between `String`s alone.

use vstd::prelude::*;
use vstd::string::{StrSliceExecFns, StringExecFns};
use crate::compile::CompiledNode;
use crate::declare::{node_is, typed_port, ChoiceSpec, PortSpec};
use crate::fizzbuzz::{carried_check, uncarried_errors};
use crate::literal::Scalar;
use crate::model::{NodeType, Port};
use crate::parameters::{signed_decimal, signed_text};
use crate::text::{decimal, decimal_text, same_text, views};

verus! {

pub const SELECT_ICON: &'static str = "<svg xmlns=\"http://www.w3.org/2000/svg\" width=\"16\" height=\"16\"><path d=\"M2 3h4l5 5h3m0 0-2-2m2 2-2 2M2 13h4l3-3\" stroke=\"#333\" stroke-width=\"1.5\" fill=\"none\"/></svg>";
pub const IF_ICON: &'static str = "<svg xmlns=\"http://www.w3.org/2000/svg\" width=\"16\" height=\"16\"><path d=\"M2 8h4m0 0c3 0 3-5 8-5M6 8c3 0 3 5 8 5\" stroke=\"#333\" stroke-width=\"1.5\" fill=\"none\"/></svg>";
pub const FORMAT_ICON: &'static str = "<svg xmlns=\"http://www.w3.org/2000/svg\" width=\"16\" height=\"16\"><text x=\"2\" y=\"12\" font-size=\"10\" fill=\"#333\">f{}</text></svg>";

/// The union of the base scalar types, in declaration order.
pub open spec fn scalar_union() -> Seq<Seq<char>> {
    seq!["i8"@, "i16"@, "i32"@, "i64"@, "u8"@, "u16"@, "u32"@, "u64"@, "f32"@, "f64"@, "bool"@, "String"@]
}

/// A port carrying the union of the base scalar types.
pub open spec fn any_scalar(name: Seq<char>) -> PortSpec {
    (name, scalar_union(), None)
}

/// A port of one type as its declaration states it.
pub open spec fn one(name: Seq<char>, type_ref: Seq<char>) -> PortSpec {
    (name, seq![type_ref], None)
}

fn scalar_port(name: &str) -> (port: Port)
    ensures
        crate::declare::port_is(port, name@, scalar_union(), None),
{
    let members = vec!["i8", "i16", "i32", "i64", "u8", "u16", "u32", "u64", "f32", "f64", "bool", "String"];
    let type_refs = crate::declare::owned_texts(&members);
    assert(members@.map_values(|m: &str| m@) =~= scalar_union());
    Port { name: name.to_owned(), type_refs, family: None }
}

/// The node types the utility plugin declares, in declaration order.
pub fn node_types() -> (declared: Vec<NodeType>)
    ensures
        declared@.len() == 3,
        node_is(declared@[0], "utility/select"@, "Select"@, SELECT_ICON@, "utility"@,
            seq![one("choose"@, "bool"@), one("then"@, "String"@), one("else"@, "String"@)],
            seq![one("value"@, "String"@)], Seq::<ChoiceSpec>::empty(), true),
        node_is(declared@[1], "utility/if"@, "If"@, IF_ICON@, "utility"@,
            seq![one("condition"@, "bool"@), any_scalar("value"@)],
            seq![any_scalar("then"@), any_scalar("else"@)], Seq::<ChoiceSpec>::empty(), false),
        node_is(declared@[2], "utility/format"@, "Format"@, FORMAT_ICON@, "utility"@,
            seq![any_scalar("value"@), one("template"@, "String"@)],
            seq![one("text"@, "String"@)], Seq::<ChoiceSpec>::empty(), false),
{
    let select = NodeType {
        type_ref: "utility/select".to_owned(),
        label: "Select".to_owned(),
        icon: SELECT_ICON.to_owned(),
        plugin: "utility".to_owned(),
        sub_group: None,
        ui: None,
        inputs: vec![typed_port("choose", "bool"), typed_port("then", "String"), typed_port("else", "String")],
        outputs: vec![typed_port("value", "String")],
        choices: Vec::new(),
        behaviour: true,
        check_parameters: true,
    };
    let router = NodeType {
        type_ref: "utility/if".to_owned(),
        label: "If".to_owned(),
        icon: IF_ICON.to_owned(),
        plugin: "utility".to_owned(),
        sub_group: None,
        ui: None,
        inputs: vec![typed_port("condition", "bool"), scalar_port("value")],
        outputs: vec![scalar_port("then"), scalar_port("else")],
        choices: Vec::new(),
        behaviour: true,
        check_parameters: false,
    };
    let format = NodeType {
        type_ref: "utility/format".to_owned(),
        label: "Format".to_owned(),
        icon: FORMAT_ICON.to_owned(),
        plugin: "utility".to_owned(),
        sub_group: None,
        ui: None,
        inputs: vec![scalar_port("value"), typed_port("template", "String")],
        outputs: vec![typed_port("text", "String")],
        choices: Vec::new(),
        behaviour: true,
        check_parameters: false,
    };
    vec![select, router, format]
}

/// The check the utility node type of `compiled` declares for its
/// instances: Select's three inputs each carried; the other types declare
/// none.
pub fn check(compiled: &CompiledNode) -> (errors: Vec<String>)
    ensures
        compiled.type_ref@ == "utility/select"@ ==> views(errors@) == uncarried_errors(*compiled, seq!["choose", "then", "else"]),
        compiled.type_ref@ != "utility/select"@ ==> errors@.len() == 0,
{
    if same_text(compiled.type_ref.as_str(), "utility/select") {
        let names = vec!["choose", "then", "else"];
        let errors = carried_check(compiled, &names);
        proof {
            assert(names@ =~= seq!["choose", "then", "else"]);
            assert(views(errors@) =~= uncarried_errors(*compiled, names@));
        }
        errors
    } else {
        Vec::new()
    }
}

/// The output an `If` routes a value to: the port named "then" when the
/// condition holds, the one named "else" when it does not. The branch not selected receives nothing.
pub fn route(condition: bool) -> (output: &'static str)
    ensures
        output@ == if condition { "then"@ } else { "else"@ },
{
    if condition { "then" } else { "else" }
}

/// The plain string form of a base scalar, where the library renders it:
/// an integer in decimal, a flag as `true` or `false`, a string as itself.
/// A float's form is its standard display, which the caller renders; a
/// float has none here.
pub open spec fn scalar_form(value: Scalar) -> Option<Seq<char>> {
    match value {
        Scalar::I8(v) => Some(signed_decimal(v as int)),
        Scalar::I16(v) => Some(signed_decimal(v as int)),
        Scalar::I32(v) => Some(signed_decimal(v as int)),
        Scalar::I64(v) => Some(signed_decimal(v as int)),
        Scalar::U8(v) => Some(decimal(v as nat)),
        Scalar::U16(v) => Some(decimal(v as nat)),
        Scalar::U32(v) => Some(decimal(v as nat)),
        Scalar::U64(v) => Some(decimal(v as nat)),
        Scalar::Bool(b) => Some(if b { "true"@ } else { "false"@ }),
        Scalar::Str(s) => Some(s@),
        Scalar::F32(_) => None,
        Scalar::F64(_) => None,
    }
}

pub fn string_form(value: &Scalar) -> (form: Option<String>)
    ensures
        match form {
            Some(text) => scalar_form(*value) == Some(text@),
            None => scalar_form(*value) is None,
        },
{
    match value {
        Scalar::I8(v) => Some(signed_text(*v as i64)),
        Scalar::I16(v) => Some(signed_text(*v as i64)),
        Scalar::I32(v) => Some(signed_text(*v as i64)),
        Scalar::I64(v) => Some(signed_text(*v)),
        Scalar::U8(v) => Some(decimal_text(*v as u128)),
        Scalar::U16(v) => Some(decimal_text(*v as u128)),
        Scalar::U32(v) => Some(decimal_text(*v as u128)),
        Scalar::U64(v) => Some(decimal_text(*v as u128)),
        Scalar::Bool(b) => Some(if *b { "true".to_owned() } else { "false".to_owned() }),
        Scalar::Str(s) => Some(s.clone()),
        Scalar::F32(_) => None,
        Scalar::F64(_) => None,
    }
}

/// Whether a `{}` placeholder starts at `i` in `text`.
pub open spec fn placeholder_at(text: Seq<char>, i: int) -> bool {
    0 <= i && i + 1 < text.len() && text[i] == '{' && text[i + 1] == '}'
}

/// Whether `text` holds a placeholder.
pub open spec fn has_placeholder(text: Seq<char>) -> bool {
    exists|i: int| #[trigger] placeholder_at(text, i)
}

/// The start of the first placeholder of `text`.
pub open spec fn first_placeholder(text: Seq<char>) -> int {
    choose|i: int| placeholder_at(text, i) && forall|j: int| 0 <= j < i ==> !#[trigger] placeholder_at(text, j)
}

/// What `Format` emits for a value's string form `form` under the held
/// template: the form substituted at the template's first `{}`; a
/// template without one, verbatim; no template, or an empty one, the form
/// itself.
pub open spec fn formatted(template: Option<Seq<char>>, form: Seq<char>) -> Seq<char> {
    match template {
        Some(t) => if t.len() == 0 {
            form
        } else if has_placeholder(t) {
            let i = first_placeholder(t);
            t.subrange(0, i) + form + t.subrange(i + 2, t.len() as int)
        } else {
            t
        },
        None => form,
    }
}

/// The text an optional text holds.
pub open spec fn text_option(text: Option<&str>) -> Option<Seq<char>> {
    match text {
        Some(t) => Some(t@),
        None => None,
    }
}

/// The text `Format` emits for a value whose string form is `form`, under
/// the template the node holds, if any.
pub fn format_text(template: Option<&str>, form: &str) -> (text: String)
    ensures
        text@ == formatted(text_option(template), form@),
{
    match template {
        None => form.to_owned(),
        Some(t) => {
            let n = t.unicode_len();
            if n == 0 {
                return form.to_owned();
            }
            let mut i: usize = 0;
            while i + 1 < n
                invariant
                    n == t@.len(),
                    text_option(template) == Some(t@),
                    i + 1 <= n || i == 0,
                    forall|j: int| 0 <= j < i ==> !#[trigger] placeholder_at(t@, j),
                decreases n - i,
            {
                if t.get_char(i) == '{' && t.get_char(i + 1) == '}' {
                    proof {
                        assert(placeholder_at(t@, i as int));
                        let f = first_placeholder(t@);
                        assert(placeholder_at(t@, f) && forall|j: int| 0 <= j < f ==> !#[trigger] placeholder_at(t@, j));
                        if f < i {
                            assert(!placeholder_at(t@, f));
                        }
                        if f > i {
                            assert(!placeholder_at(t@, i as int));
                        }
                    }
                    let mut text = t.substring_char(0, i).to_owned();
                    text.append(form);
                    text.append(t.substring_char(i + 2, n));
                    proof {
                        assert(has_placeholder(t@));
                        assert(first_placeholder(t@) == i as int);
                        assert(text@ =~= t@.subrange(0, i as int) + form@ + t@.subrange(i + 2, t@.len() as int));
                    }
                    return text;
                }
                i = i + 1;
            }
            proof {
                assert forall|j: int| !#[trigger] placeholder_at(t@, j) by {
                    if 0 <= j < i {
                    } else if placeholder_at(t@, j) {
                        assert(j + 1 < n);
                    }
                }
            }
            t.to_owned()
        },
    }
}

/// How Select reads one of its inputs: a connection's arrivals are
/// buffered and a pairing consumes the front of each; a parameter's
/// literal is held, read where it lies, and never consumed. A run fires
/// only once every input has delivered, so a held input always offers its
/// literal.
pub enum Carriage<T> {
    Buffered(Vec<T>),
    Held(T),
}

impl<T> View for Carriage<T> {
    /// Whether the input is held, and the values the next pairings would
    /// take from it, in order: a held input offers its literal.
    type V = (bool, Seq<T>);

    open spec fn view(&self) -> (bool, Seq<T>) {
        match self {
            Carriage::Buffered(queue) => (false, queue@),
            Carriage::Held(value) => (true, seq![*value]),
        }
    }
}

/// A carriage's view after an arrival of `value`: a buffer queues it; a
/// held input's one arrival is the literal it already holds.
pub open spec fn received<T>(carriage: (bool, Seq<T>), value: T) -> (bool, Seq<T>) {
    if carriage.0 { carriage } else { (false, carriage.1.push(value)) }
}

/// A carriage's view after a pairing: a buffer pops its front, a held
/// value stays.
pub open spec fn consumed<T>(carriage: (bool, Seq<T>)) -> (bool, Seq<T>) {
    if carriage.0 { carriage } else { (false, carriage.1.drop_first()) }
}

/// Whether a carriage offers a value to pair.
pub open spec fn ready<T>(carriage: (bool, Seq<T>)) -> bool {
    carriage.1.len() > 0
}

impl<T> Carriage<T> {
    fn receive(&mut self, value: T)
        ensures
            final(self)@ == received(old(self)@, value),
    {
        match self {
            Carriage::Buffered(queue) => queue.push(value),
            Carriage::Held(_) => {},
        }
    }

    fn peek(&self) -> (next: Option<&T>)
        ensures
            match next {
                Some(v) => ready(self@) && *v == self@.1[0],
                None => !ready(self@),
            },
    {
        match self {
            Carriage::Buffered(queue) => if queue.len() > 0 { Some(&queue[0]) } else { None },
            Carriage::Held(value) => Some(value),
        }
    }

    fn consume(&mut self)
        requires
            ready(old(self)@),
        ensures
            final(self)@ == consumed(old(self)@),
    {
        match self {
            Carriage::Buffered(queue) => {
                queue.remove(0);
            },
            Carriage::Held(_) => {},
        }
    }
}

/// The value of a compiled node's first parameter named `name`.
pub open spec fn parameter_value(compiled: CompiledNode, name: Seq<char>) -> Option<Scalar> {
    parameter_in(compiled.parameters@, name)
}

pub open spec fn parameter_in(parameters: Seq<(String, crate::parameters::CompiledParameter)>, name: Seq<char>) -> Option<Scalar>
    decreases parameters.len(),
{
    if parameters.len() == 0 {
        None
    } else if parameters[0].0@ == name {
        Some(parameters[0].1.value)
    } else {
        parameter_in(parameters.drop_first(), name)
    }
}

pub fn find_parameter<'c>(compiled: &'c CompiledNode, name: &str) -> (found: Option<&'c Scalar>)
    ensures
        match found {
            Some(v) => parameter_value(*compiled, name@) == Some(*v),
            None => parameter_value(*compiled, name@) is None,
        },
{
    let mut i: usize = 0;
    assert(compiled.parameters@.subrange(0, compiled.parameters@.len() as int) =~= compiled.parameters@);
    while i < compiled.parameters.len()
        invariant
            i <= compiled.parameters.len(),
            parameter_value(*compiled, name@) == parameter_in(compiled.parameters@.subrange(i as int, compiled.parameters@.len() as int), name@),
        decreases compiled.parameters.len() - i,
    {
        let ghost rest = compiled.parameters@.subrange(i as int, compiled.parameters@.len() as int);
        assert(rest.drop_first() =~= compiled.parameters@.subrange(i + 1, compiled.parameters@.len() as int));
        if same_text(compiled.parameters[i].0.as_str(), name) {
            return Some(&compiled.parameters[i].1.value);
        }
        i = i + 1;
    }
    None
}

/// The carriage of a flag input: held where its parameter holds a flag.
pub open spec fn flag_carriage(literal: Option<Scalar>) -> (bool, Seq<bool>) {
    match literal {
        Some(Scalar::Bool(b)) => (true, seq![b]),
        _ => (false, Seq::empty()),
    }
}

/// The carriage of a text input: held where its parameter holds a text.
pub open spec fn text_carriage(literal: Option<Scalar>) -> (bool, Seq<String>) {
    match literal {
        Some(Scalar::Str(s)) => (true, seq![s]),
        _ => (false, Seq::empty()),
    }
}

fn flag_input(compiled: &CompiledNode, name: &str) -> (carriage: Carriage<bool>)
    ensures
        carriage@ == flag_carriage(parameter_value(*compiled, name@)),
{
    match find_parameter(compiled, name) {
        Some(Scalar::Bool(b)) => Carriage::Held(*b),
        _ => Carriage::Buffered(Vec::new()),
    }
}

fn text_input(compiled: &CompiledNode, name: &str) -> (carriage: Carriage<String>)
    ensures
        carriage@ == text_carriage(parameter_value(*compiled, name@)),
{
    match find_parameter(compiled, name) {
        Some(Scalar::Str(s)) => {
            let held = s.clone();
            Carriage::Held(held)
        },
        _ => Carriage::Buffered(Vec::new()),
    }
}

/// One arrival at a Select: a flag, or a value of either candidate.
pub enum SelectArrival {
    Choose(bool),
    OnTrue(String),
    OnFalse(String),
}

/// The aligned chooser: per triple of a `choose` flag and one value from
/// each candidate, the matching candidate's value. A candidate a literal
/// carries sits under every choice.
pub struct Select {
    pub choose: Carriage<bool>,
    pub on_true: Carriage<String>,
    pub on_false: Carriage<String>,
}

/// The value a pairing of the three next values emits: the first
/// candidate's when the flag holds, the second's when it does not.
pub open spec fn chosen(choose: (bool, Seq<bool>), on_true: (bool, Seq<String>), on_false: (bool, Seq<String>)) -> Seq<char> {
    if choose.1[0] { on_true.1[0]@ } else { on_false.1[0]@ }
}

impl Select {
    /// A Select for a compiled instance: each input held where the instance
    /// holds a literal of its type under its name, buffered otherwise.
    pub fn new(compiled: &CompiledNode) -> (select: Select)
        ensures
            select.choose@ == flag_carriage(parameter_value(*compiled, "choose"@)),
            select.on_true@ == text_carriage(parameter_value(*compiled, "then"@)),
            select.on_false@ == text_carriage(parameter_value(*compiled, "else"@)),
    {
        Select {
            choose: flag_input(compiled, "choose"),
            on_true: text_input(compiled, "then"),
            on_false: text_input(compiled, "else"),
        }
    }

    /// One run: take in the arrival; if all three inputs now offer a
    /// value, pair them — at most one pairing per arrival — and emit the
    /// chosen candidate's value, consuming each buffered front.
    pub fn arrive(&mut self, arrival: SelectArrival) -> (emitted: Option<String>)
        ensures
            ({
                let choose = match arrival { SelectArrival::Choose(c) => received(old(self).choose@, c), _ => old(self).choose@ };
                let on_true = match arrival { SelectArrival::OnTrue(v) => received(old(self).on_true@, v), _ => old(self).on_true@ };
                let on_false = match arrival { SelectArrival::OnFalse(v) => received(old(self).on_false@, v), _ => old(self).on_false@ };
                if ready(choose) && ready(on_true) && ready(on_false) {
                    &&& emitted matches Some(text) && text@ == chosen(choose, on_true, on_false)
                    &&& final(self).choose@ == consumed(choose)
                    &&& final(self).on_true@ == consumed(on_true)
                    &&& final(self).on_false@ == consumed(on_false)
                } else {
                    &&& emitted is None
                    &&& final(self).choose@ == choose
                    &&& final(self).on_true@ == on_true
                    &&& final(self).on_false@ == on_false
                }
            }),
    {
        match arrival {
            SelectArrival::Choose(c) => self.choose.receive(c),
            SelectArrival::OnTrue(v) => self.on_true.receive(v),
            SelectArrival::OnFalse(v) => self.on_false.receive(v),
        }
        let choice = match self.choose.peek() {
            Some(c) => *c,
            None => return None,
        };
        let value = match (self.on_true.peek(), self.on_false.peek()) {
            (Some(when_true), Some(when_false)) => if choice { when_true.clone() } else { when_false.clone() },
            _ => return None,
        };
        self.choose.consume();
        self.on_true.consume();
        self.on_false.consume();
        Some(value)
    }
}

} // verus!
