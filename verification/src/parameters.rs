//! Parameters: a parameter must name an input port or one of the type's
//! declared choices; an input carries a parameter or a connection, never
//! both; a literal resolves against its input's declared union; and a
//! declared choice holds one of its options on every instance.

use vstd::prelude::*;
use vstd::string::StringExecFns;
use crate::edges::{fed_has, typed, Feed};
use crate::graph::{has_parameter, contains_parameter, node_name, NodeInstance, ParameterValue};
use crate::instances::{carried, instance_of, instance_with, name_in, name_of, problem, type_label, type_of, Problem};
use crate::literal::{literal_resolution, resolve_literal, Scalar};
use crate::model::{choice_named, declared_choice, port, port_named, Choice, Conversion, NodeType};
use crate::registry::Registry;
use crate::resolve::{resolved, Resolved};
use crate::scalars::STRING;
use crate::text::{contains_name, decimal, decimal_text, has_name, join_names, joined, views};

verus! {

/// The text `{:?}` gives a string: quoted, with the characters a Rust
/// string literal would escape escaped.
pub uninterp spec fn quoted_text(text: Seq<char>) -> Seq<char>;

/// A string as `{:?}` shows it.
#[verifier::external_body]
pub(crate) fn quoted(text: &str) -> (shown: String)
    ensures
        shown@ == quoted_text(text@),
{
    format!("{:?}", text)
}

/// The decimal form of a signed integer, a minus sign before a negative.
pub open spec fn signed_decimal(v: int) -> Seq<char> {
    if v < 0 { "-"@ + decimal((-v) as nat) } else { decimal(v as nat) }
}

pub fn signed_text(v: i64) -> (text: String)
    ensures
        text@ == signed_decimal(v as int),
{
    if v < 0 {
        let magnitude: u64 = (-(v as i128)) as u64;
        let mut text = "-".to_owned();
        let digits = decimal_text(magnitude as u128);
        text.append(digits.as_str());
        text
    } else {
        decimal_text(v as u128)
    }
}

/// How a message shows a literal: a boolean or integer as written, a float
/// as its reader showed it, a string quoted.
pub open spec fn literal_text(literal: ParameterValue) -> Seq<char> {
    match literal {
        ParameterValue::Bool(b) => if b { "true"@ } else { "false"@ },
        ParameterValue::Int(v) => signed_decimal(v as int),
        ParameterValue::Float(f) => f.text@,
        ParameterValue::Str(s) => quoted_text(s@),
    }
}

pub fn literal_display(literal: &ParameterValue) -> (text: String)
    ensures
        text@ == literal_text(*literal),
{
    match literal {
        ParameterValue::Bool(b) => if *b { "true".to_owned() } else { "false".to_owned() },
        ParameterValue::Int(v) => signed_text(*v),
        ParameterValue::Float(f) => f.text.clone(),
        ParameterValue::Str(s) => quoted(s.as_str()),
    }
}

impl ParameterValue {
    /// A copy of this value.
    pub fn copy(&self) -> (copy: ParameterValue)
        ensures
            copy == *self,
    {
        match self {
            ParameterValue::Bool(b) => ParameterValue::Bool(*b),
            ParameterValue::Int(v) => ParameterValue::Int(*v),
            ParameterValue::Float(f) => ParameterValue::Float(crate::graph::FloatLiteral {
                bits: f.bits,
                narrowed: f.narrowed,
                text: f.text.clone(),
                number_text: f.number_text.clone(),
            }),
            ParameterValue::Str(s) => ParameterValue::Str(s.clone()),
        }
    }
}

/// A parameter value that compiled: the data type the literal resolved
/// to, the scalar it materialized as, and the declared conversion that
/// bridged it, applied where the value is fed. A declared choice's value
/// rides the same shape: the chosen option as a `String` scalar.
pub struct CompiledParameter {
    pub resolved_type: Resolved,
    pub value: Scalar,
    pub conversion: Option<Conversion>,
}

impl CompiledParameter {
    /// A copy of this parameter.
    pub fn copy(&self) -> (copy: CompiledParameter)
        ensures
            copy == *self,
    {
        CompiledParameter { resolved_type: self.resolved_type.copy(), value: self.value.copy(), conversion: self.conversion }
    }
}

/// A family input's literal, waiting for its family to resolve: the input,
/// the family, and the literal.
pub struct FamilyLiteral {
    pub input: String,
    pub family: String,
    pub literal: ParameterValue,
}

/// Input `input` of the ports belongs to the family `family`.
pub open spec fn family_input(inputs: Seq<crate::model::Port>, input: Seq<char>, family: Seq<char>) -> bool {
    port_named(inputs, input) matches Some(p) && p.family matches Some(f) && f@ == family
}

/// What one parameter of an instance must be for the instance to compile.
pub open spec fn parameter_sound(registry: Registry, t: NodeType, fed: Seq<Feed>, uuid: u128, name: Seq<char>, literal: ParameterValue) -> bool {
    match port_named(t.inputs@, name) {
        Some(input) => {
            &&& !fed_has(fed, uuid, input.name@)
            &&& (input.family is Some || literal_resolution(registry, literal, input.type_refs@) is Some)
        },
        None => match choice_named(t.choices@, name) {
            Some(choice) => literal matches ParameterValue::Str(text) && has_name(choice.options@, text@),
            None => false,
        },
    }
}

/// Every parameter of the instance is sound, and each declared choice
/// holds a value.
pub open spec fn instance_parameters_sound(registry: Registry, t: NodeType, fed: Seq<Feed>, instance: NodeInstance) -> bool {
    &&& forall|k: int| 0 <= k < instance.parameters@.len() ==>
        parameter_sound(registry, t, fed, instance.uuid, (#[trigger] instance.parameters@[k]).0@, instance.parameters@[k].1)
    &&& forall|c: int| 0 <= c < t.choices@.len() ==> has_parameter(instance.parameters@, (#[trigger] t.choices@[c]).name@)
}

/// Every typed instance's parameters are sound.
pub open spec fn parameters_sound(registry: Registry, nodes: Seq<NodeInstance>, fed: Seq<Feed>, table: Seq<u128>) -> bool {
    forall|i: int| 0 <= i < table.len() ==> match typed(registry, nodes, #[trigger] table[i]) {
        Some(t) => instance_parameters_sound(registry, t, fed, instance_with(nodes, table[i])),
        None => true,
    }
}

/// A declared choice's compiled value: the option the instance named, as
/// text. Anything the declaration does not offer is the message naming the
/// value against the options.
pub fn choice_parameter(choice: &Choice, literal: &ParameterValue, registry: &Registry) -> (chosen: Result<CompiledParameter, String>)
    requires
        registry.wf(),
        registry.data_type_with_id(STRING) is Some,
    ensures
        match chosen {
            Ok(parameter) => {
                &&& *literal matches ParameterValue::Str(text) && has_name(choice.options@, text@)
                    && parameter.value == Scalar::Str(text)
                &&& parameter.resolved_type == Resolved::of(registry.data_type_with_id(STRING).unwrap())
                &&& parameter.conversion is None
            },
            Err(message) => {
                &&& !(*literal matches ParameterValue::Str(text) && has_name(choice.options@, text@))
                &&& message@ == "choice `"@ + choice.name@ + "` holds "@ + literal_text(*literal)
                    + ", which is outside its options ("@ + joined(views(choice.options@), ", "@) + ")"@
            },
        },
{
    match literal {
        ParameterValue::Str(text) => {
            if contains_name(&choice.options, text.as_str()) {
                match registry.data_type_by_id(STRING) {
                    Some(string_type) => {
                        return Ok(CompiledParameter {
                            resolved_type: resolved(string_type),
                            value: Scalar::Str(text.clone()),
                            conversion: None,
                        });
                    },
                    None => {},
                }
            }
        },
        _ => {},
    }
    let mut message = "choice `".to_owned();
    message.append(choice.name.as_str());
    message.append("` holds ");
    let shown = literal_display(literal);
    message.append(shown.as_str());
    message.append(", which is outside its options (");
    let options = join_names(&choice.options, ", ");
    message.append(options.as_str());
    message.append(")");
    Err(message)
}

fn on_node(name: &String, detail: &String) -> (message: String)
    ensures
        message@ == "node "@ + name@ + ": "@ + detail@,
{
    let mut message = "node ".to_owned();
    message.append(name.as_str());
    message.append(": ");
    message.append(detail.as_str());
    message
}

fn names_nothing(name: &String, parameter: &String) -> (message: String)
    ensures
        message@ == "node "@ + name@ + ": parameter `"@ + parameter@ + "` names neither an input port nor a declared choice"@,
{
    let mut message = "node ".to_owned();
    message.append(name.as_str());
    message.append(": parameter `");
    message.append(parameter.as_str());
    message.append("` names neither an input port nor a declared choice");
    message
}

fn carried_twice(input: &String, name: &String) -> (message: String)
    ensures
        message@ == "input `"@ + input@ + "` of node "@ + name@
            + " holds a parameter value and receives a connection; an input carries one or the other"@,
{
    let mut message = "input `".to_owned();
    message.append(input.as_str());
    message.append("` of node ");
    message.append(name.as_str());
    message.append(" holds a parameter value and receives a connection; an input carries one or the other");
    message
}

fn unmatched_literal(name: &String, input: &String, literal: &ParameterValue, types: &Vec<String>) -> (message: String)
    ensures
        message@ == "node "@ + name@ + ": input `"@ + input@ + "`: literal "@ + literal_text(*literal)
            + " does not match declared types "@ + joined(views(types@), ", "@)
            + " — no exact match and no declared conversion bridges them"@,
{
    let mut message = "node ".to_owned();
    message.append(name.as_str());
    message.append(": input `");
    message.append(input.as_str());
    message.append("`: literal ");
    let shown = literal_display(literal);
    message.append(shown.as_str());
    message.append(" does not match declared types ");
    let declared = join_names(types, ", ");
    message.append(declared.as_str());
    message.append(" — no exact match and no declared conversion bridges them");
    message
}

fn unset_choice(name: &String, choice: &Choice) -> (message: String)
    ensures
        message@ == "node "@ + name@ + ": choice `"@ + choice.name@ + "` holds no value — it must be one of "@
            + joined(views(choice.options@), ", "@),
{
    let mut message = "node ".to_owned();
    message.append(name.as_str());
    message.append(": choice `");
    message.append(choice.name.as_str());
    message.append("` holds no value — it must be one of ");
    let options = join_names(&choice.options, ", ");
    message.append(options.as_str());
    message
}

/// Set a compiled parameter under `name`, replacing one already there.
/// The position of the first parameter named `name`, or the length.
pub open spec fn named_at(parameters: Seq<(String, CompiledParameter)>, name: Seq<char>) -> int
    decreases parameters.len(),
{
    if parameters.len() == 0 {
        0
    } else if parameters[0].0@ == name {
        0
    } else {
        1 + named_at(parameters.drop_first(), name)
    }
}

/// The parameters with `name` set to `parameter`: the first parameter of
/// that name replaced, or the pair appended where none has it.
pub open spec fn set_in(parameters: Seq<(String, CompiledParameter)>, name: String, parameter: CompiledParameter)
    -> Seq<(String, CompiledParameter)>
{
    let k = named_at(parameters, name@);
    if k < parameters.len() { parameters.update(k, (name, parameter)) } else { parameters.push((name, parameter)) }
}

pub fn set_parameter(parameters: &mut Vec<(String, CompiledParameter)>, name: String, parameter: CompiledParameter)
    ensures
        exists|j: int| 0 <= j < final(parameters)@.len() && (#[trigger] final(parameters)@[j]).0@ == name@,
        final(parameters)@ == set_in(old(parameters)@, name, parameter),
{
    let ghost original = parameters@;
    let ghost given = (name, parameter);
    let mut j: usize = 0;
    assert(parameters@.subrange(0, parameters@.len() as int) =~= parameters@);
    while j < parameters.len()
        invariant
            j <= parameters.len(),
            parameters@ == original,
            given == (name, parameter),
            original == old(parameters)@,
            named_at(original, name@) == j + named_at(original.subrange(j as int, original.len() as int), name@),
        decreases parameters.len() - j,
    {
        let ghost rest = original.subrange(j as int, original.len() as int);
        assert(rest.drop_first() =~= original.subrange(j + 1, original.len() as int));
        assert(rest[0] == original[j as int]);
        if crate::text::same_text(parameters[j].0.as_str(), name.as_str()) {
            assert(named_at(rest, name@) == 0);
            assert(named_at(original, name@) == j as int);
            parameters.set(j, (name, parameter));
            assert(parameters@[j as int].0@ == given.0@);
            assert(parameters@ == set_in(original, given.0, given.1));
            return;
        }
        j = j + 1;
    }
    assert(original.subrange(original.len() as int, original.len() as int).len() == 0);
    parameters.push((name, parameter));
    assert(parameters@[parameters@.len() - 1].0@ == name@);
}

/// The compiled parameters of an instance of `t`, in order: each literal
/// for an input `fed` leaves open and no family holds, resolved against the
/// input's declared union, and each declared choice holding one of its
/// options, as text; a later parameter of the same name replaces an
/// earlier one, and what does not compile leaves nothing.
pub open spec fn compiled_parameters(registry: Registry, t: NodeType, fed: spec_fn(Seq<char>) -> bool,
    parameters: Seq<(String, ParameterValue)>) -> Seq<(String, CompiledParameter)>
    decreases parameters.len(),
{
    if parameters.len() == 0 {
        Seq::empty()
    } else {
        let rest = compiled_parameters(registry, t, fed, parameters.drop_last());
        let (key, literal) = parameters.last();
        match port_named(t.inputs@, key@) {
            Some(input) => if fed(input.name@) || input.family is Some {
                rest
            } else {
                match literal_resolution(registry, literal, input.type_refs@) {
                    Some((resolved_type, value, conversion)) =>
                        set_in(rest, input.name, CompiledParameter { resolved_type, value, conversion }),
                    None => rest,
                }
            },
            None => match choice_named(t.choices@, key@) {
                Some(choice) => match literal {
                    ParameterValue::Str(text) => if has_name(choice.options@, text@) {
                        set_in(rest, choice.name, CompiledParameter {
                            resolved_type: Resolved::of(registry.data_type_with_id(STRING).unwrap()),
                            value: Scalar::Str(text),
                            conversion: None,
                        })
                    } else {
                        rest
                    },
                    _ => rest,
                },
                None => rest,
            },
        }
    }
}

/// What one parameter of a node named `name` is faulted for, if anything:
/// an input that is also fed, a literal its input's union cannot take, a
/// choice outside its options, or a name that is neither input nor choice.
pub open spec fn parameter_finding(registry: Registry, t: NodeType, fed: spec_fn(Seq<char>) -> bool, name: Seq<char>,
    key: Seq<char>, literal: ParameterValue) -> Option<Seq<char>> {
    match port_named(t.inputs@, key) {
        Some(input) => if fed(input.name@) {
            Some("input `"@ + input.name@ + "` of node "@ + name
                + " holds a parameter value and receives a connection; an input carries one or the other"@)
        } else if input.family is Some {
            None
        } else if literal_resolution(registry, literal, input.type_refs@) is Some {
            None
        } else {
            Some("node "@ + name + ": input `"@ + input.name@ + "`: literal "@ + literal_text(literal)
                + " does not match declared types "@ + joined(views(input.type_refs@), ", "@)
                + " — no exact match and no declared conversion bridges them"@)
        },
        None => match choice_named(t.choices@, key) {
            Some(choice) => if literal matches ParameterValue::Str(text) && has_name(choice.options@, text@) {
                None
            } else {
                Some("node "@ + name + ": "@ + "choice `"@ + choice.name@ + "` holds "@ + literal_text(literal)
                    + ", which is outside its options ("@ + joined(views(choice.options@), ", "@) + ")"@)
            },
            None => Some("node "@ + name + ": parameter `"@ + key + "` names neither an input port nor a declared choice"@),
        },
    }
}

/// The faults of each parameter, in order, each marking the node.
pub open spec fn parameter_findings(registry: Registry, t: NodeType, fed: spec_fn(Seq<char>) -> bool, name: Seq<char>, uuid: u128,
    parameters: Seq<(String, ParameterValue)>) -> Seq<(Seq<char>, Seq<u128>)>
    decreases parameters.len(),
{
    if parameters.len() == 0 {
        Seq::empty()
    } else {
        let rest = parameter_findings(registry, t, fed, name, uuid, parameters.drop_last());
        match parameter_finding(registry, t, fed, name, parameters.last().0@, parameters.last().1) {
            Some(message) => rest.push((message, seq![uuid])),
            None => rest,
        }
    }
}

/// One finding for each declared choice, in order, the parameters leave
/// without a value.
pub open spec fn unset_choices(name: Seq<char>, uuid: u128, choices: Seq<Choice>, parameters: Seq<(String, ParameterValue)>)
    -> Seq<(Seq<char>, Seq<u128>)>
    decreases choices.len(),
{
    if choices.len() == 0 {
        Seq::empty()
    } else {
        let rest = unset_choices(name, uuid, choices.drop_last(), parameters);
        let choice = choices.last();
        if has_parameter(parameters, choice.name@) {
            rest
        } else {
            rest.push(("node "@ + name + ": choice `"@ + choice.name@ + "` holds no value — it must be one of "@
                + joined(views(choice.options@), ", "@), seq![uuid]))
        }
    }
}

/// Everything compiling an instance's parameters reports, in order.
pub open spec fn instance_findings_of(registry: Registry, t: NodeType, fed: spec_fn(Seq<char>) -> bool, instance: NodeInstance) -> Seq<(Seq<char>, Seq<u128>)> {
    let name = node_name(instance, Some(t.label@));
    parameter_findings(registry, t, fed, name, instance.uuid, instance.parameters@)
        + unset_choices(name, instance.uuid, t.choices@, instance.parameters@)
}

/// The family literals of an instance of `t`, in order: each parameter
/// naming a family input `fed` leaves open, set aside for its family's
/// resolution.
pub open spec fn family_literal_list(t: NodeType, fed: spec_fn(Seq<char>) -> bool, parameters: Seq<(String, ParameterValue)>) -> Seq<FamilyLiteral>
    decreases parameters.len(),
{
    if parameters.len() == 0 {
        Seq::empty()
    } else {
        let rest = family_literal_list(t, fed, parameters.drop_last());
        let (key, literal) = parameters.last();
        match port_named(t.inputs@, key@) {
            Some(input) => if !fed(input.name@) && input.family is Some {
                rest.push(FamilyLiteral { input: input.name, family: input.family->0, literal })
            } else {
                rest
            },
            None => rest,
        }
    }
}

/// The compiled parameters of the instance `uuid` names, fed as `fed`
/// records; none where no declared type holds it.
pub open spec fn instance_compiled(registry: Registry, nodes: Seq<NodeInstance>, fed: Seq<Feed>, uuid: u128) -> Seq<(String, CompiledParameter)> {
    match typed(registry, nodes, uuid) {
        Some(t) => compiled_parameters(registry, t, |p: Seq<char>| fed_has(fed, uuid, p), instance_with(nodes, uuid).parameters@),
        None => Seq::empty(),
    }
}

/// Compile one instance's parameters: each literal resolved against its
/// input, each choice's option read, family literals set aside for their
/// family's resolution, and every problem reported.
fn instance_parameters(
    instance: &NodeInstance,
    t: &NodeType,
    fed: &Vec<Feed>,
    registry: &Registry,
    errors: &mut Vec<Problem>,
) -> (compiled: (Vec<(String, CompiledParameter)>, Vec<FamilyLiteral>))
    requires
        registry.wf(),
        registry.data_type_with_id(STRING) is Some,
    ensures
        final(errors)@.len() >= old(errors)@.len(),
        final(errors)@.subrange(0, old(errors)@.len() as int) == old(errors)@,
        final(errors)@.len() == old(errors)@.len() ==> instance_parameters_sound(*registry, *t, fed@, *instance),
        forall|j: int| 0 <= j < compiled.1@.len() ==> family_input(t.inputs@, (#[trigger] compiled.1@[j]).input@, compiled.1@[j].family@),
        instance_parameters_sound(*registry, *t, fed@, *instance) ==> final(errors)@ == old(errors)@,
        compiled.0@ == compiled_parameters(*registry, *t, |p: Seq<char>| fed_has(fed@, instance.uuid, p), instance.parameters@),
        compiled.1@ == family_literal_list(*t, |p: Seq<char>| fed_has(fed@, instance.uuid, p), instance.parameters@),
        type_of(*registry, *instance) == Some(*t) ==> crate::instances::reported(old(errors)@, final(errors)@,
            instance_findings_of(*registry, *t, |p: Seq<char>| fed_has(fed@, instance.uuid, p), *instance)),
{
    let ghost original = errors@;
    let ghost fed_here = |p: Seq<char>| fed_has(fed@, instance.uuid, p);
    let ghost typed_here = type_of(*registry, *instance) == Some(*t);
    let name = match type_label(registry, instance) {
        Some(declared) => instance.name(Some(&declared.label)),
        None => instance.name(None),
    };
    proof {
        crate::instances::lemma_reported_none(original);
        assert(instance.parameters@.subrange(0, 0) =~= Seq::<(String, ParameterValue)>::empty());
    }
    let mut parameters: Vec<(String, CompiledParameter)> = Vec::new();
    let mut literals: Vec<FamilyLiteral> = Vec::new();
    let mut k: usize = 0;
    while k < instance.parameters.len()
        invariant
            registry.wf(),
            registry.data_type_with_id(STRING) is Some,
            k <= instance.parameters.len(),
            errors@.len() >= original.len(),
            errors@.subrange(0, original.len() as int) == original,
            errors@.len() == original.len() ==> forall|m: int| 0 <= m < k ==>
                parameter_sound(*registry, *t, fed@, instance.uuid, (#[trigger] instance.parameters@[m]).0@, instance.parameters@[m].1),
            forall|j: int| 0 <= j < literals@.len() ==> family_input(t.inputs@, (#[trigger] literals@[j]).input@, literals@[j].family@),
            original == old(errors)@,
            instance_parameters_sound(*registry, *t, fed@, *instance) ==> errors@ == original,
            fed_here == |p: Seq<char>| fed_has(fed@, instance.uuid, p),
            parameters@ == compiled_parameters(*registry, *t, fed_here, instance.parameters@.subrange(0, k as int)),
            literals@ == family_literal_list(*t, fed_here, instance.parameters@.subrange(0, k as int)),
            typed_here ==> name@ == node_name(*instance, Some(t.label@)),
            typed_here == (type_of(*registry, *instance) == Some(*t)),
            typed_here ==> crate::instances::reported(original, errors@,
                parameter_findings(*registry, *t, fed_here, name@, instance.uuid, instance.parameters@.subrange(0, k as int))),
        decreases instance.parameters.len() - k,
    {
        let ghost before = errors@;
        let ghost done = parameter_findings(*registry, *t, fed_here, name@, instance.uuid, instance.parameters@.subrange(0, k as int));
        let ghost finding = parameter_finding(*registry, *t, fed_here, name@, instance.parameters@[k as int].0@, instance.parameters@[k as int].1);
        proof {
            let upto = instance.parameters@.subrange(0, k + 1);
            assert(upto.drop_last() =~= instance.parameters@.subrange(0, k as int));
            assert(upto.last() == instance.parameters@[k as int]);
        }
        let key = &instance.parameters[k].0;
        let literal = &instance.parameters[k].1;
        let ghost unsound = !parameter_sound(*registry, *t, fed@, instance.uuid, instance.parameters@[k as int].0@, instance.parameters@[k as int].1);
        match port(&t.inputs, key.as_str()) {
            None => {
                match declared_choice(t, key.as_str()) {
                    Some(choice) => {
                        match choice_parameter(choice, literal, registry) {
                            Ok(chosen) => {
                                set_parameter(&mut parameters, choice.name.clone(), chosen);
                            },
                            Err(detail) => {
                                proof { assert(unsound); }
                                let message = on_node(&name, &detail);
                                assert(message@ =~= finding->0);
                                errors.push(problem(message, instance.uuid));
                            },
                        }
                    },
                    None => {
                        proof { assert(unsound); }
                        let message = names_nothing(&name, key);
                        assert(message@ =~= finding->0);
                        errors.push(problem(message, instance.uuid));
                    },
                }
            },
            Some(input) => {
                proof {
                    crate::model::lemma_port_index(t.inputs@, key@);
                }
                if crate::edges::is_fed_input(fed, instance.uuid, input.name.as_str()) {
                    proof { assert(unsound); }
                    let message = carried_twice(&input.name, &name);
                    assert(message@ =~= finding->0);
                    errors.push(problem(message, instance.uuid));
                } else {
                    match &input.family {
                        Some(family) => {
                            literals.push(FamilyLiteral { input: input.name.clone(), family: family.clone(), literal: literal.copy() });
                        },
                        None => {
                            match resolve_literal(literal, &input.type_refs, registry) {
                                Some((resolved_type, value, conversion)) => {
                                    set_parameter(&mut parameters, input.name.clone(), CompiledParameter { resolved_type, value, conversion });
                                },
                                None => {
                                    proof { assert(unsound); }
                                    let message = unmatched_literal(&name, &input.name, literal, &input.type_refs);
                                    assert(message@ =~= finding->0);
                                    errors.push(problem(message, instance.uuid));
                                },
                            }
                        },
                    }
                }
            },
        }
        proof {
            assert(errors@.subrange(0, original.len() as int) =~= before.subrange(0, original.len() as int)) by {
                if errors@.len() > before.len() {
                    assert(errors@.subrange(0, before.len() as int) == before);
                }
            }
            if typed_here {
                if errors@.len() > before.len() {
                    assert(finding is Some);
                    assert(errors@ == before.push(errors@.last()));
                    crate::instances::lemma_reported_push(original, before, done, errors@.last(), (finding->0, seq![instance.uuid]));
                } else {
                    assert(finding is None);
                    assert(errors@ == before);
                }
            }
        }
        k = k + 1;
    }
    assert(instance.parameters@.subrange(0, k as int) =~= instance.parameters@);
    proof {
        assert(t.choices@.subrange(0, 0) =~= Seq::<Choice>::empty());
        let head = parameter_findings(*registry, *t, fed_here, name@, instance.uuid, instance.parameters@);
        assert(head + Seq::<(Seq<char>, Seq<u128>)>::empty() =~= head);
    }
    let mut c: usize = 0;
    while c < t.choices.len()
        invariant
            k == instance.parameters.len(),
            c <= t.choices.len(),
            errors@.len() >= original.len(),
            errors@.subrange(0, original.len() as int) == original,
            errors@.len() == original.len() ==> forall|m: int| 0 <= m < k ==>
                parameter_sound(*registry, *t, fed@, instance.uuid, (#[trigger] instance.parameters@[m]).0@, instance.parameters@[m].1),
            errors@.len() == original.len() ==> forall|m: int| 0 <= m < c ==> has_parameter(instance.parameters@, (#[trigger] t.choices@[m]).name@),
            original == old(errors)@,
            instance_parameters_sound(*registry, *t, fed@, *instance) ==> errors@ == original,
            parameters@ == compiled_parameters(*registry, *t, |p: Seq<char>| fed_has(fed@, instance.uuid, p), instance.parameters@),
            literals@ == family_literal_list(*t, fed_here, instance.parameters@),
            typed_here ==> name@ == node_name(*instance, Some(t.label@)),
            typed_here == (type_of(*registry, *instance) == Some(*t)),
            fed_here == |p: Seq<char>| fed_has(fed@, instance.uuid, p),
            typed_here ==> crate::instances::reported(original, errors@,
                parameter_findings(*registry, *t, fed_here, name@, instance.uuid, instance.parameters@)
                    + unset_choices(name@, instance.uuid, t.choices@.subrange(0, c as int), instance.parameters@)),
        decreases t.choices.len() - c,
    {
        let choice = &t.choices[c];
        let ghost head = parameter_findings(*registry, *t, fed_here, name@, instance.uuid, instance.parameters@);
        let ghost unset_before = unset_choices(name@, instance.uuid, t.choices@.subrange(0, c as int), instance.parameters@);
        proof {
            assert(t.choices@.subrange(0, c + 1).drop_last() =~= t.choices@.subrange(0, c as int));
            assert(t.choices@.subrange(0, c + 1).last() == *choice);
        }
        if !contains_parameter(&instance.parameters, choice.name.as_str()) {
            proof {
                assert(!instance_parameters_sound(*registry, *t, fed@, *instance)) by {
                    assert(t.choices@[c as int] == *choice);
                }
            }
            let message = unset_choice(&name, choice);
            let ghost before = errors@;
            errors.push(problem(message, instance.uuid));
            assert(errors@.subrange(0, original.len() as int) =~= before.subrange(0, original.len() as int));
            proof {
                if typed_here {
                    crate::instances::lemma_reported_push(original, before, head + unset_before, errors@.last(), (message@, seq![instance.uuid]));
                    assert((head + unset_before).push((message@, seq![instance.uuid]))
                        =~= head + unset_choices(name@, instance.uuid, t.choices@.subrange(0, c + 1), instance.parameters@));
                }
            }
        } else {
            assert(unset_choices(name@, instance.uuid, t.choices@.subrange(0, c + 1), instance.parameters@) == unset_before);
        }
        c = c + 1;
    }
    assert(t.choices@.subrange(0, c as int) =~= t.choices@);
    (parameters, literals)
}

/// Everything compiling the parameters of the table's typed instances
/// reports, in table order.
pub open spec fn table_findings(registry: Registry, nodes: Seq<NodeInstance>, fed: spec_fn(u128, Seq<char>) -> bool, table: Seq<u128>) -> Seq<(Seq<char>, Seq<u128>)>
    decreases table.len(),
{
    if table.len() == 0 {
        Seq::empty()
    } else {
        let rest = table_findings(registry, nodes, fed, table.drop_last());
        match typed(registry, nodes, table.last()) {
            Some(t) => rest + instance_findings_of(registry, t, |p: Seq<char>| fed(table.last(), p), instance_with(nodes, table.last())),
            None => rest,
        }
    }
}

/// The family literal the instance `uuid` names holds for `input`, fed as
/// `fed` records; none where no declared type holds it.
pub open spec fn held_literal(registry: Registry, nodes: Seq<NodeInstance>, fed: Seq<Feed>, uuid: u128, input: Seq<char>) -> Option<FamilyLiteral> {
    match typed(registry, nodes, uuid) {
        Some(t) => crate::families::literal_held(
            family_literal_list(t, |p: Seq<char>| fed_has(fed, uuid, p), instance_with(nodes, uuid).parameters@), input),
        None => None,
    }
}

/// Each compiled entry's family literals are those its instance holds.
#[verifier::opaque]
pub open spec fn literals_held(registry: Registry, nodes: Seq<NodeInstance>, fed: Seq<Feed>, table: Seq<u128>,
    compiled: Seq<InstanceParameters>) -> bool {
    forall|u: u128, x: Seq<char>| #[trigger] crate::families::instance_literal(compiled, u, x)
        == if table.contains(u) { held_literal(registry, nodes, fed, u, x) } else { None }
}

proof fn lemma_instance_literal_push(compiled: Seq<InstanceParameters>, entry: InstanceParameters, uuid: u128, input: Seq<char>)
    ensures
        crate::families::instance_literal(compiled.push(entry), uuid, input) == if exists|k: int| 0 <= k < compiled.len() && (#[trigger] compiled[k]).uuid == uuid {
            crate::families::instance_literal(compiled, uuid, input)
        } else if entry.uuid == uuid {
            crate::families::literal_held(entry.literals@, input)
        } else {
            None
        },
    decreases compiled.len(),
{
    if compiled.len() > 0 {
        assert(compiled.push(entry).drop_first() =~= compiled.drop_first().push(entry));
        assert(compiled.push(entry)[0] == compiled[0]);
        lemma_instance_literal_push(compiled.drop_first(), entry, uuid, input);
        if compiled[0].uuid != uuid {
            assert((exists|k: int| 0 <= k < compiled.len() && (#[trigger] compiled[k]).uuid == uuid)
                == (exists|k: int| 0 <= k < compiled.drop_first().len() && (#[trigger] compiled.drop_first()[k]).uuid == uuid)) by {
                if exists|k: int| 0 <= k < compiled.len() && (#[trigger] compiled[k]).uuid == uuid {
                    let k = choose|k: int| 0 <= k < compiled.len() && (#[trigger] compiled[k]).uuid == uuid;
                    assert(compiled.drop_first()[k - 1] == compiled[k]);
                }
                if exists|k: int| 0 <= k < compiled.drop_first().len() && (#[trigger] compiled.drop_first()[k]).uuid == uuid {
                    let k = choose|k: int| 0 <= k < compiled.drop_first().len() && (#[trigger] compiled.drop_first()[k]).uuid == uuid;
                    assert(compiled[k + 1] == compiled.drop_first()[k]);
                }
            }
            assert(crate::families::instance_literal(compiled.push(entry), uuid, input)
                == crate::families::instance_literal(compiled.push(entry).drop_first(), uuid, input));
            assert(crate::families::instance_literal(compiled, uuid, input)
                == crate::families::instance_literal(compiled.drop_first(), uuid, input));
        } else {
            assert(compiled[0].uuid == uuid);
            assert(crate::families::instance_literal(compiled.push(entry), uuid, input) == crate::families::literal_held(compiled[0].literals@, input));
            assert(crate::families::instance_literal(compiled, uuid, input) == crate::families::literal_held(compiled[0].literals@, input));
        }
    } else {
        assert(compiled.push(entry)[0] == entry);
        assert(compiled.push(entry).drop_first() =~= Seq::<InstanceParameters>::empty());
        assert(crate::families::instance_literal(Seq::<InstanceParameters>::empty(), uuid, input) is None);
        if entry.uuid != uuid {
            assert(crate::families::instance_literal(compiled.push(entry), uuid, input)
                == crate::families::instance_literal(compiled.push(entry).drop_first(), uuid, input));
        }
    }
}

proof fn lemma_instance_literal_absent(compiled: Seq<InstanceParameters>, uuid: u128, input: Seq<char>)
    requires
        forall|k: int| 0 <= k < compiled.len() ==> (#[trigger] compiled[k]).uuid != uuid,
    ensures
        crate::families::instance_literal(compiled, uuid, input) is None,
    decreases compiled.len(),
{
    if compiled.len() > 0 {
        assert forall|k: int| 0 <= k < compiled.drop_first().len() implies (#[trigger] compiled.drop_first()[k]).uuid != uuid by {
            assert(compiled.drop_first()[k] == compiled[k + 1]);
        }
        lemma_instance_literal_absent(compiled.drop_first(), uuid, input);
    }
}

/// The compiled parameters of one instance, and its family literals.
pub struct InstanceParameters {
    pub uuid: u128,
    pub parameters: Vec<(String, CompiledParameter)>,
    pub literals: Vec<FamilyLiteral>,
}

/// Compile the parameters of every typed instance, in table order.
pub fn compile_parameters(
    nodes: &Vec<NodeInstance>,
    table: &Vec<u128>,
    fed: &Vec<Feed>,
    registry: &Registry,
    errors: &mut Vec<Problem>,
) -> (compiled: Vec<InstanceParameters>)
    requires
        registry.wf(),
        registry.data_type_with_id(STRING) is Some,
    ensures
        final(errors)@.len() >= old(errors)@.len(),
        final(errors)@.subrange(0, old(errors)@.len() as int) == old(errors)@,
        final(errors)@.len() == old(errors)@.len() ==> parameters_sound(*registry, nodes@, fed@, table@),
        parameters_sound(*registry, nodes@, fed@, table@) ==> final(errors)@ == old(errors)@,
        forall|j: int| 0 <= j < compiled@.len() ==> match typed(*registry, nodes@, (#[trigger] compiled@[j]).uuid) {
            Some(t) => forall|m: int| 0 <= m < compiled@[j].literals@.len() ==>
                family_input(t.inputs@, (#[trigger] compiled@[j].literals@[m]).input@, compiled@[j].literals@[m].family@),
            None => false,
        },
        crate::instances::ascending(table@) ==> forall|u: u128| #[trigger] crate::compile::own_parameters(compiled@, u)
            == if table@.contains(u) { instance_compiled(*registry, nodes@, fed@, u) } else { Seq::empty() },
        crate::instances::reported(old(errors)@, final(errors)@, table_findings(*registry, nodes@, |u: u128, p: Seq<char>| fed_has(fed@, u, p), table@)),
        crate::instances::ascending(table@) ==> literals_held(*registry, nodes@, fed@, table@, compiled@),
{
    let ghost original = errors@;
    let mut compiled: Vec<InstanceParameters> = Vec::new();
    proof {
        crate::instances::lemma_reported_none(original);
        assert(table@.subrange(0, 0) =~= Seq::<u128>::empty());
        assert(table_findings(*registry, nodes@, |u: u128, p: Seq<char>| fed_has(fed@, u, p), table@.subrange(0, 0)) =~= Seq::empty());
        assert forall|u: u128, x: Seq<char>| #[trigger] crate::families::instance_literal(compiled@, u, x) is None by {}
    }
    let mut i: usize = 0;
    while i < table.len()
        invariant
            registry.wf(),
            registry.data_type_with_id(STRING) is Some,
            i <= table.len(),
            errors@.len() >= original.len(),
            errors@.subrange(0, original.len() as int) == original,
            errors@.len() == original.len() ==> forall|m: int| 0 <= m < i ==> match typed(*registry, nodes@, #[trigger] table@[m]) {
                Some(t) => instance_parameters_sound(*registry, t, fed@, instance_with(nodes@, table@[m])),
                None => true,
            },
            forall|j: int| 0 <= j < compiled@.len() ==> match typed(*registry, nodes@, (#[trigger] compiled@[j]).uuid) {
                Some(t) => forall|m: int| 0 <= m < compiled@[j].literals@.len() ==>
                    family_input(t.inputs@, (#[trigger] compiled@[j].literals@[m]).input@, compiled@[j].literals@[m].family@),
                None => false,
            },
            original == old(errors)@,
            parameters_sound(*registry, nodes@, fed@, table@) ==> errors@ == original,
            crate::instances::ascending(table@) ==> forall|u: u128| #[trigger] crate::compile::own_parameters(compiled@, u)
                == if table@.subrange(0, i as int).contains(u) { instance_compiled(*registry, nodes@, fed@, u) } else { Seq::empty() },
            crate::instances::reported(original, errors@, table_findings(*registry, nodes@, |u: u128, p: Seq<char>| fed_has(fed@, u, p), table@.subrange(0, i as int))),
            forall|k: int| 0 <= k < compiled@.len() ==> table@.subrange(0, i as int).contains((#[trigger] compiled@[k]).uuid),
            crate::instances::ascending(table@) ==> forall|u: u128, x: Seq<char>| #[trigger] crate::families::instance_literal(compiled@, u, x)
                == if table@.subrange(0, i as int).contains(u) { held_literal(*registry, nodes@, fed@, u, x) } else { None },
        decreases table.len() - i,
    {
        let uuid = table[i];
        let ghost before = errors@;
        let ghost compiled_before = compiled@;
        let ghost found_before = table_findings(*registry, nodes@, |u: u128, p: Seq<char>| fed_has(fed@, u, p), table@.subrange(0, i as int));
        proof {
            assert(table@.subrange(0, i + 1).drop_last() =~= table@.subrange(0, i as int));
            assert(table@.subrange(0, i + 1).last() == uuid);
        }
        proof {
            if crate::instances::ascending(table@) {
                assert(!table@.subrange(0, i as int).contains(uuid));
                assert forall|u: u128| table@.subrange(0, i + 1).contains(u) <==> (table@.subrange(0, i as int).contains(u) || u == uuid) by {
                    if table@.subrange(0, i + 1).contains(u) {
                        let x = choose|x: int| 0 <= x < i + 1 && #[trigger] table@.subrange(0, i + 1)[x] == u;
                        if x < i {
                            assert(table@.subrange(0, i as int)[x] == u);
                        }
                    }
                    if table@.subrange(0, i as int).contains(u) {
                        let x = choose|x: int| 0 <= x < i && #[trigger] table@.subrange(0, i as int)[x] == u;
                        assert(table@.subrange(0, i + 1)[x] == u);
                    }
                    if u == uuid {
                        assert(table@.subrange(0, i + 1)[i as int] == u);
                    }
                }
            }
        }
        match instance_of(nodes, uuid) {
            Some(instance) => {
                match type_label(registry, instance) {
                    Some(t) => {
                        proof {
                            if parameters_sound(*registry, nodes@, fed@, table@) {
                                assert(typed(*registry, nodes@, table@[i as int]) == Some(*t));
                            }
                        }
                        let (parameters, literals) = instance_parameters(instance, t, fed, registry, errors);
                        compiled.push(InstanceParameters { uuid, parameters, literals });
                        proof {
                            let k = choose|k: int| 0 <= k < nodes@.len() && #[trigger] nodes@[k].uuid == uuid;
                            crate::instances::lemma_carried(nodes@, uuid, k);
                            let f = choose|f: int| crate::instances::first_with(nodes@, uuid, f);
                            crate::instances::lemma_first_with(nodes@, uuid, f);
                            assert(instance.uuid == uuid);
                            assert(compiled@.drop_last() =~= compiled_before);
                            assert(typed(*registry, nodes@, uuid) == Some(*t));
                            assert(parameters@ == instance_compiled(*registry, nodes@, fed@, uuid));
                            crate::instances::lemma_reported_chain(original, before, errors@, found_before,
                                instance_findings_of(*registry, *t, |p: Seq<char>| fed_has(fed@, instance.uuid, p), *instance));
                            let all = |u: u128, p: Seq<char>| fed_has(fed@, u, p);
                            assert((|p: Seq<char>| all(uuid, p)) =~= (|p: Seq<char>| fed_has(fed@, instance.uuid, p)));
                        }
                        proof {
                            assert(errors@.subrange(0, original.len() as int) =~= errors@.subrange(0, before.len() as int).subrange(0, original.len() as int));
                        }
                    },
                    None => {},
                }
            },
            None => {},
        }
        proof {
            assert forall|k: int| 0 <= k < compiled@.len() implies table@.subrange(0, i + 1).contains((#[trigger] compiled@[k]).uuid) by {
                if k < compiled_before.len() {
                    assert(compiled@[k] == compiled_before[k]);
                } else {
                    assert(compiled@[k].uuid == uuid);
                }
            }
            if crate::instances::ascending(table@) {
                assert forall|u: u128, x: Seq<char>| #[trigger] crate::families::instance_literal(compiled@, u, x)
                    == if table@.subrange(0, i + 1).contains(u) { held_literal(*registry, nodes@, fed@, u, x) } else { None } by {
                    if compiled@.len() > compiled_before.len() {
                        assert(compiled@ =~= compiled_before.push(compiled@.last()));
                        lemma_instance_literal_push(compiled_before, compiled@.last(), u, x);
                        if exists|k: int| 0 <= k < compiled_before.len() && (#[trigger] compiled_before[k]).uuid == u {
                            let k = choose|k: int| 0 <= k < compiled_before.len() && (#[trigger] compiled_before[k]).uuid == u;
                            assert(table@.subrange(0, i as int).contains(compiled_before[k].uuid));
                            assert(u != uuid);
                        } else if u == uuid {
                            assert(compiled@.last().uuid == uuid);
                            assert(crate::families::instance_literal(compiled@, u, x) == crate::families::literal_held(compiled@.last().literals@, x));
                            assert(held_literal(*registry, nodes@, fed@, u, x) == crate::families::literal_held(compiled@.last().literals@, x));
                        } else {
                            assert(crate::families::instance_literal(compiled@, u, x) is None);
                            lemma_instance_literal_absent(compiled_before, u, x);
                        }
                    } else {
                        assert(compiled@ == compiled_before);
                    }
                }
            }
            if crate::instances::ascending(table@) {
                assert forall|u: u128| #[trigger] crate::compile::own_parameters(compiled@, u)
                    == if table@.subrange(0, i + 1).contains(u) { instance_compiled(*registry, nodes@, fed@, u) } else { Seq::empty() } by {
                    if compiled@.len() > compiled_before.len() {
                        assert(compiled@.drop_last() =~= compiled_before);
                        assert(crate::compile::own_parameters(compiled_before, u)
                            == if table@.subrange(0, i as int).contains(u) { instance_compiled(*registry, nodes@, fed@, u) } else { Seq::empty() });
                        if u == uuid {
                            assert(crate::compile::own_parameters(compiled_before, u) =~= Seq::empty());
                            assert(crate::compile::own_parameters(compiled_before, u) + compiled@.last().parameters@ =~= compiled@.last().parameters@);
                        }
                    } else {
                        assert(compiled@ == compiled_before);
                        assert(crate::compile::own_parameters(compiled_before, u)
                            == if table@.subrange(0, i as int).contains(u) { instance_compiled(*registry, nodes@, fed@, u) } else { Seq::empty() });
                    }
                }
            }
        }
        i = i + 1;
    }
    assert(table@.subrange(0, i as int) =~= table@);
    proof {
        reveal(literals_held);
    }
    compiled
}

} // verus!
