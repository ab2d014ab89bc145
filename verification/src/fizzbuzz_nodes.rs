//! The fizzbuzz plugin's node types, declared as data: the counter source,
//! the arithmetic and comparison nodes whose operation each instance
//! chooses, the case selection, and the output terminus. Every numeric port
//! belongs to the one numeric family, spanning the base numeric set in its
//! declaration order — the order the compiler's tiebreak walks. Each
//! node type's compile-time check of its instances is dispatched here.

use vstd::prelude::*;
use crate::compile::CompiledNode;
use crate::declare::{choice, family_port, node_is, typed_port, ChoiceSpec, PortSpec};
use crate::fizzbuzz::{case_check, counter_check, operands_check};
use crate::model::{NodeType, Port};
use crate::text::{same_text, views};

verus! {

/// The name the numeric ports declare their family under.
pub const NUMERIC_FAMILY: &'static str = "numeric";

pub const ARITHMETIC_ICON: &'static str = "<svg xmlns=\"http://www.w3.org/2000/svg\" width=\"16\" height=\"16\"><path d=\"M2 5h6M5 2v6M8 12h6M2 11l3 3M5 11l-3 3\" stroke=\"#333\" stroke-width=\"1.5\" fill=\"none\"/></svg>";
pub const COMPARISON_ICON: &'static str = "<svg xmlns=\"http://www.w3.org/2000/svg\" width=\"16\" height=\"16\"><path d=\"M2 8h12M4 4l-3 4 3 4M12 4l3 4-3 4\" stroke=\"#333\" stroke-width=\"1.5\" fill=\"none\"/></svg>";
pub const CASE_ICON: &'static str = "<svg xmlns=\"http://www.w3.org/2000/svg\" width=\"16\" height=\"16\"><path d=\"M2 4h4l6 4M2 8h10M2 12h4l6-4\" stroke=\"#333\" stroke-width=\"1.5\" fill=\"none\"/></svg>";
pub const COUNTER_ICON: &'static str = "<svg xmlns=\"http://www.w3.org/2000/svg\" width=\"16\" height=\"16\"><path d=\"M3 13V7l4 3V7l4 3V7l2 1.5\" stroke=\"#333\" stroke-width=\"1.5\" fill=\"none\"/></svg>";
pub const OUTPUT_ICON: &'static str = "<svg xmlns=\"http://www.w3.org/2000/svg\" width=\"16\" height=\"16\"><path d=\"M2 8h9m0 0-3-3m3 3-3 3M13 4v8\" stroke=\"#333\" stroke-width=\"1.5\" fill=\"none\"/></svg>";

/// The base numeric set, in the family's declaration order.
pub open spec fn numerics() -> Seq<Seq<char>> {
    seq!["i8"@, "i16"@, "i32"@, "i64"@, "u8"@, "u16"@, "u32"@, "u64"@, "f32"@, "f64"@]
}

/// A numeric family port as its declaration states it.
pub open spec fn numeric(name: Seq<char>) -> PortSpec {
    (name, numerics(), Some("numeric"@))
}

/// A port of one type as its declaration states it.
pub open spec fn single(name: Seq<char>, type_ref: Seq<char>) -> PortSpec {
    (name, seq![type_ref], None)
}

/// The options of the arithmetic's `op` choice.
pub open spec fn operations() -> Seq<Seq<char>> {
    seq!["add"@, "subtract"@, "multiply"@, "divide"@, "modulo"@]
}

/// The options of the comparison's `cmp` choice.
pub open spec fn comparisons() -> Seq<Seq<char>> {
    seq!["equal"@, "not equal"@, "less"@, "less or equal"@, "greater"@, "greater or equal"@]
}

/// A port of the numeric family named `name`.
fn numeric_port(name: &str) -> (port: Port)
    ensures
        crate::declare::port_is(port, name@, numerics(), Some("numeric"@)),
{
    let members = vec!["i8", "i16", "i32", "i64", "u8", "u16", "u32", "u64", "f32", "f64"];
    let port = family_port(name, NUMERIC_FAMILY, &members);
    assert(members@.map_values(|m: &str| m@) =~= numerics());
    port
}

/// The node types the fizzbuzz plugin declares, in declaration order.
pub fn node_types() -> (declared: Vec<NodeType>)
    ensures
        declared@.len() == 5,
        node_is(declared@[0], "fizzbuzz/arithmetic"@, "Arithmetic"@, ARITHMETIC_ICON@, "fizzbuzz"@,
            seq![numeric("a"@), numeric("b"@)], seq![numeric("result"@)],
            seq![("op"@, operations())], true),
        node_is(declared@[1], "fizzbuzz/comparison"@, "Comparison"@, COMPARISON_ICON@, "fizzbuzz"@,
            seq![numeric("a"@), numeric("b"@)], seq![single("result"@, "bool"@)],
            seq![("cmp"@, comparisons())], true),
        node_is(declared@[2], "fizzbuzz/case"@, "Case selection"@, CASE_ICON@, "fizzbuzz"@,
            seq![numeric("count"@), single("fizz"@, "bool"@), single("buzz"@, "bool"@)],
            seq![single("text"@, "String"@)], Seq::<ChoiceSpec>::empty(), true),
        node_is(declared@[3], "fizzbuzz/counter"@, "Counter"@, COUNTER_ICON@, "fizzbuzz"@,
            seq![numeric("start"@), numeric("stop"@), numeric("step"@)], seq![numeric("count"@)],
            Seq::<ChoiceSpec>::empty(), true),
        node_is(declared@[4], "fizzbuzz/output"@, "Output"@, OUTPUT_ICON@, "fizzbuzz"@,
            seq![single("text"@, "String"@)], Seq::<PortSpec>::empty(), Seq::<ChoiceSpec>::empty(), false),
{
    let ops = vec!["add", "subtract", "multiply", "divide", "modulo"];
    let op = choice("op", &ops);
    assert(ops@.map_values(|o: &str| o@) =~= operations());
    let arithmetic = NodeType {
        type_ref: "fizzbuzz/arithmetic".to_owned(),
        label: "Arithmetic".to_owned(),
        icon: ARITHMETIC_ICON.to_owned(),
        plugin: "fizzbuzz".to_owned(),
        sub_group: None,
        ui: None,
        inputs: vec![numeric_port("a"), numeric_port("b")],
        outputs: vec![numeric_port("result")],
        choices: vec![op],
        behaviour: true,
        check_parameters: true,
    };
    let cmps = vec!["equal", "not equal", "less", "less or equal", "greater", "greater or equal"];
    let cmp = choice("cmp", &cmps);
    assert(cmps@.map_values(|o: &str| o@) =~= comparisons());
    let comparison = NodeType {
        type_ref: "fizzbuzz/comparison".to_owned(),
        label: "Comparison".to_owned(),
        icon: COMPARISON_ICON.to_owned(),
        plugin: "fizzbuzz".to_owned(),
        sub_group: None,
        ui: None,
        inputs: vec![numeric_port("a"), numeric_port("b")],
        outputs: vec![typed_port("result", "bool")],
        choices: vec![cmp],
        behaviour: true,
        check_parameters: true,
    };
    let case = NodeType {
        type_ref: "fizzbuzz/case".to_owned(),
        label: "Case selection".to_owned(),
        icon: CASE_ICON.to_owned(),
        plugin: "fizzbuzz".to_owned(),
        sub_group: None,
        ui: None,
        inputs: vec![numeric_port("count"), typed_port("fizz", "bool"), typed_port("buzz", "bool")],
        outputs: vec![typed_port("text", "String")],
        choices: Vec::new(),
        behaviour: true,
        check_parameters: true,
    };
    let counter = NodeType {
        type_ref: "fizzbuzz/counter".to_owned(),
        label: "Counter".to_owned(),
        icon: COUNTER_ICON.to_owned(),
        plugin: "fizzbuzz".to_owned(),
        sub_group: None,
        ui: None,
        inputs: vec![numeric_port("start"), numeric_port("stop"), numeric_port("step")],
        outputs: vec![numeric_port("count")],
        choices: Vec::new(),
        behaviour: true,
        check_parameters: true,
    };
    let output = NodeType {
        type_ref: "fizzbuzz/output".to_owned(),
        label: "Output".to_owned(),
        icon: OUTPUT_ICON.to_owned(),
        plugin: "fizzbuzz".to_owned(),
        sub_group: None,
        ui: None,
        inputs: vec![typed_port("text", "String")],
        outputs: Vec::new(),
        choices: Vec::new(),
        behaviour: true,
        check_parameters: false,
    };
    let declared = vec![arithmetic, comparison, case, counter, output];
    declared
}

/// The check the fizzbuzz node type of `compiled` declares for its
/// instances: the counter's, both operator nodes' operand check, and the
/// case selection's; a node of any other type takes none.
pub fn check(compiled: &CompiledNode) -> (errors: Vec<String>)
    ensures
        compiled.type_ref@ == "fizzbuzz/counter"@ ==> views(errors@) == crate::fizzbuzz::counter_errors(*compiled),
        compiled.type_ref@ == "fizzbuzz/arithmetic"@ || compiled.type_ref@ == "fizzbuzz/comparison"@
            ==> views(errors@) == crate::fizzbuzz::uncarried_errors(*compiled, seq!["a", "b"]),
        compiled.type_ref@ == "fizzbuzz/case"@ ==> views(errors@) == crate::fizzbuzz::uncarried_errors(*compiled, seq!["count", "fizz", "buzz"]),
        compiled.type_ref@ != "fizzbuzz/counter"@ && compiled.type_ref@ != "fizzbuzz/arithmetic"@
            && compiled.type_ref@ != "fizzbuzz/comparison"@ && compiled.type_ref@ != "fizzbuzz/case"@ ==> errors@.len() == 0,
{
    proof {
        reveal_strlit("fizzbuzz/counter");
        reveal_strlit("fizzbuzz/arithmetic");
        reveal_strlit("fizzbuzz/comparison");
        reveal_strlit("fizzbuzz/case");
        assert("fizzbuzz/counter"@.len() == 16);
        assert("fizzbuzz/arithmetic"@.len() == 19);
        assert("fizzbuzz/comparison"@.len() == 19);
        assert("fizzbuzz/case"@.len() == 13);
        assert("fizzbuzz/arithmetic"@[9] != "fizzbuzz/comparison"@[9]);
    }
    let type_ref = compiled.type_ref.as_str();
    if same_text(type_ref, "fizzbuzz/counter") {
        counter_check(compiled)
    } else if same_text(type_ref, "fizzbuzz/arithmetic") || same_text(type_ref, "fizzbuzz/comparison") {
        operands_check(compiled)
    } else if same_text(type_ref, "fizzbuzz/case") {
        case_check(compiled)
    } else {
        let none: Vec<String> = Vec::new();
        assert(views(none@) =~= Seq::<Seq<char>>::empty());
        none
    }
}

} // verus!
