use nodetool::compile::CompiledNode;
use nodetool::fizzbuzz_nodes::{check, node_types};
use nodetool::literal::Scalar;
use nodetool::parameters::CompiledParameter;
use nodetool::resolve::Resolved;
use nodetool::scalars::I32;

fn choices(type_ref: &str) -> Vec<(String, Vec<String>)> {
    node_types()
        .into_iter()
        .find(|node_type| node_type.type_ref == type_ref)
        .expect("the fizzbuzz plugin declares this node")
        .choices
        .into_iter()
        .map(|choice| (choice.name, choice.options))
        .collect()
}

#[test]
fn the_operator_nodes_declare_their_operation_as_a_choice() {
    assert_eq!(
        choices("fizzbuzz/arithmetic"),
        vec![(
            "op".to_owned(),
            ["add", "subtract", "multiply", "divide", "modulo"].map(str::to_owned).to_vec()
        )]
    );
    assert_eq!(
        choices("fizzbuzz/comparison"),
        vec![(
            "cmp".to_owned(),
            ["equal", "not equal", "less", "less or equal", "greater", "greater or equal"]
                .map(str::to_owned)
                .to_vec()
        )]
    );
    // Every other type of the crate declares no setting at all.
    assert!(choices("fizzbuzz/counter").is_empty());
    assert!(choices("fizzbuzz/output").is_empty());
}

#[test]
fn the_plugin_declares_its_five_node_types() {
    let mut fizzbuzz: Vec<(String, Option<String>, String)> = node_types()
        .into_iter()
        .filter(|node_type| node_type.plugin == "fizzbuzz")
        .map(|node_type| (node_type.type_ref, node_type.sub_group, node_type.label))
        .collect();
    fizzbuzz.sort_unstable();
    let expected: Vec<(String, Option<String>, String)> = [
        ("fizzbuzz/arithmetic", "Arithmetic"),
        ("fizzbuzz/case", "Case selection"),
        ("fizzbuzz/comparison", "Comparison"),
        ("fizzbuzz/counter", "Counter"),
        ("fizzbuzz/output", "Output"),
    ]
    .iter()
    .map(|(type_ref, label)| (type_ref.to_string(), None, label.to_string()))
    .collect();
    assert_eq!(fizzbuzz, expected);
}

fn counter_node(parameters: &[(&str, Scalar)], fed: &[&str], resolved: bool) -> CompiledNode {
    CompiledNode {
        type_ref: "fizzbuzz/counter".to_owned(),
        label: "Counter".to_owned(),
        parameters: parameters
            .iter()
            .map(|(name, value)| {
                let parameter = CompiledParameter {
                    resolved_type: Resolved { id: I32, name: "i32".to_owned() },
                    value: value.copy(),
                    conversion: None,
                };
                (name.to_string(), parameter)
            })
            .collect(),
        families: if resolved {
            vec![("numeric".to_owned(), Resolved { id: I32, name: "i32".to_owned() })]
        } else {
            vec![]
        },
        fed: fed.iter().map(|name| name.to_string()).collect(),
    }
}

#[test]
fn the_counter_check_names_each_uncarried_input_then_a_zero_step() {
    let errors = check(&counter_node(&[("step", Scalar::I32(0))], &["start"], true));
    assert_eq!(
        errors,
        [
            "input `stop` holds no parameter value and no connection feeds it — the node would never fire",
            "input `step` holds a zero parameter — the sequence would never move",
        ]
    );
    assert!(check(&counter_node(&[("step", Scalar::I32(2))], &["start", "stop"], true)).is_empty());
}

#[test]
fn a_counter_whose_family_did_not_resolve_takes_no_further_check() {
    assert!(check(&counter_node(&[], &[], false)).is_empty());
}

#[test]
fn an_output_node_declares_no_check() {
    let mut node = counter_node(&[], &[], true);
    node.type_ref = "fizzbuzz/output".to_owned();
    assert!(check(&node).is_empty());
}
