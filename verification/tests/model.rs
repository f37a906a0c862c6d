use deep_contract_auth::context::{
    copy_args, same_args, valid_operation_name, InvocationContext, Principal, Value,
    MAX_OPERATION_NAME_LEN,
};
use deep_contract_auth::node::AuthorizationNode;
use deep_contract_auth::units::{
    one_address, one_node, three_addresses, two_addresses, two_nodes,
};

const P: Principal = Principal { id: 1 };
const Q: Principal = Principal { id: 2 };

#[test]
fn operation_names() {
    assert!(!valid_operation_name(""));
    assert!(valid_operation_name("a"));
    assert!(valid_operation_name("authorized_fn_c"));
    assert!(valid_operation_name("azAZ09_"));
    assert!(!valid_operation_name("with space"));
    assert!(!valid_operation_name("dash-ed"));
    assert!(!valid_operation_name("caf\u{e9}"));
    assert!(!valid_operation_name("`"));
    assert!(!valid_operation_name("{"));
    assert!(!valid_operation_name("@"));
    assert!(!valid_operation_name("["));
    assert!(!valid_operation_name("/"));
    assert!(!valid_operation_name(":"));
}

#[test]
fn operation_name_length_limit() {
    assert_eq!(MAX_OPERATION_NAME_LEN, 32);
    let longest = "a".repeat(32);
    let too_long = "a".repeat(33);
    assert!(valid_operation_name(&longest));
    assert!(!valid_operation_name(&too_long));
    assert!(InvocationContext::new(P, &longest, vec![]).is_well_formed());
    assert!(!InvocationContext::new(P, &too_long, vec![]).is_well_formed());
}

#[test]
fn contexts_are_equal_when_all_three_parts_are() {
    let base = InvocationContext::new(P, "op", vec![Value::Address(Q), Value::Number(5)]);
    assert!(base.same_as(&InvocationContext::new(
        P,
        "op",
        vec![Value::Address(Q), Value::Number(5)]
    )));
    assert!(!base.same_as(&InvocationContext::new(
        Q,
        "op",
        vec![Value::Address(Q), Value::Number(5)]
    )));
    assert!(!base.same_as(&InvocationContext::new(
        P,
        "po",
        vec![Value::Address(Q), Value::Number(5)]
    )));
    assert!(!base.same_as(&InvocationContext::new(
        P,
        "op",
        vec![Value::Number(5), Value::Address(Q)]
    )));
    assert!(!base.same_as(&InvocationContext::new(P, "op", vec![Value::Address(Q)])));
    // An address and a number are different values.
    assert!(!InvocationContext::new(P, "op", vec![Value::Number(2)])
        .same_as(&InvocationContext::new(P, "op", vec![Value::Address(Q)])));
}

#[test]
fn argument_lists() {
    let args = vec![Value::Address(P), Value::Number(-3)];
    assert!(same_args(&args, &copy_args(&args)));
    assert_eq!(copy_args(&args), args);
    assert!(!same_args(&args, &vec![Value::Address(P)]));
    assert!(same_args(&vec![], &vec![]));
    assert_eq!(one_address(P), vec![Value::Address(P)]);
    assert_eq!(two_addresses(P, Q), vec![Value::Address(P), Value::Address(Q)]);
    assert_eq!(
        three_addresses(Q, P, Q),
        vec![Value::Address(Q), Value::Address(P), Value::Address(Q)]
    );
}

#[test]
fn duplicate_copies_the_whole_tree() {
    let tree = AuthorizationNode::new(
        InvocationContext::new(P, "root", vec![Value::Number(1)]),
        vec![
            AuthorizationNode::leaf(InvocationContext::new(Q, "left", vec![])),
            AuthorizationNode::new(
                InvocationContext::new(Q, "right", vec![Value::Address(P)]),
                vec![AuthorizationNode::leaf(InvocationContext::new(P, "below", vec![]))],
            ),
        ],
    );
    let copy = tree.duplicate();
    assert!(copy.context.same_as(&tree.context));
    assert_eq!(copy.children.len(), 2);
    assert_eq!(copy.children[0].context.operation, "left");
    assert_eq!(copy.children[1].context.operation, "right");
    assert_eq!(copy.children[1].context.args, vec![Value::Address(P)]);
    assert_eq!(copy.children[1].children.len(), 1);
    assert_eq!(copy.children[1].children[0].context.operation, "below");
    let context = tree.context.duplicate();
    assert!(context.same_as(&tree.context));
}

#[test]
fn a_tree_is_well_formed_when_every_node_is() {
    let good = AuthorizationNode::new(
        InvocationContext::new(P, "root", vec![]),
        vec![AuthorizationNode::leaf(InvocationContext::new(Q, "_", vec![]))],
    );
    assert!(good.is_well_formed());
    let empty_below = AuthorizationNode::new(
        InvocationContext::new(P, "root", vec![]),
        vec![AuthorizationNode::leaf(InvocationContext::new(Q, "", vec![]))],
    );
    assert!(!empty_below.is_well_formed());
    let empty_with_arguments =
        AuthorizationNode::leaf(InvocationContext::new(P, "", vec![Value::Number(1)]));
    assert!(!empty_with_arguments.is_well_formed());
    let bad_below = AuthorizationNode::new(
        InvocationContext::new(P, "root", vec![]),
        vec![
            AuthorizationNode::leaf(InvocationContext::new(Q, "fine", vec![])),
            AuthorizationNode::new(
                InvocationContext::new(Q, "fine", vec![]),
                vec![AuthorizationNode::leaf(InvocationContext::new(Q, "no good", vec![]))],
            ),
        ],
    );
    assert!(!bad_below.is_well_formed());
    let bad_root = AuthorizationNode::leaf(InvocationContext::new(P, "no.good", vec![]));
    assert!(!bad_root.is_well_formed());
}

#[test]
fn declarations_keep_their_order() {
    let first = AuthorizationNode::leaf(InvocationContext::new(P, "first", vec![]));
    let second = AuthorizationNode::leaf(InvocationContext::new(P, "second", vec![]));
    let one = one_node(first.duplicate());
    assert_eq!(one.len(), 1);
    assert_eq!(one[0].context.operation, "first");
    let two = two_nodes(first, second);
    assert_eq!(two.len(), 2);
    assert_eq!(two[0].context.operation, "first");
    assert_eq!(two[1].context.operation, "second");
}
