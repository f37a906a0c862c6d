use deep_contract_auth::context::{InvocationContext, Principal, Value};
use deep_contract_auth::engine::{AuthEngine, Origin};
use deep_contract_auth::error::AuthError;
use deep_contract_auth::node::AuthorizationNode;
use deep_contract_auth::pool::{take_scoped_match, AuthorizationPool, Pending};
use deep_contract_auth::program::{apply, run, Operation};
use deep_contract_auth::tracker::{CallTreeTracker, FrameHandle};

const P: Principal = Principal { id: 10 };
const Q: Principal = Principal { id: 11 };
const U1: Principal = Principal { id: 21 };
const U2: Principal = Principal { id: 22 };
const U3: Principal = Principal { id: 23 };

fn context(target: Principal, operation: &str, numbers: &[i128]) -> InvocationContext {
    InvocationContext::new(target, operation, numbers.iter().map(|n| Value::Number(*n)).collect())
}

fn leaf(target: Principal, operation: &str, numbers: &[i128]) -> AuthorizationNode {
    AuthorizationNode::leaf(context(target, operation, numbers))
}

fn tree(
    target: Principal,
    operation: &str,
    numbers: &[i128],
    children: Vec<AuthorizationNode>,
) -> AuthorizationNode {
    AuthorizationNode::new(context(target, operation, numbers), children)
}

/// One invocation that asks for the consent of `principal` and returns.
fn invoke(
    engine: &mut AuthEngine,
    target: Principal,
    operation: &str,
    numbers: &[i128],
    principal: Principal,
) -> Result<(), AuthError> {
    let args = numbers.iter().map(|n| Value::Number(*n)).collect();
    let handle = engine.enter(target, operation, args);
    let answer = engine.require_authorization(principal);
    engine.exit(handle).unwrap();
    answer
}

#[test]
fn single_authorization_single_use() {
    let mut engine = AuthEngine::new();
    engine.declare(P, leaf(U1, "x", &[7])).unwrap();
    assert_eq!(invoke(&mut engine, U1, "x", &[7], P), Ok(()));
    assert_eq!(invoke(&mut engine, U1, "x", &[7], P), Err(AuthError::AuthorizationDenied));
    assert_eq!(engine.trace().len(), 1);
}

#[test]
fn single_authorization_is_not_reused_in_the_same_frame() {
    let mut engine = AuthEngine::new();
    engine.declare(P, leaf(U1, "x", &[])).unwrap();
    engine.enter(U1, "x", vec![]);
    assert_eq!(engine.require_authorization(P), Ok(()));
    assert_eq!(engine.require_authorization(P), Err(AuthError::AuthorizationDenied));
}

#[test]
fn replenishment() {
    let mut engine = AuthEngine::new();
    engine.declare(P, leaf(U1, "x", &[7])).unwrap();
    engine.declare(P, leaf(U1, "x", &[7])).unwrap();
    assert_eq!(engine.pool().pending_for(P, &context(U1, "x", &[7])), 2);
    assert_eq!(invoke(&mut engine, U1, "x", &[7], P), Ok(()));
    assert_eq!(engine.pool().pending_for(P, &context(U1, "x", &[7])), 1);
    assert_eq!(invoke(&mut engine, U1, "x", &[7], P), Ok(()));
    assert_eq!(engine.pool().pending_for(P, &context(U1, "x", &[7])), 0);
    assert_eq!(invoke(&mut engine, U1, "x", &[7], P), Err(AuthError::AuthorizationDenied));
}

#[test]
fn replenishment_between_calls() {
    let mut engine = AuthEngine::new();
    engine.declare(P, leaf(U1, "x", &[])).unwrap();
    assert_eq!(invoke(&mut engine, U1, "x", &[], P), Ok(()));
    engine.declare(P, leaf(U1, "x", &[])).unwrap();
    assert_eq!(invoke(&mut engine, U1, "x", &[], P), Ok(()));
    assert_eq!(engine.trace().len(), 2);
}

#[test]
fn scope_locality() {
    let mut engine = AuthEngine::new();
    engine.declare(P, tree(U1, "outer", &[], vec![leaf(U2, "inner", &[])])).unwrap();

    // Under the frame that matched the root, the child authorizes.
    let f1 = engine.enter(U1, "outer", vec![]);
    assert_eq!(engine.require_authorization(P), Ok(()));
    assert_eq!(engine.tracker().active_frame().unwrap().scoped_pending_children.len(), 1);
    engine.exit(f1).unwrap();

    // Under an unrelated frame the same call is denied: the child went with
    // the frame that held it.
    let f2 = engine.enter(U3, "elsewhere", vec![]);
    assert_eq!(invoke(&mut engine, U2, "inner", &[], P), Err(AuthError::AuthorizationDenied));
    engine.exit(f2).unwrap();
    assert_eq!(invoke(&mut engine, U2, "inner", &[], P), Err(AuthError::AuthorizationDenied));
    assert_eq!(engine.pool().len(), 0);
}

#[test]
fn scoped_children_are_not_visible_to_the_frame_itself() {
    let mut engine = AuthEngine::new();
    engine.declare(P, tree(U1, "x", &[], vec![leaf(U1, "x", &[])])).unwrap();
    engine.enter(U1, "x", vec![]);
    assert_eq!(engine.require_authorization(P), Ok(()));
    // The child has the context of the frame, but it is for a nested call.
    assert_eq!(engine.require_authorization(P), Err(AuthError::AuthorizationDenied));
    // The same unit entering again below its own frame is such a call.
    assert_eq!(invoke(&mut engine, U1, "x", &[], P), Ok(()));
    assert_eq!(engine.trace()[1].origin, Origin::Scoped);
}

#[test]
fn scoped_child_is_consumed_once_among_siblings() {
    let mut engine = AuthEngine::new();
    engine.declare(P, tree(U1, "outer", &[], vec![leaf(U2, "inner", &[])])).unwrap();
    engine.enter(U1, "outer", vec![]);
    engine.require_authorization(P).unwrap();
    assert_eq!(invoke(&mut engine, U2, "inner", &[], P), Ok(()));
    assert_eq!(invoke(&mut engine, U2, "inner", &[], P), Err(AuthError::AuthorizationDenied));
}

#[test]
fn root_mismatch_opacity() {
    let mut engine = AuthEngine::new();
    engine.declare(P, tree(U1, "never_called", &[], vec![leaf(U2, "inner", &[])])).unwrap();
    let f1 = engine.enter(U1, "outer", vec![]);
    assert_eq!(engine.require_authorization(P), Err(AuthError::AuthorizationDenied));
    assert_eq!(invoke(&mut engine, U2, "inner", &[], P), Err(AuthError::AuthorizationDenied));
    engine.exit(f1).unwrap();
    assert_eq!(invoke(&mut engine, U2, "inner", &[], P), Err(AuthError::AuthorizationDenied));
    // The tree is still pending, as a whole.
    assert_eq!(engine.pool().len(), 1);
    assert_eq!(engine.pool().pending_for(P, &context(U1, "never_called", &[])), 1);
    assert_eq!(engine.trace().len(), 0);
}

#[test]
fn unmatched_root_changes_no_answer() {
    // The same operations with and without a tree whose root matches no call.
    let mut answers = Vec::new();
    for with_tree in [false, true] {
        let mut engine = AuthEngine::new();
        if with_tree {
            engine
                .declare(P, tree(U3, "never_called", &[], vec![leaf(U2, "inner", &[])]))
                .unwrap();
        }
        engine.declare(P, leaf(U1, "outer", &[])).unwrap();
        let mut seen = Vec::new();
        let f1 = engine.enter(U1, "outer", vec![]);
        seen.push(engine.require_authorization(P));
        seen.push(invoke(&mut engine, U2, "inner", &[], P));
        seen.push(engine.exit(f1));
        seen.push(invoke(&mut engine, U1, "outer", &[], P));
        answers.push(seen);
    }
    assert_eq!(answers[0], answers[1]);
    assert_eq!(
        answers[0],
        vec![
            Ok(()),
            Err(AuthError::AuthorizationDenied),
            Ok(()),
            Err(AuthError::AuthorizationDenied)
        ]
    );
}

#[test]
fn depth_propagation() {
    // R -> { C1 }, with R for the call of U1 and C1 for the call of U3, two
    // levels below it.
    let mut engine = AuthEngine::new();
    engine.declare(P, tree(U1, "first", &[1], vec![leaf(U3, "third", &[3])])).unwrap();
    let f1 = engine.enter(U1, "first", vec![Value::Number(1)]);
    assert_eq!(engine.require_authorization(P), Ok(()));
    let f2 = engine.enter(U2, "second", vec![Value::Number(2)]);
    let f3 = engine.enter(U3, "third", vec![Value::Number(3)]);
    assert_eq!(engine.require_authorization(P), Ok(()));
    assert_eq!(engine.trace()[1].origin, Origin::Scoped);
    engine.exit(f3).unwrap();
    engine.exit(f2).unwrap();
    engine.exit(f1).unwrap();

    // With the root altered so that it does not match the call of U1, the
    // same request of U3 is denied, though C1 is unchanged.
    let mut engine = AuthEngine::new();
    engine.declare(P, tree(U1, "first", &[0], vec![leaf(U3, "third", &[3])])).unwrap();
    engine.enter(U1, "first", vec![Value::Number(1)]);
    assert_eq!(engine.require_authorization(P), Err(AuthError::AuthorizationDenied));
    engine.enter(U2, "second", vec![Value::Number(2)]);
    engine.enter(U3, "third", vec![Value::Number(3)]);
    assert_eq!(engine.require_authorization(P), Err(AuthError::AuthorizationDenied));
}

#[test]
fn three_levels_are_matched_in_nested_order() {
    let mut engine = AuthEngine::new();
    engine
        .declare(
            P,
            tree(U1, "first", &[], vec![tree(U2, "second", &[], vec![leaf(U3, "third", &[])])]),
        )
        .unwrap();
    engine.enter(U1, "first", vec![]);
    engine.require_authorization(P).unwrap();
    // The third level is not open before the second has been matched.
    assert_eq!(invoke(&mut engine, U3, "third", &[], P), Err(AuthError::AuthorizationDenied));
    engine.enter(U2, "second", vec![]);
    engine.require_authorization(P).unwrap();
    assert_eq!(invoke(&mut engine, U3, "third", &[], P), Ok(()));
    assert_eq!(engine.trace().len(), 3);
}

#[test]
fn idempotent_tracker() {
    let mut engine = AuthEngine::new();
    let outer = engine.enter(U1, "outer", vec![]);
    let before = engine.tracker().active();
    assert_eq!(before, Some(outer));
    let mut handles = Vec::new();
    for i in 0..5 {
        handles.push(engine.enter(U2, "nested", vec![Value::Number(i)]));
    }
    assert_eq!(engine.tracker().depth(), 6);
    while let Some(handle) = handles.pop() {
        assert_eq!(engine.exit(handle), Ok(()));
    }
    assert_eq!(engine.tracker().active(), before);
    assert_eq!(engine.tracker().depth(), 1);
}

#[test]
fn tracker_alone_is_idempotent() {
    let mut tracker = CallTreeTracker::new();
    assert_eq!(tracker.active(), None);
    let a = tracker.enter(U1, "a", vec![]);
    let b = tracker.enter(U1, "a", vec![]);
    assert_eq!(a, FrameHandle { id: 0 });
    assert_eq!(b, FrameHandle { id: 1 });
    assert_eq!(tracker.active_frame().unwrap().parent, Some(a));
    assert_eq!(tracker.caller(), Some(U1));
    assert_eq!(tracker.exit(b), Ok(()));
    assert_eq!(tracker.active_frame().unwrap().parent, None);
    assert_eq!(tracker.caller(), None);
    assert_eq!(tracker.exit(a), Ok(()));
    assert_eq!(tracker.active(), None);
    assert_eq!(tracker.depth(), 0);
    assert_eq!(tracker.entered(), 2);
}

#[test]
fn exit_of_a_frame_that_is_not_innermost_is_refused() {
    let mut engine = AuthEngine::new();
    let outer = engine.enter(U1, "outer", vec![]);
    let inner = engine.enter(U2, "inner", vec![]);
    assert_eq!(engine.exit(outer), Err(AuthError::FrameInvariantViolation));
    assert_eq!(engine.tracker().depth(), 2);
    assert_eq!(engine.exit(inner), Ok(()));
    assert_eq!(engine.exit(outer), Ok(()));
}

#[test]
fn double_exit_is_refused() {
    let mut engine = AuthEngine::new();
    let outer = engine.enter(U1, "outer", vec![]);
    let inner = engine.enter(U2, "inner", vec![]);
    assert_eq!(engine.exit(inner), Ok(()));
    assert_eq!(engine.exit(inner), Err(AuthError::FrameInvariantViolation));
    // A frame entered later at the same depth is another frame.
    let again = engine.enter(U2, "inner", vec![]);
    assert_ne!(again, inner);
    assert_eq!(engine.exit(inner), Err(AuthError::FrameInvariantViolation));
    assert_eq!(engine.exit(again), Ok(()));
    assert_eq!(engine.exit(outer), Ok(()));
    assert_eq!(engine.exit(outer), Err(AuthError::FrameInvariantViolation));
}

#[test]
fn check_without_a_frame_is_a_violation() {
    let mut engine = AuthEngine::new();
    engine.declare(P, leaf(U1, "x", &[])).unwrap();
    assert_eq!(engine.require_authorization(P), Err(AuthError::FrameInvariantViolation));
    assert_eq!(engine.require_auth(P), Err(AuthError::FrameInvariantViolation));
    assert_eq!(engine.authorize_as_self(vec![]), Err(AuthError::FrameInvariantViolation));
    assert_eq!(engine.pool().len(), 1);
}

#[test]
fn malformed_declaration_is_refused() {
    let mut engine = AuthEngine::new();
    assert_eq!(engine.declare(P, leaf(U1, "not valid", &[])), Err(AuthError::MalformedDeclaration));
    assert_eq!(
        engine.declare(P, tree(U1, "fine", &[], vec![leaf(U2, "not-fine", &[])])),
        Err(AuthError::MalformedDeclaration)
    );
    assert_eq!(engine.pool().len(), 0);
}

#[test]
fn malformed_declaration_inserts_nothing() {
    let mut engine = AuthEngine::new();
    engine.enter(U1, "main", vec![]);
    let nodes = vec![leaf(U2, "good", &[]), leaf(U2, "bad!", &[]), leaf(U2, "good_too", &[])];
    assert_eq!(engine.authorize_as_self(nodes), Err(AuthError::MalformedDeclaration));
    assert_eq!(engine.pool().len(), 0);
    let nodes = vec![leaf(U2, "good", &[]), leaf(U2, "good_too", &[])];
    assert_eq!(engine.authorize_as_self(nodes), Ok(()));
    assert_eq!(engine.pool().len(), 2);
}

#[test]
fn authorize_as_self_declares_for_the_executing_unit() {
    let mut engine = AuthEngine::new();
    engine.enter(U1, "main", vec![]);
    engine.authorize_as_self(vec![leaf(U2, "x", &[])]).unwrap();
    assert_eq!(engine.pool().pending_for(U1, &context(U2, "x", &[])), 1);
    assert_eq!(engine.pool().pending_for(P, &context(U2, "x", &[])), 0);
    // It adds to the pool; it does not replace what is there.
    engine.authorize_as_self(vec![leaf(U2, "x", &[]), leaf(U2, "y", &[])]).unwrap();
    assert_eq!(engine.pool().pending_for(U1, &context(U2, "x", &[])), 2);
    assert_eq!(engine.pool().len(), 3);
    // Nobody else's check is answered by it.
    assert_eq!(invoke(&mut engine, U2, "x", &[], P), Err(AuthError::AuthorizationDenied));
    assert_eq!(invoke(&mut engine, U2, "x", &[], U1), Ok(()));
}

#[test]
fn contexts_match_by_value_and_in_order() {
    let mut engine = AuthEngine::new();
    engine.declare(P, leaf(U1, "x", &[1, 2])).unwrap();
    assert_eq!(invoke(&mut engine, U1, "x", &[2, 1], P), Err(AuthError::AuthorizationDenied));
    assert_eq!(invoke(&mut engine, U1, "x", &[1], P), Err(AuthError::AuthorizationDenied));
    assert_eq!(invoke(&mut engine, U1, "y", &[1, 2], P), Err(AuthError::AuthorizationDenied));
    assert_eq!(invoke(&mut engine, U2, "x", &[1, 2], P), Err(AuthError::AuthorizationDenied));
    assert_eq!(invoke(&mut engine, U1, "x", &[1, 2], Q), Err(AuthError::AuthorizationDenied));
    assert_eq!(invoke(&mut engine, U1, "x", &[1, 2], P), Ok(()));
}

#[test]
fn entries_are_consumed_in_declaration_order() {
    let mut engine = AuthEngine::new();
    engine.declare(P, tree(U1, "x", &[], vec![leaf(U2, "first", &[])])).unwrap();
    engine.declare(P, tree(U1, "x", &[], vec![leaf(U2, "second", &[])])).unwrap();
    engine.enter(U1, "x", vec![]);
    engine.require_authorization(P).unwrap();
    let held = &engine.tracker().active_frame().unwrap().scoped_pending_children;
    assert_eq!(held.len(), 1);
    assert_eq!(held[0].principal, P);
    assert_eq!(held[0].node.context.operation, "first");
}

#[test]
fn scoped_entries_come_before_roots_and_the_innermost_first() {
    let mut engine = AuthEngine::new();
    engine
        .declare(P, tree(U1, "outer", &[], vec![tree(U3, "x", &[], vec![leaf(U3, "far", &[])])]))
        .unwrap();
    engine
        .declare(P, tree(U2, "inner", &[], vec![tree(U3, "x", &[], vec![leaf(U3, "near", &[])])]))
        .unwrap();
    engine.declare(P, tree(U3, "x", &[], vec![leaf(U3, "root", &[])])).unwrap();
    engine.enter(U1, "outer", vec![]);
    engine.require_authorization(P).unwrap();
    engine.enter(U2, "inner", vec![]);
    engine.require_authorization(P).unwrap();
    for expected in ["near", "far", "root"] {
        let frame = engine.enter(U3, "x", vec![]);
        assert_eq!(engine.require_authorization(P), Ok(()));
        let held = &engine.tracker().active_frame().unwrap().scoped_pending_children;
        assert_eq!(held[0].node.context.operation, expected);
        engine.exit(frame).unwrap();
    }
    assert_eq!(invoke(&mut engine, U3, "x", &[], P), Err(AuthError::AuthorizationDenied));
    let origins: Vec<Origin> = engine.trace().iter().map(|entry| entry.origin).collect();
    assert_eq!(
        origins,
        vec![Origin::Root, Origin::Root, Origin::Scoped, Origin::Scoped, Origin::Root]
    );
}

#[test]
fn scoped_entries_answer_only_their_principal() {
    let mut engine = AuthEngine::new();
    engine.declare(P, tree(U1, "outer", &[], vec![leaf(U2, "inner", &[])])).unwrap();
    engine.enter(U1, "outer", vec![]);
    engine.require_authorization(P).unwrap();
    assert_eq!(invoke(&mut engine, U2, "inner", &[], Q), Err(AuthError::AuthorizationDenied));
    assert_eq!(invoke(&mut engine, U2, "inner", &[], P), Ok(()));
}

#[test]
fn denial_changes_nothing() {
    let mut engine = AuthEngine::new();
    engine.declare(P, leaf(U1, "x", &[])).unwrap();
    let frame = engine.enter(U1, "y", vec![]);
    assert_eq!(engine.require_authorization(P), Err(AuthError::AuthorizationDenied));
    assert_eq!(engine.pool().len(), 1);
    assert_eq!(engine.trace().len(), 0);
    assert_eq!(engine.tracker().active(), Some(frame));
    assert_eq!(engine.tracker().active_frame().unwrap().scoped_pending_children.len(), 0);
}

#[test]
fn require_auth_passes_the_direct_caller() {
    let mut engine = AuthEngine::new();
    engine.enter(U1, "caller", vec![]);
    engine.enter(U2, "callee", vec![]);
    assert_eq!(engine.require_auth(U1), Ok(()));
    assert_eq!(engine.trace().len(), 0);
    // The executing unit itself, and anyone else, needs a declaration.
    assert_eq!(engine.require_auth(U2), Err(AuthError::AuthorizationDenied));
    assert_eq!(engine.require_auth(P), Err(AuthError::AuthorizationDenied));
    // Only the direct caller passes: U1 is not the caller of U3.
    engine.enter(U3, "deeper", vec![]);
    assert_eq!(engine.require_auth(U1), Err(AuthError::AuthorizationDenied));
    assert_eq!(engine.require_auth(U2), Ok(()));
    // The plain checkpoint knows no callers.
    assert_eq!(engine.require_authorization(U2), Err(AuthError::AuthorizationDenied));
}

#[test]
fn require_auth_consumes_for_anyone_else() {
    let mut engine = AuthEngine::new();
    engine.declare(P, leaf(U2, "callee", &[])).unwrap();
    engine.enter(U1, "caller", vec![]);
    engine.enter(U2, "callee", vec![]);
    assert_eq!(engine.require_auth(P), Ok(()));
    assert_eq!(engine.require_auth(P), Err(AuthError::AuthorizationDenied));
    assert_eq!(engine.trace().len(), 1);
    assert_eq!(engine.trace()[0].principal, P);
    assert!(engine.trace()[0].context.same_as(&context(U2, "callee", &[])));
}

#[test]
fn pool_takes_the_first_match_and_keeps_the_rest_in_order() {
    let mut pool = AuthorizationPool::new();
    pool.declare(P, tree(U1, "x", &[], vec![leaf(U2, "one", &[])])).unwrap();
    pool.declare(Q, leaf(U1, "x", &[])).unwrap();
    pool.declare(P, tree(U1, "x", &[], vec![leaf(U2, "two", &[])])).unwrap();
    assert_eq!(pool.len(), 3);
    assert_eq!(pool.pending_for(P, &context(U1, "x", &[])), 2);
    assert!(pool.take_root_match(P, &context(U1, "y", &[])).is_none());
    assert_eq!(pool.len(), 3);
    let taken = pool.take_root_match(P, &context(U1, "x", &[])).unwrap();
    assert_eq!(taken.children[0].context.operation, "one");
    let taken = pool.take_root_match(P, &context(U1, "x", &[])).unwrap();
    assert_eq!(taken.children[0].context.operation, "two");
    assert!(pool.take_root_match(P, &context(U1, "x", &[])).is_none());
    assert_eq!(pool.pending_for(Q, &context(U1, "x", &[])), 1);
    assert_eq!(pool.len(), 1);
}

#[test]
fn pool_declares_all_or_nothing() {
    let mut pool = AuthorizationPool::new();
    assert_eq!(
        pool.declare_all(P, vec![leaf(U1, "a", &[]), leaf(U1, "b c", &[])]),
        Err(AuthError::MalformedDeclaration)
    );
    assert_eq!(pool.len(), 0);
    assert_eq!(pool.declare_all(P, vec![leaf(U1, "a", &[]), leaf(U1, "b", &[])]), Ok(()));
    assert_eq!(pool.len(), 2);
    // In the order given.
    assert!(pool.take_root_match(P, &context(U1, "b", &[])).is_some());
    assert!(pool.take_root_match(P, &context(U1, "a", &[])).is_some());
}

#[test]
fn scoped_scan_takes_from_a_plain_collection() {
    let mut held = vec![
        Pending { principal: Q, node: leaf(U1, "x", &[]) },
        Pending { principal: P, node: leaf(U1, "x", &[1]) },
        Pending { principal: P, node: leaf(U1, "x", &[]) },
    ];
    assert!(take_scoped_match(&mut held, P, &context(U2, "x", &[])).is_none());
    assert_eq!(held.len(), 3);
    let taken = take_scoped_match(&mut held, P, &context(U1, "x", &[])).unwrap();
    assert!(taken.context.same_as(&context(U1, "x", &[])));
    assert_eq!(held.len(), 2);
    assert_eq!(held[0].principal, Q);
    assert_eq!(held[1].node.context.args, vec![Value::Number(1)]);
    assert!(take_scoped_match(&mut held, P, &context(U1, "x", &[])).is_none());
}

#[test]
fn tracker_scans_the_enclosing_frames_only() {
    let mut tracker = CallTreeTracker::new();
    tracker.enter(U1, "outer", vec![]);
    tracker.grant(P, tree(U1, "outer", &[], vec![leaf(U1, "outer", &[]), leaf(U2, "inner", &[])]));
    assert_eq!(tracker.active_frame().unwrap().scoped_pending_children.len(), 2);
    // What the frame holds is not for the frame itself.
    assert!(tracker.take_scoped(P).is_none());
    tracker.enter(U2, "inner", vec![]);
    assert!(tracker.take_scoped(Q).is_none());
    let taken = tracker.take_scoped(P).unwrap();
    assert!(taken.context.same_as(&context(U2, "inner", &[])));
    assert!(tracker.take_scoped(P).is_none());
}

#[test]
fn grant_without_a_frame_keeps_nothing() {
    let mut tracker = CallTreeTracker::new();
    tracker.grant(P, tree(U1, "outer", &[], vec![leaf(U2, "inner", &[])]));
    assert_eq!(tracker.depth(), 0);
    tracker.enter(U2, "inner", vec![]);
    assert!(tracker.take_scoped(P).is_none());
}

#[test]
fn trace_is_handed_out_at_the_end() {
    let mut engine = AuthEngine::new();
    engine.declare(P, leaf(U1, "x", &[1])).unwrap();
    engine.declare(Q, leaf(U1, "x", &[1])).unwrap();
    engine.declare(P, leaf(U2, "never", &[])).unwrap();
    assert_eq!(invoke(&mut engine, U1, "x", &[1], Q), Ok(()));
    assert_eq!(invoke(&mut engine, U1, "x", &[1], P), Ok(()));
    let trace = engine.into_trace();
    assert_eq!(trace.len(), 2);
    assert_eq!(trace[0].principal, Q);
    assert_eq!(trace[1].principal, P);
    assert!(trace[0].context.same_as(&context(U1, "x", &[1])));
    assert_eq!(trace[1].origin, Origin::Root);
}

fn script(handles: [u64; 2]) -> Vec<Operation> {
    vec![
        Operation::Enter { principal: U1, operation: "outer".to_string(), args: vec![] },
        Operation::AuthorizeAsSelf(vec![leaf(U2, "inner", &[])]),
        Operation::Require(P),
        Operation::Enter { principal: U2, operation: "inner".to_string(), args: vec![] },
        Operation::Require(P),
        Operation::RequireAuth(U1),
        Operation::Require(U1),
        Operation::Require(U1),
        Operation::Exit(FrameHandle { id: handles[0] }),
        Operation::Exit(FrameHandle { id: handles[1] }),
        Operation::Exit(FrameHandle { id: handles[0] }),
        Operation::Declare(P, leaf(U1, "bad name", &[])),
        Operation::AuthorizeAsSelf(vec![]),
    ]
}

#[test]
fn run_performs_the_operations_in_order() {
    let mut engine = AuthEngine::new();
    engine.declare(P, leaf(U1, "outer", &[])).unwrap();
    let answers = run(&mut engine, script([0, 1]));
    assert_eq!(
        answers,
        vec![
            Ok(()),
            Ok(()),
            Ok(()),
            Ok(()),
            Err(AuthError::AuthorizationDenied),
            Ok(()),
            Ok(()),
            Err(AuthError::AuthorizationDenied),
            Err(AuthError::FrameInvariantViolation),
            Ok(()),
            Ok(()),
            Err(AuthError::MalformedDeclaration),
            Err(AuthError::FrameInvariantViolation),
        ]
    );
    assert_eq!(engine.tracker().depth(), 0);
    assert_eq!(engine.pool().len(), 0);
    assert_eq!(engine.trace().len(), 2);
}

#[test]
fn run_is_not_changed_by_a_tree_whose_root_no_call_matches() {
    let mut without = AuthEngine::new();
    without.declare(P, leaf(U1, "outer", &[])).unwrap();
    let mut with = AuthEngine::new();
    with.declare(P, leaf(U1, "outer", &[])).unwrap();
    with.declare(
        P,
        tree(U3, "unmatched", &[], vec![leaf(U2, "inner", &[]), leaf(U1, "outer", &[])]),
    )
    .unwrap();
    with.declare(U1, tree(U3, "unmatched", &[], vec![leaf(U2, "inner", &[])])).unwrap();
    let expected = run(&mut without, script([0, 1]));
    let answers = run(&mut with, script([0, 1]));
    assert_eq!(answers, expected);
    assert_eq!(with.trace().len(), without.trace().len());
    assert_eq!(with.pool().len(), without.pool().len() + 2);
}

#[test]
fn apply_performs_one_operation() {
    let mut engine = AuthEngine::new();
    assert_eq!(apply(&mut engine, Operation::Require(P)), Err(AuthError::FrameInvariantViolation));
    assert_eq!(
        apply(
            &mut engine,
            Operation::Enter {
                principal: U1,
                operation: "x".to_string(),
                args: vec![Value::Number(1)]
            }
        ),
        Ok(())
    );
    let handle = engine.tracker().active().unwrap();
    assert!(engine.tracker().active_frame().unwrap().context.same_as(&context(U1, "x", &[1])));
    assert_eq!(apply(&mut engine, Operation::Declare(P, leaf(U1, "x", &[1]))), Ok(()));
    assert_eq!(apply(&mut engine, Operation::Require(P)), Ok(()));
    assert_eq!(apply(&mut engine, Operation::Exit(handle)), Ok(()));
    assert_eq!(engine.tracker().depth(), 0);
}

#[test]
fn empty_context_is_refused() {
    let mut engine = AuthEngine::new();
    assert_eq!(engine.declare(P, leaf(U1, "", &[])), Err(AuthError::MalformedDeclaration));
    assert_eq!(engine.declare(P, leaf(U1, "", &[1])), Err(AuthError::MalformedDeclaration));
    assert_eq!(
        engine.declare(P, tree(U1, "outer", &[], vec![leaf(U2, "", &[])])),
        Err(AuthError::MalformedDeclaration)
    );
    assert_eq!(engine.pool().len(), 0);
    // A call without an operation name can run; nothing can be declared
    // for it.
    assert_eq!(invoke(&mut engine, U1, "", &[], P), Err(AuthError::AuthorizationDenied));
}
