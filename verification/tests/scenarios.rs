use deep_contract_auth::context::{InvocationContext, Principal, Value};
use deep_contract_auth::engine::{AuthEngine, Origin};
use deep_contract_auth::error::AuthError;
use deep_contract_auth::units::{ContractA, ContractB, ContractC, ContractD};

struct Addresses {
    a: Principal,
    b: Principal,
    c: Principal,
    d: Principal,
}

fn register() -> Addresses {
    Addresses {
        a: Principal { id: 1 },
        b: Principal { id: 2 },
        c: Principal { id: 3 },
        d: Principal { id: 4 },
    }
}

fn call_of_c(at: &Addresses) -> InvocationContext {
    InvocationContext::new(at.c, "authorized_fn_c", vec![Value::Address(at.a)])
}

/// A calls B calls C, with C asking for the authorization of A.
#[test]
fn test_direct_chain_call() {
    let mut env = AuthEngine::new();
    let at = register();
    ContractA::call_b(&mut env, at.a, at.b, at.c).unwrap();
}

/// A calls B calls D calls C, with C asking for the authorization of A.
/// A only gives B authorization, and has no knowledge of D.
#[test]
fn test_indirect_call() {
    let mut env = AuthEngine::new();
    let at = register();
    ContractA::call_d_through_b(&mut env, at.a, at.b, at.c, at.d).unwrap();
}

/// A calls B twice, whilst only passing one authorization for C.
#[test]
#[should_panic]
fn test_indirect_double_call_single_auth() {
    let mut env = AuthEngine::new();
    let at = register();
    ContractA::call_b_twice_single_auth(&mut env, at.a, at.b, at.c, at.d).unwrap();
}

/// A calls B twice, and authorizes C twice.
#[test]
fn test_indirect_double_call() {
    let mut env = AuthEngine::new();
    let at = register();
    ContractA::call_b_twice_double_auth(&mut env, at.a, at.b, at.c, at.d).unwrap();
}

/// A authorizes B to call C twice, and A calls B once. B calls C twice, and
/// C asks for the authorization of A. The authorization is passed as two
/// root trees in one declaration.
#[test]
fn test_double_authorization() {
    let mut env = AuthEngine::new();
    let at = register();
    ContractA::auth_double_call(&mut env, at.a, at.b, at.c, at.d).unwrap();

    println!("{:?}", env.trace());
}

/// A declares an authorization of the shape [nonsense -> C], where the
/// nonsense is a context without an operation name: the declaration is
/// refused, so this fails.
#[test]
#[should_panic]
fn test_sub_invocation_bad_root() {
    let mut env = AuthEngine::new();
    let at = register();
    ContractA::auth_sub_invocation_bad_root(&mut env, at.a, at.b, at.c, at.d).unwrap();

    println!("{:?}", env.trace());
}

/// A authorizes D (root) and authorizes D to call C (below the root). The
/// call stack is A -> B -> D -> C.
#[test]
fn test_sub_invocation_good_root() {
    let mut env = AuthEngine::new();
    let at = register();
    ContractA::auth_sub_invocation(&mut env, at.a, at.b, at.c, at.d).unwrap();

    println!("{:?}", env.trace());
}

#[test]
fn direct_chain_call_consumes_the_declaration() {
    let mut env = AuthEngine::new();
    let at = register();
    assert_eq!(ContractA::call_b(&mut env, at.a, at.b, at.c), Ok(()));
    assert_eq!(env.tracker().depth(), 0);
    assert_eq!(env.tracker().entered(), 3);
    assert_eq!(env.pool().len(), 0);
    assert_eq!(env.trace().len(), 1);
    assert_eq!(env.trace()[0].principal, at.a);
    assert_eq!(env.trace()[0].origin, Origin::Root);
    assert!(env.trace()[0].context.same_as(&call_of_c(&at)));
}

#[test]
fn indirect_call_enters_four_frames() {
    let mut env = AuthEngine::new();
    let at = register();
    assert_eq!(ContractA::call_d_through_b(&mut env, at.a, at.b, at.c, at.d), Ok(()));
    assert_eq!(env.tracker().depth(), 0);
    assert_eq!(env.tracker().entered(), 4);
    assert_eq!(env.pool().len(), 0);
    assert_eq!(env.trace().len(), 1);
}

#[test]
fn single_auth_second_call_is_denied() {
    let mut env = AuthEngine::new();
    let at = register();
    assert_eq!(
        ContractA::call_b_twice_single_auth(&mut env, at.a, at.b, at.c, at.d),
        Err(AuthError::AuthorizationDenied)
    );
    // The first call consumed the one declaration; the second was denied in
    // the frame of C, below A, B and D. Every frame was left on the way up.
    assert_eq!(env.trace().len(), 1);
    assert!(env.trace()[0].context.same_as(&call_of_c(&at)));
    assert_eq!(env.pool().len(), 0);
    assert_eq!(env.tracker().depth(), 0);
    assert_eq!(env.tracker().active(), None);
    assert_eq!(env.tracker().entered(), 7);
}

#[test]
fn single_auth_passes_when_something_else_is_pending() {
    let mut env = AuthEngine::new();
    let at = register();
    env.declare(at.a, ContractA::allow_call_to_c(at.a, at.c)).unwrap();
    assert_eq!(ContractA::call_b_twice_single_auth(&mut env, at.a, at.b, at.c, at.d), Ok(()));
    assert_eq!(env.pool().len(), 0);
    assert_eq!(env.trace().len(), 2);
}

#[test]
fn single_auth_passes_when_d_is_a_itself() {
    let mut env = AuthEngine::new();
    let at = register();
    // With A in the place of D, C is called by A and asks nothing of the pool.
    assert_eq!(ContractA::call_b_twice_single_auth(&mut env, at.a, at.b, at.c, at.a), Ok(()));
    assert_eq!(env.pool().len(), 1);
    assert_eq!(env.trace().len(), 0);
}

#[test]
fn double_auth_consumes_one_declaration_per_call() {
    let mut env = AuthEngine::new();
    let at = register();
    assert_eq!(ContractA::call_b_twice_double_auth(&mut env, at.a, at.b, at.c, at.d), Ok(()));
    assert_eq!(env.trace().len(), 2);
    assert_eq!(env.pool().len(), 0);
    assert_eq!(env.tracker().depth(), 0);
    assert_eq!(env.tracker().entered(), 7);
}

#[test]
fn double_authorization_consumes_both_roots() {
    let mut env = AuthEngine::new();
    let at = register();
    assert_eq!(ContractA::auth_double_call(&mut env, at.a, at.b, at.c, at.d), Ok(()));
    assert_eq!(env.trace().len(), 2);
    assert_eq!(env.trace()[0].origin, Origin::Root);
    assert_eq!(env.trace()[1].origin, Origin::Root);
    assert_eq!(env.pool().len(), 0);
    assert_eq!(env.tracker().entered(), 5);
}

#[test]
fn bad_root_is_refused_as_malformed() {
    let mut env = AuthEngine::new();
    let at = register();
    env.declare(at.a, ContractA::allow_call_to_c(at.a, at.c)).unwrap();
    assert_eq!(
        ContractA::auth_sub_invocation_bad_root(&mut env, at.a, at.b, at.c, at.d),
        Err(AuthError::MalformedDeclaration)
    );
    // Nothing was declared and B was not called: A entered its frame and
    // left it, and what was pending before is pending still.
    assert_eq!(env.trace().len(), 0);
    assert_eq!(env.tracker().depth(), 0);
    assert_eq!(env.tracker().entered(), 1);
    assert_eq!(env.pool().len(), 1);
    assert_eq!(env.pool().pending_for(at.a, &call_of_c(&at)), 1);
}

#[test]
fn bad_root_is_refused_by_every_way_of_declaring() {
    let at = register();
    let mut env = AuthEngine::new();
    assert_eq!(
        env.declare(at.a, ContractA::allow_call_to_c_under_bad_root(at.a, at.c)),
        Err(AuthError::MalformedDeclaration)
    );
    env.enter(at.a, "main", vec![]);
    assert_eq!(
        env.authorize_as_self(vec![
            ContractA::allow_call_to_c(at.a, at.c),
            ContractA::allow_call_to_c_under_bad_root(at.a, at.c),
        ]),
        Err(AuthError::MalformedDeclaration)
    );
    assert_eq!(env.pool().len(), 0);
}

#[test]
fn good_root_is_matched_by_d_and_its_child_by_c() {
    let mut env = AuthEngine::new();
    let at = register();
    assert_eq!(ContractA::auth_sub_invocation(&mut env, at.a, at.b, at.c, at.d), Ok(()));
    assert_eq!(env.trace().len(), 2);
    let call_of_d = InvocationContext::new(
        at.d,
        "call_c_authorized",
        vec![Value::Address(at.a), Value::Address(at.b), Value::Address(at.c)],
    );
    assert_eq!(env.trace()[0].principal, at.a);
    assert_eq!(env.trace()[0].origin, Origin::Root);
    assert!(env.trace()[0].context.same_as(&call_of_d));
    assert_eq!(env.trace()[1].principal, at.a);
    assert_eq!(env.trace()[1].origin, Origin::Scoped);
    assert!(env.trace()[1].context.same_as(&call_of_c(&at)));
    assert_eq!(env.pool().len(), 0);
    assert_eq!(env.tracker().depth(), 0);
}

#[test]
fn good_root_does_not_authorize_the_plain_chain() {
    // The tree for D's authorized call does nothing for a chain in which D
    // does not ask for A's consent: its root is never matched.
    let mut env = AuthEngine::new();
    let at = register();
    let top = env.enter(at.a, "main", vec![]);
    env.authorize_as_self(vec![ContractA::allow_nested_call_to_c(at.a, at.b, at.c, at.d)])
        .unwrap();
    assert_eq!(
        ContractB::call_d(&mut env, at.b, at.a, at.c, at.d),
        Err(AuthError::AuthorizationDenied)
    );
    assert_eq!(env.pool().len(), 1);
    assert_eq!(env.trace().len(), 0);
    // The denied calls have left their frames: the caller's is innermost.
    assert_eq!(env.tracker().active(), Some(top));
    assert_eq!(env.exit(top), Ok(()));
}

#[test]
fn units_called_by_the_authorizer_need_no_declaration() {
    let mut env = AuthEngine::new();
    let at = register();
    let top = env.enter(at.a, "main", vec![]);
    // A calls C, and B, itself: the direct caller is authorized.
    assert_eq!(ContractC::authorized_fn_c(&mut env, at.c, at.a), Ok(()));
    // Through B, the call of C by B is not made by A.
    assert_eq!(
        ContractB::authorized_fn_b(&mut env, at.b, at.a, at.c),
        Err(AuthError::AuthorizationDenied)
    );
    assert_eq!(env.trace().len(), 0);
    assert_eq!(env.tracker().depth(), 1);
    assert_eq!(env.exit(top), Ok(()));
}

#[test]
fn unit_at_top_level_has_no_caller() {
    let mut env = AuthEngine::new();
    let at = register();
    // Without a caller nobody passes as the direct caller.
    assert_eq!(
        ContractC::authorized_fn_c(&mut env, at.c, at.a),
        Err(AuthError::AuthorizationDenied)
    );
    let mut env = AuthEngine::new();
    env.declare(at.a, ContractA::allow_call_to_c(at.a, at.c)).unwrap();
    assert_eq!(ContractC::authorized_fn_c(&mut env, at.c, at.a), Ok(()));
    assert_eq!(env.pool().len(), 0);
}

#[test]
fn d_asks_for_the_consent_of_b() {
    let mut env = AuthEngine::new();
    let at = register();
    env.declare(at.a, ContractA::allow_call_to_c(at.a, at.c)).unwrap();
    // Called from A's frame, D's check for B is not passed by the caller,
    // and B has declared nothing.
    let top = env.enter(at.a, "main", vec![]);
    assert_eq!(
        ContractD::call_c(&mut env, at.d, at.a, at.b, at.c),
        Err(AuthError::AuthorizationDenied)
    );
    assert_eq!(env.pool().len(), 1);
    assert_eq!(env.exit(top), Ok(()));

    // Called from B's frame it is.
    let mut env = AuthEngine::new();
    env.declare(at.a, ContractA::allow_call_to_c(at.a, at.c)).unwrap();
    env.enter(at.b, "main", vec![]);
    assert_eq!(ContractD::call_c(&mut env, at.d, at.a, at.b, at.c), Ok(()));
    assert_eq!(env.pool().len(), 0);
    assert_eq!(env.tracker().depth(), 1);
}

#[test]
fn d_authorized_needs_a_declaration_for_its_own_call() {
    let mut env = AuthEngine::new();
    let at = register();
    env.declare(at.a, ContractA::allow_call_to_c(at.a, at.c)).unwrap();
    env.enter(at.b, "main", vec![]);
    // B is the caller; A is not, and has declared nothing for this call.
    assert_eq!(
        ContractD::call_c_authorized(&mut env, at.d, at.a, at.b, at.c),
        Err(AuthError::AuthorizationDenied)
    );
    assert_eq!(env.pool().len(), 1);

    let mut env = AuthEngine::new();
    env.declare(at.a, ContractA::allow_nested_call_to_c(at.a, at.b, at.c, at.d)).unwrap();
    env.enter(at.b, "main", vec![]);
    assert_eq!(ContractD::call_c_authorized(&mut env, at.d, at.a, at.b, at.c), Ok(()));
    assert_eq!(env.pool().len(), 0);
    assert_eq!(env.trace().len(), 2);
}

#[test]
fn call_authorized_d_from_a() {
    let mut env = AuthEngine::new();
    let at = register();
    env.declare(at.a, ContractA::allow_nested_call_to_c(at.a, at.b, at.c, at.d)).unwrap();
    env.enter(at.a, "main", vec![]);
    assert_eq!(ContractB::call_authorized_d(&mut env, at.b, at.a, at.c, at.d), Ok(()));
    assert_eq!(env.tracker().depth(), 1);
    assert_eq!(env.tracker().entered(), 4);
}

#[test]
fn call_d_twice_needs_two_declarations() {
    let at = register();
    let mut env = AuthEngine::new();
    env.enter(at.a, "main", vec![]);
    env.authorize_as_self(vec![ContractA::allow_call_to_c(at.a, at.c)]).unwrap();
    assert_eq!(
        ContractB::call_d_twice(&mut env, at.b, at.a, at.c, at.d),
        Err(AuthError::AuthorizationDenied)
    );
    assert_eq!(env.trace().len(), 1);

    let mut env = AuthEngine::new();
    env.enter(at.a, "main", vec![]);
    env.authorize_as_self(vec![
        ContractA::allow_call_to_c(at.a, at.c),
        ContractA::allow_call_to_c(at.a, at.c),
    ])
    .unwrap();
    assert_eq!(ContractB::call_d_twice(&mut env, at.b, at.a, at.c, at.d), Ok(()));
    assert_eq!(env.trace().len(), 2);
    assert_eq!(env.pool().len(), 0);
}

#[test]
fn declared_trees_have_the_shapes_of_the_calls() {
    let at = register();
    let leaf = ContractA::allow_call_to_c(at.a, at.c);
    assert!(leaf.context.same_as(&call_of_c(&at)));
    assert_eq!(leaf.children.len(), 0);
    assert!(leaf.is_well_formed());

    let bad = ContractA::allow_call_to_c_under_bad_root(at.a, at.c);
    assert_eq!(bad.context.target, at.a);
    assert_eq!(bad.context.operation, "");
    assert_eq!(bad.context.args.len(), 0);
    assert_eq!(bad.children.len(), 1);
    assert!(bad.children[0].context.same_as(&call_of_c(&at)));
    assert!(bad.children[0].is_well_formed());
    assert!(!bad.context.is_well_formed());
    assert!(!bad.is_well_formed());

    let nested = ContractA::allow_nested_call_to_c(at.a, at.b, at.c, at.d);
    assert_eq!(nested.context.target, at.d);
    assert_eq!(nested.context.operation, "call_c_authorized");
    assert_eq!(
        nested.context.args,
        vec![Value::Address(at.a), Value::Address(at.b), Value::Address(at.c)]
    );
    assert_eq!(nested.children.len(), 1);
    assert!(nested.children[0].context.same_as(&call_of_c(&at)));
    assert!(nested.is_well_formed());
}

#[test]
fn every_unit_leaves_its_frame_on_an_error() {
    let at = register();
    let stranger = Principal { id: 9 };
    let mut env = AuthEngine::new();
    let top = env.enter(stranger, "main", vec![]);
    let denied = Err(AuthError::AuthorizationDenied);
    assert_eq!(ContractC::authorized_fn_c(&mut env, at.c, at.a), denied);
    assert_eq!(env.tracker().active(), Some(top));
    assert_eq!(ContractD::call_c(&mut env, at.d, at.a, at.b, at.c), denied);
    assert_eq!(env.tracker().active(), Some(top));
    assert_eq!(ContractD::call_c_authorized(&mut env, at.d, at.a, at.b, at.c), denied);
    assert_eq!(env.tracker().active(), Some(top));
    assert_eq!(ContractB::authorized_fn_b(&mut env, at.b, at.a, at.c), denied);
    assert_eq!(env.tracker().active(), Some(top));
    assert_eq!(ContractB::call_d(&mut env, at.b, at.a, at.c, at.d), denied);
    assert_eq!(env.tracker().active(), Some(top));
    assert_eq!(ContractB::call_authorized_d(&mut env, at.b, at.a, at.c, at.d), denied);
    assert_eq!(env.tracker().active(), Some(top));
    assert_eq!(ContractB::call_d_twice(&mut env, at.b, at.a, at.c, at.d), denied);
    assert_eq!(env.tracker().active(), Some(top));
    assert_eq!(ContractA::call_b_twice_single_auth(&mut env, at.a, at.b, at.c, at.d), denied);
    assert_eq!(env.tracker().active(), Some(top));
    assert_eq!(
        ContractA::auth_sub_invocation_bad_root(&mut env, at.a, at.b, at.c, at.d),
        Err(AuthError::MalformedDeclaration)
    );
    assert_eq!(env.tracker().active(), Some(top));
    assert_eq!(env.tracker().depth(), 1);
    // Seven denials at the first check, each one frame deep; then seven
    // frames for the call of A that reaches C twice, and one for the last.
    assert_eq!(env.tracker().entered(), 1 + 7 + 7 + 1);
    assert_eq!(env.exit(top), Ok(()));
}

#[test]
fn a_denial_keeps_what_was_consumed_before_it() {
    let at = register();
    let mut env = AuthEngine::new();
    env.enter(at.a, "main", vec![]);
    env.authorize_as_self(vec![ContractA::allow_call_to_c(at.a, at.c)]).unwrap();
    // One entry where two are needed: the first call of C consumes it, the
    // second is denied.
    assert_eq!(
        ContractB::call_d_twice(&mut env, at.b, at.a, at.c, at.d),
        Err(AuthError::AuthorizationDenied)
    );
    assert_eq!(env.pool().len(), 0);
    assert_eq!(env.trace().len(), 1);
    assert_eq!(env.tracker().depth(), 1);
}

#[test]
fn good_root_leaves_the_pool_as_it_was() {
    let at = register();
    let mut env = AuthEngine::new();
    env.declare(at.b, ContractA::allow_call_to_c(at.b, at.c)).unwrap();
    assert_eq!(ContractA::auth_sub_invocation(&mut env, at.a, at.b, at.c, at.d), Ok(()));
    assert_eq!(env.pool().len(), 1);
    assert_eq!(env.pool().pending_for(at.b, &InvocationContext::new(
        at.c,
        "authorized_fn_c",
        vec![Value::Address(at.b)]
    )), 1);
    assert_eq!(env.trace().len(), 2);
    assert_eq!(env.trace()[0].origin, Origin::Root);
    assert_eq!(env.trace()[1].origin, Origin::Scoped);
    assert_eq!(env.tracker().depth(), 0);
    assert_eq!(env.tracker().entered(), 4);
}

#[test]
fn counts_of_pending_entries_after_each_scenario() {
    let at = register();
    let pending = |env: &AuthEngine| env.pool().pending_for(at.a, &call_of_c(&at));

    let mut env = AuthEngine::new();
    ContractA::call_b(&mut env, at.a, at.b, at.c).unwrap();
    assert_eq!(pending(&env), 0);

    // With A in the place of B, C is called by A itself: the declaration
    // is not needed and stays.
    let mut env = AuthEngine::new();
    ContractA::call_b(&mut env, at.a, at.a, at.c).unwrap();
    assert_eq!(pending(&env), 1);

    let mut env = AuthEngine::new();
    ContractA::call_b_twice_double_auth(&mut env, at.a, at.b, at.c, at.d).unwrap();
    assert_eq!(pending(&env), 0);

    let mut env = AuthEngine::new();
    ContractA::call_b_twice_double_auth(&mut env, at.a, at.b, at.c, at.a).unwrap();
    assert_eq!(pending(&env), 2);

    let mut env = AuthEngine::new();
    ContractA::auth_double_call(&mut env, at.a, at.b, at.c, at.d).unwrap();
    assert_eq!(pending(&env), 0);

    let mut env = AuthEngine::new();
    ContractA::auth_double_call(&mut env, at.a, at.a, at.c, at.d).unwrap();
    assert_eq!(pending(&env), 1);
}
