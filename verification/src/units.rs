//! Four units that call one another and ask for a principal's consent on
//! the way: `A` declares what it accepts and calls `B`; `B` calls `C`
//! directly or through `D`; `B`, `C` and `D` ask for authorization.
//!
//! Every operation here is one invocation: it enters its own frame, does
//! its work and leaves the frame, whether it succeeds or not. The first
//! error ends the work of the invocation: nothing more is asked, declared
//! or called, the frame is left, and the error is handed to the caller.
//! What was declared or consumed before the error stays in the engine; to
//! discard it with the transaction is the host's part.

use crate::context::{ContextView, InvocationContext, Principal, Value};
use crate::engine::{AuthEngine, EngineView};
use crate::error::AuthError;
use crate::node::{views_of, AuthorizationNode, NodeView};
use crate::outcomes::{
    costs, lemma_authorized_fn_b_costs, lemma_authorized_fn_c_costs, lemma_bad_root_malformed,
    lemma_call_authorized_d_result, lemma_call_c_authorized_result, lemma_call_c_costs,
    lemma_call_d_costs, lemma_call_d_twice_costs, lemma_declared_trees_well_formed, needed,
    nested_call_done, only_pending, running_as, single_auth_consumed, sub_invocation_done,
    theorem_auth_double_call, theorem_auth_sub_invocation, theorem_auth_sub_invocation_bad_root,
    theorem_call_b, theorem_call_b_twice_double_auth, theorem_call_b_twice_single_auth,
    theorem_call_d_through_b, turnover, untouched,
};
use crate::pool::{all_nodes_well_formed, granted};
use crate::tracker::{lemma_scoped_hit_below, CallView, FrameHandle};
use vstd::prelude::*;

verus! {

/// A state of the engine together with the answer that led to it.
pub struct Outcome {
    pub state: EngineView,
    pub result: Result<(), AuthError>,
}

impl Outcome {
    /// The outcome of a call that has just begun with `context`.
    pub open spec fn begin(state: EngineView, context: ContextView) -> Outcome {
        Outcome { state: state.enter(context), result: Ok(()) }
    }

    /// Goes on with `step` unless an error has ended the invocation.
    pub open spec fn and_then(self, step: spec_fn(EngineView) -> Outcome) -> Outcome {
        if self.result is Ok {
            step(self.state)
        } else {
            self
        }
    }

    /// Asks for the consent of `principal` to the call that is running.
    pub open spec fn then_require_auth(self, principal: Principal) -> Outcome {
        if self.result is Ok {
            Outcome {
                state: self.state.auth_check(principal),
                result: self.state.auth_verdict(principal),
            }
        } else {
            self
        }
    }

    /// Declares `nodes` on behalf of the unit that is executing. Trees that
    /// are not all well formed end the invocation and nothing is declared.
    pub open spec fn then_authorize(self, nodes: Seq<NodeView>) -> Outcome {
        if self.result is Ok {
            if !self.state.has_active_frame() {
                Outcome { state: self.state, result: Err(AuthError::FrameInvariantViolation) }
            } else if !all_nodes_well_formed(nodes) {
                Outcome { state: self.state, result: Err(AuthError::MalformedDeclaration) }
            } else {
                Outcome {
                    state: self.state.declare_all(self.state.current().target, nodes),
                    result: Ok(()),
                }
            }
        } else {
            self
        }
    }

    /// Leaves the frame of the call that is running, whatever the answer
    /// is, and hands the answer on.
    pub open spec fn then_leave(self) -> Outcome {
        Outcome { state: self.state.exit(), result: self.result }
    }

    /// What every invocation keeps, when it starts from `before` and enters
    /// at most `frames` frames: the engine stays well formed, the count of
    /// frames entered grows by no more than `frames`, and on every return,
    /// with an error too, the calls that are running are those that it
    /// found: as many frames, the same active frame.
    pub open spec fn settled(self, before: EngineView, frames: nat) -> bool {
        &&& self.state.wf()
        &&& before.tracker.entered <= self.state.tracker.entered <= before.tracker.entered
            + frames
        &&& self.state.tracker.calls() == before.tracker.calls()
        &&& self.state.tracker.frames.len() == before.tracker.frames.len()
        &&& self.state.tracker.active() == before.tracker.active()
    }
}

/// Whether `frames` more frames can be entered.
pub open spec fn has_room(state: EngineView, frames: nat) -> bool {
    state.tracker.entered + frames <= u64::MAX
}

/// A check changes neither the calls that are running nor the count of
/// frames entered.
pub proof fn lemma_check_keeps_calls(state: EngineView, principal: Principal)
    ensures
        state.check(principal).tracker.calls() == state.tracker.calls(),
        state.check(principal).tracker.entered == state.tracker.entered,
        state.auth_check(principal).tracker.calls() == state.tracker.calls(),
        state.auth_check(principal).tracker.entered == state.tracker.entered,
{
    reveal(EngineView::check);
    if state.has_active_frame() {
        let frames = state.tracker.frames;
        lemma_scoped_hit_below(frames, principal, state.current(), frames.len() - 1);
        assert(state.check(principal).tracker.calls() =~= state.tracker.calls());
    }
}

/// A frame that was entered is still the innermost one after steps that
/// keep the calls that are running, and leaving it gives back the calls
/// that were running before it was entered.
pub proof fn lemma_enter_then_leave(
    before: EngineView,
    entered: EngineView,
    after: EngineView,
    handle: FrameHandle,
)
    requires
        entered.tracker.calls().len() == before.tracker.calls().len() + 1,
        entered.tracker.calls().drop_last() == before.tracker.calls(),
        entered.tracker.calls().last().handle == handle,
        after.tracker.calls() == entered.tracker.calls(),
    ensures
        after.tracker.active() == Some(handle),
        after.exit().tracker.calls() == before.tracker.calls(),
        after.exit().tracker.entered == after.tracker.entered,
        after.exit().tracker.frames.len() == before.tracker.frames.len(),
        after.exit().tracker.active() == before.tracker.active(),
{
    let n = after.tracker.frames.len() as int;
    assert(before.tracker.calls().len() == before.tracker.frames.len());
    assert(after.exit().tracker.active() == before.tracker.active()) by {
        if n >= 2 {
            assert(after.tracker.calls()[n - 2] == entered.tracker.calls()[n - 2]);
            assert(entered.tracker.calls().drop_last()[n - 2] == entered.tracker.calls()[n - 2]);
            assert(before.tracker.calls()[n - 2] == before.tracker.frames[n - 2].call());
            assert(after.tracker.calls()[n - 2] == after.tracker.frames[n - 2].call());
            assert(after.exit().tracker.frames[n - 2] == after.tracker.frames[n - 2]);
        }
    }
    assert(after.tracker.calls().len() == n);
    assert(after.tracker.calls()[n - 1].handle == handle);
    assert(after.tracker.frames[n - 1].call().handle == handle);
    assert forall|i: int| 0 <= i < n - 1 implies after.exit().tracker.calls()[i]
        == before.tracker.calls()[i] by {
        assert(after.tracker.calls()[i] == entered.tracker.calls()[i]);
        assert(entered.tracker.calls().drop_last()[i] == entered.tracker.calls()[i]);
        assert(after.tracker.calls()[i] == after.tracker.frames[i].call());
        assert(after.exit().tracker.frames[i] == after.tracker.frames[i]);
        assert(after.exit().tracker.calls()[i] == after.exit().tracker.frames[i].call());
    }
    assert(after.exit().tracker.calls() =~= before.tracker.calls());
}

/// Entering a frame puts its call on top of the calls that are running.
pub proof fn lemma_enter_pushes(before: EngineView, context: ContextView)
    ensures
        before.enter(context).tracker.calls() == before.tracker.calls().push(
            CallView {
                handle: FrameHandle { id: before.tracker.entered as u64 },
                parent: before.tracker.active(),
                context,
            },
        ),
        before.enter(context).tracker.calls().len() == before.tracker.calls().len() + 1,
        before.enter(context).tracker.calls().drop_last() == before.tracker.calls(),
        before.enter(context).tracker.calls().last().handle == (FrameHandle {
            id: before.tracker.entered as u64,
        }),
        before.enter(context).tracker.entered == before.tracker.entered + 1,
{
    let pushed = before.tracker.calls().push(
        CallView {
            handle: FrameHandle { id: before.tracker.entered as u64 },
            parent: before.tracker.active(),
            context,
        },
    );
    assert(before.enter(context).tracker.calls() =~= pushed);
    assert(pushed.drop_last() =~= before.tracker.calls());
}

/// Leaves the frame of an invocation and hands its answer on.
fn leave(engine: &mut AuthEngine, handle: FrameHandle, result: Result<(), AuthError>) -> (answer:
    Result<(), AuthError>)
    requires
        old(engine).wf(),
        old(engine)@.tracker.active() == Some(handle),
    ensures
        final(engine).wf(),
        final(engine)@ == old(engine)@.exit(),
        answer == result,
{
    match engine.exit(handle) {
        Ok(()) => result,
        Err(e) => Err(e),
    }
}

/// The argument list that holds one address.
pub fn one_address(first: Principal) -> (args: Vec<Value>)
    ensures
        args@ == seq![Value::Address(first)],
{
    let mut args: Vec<Value> = Vec::new();
    args.push(Value::Address(first));
    assert(args@ =~= seq![Value::Address(first)]);
    args
}

/// The argument list that holds two addresses.
pub fn two_addresses(first: Principal, second: Principal) -> (args: Vec<Value>)
    ensures
        args@ == seq![Value::Address(first), Value::Address(second)],
{
    let mut args: Vec<Value> = Vec::new();
    args.push(Value::Address(first));
    args.push(Value::Address(second));
    assert(args@ =~= seq![Value::Address(first), Value::Address(second)]);
    args
}

/// The argument list that holds three addresses.
pub fn three_addresses(first: Principal, second: Principal, third: Principal) -> (args: Vec<Value>)
    ensures
        args@ == seq![Value::Address(first), Value::Address(second), Value::Address(third)],
{
    let mut args: Vec<Value> = Vec::new();
    args.push(Value::Address(first));
    args.push(Value::Address(second));
    args.push(Value::Address(third));
    assert(args@ =~= seq![
        Value::Address(first),
        Value::Address(second),
        Value::Address(third),
    ]);
    args
}

/// The declaration that holds one tree.
pub fn one_node(first: AuthorizationNode) -> (nodes: Vec<AuthorizationNode>)
    ensures
        views_of(nodes@) == seq![first@],
{
    let mut nodes: Vec<AuthorizationNode> = Vec::new();
    nodes.push(first);
    assert(views_of(nodes@) =~= seq![first@]);
    nodes
}

/// The declaration that holds two trees.
pub fn two_nodes(first: AuthorizationNode, second: AuthorizationNode) -> (nodes: Vec<
    AuthorizationNode,
>)
    ensures
        views_of(nodes@) == seq![first@, second@],
{
    let mut nodes: Vec<AuthorizationNode> = Vec::new();
    nodes.push(first);
    nodes.push(second);
    assert(views_of(nodes@) =~= seq![first@, second@]);
    nodes
}

/// The unit that only asks for authorization.
#[derive(Clone, Copy, Debug, PartialEq, Eq, Structural)]
pub struct ContractC;

impl ContractC {
    /// The context of a call of `authorized_fn_c` on the unit at `this`.
    pub open spec fn authorized_fn_c_context(
        this: Principal,
        authorizer: Principal,
    ) -> ContextView {
        ContextView {
            target: this,
            operation: "authorized_fn_c"@,
            args: seq![Value::Address(authorizer)],
        }
    }

    /// What [`ContractC::authorized_fn_c`] does to the engine and answers.
    #[verifier::opaque]
    pub open spec fn authorized_fn_c_outcome(
        state: EngineView,
        this: Principal,
        authorizer: Principal,
    ) -> Outcome {
        Outcome::begin(state, Self::authorized_fn_c_context(this, authorizer))
            .then_require_auth(authorizer)
            .then_leave()
    }

    /// An invocation of `authorized_fn_c` on the unit at `this`: it asks
    /// for the consent of `authorizer` and does nothing else. It needs no
    /// pending entry when `authorizer` itself makes the call, and one entry
    /// for its own context otherwise.
    pub fn authorized_fn_c(
        engine: &mut AuthEngine,
        this: Principal,
        authorizer: Principal,
    ) -> (result: Result<(), AuthError>)
        requires
            old(engine).wf(),
            has_room(old(engine)@, 1),
        ensures
            result == Self::authorized_fn_c_outcome(old(engine)@, this, authorizer).result,
            final(engine)@ == Self::authorized_fn_c_outcome(old(engine)@, this, authorizer).state,
            Self::authorized_fn_c_outcome(old(engine)@, this, authorizer).settled(old(engine)@, 1),
            costs(
                Self::authorized_fn_c_outcome(old(engine)@, this, authorizer),
                old(engine)@,
                authorizer,
                Self::authorized_fn_c_context(this, authorizer),
                if running_as(old(engine)@, authorizer) {
                    0
                } else {
                    1
                },
            ),
    {
        let handle = engine.enter(this, "authorized_fn_c", one_address(authorizer));
        let ghost entered = engine@;
        proof {
            reveal(ContractC::authorized_fn_c_outcome);
            lemma_authorized_fn_c_costs(old(engine)@, this, authorizer);
            lemma_enter_pushes(old(engine)@, Self::authorized_fn_c_context(this, authorizer));
            lemma_check_keeps_calls(entered, authorizer);
        }
        let result = engine.require_auth(authorizer);
        proof {
            lemma_enter_then_leave(old(engine)@, entered, engine@, handle);
        }
        leave(engine, handle, result)
    }
}

/// The unit that stands between `B` and `C`.
#[derive(Clone, Copy, Debug, PartialEq, Eq, Structural)]
pub struct ContractD;

impl ContractD {
    /// The context of a call of `call_c` on the unit at `this`.
    pub open spec fn call_c_context(
        this: Principal,
        authorizer: Principal,
        b: Principal,
        c: Principal,
    ) -> ContextView {
        ContextView {
            target: this,
            operation: "call_c"@,
            args: seq![Value::Address(authorizer), Value::Address(b), Value::Address(c)],
        }
    }

    /// The context of a call of `call_c_authorized` on the unit at `this`.
    pub open spec fn call_c_authorized_context(
        this: Principal,
        authorizer: Principal,
        b: Principal,
        c: Principal,
    ) -> ContextView {
        ContextView {
            target: this,
            operation: "call_c_authorized"@,
            args: seq![Value::Address(authorizer), Value::Address(b), Value::Address(c)],
        }
    }

    /// What [`ContractD::call_c`] does to the engine and answers.
    #[verifier::opaque]
    pub open spec fn call_c_outcome(
        state: EngineView,
        this: Principal,
        authorizer: Principal,
        b: Principal,
        c: Principal,
    ) -> Outcome {
        Outcome::begin(state, Self::call_c_context(this, authorizer, b, c))
            .then_require_auth(b)
            .and_then(|t: EngineView| ContractC::authorized_fn_c_outcome(t, c, authorizer))
            .then_leave()
    }

    /// What [`ContractD::call_c_authorized`] does to the engine and answers.
    #[verifier::opaque]
    pub open spec fn call_c_authorized_outcome(
        state: EngineView,
        this: Principal,
        authorizer: Principal,
        b: Principal,
        c: Principal,
    ) -> Outcome {
        Outcome::begin(state, Self::call_c_authorized_context(this, authorizer, b, c))
            .then_require_auth(b)
            .then_require_auth(authorizer)
            .and_then(|t: EngineView| ContractC::authorized_fn_c_outcome(t, c, authorizer))
            .then_leave()
    }

    /// An invocation of `call_c` on the unit at `this`: it asks for the
    /// consent of `b`, which is its caller when `B` makes the call, and calls
    /// `C` for `authorizer`. Called by `b`, it needs what that call of `C`
    /// needs.
    pub fn call_c(
        engine: &mut AuthEngine,
        this: Principal,
        authorizer: Principal,
        b: Principal,
        c: Principal,
    ) -> (result: Result<(), AuthError>)
        requires
            old(engine).wf(),
            has_room(old(engine)@, 2),
        ensures
            result == Self::call_c_outcome(old(engine)@, this, authorizer, b, c).result,
            final(engine)@ == Self::call_c_outcome(old(engine)@, this, authorizer, b, c).state,
            Self::call_c_outcome(old(engine)@, this, authorizer, b, c).settled(old(engine)@, 2),
            running_as(old(engine)@, b) ==> costs(
                Self::call_c_outcome(old(engine)@, this, authorizer, b, c),
                old(engine)@,
                authorizer,
                ContractC::authorized_fn_c_context(c, authorizer),
                needed(this, authorizer),
            ),
    {
        let handle = engine.enter(this, "call_c", three_addresses(authorizer, b, c));
        let ghost entered = engine@;
        proof {
            reveal(ContractD::call_c_outcome);
            if running_as(old(engine)@, b) {
                lemma_call_c_costs(old(engine)@, this, authorizer, b, c);
            }
            lemma_enter_pushes(old(engine)@, Self::call_c_context(this, authorizer, b, c));
            lemma_check_keeps_calls(entered, b);
        }
        let result = engine.require_auth(b);
        let result = match result {
            Ok(()) => ContractC::authorized_fn_c(engine, c, authorizer),
            Err(e) => Err(e),
        };
        proof {
            lemma_enter_then_leave(old(engine)@, entered, engine@, handle);
        }
        leave(engine, handle, result)
    }

    /// An invocation of `call_c_authorized` on the unit at `this`: it asks
    /// for the consent of `b` and for that of `authorizer`, and calls `C` for
    /// `authorizer`. Called by `b` for another principal, it is denied where
    /// nothing is pending for it, and succeeds where the tree that `A`
    /// declares for it is all that is pending.
    pub fn call_c_authorized(
        engine: &mut AuthEngine,
        this: Principal,
        authorizer: Principal,
        b: Principal,
        c: Principal,
    ) -> (result: Result<(), AuthError>)
        requires
            old(engine).wf(),
            has_room(old(engine)@, 2),
        ensures
            result == Self::call_c_authorized_outcome(old(engine)@, this, authorizer, b, c).result,
            final(engine)@ == Self::call_c_authorized_outcome(
                old(engine)@,
                this,
                authorizer,
                b,
                c,
            ).state,
            Self::call_c_authorized_outcome(
                old(engine)@,
                this,
                authorizer,
                b,
                c,
            ).settled(old(engine)@, 2),
            running_as(old(engine)@, b) && authorizer != b && old(engine)@.pending_for(
                authorizer,
                Self::call_c_authorized_context(this, authorizer, b, c),
            ) == 0 ==> result == Err::<(), AuthError>(AuthError::AuthorizationDenied)
                && untouched(old(engine)@, final(engine)@),
            running_as(old(engine)@, b) && authorizer != b && only_pending(
                old(engine)@,
                authorizer,
                ContractA::allow_nested_call_to_c_node(authorizer, b, c, this),
            ) ==> result == Ok::<(), AuthError>(()),
            running_as(old(engine)@, b) && authorizer != b && this != authorizer && only_pending(
                old(engine)@,
                authorizer,
                ContractA::allow_nested_call_to_c_node(authorizer, b, c, this),
            ) ==> final(engine)@ == nested_call_done(old(engine)@, authorizer, b, c, this, 2),
    {
        let handle = engine.enter(this, "call_c_authorized", three_addresses(authorizer, b, c));
        let ghost entered = engine@;
        proof {
            reveal(ContractD::call_c_authorized_outcome);
            if running_as(old(engine)@, b) && authorizer != b {
                lemma_call_c_authorized_result(old(engine)@, this, authorizer, b, c);
            }
            lemma_enter_pushes(
                old(engine)@,
                Self::call_c_authorized_context(this, authorizer, b, c),
            );
            lemma_check_keeps_calls(entered, b);
        }
        let result = engine.require_auth(b);
        let result = match result {
            Ok(()) => {
                proof {
                    lemma_check_keeps_calls(engine@, authorizer);
                }
                engine.require_auth(authorizer)
            },
            Err(e) => Err(e),
        };
        let result = match result {
            Ok(()) => ContractC::authorized_fn_c(engine, c, authorizer),
            Err(e) => Err(e),
        };
        proof {
            lemma_enter_then_leave(old(engine)@, entered, engine@, handle);
        }
        leave(engine, handle, result)
    }
}

/// The unit that `A` calls, and that calls `C` directly or through `D`.
#[derive(Clone, Copy, Debug, PartialEq, Eq, Structural)]
pub struct ContractB;

impl ContractB {
    /// The context of a call of `authorized_fn_b` on the unit at `this`.
    pub open spec fn authorized_fn_b_context(
        this: Principal,
        authorizer: Principal,
        c: Principal,
    ) -> ContextView {
        ContextView {
            target: this,
            operation: "authorized_fn_b"@,
            args: seq![Value::Address(authorizer), Value::Address(c)],
        }
    }

    /// The context of a call of `call_d` on the unit at `this`.
    pub open spec fn call_d_context(
        this: Principal,
        authorizer: Principal,
        c: Principal,
        d: Principal,
    ) -> ContextView {
        ContextView {
            target: this,
            operation: "call_d"@,
            args: seq![Value::Address(authorizer), Value::Address(c), Value::Address(d)],
        }
    }

    /// The context of a call of `call_authorized_d` on the unit at `this`.
    pub open spec fn call_authorized_d_context(
        this: Principal,
        authorizer: Principal,
        c: Principal,
        d: Principal,
    ) -> ContextView {
        ContextView {
            target: this,
            operation: "call_authorized_d"@,
            args: seq![Value::Address(authorizer), Value::Address(c), Value::Address(d)],
        }
    }

    /// The context of a call of `call_d_twice` on the unit at `this`.
    pub open spec fn call_d_twice_context(
        this: Principal,
        authorizer: Principal,
        c: Principal,
        d: Principal,
    ) -> ContextView {
        ContextView {
            target: this,
            operation: "call_d_twice"@,
            args: seq![Value::Address(authorizer), Value::Address(c), Value::Address(d)],
        }
    }

    /// What [`ContractB::authorized_fn_b`] does to the engine and answers.
    #[verifier::opaque]
    pub open spec fn authorized_fn_b_outcome(
        state: EngineView,
        this: Principal,
        authorizer: Principal,
        c: Principal,
    ) -> Outcome {
        Outcome::begin(state, Self::authorized_fn_b_context(this, authorizer, c))
            .then_require_auth(authorizer)
            .and_then(|t: EngineView| ContractC::authorized_fn_c_outcome(t, c, authorizer))
            .then_leave()
    }

    /// What [`ContractB::call_d`] does to the engine and answers.
    #[verifier::opaque]
    pub open spec fn call_d_outcome(
        state: EngineView,
        this: Principal,
        authorizer: Principal,
        c: Principal,
        d: Principal,
    ) -> Outcome {
        Outcome::begin(state, Self::call_d_context(this, authorizer, c, d))
            .then_require_auth(authorizer)
            .and_then(|t: EngineView| ContractD::call_c_outcome(t, d, authorizer, this, c))
            .then_leave()
    }

    /// What [`ContractB::call_authorized_d`] does to the engine and answers.
    #[verifier::opaque]
    pub open spec fn call_authorized_d_outcome(
        state: EngineView,
        this: Principal,
        authorizer: Principal,
        c: Principal,
        d: Principal,
    ) -> Outcome {
        Outcome::begin(state, Self::call_authorized_d_context(this, authorizer, c, d))
            .then_require_auth(authorizer)
            .and_then(
                |t: EngineView|
                    ContractD::call_c_authorized_outcome(t, d, authorizer, this, c),
            )
            .then_leave()
    }

    /// What [`ContractB::call_d_twice`] does to the engine and answers.
    #[verifier::opaque]
    pub open spec fn call_d_twice_outcome(
        state: EngineView,
        this: Principal,
        authorizer: Principal,
        c: Principal,
        d: Principal,
    ) -> Outcome {
        Outcome::begin(state, Self::call_d_twice_context(this, authorizer, c, d))
            .then_require_auth(authorizer)
            .and_then(|t: EngineView| ContractD::call_c_outcome(t, d, authorizer, this, c))
            .and_then(|t: EngineView| ContractC::authorized_fn_c_outcome(t, c, authorizer))
            .then_leave()
    }

    /// An invocation of `authorized_fn_b` on the unit at `this`: it asks
    /// for the consent of `authorizer` and calls `C` for it. Called by
    /// `authorizer`, it needs what that call of `C` needs.
    pub fn authorized_fn_b(
        engine: &mut AuthEngine,
        this: Principal,
        authorizer: Principal,
        c: Principal,
    ) -> (result: Result<(), AuthError>)
        requires
            old(engine).wf(),
            has_room(old(engine)@, 2),
        ensures
            result == Self::authorized_fn_b_outcome(old(engine)@, this, authorizer, c).result,
            final(engine)@ == Self::authorized_fn_b_outcome(
                old(engine)@,
                this,
                authorizer,
                c,
            ).state,
            Self::authorized_fn_b_outcome(
                old(engine)@,
                this,
                authorizer,
                c,
            ).settled(old(engine)@, 2),
            running_as(old(engine)@, authorizer) ==> costs(
                Self::authorized_fn_b_outcome(old(engine)@, this, authorizer, c),
                old(engine)@,
                authorizer,
                ContractC::authorized_fn_c_context(c, authorizer),
                needed(this, authorizer),
            ),
    {
        let handle = engine.enter(this, "authorized_fn_b", two_addresses(authorizer, c));
        let ghost entered = engine@;
        proof {
            reveal(ContractB::authorized_fn_b_outcome);
            if running_as(old(engine)@, authorizer) {
                lemma_authorized_fn_b_costs(old(engine)@, this, authorizer, c);
            }
            lemma_enter_pushes(old(engine)@, Self::authorized_fn_b_context(this, authorizer, c));
            lemma_check_keeps_calls(entered, authorizer);
        }
        let result = engine.require_auth(authorizer);
        let result = match result {
            Ok(()) => ContractC::authorized_fn_c(engine, c, authorizer),
            Err(e) => Err(e),
        };
        proof {
            lemma_enter_then_leave(old(engine)@, entered, engine@, handle);
        }
        leave(engine, handle, result)
    }

    /// An invocation of `call_d` on the unit at `this`: it asks for the
    /// consent of `authorizer` and calls `C` through `D`. Called by
    /// `authorizer`, it needs what the call of `C` by `D` needs.
    pub fn call_d(
        engine: &mut AuthEngine,
        this: Principal,
        authorizer: Principal,
        c: Principal,
        d: Principal,
    ) -> (result: Result<(), AuthError>)
        requires
            old(engine).wf(),
            has_room(old(engine)@, 3),
        ensures
            result == Self::call_d_outcome(old(engine)@, this, authorizer, c, d).result,
            final(engine)@ == Self::call_d_outcome(old(engine)@, this, authorizer, c, d).state,
            Self::call_d_outcome(old(engine)@, this, authorizer, c, d).settled(old(engine)@, 3),
            running_as(old(engine)@, authorizer) ==> costs(
                Self::call_d_outcome(old(engine)@, this, authorizer, c, d),
                old(engine)@,
                authorizer,
                ContractC::authorized_fn_c_context(c, authorizer),
                needed(d, authorizer),
            ),
    {
        let handle = engine.enter(this, "call_d", three_addresses(authorizer, c, d));
        let ghost entered = engine@;
        proof {
            reveal(ContractB::call_d_outcome);
            if running_as(old(engine)@, authorizer) {
                lemma_call_d_costs(old(engine)@, this, authorizer, c, d);
            }
            lemma_enter_pushes(old(engine)@, Self::call_d_context(this, authorizer, c, d));
            lemma_check_keeps_calls(entered, authorizer);
        }
        let result = engine.require_auth(authorizer);
        let result = match result {
            Ok(()) => ContractD::call_c(engine, d, authorizer, this, c),
            Err(e) => Err(e),
        };
        proof {
            lemma_enter_then_leave(old(engine)@, entered, engine@, handle);
        }
        leave(engine, handle, result)
    }

    /// An invocation of `call_authorized_d` on the unit at `this`: it asks
    /// for the consent of `authorizer` and calls `C` through the operation of
    /// `D` that asks for that consent as well. Called by `authorizer`, it is
    /// denied where nothing is pending for that call of `D`, and succeeds
    /// where the tree that `A` declares for it is all that is pending.
    pub fn call_authorized_d(
        engine: &mut AuthEngine,
        this: Principal,
        authorizer: Principal,
        c: Principal,
        d: Principal,
    ) -> (result: Result<(), AuthError>)
        requires
            old(engine).wf(),
            has_room(old(engine)@, 3),
        ensures
            result == Self::call_authorized_d_outcome(old(engine)@, this, authorizer, c, d).result,
            final(engine)@ == Self::call_authorized_d_outcome(
                old(engine)@,
                this,
                authorizer,
                c,
                d,
            ).state,
            Self::call_authorized_d_outcome(
                old(engine)@,
                this,
                authorizer,
                c,
                d,
            ).settled(old(engine)@, 3),
            running_as(old(engine)@, authorizer) && authorizer != this && old(engine)@.pending_for(
                authorizer,
                ContractD::call_c_authorized_context(d, authorizer, this, c),
            ) == 0 ==> result == Err::<(), AuthError>(AuthError::AuthorizationDenied)
                && untouched(old(engine)@, final(engine)@),
            running_as(old(engine)@, authorizer) && authorizer != this && only_pending(
                old(engine)@,
                authorizer,
                ContractA::allow_nested_call_to_c_node(authorizer, this, c, d),
            ) ==> result == Ok::<(), AuthError>(()),
            running_as(old(engine)@, authorizer) && authorizer != this && d != authorizer
                && only_pending(
                old(engine)@,
                authorizer,
                ContractA::allow_nested_call_to_c_node(authorizer, this, c, d),
            ) ==> final(engine)@ == nested_call_done(old(engine)@, authorizer, this, c, d, 3),
    {
        let handle = engine.enter(this, "call_authorized_d", three_addresses(authorizer, c, d));
        let ghost entered = engine@;
        proof {
            reveal(ContractB::call_authorized_d_outcome);
            if running_as(old(engine)@, authorizer) && authorizer != this {
                lemma_call_authorized_d_result(old(engine)@, this, authorizer, c, d);
            }
            lemma_enter_pushes(
                old(engine)@,
                Self::call_authorized_d_context(this, authorizer, c, d),
            );
            lemma_check_keeps_calls(entered, authorizer);
        }
        let result = engine.require_auth(authorizer);
        let result = match result {
            Ok(()) => ContractD::call_c_authorized(engine, d, authorizer, this, c),
            Err(e) => Err(e),
        };
        proof {
            lemma_enter_then_leave(old(engine)@, entered, engine@, handle);
        }
        leave(engine, handle, result)
    }

    /// An invocation of `call_d_twice` on the unit at `this`: it asks for
    /// the consent of `authorizer`, calls `C` through `D`, and then calls `C`
    /// directly. Called by `authorizer`, it needs what the two calls of `C`
    /// need together.
    pub fn call_d_twice(
        engine: &mut AuthEngine,
        this: Principal,
        authorizer: Principal,
        c: Principal,
        d: Principal,
    ) -> (result: Result<(), AuthError>)
        requires
            old(engine).wf(),
            has_room(old(engine)@, 4),
        ensures
            result == Self::call_d_twice_outcome(old(engine)@, this, authorizer, c, d).result,
            final(engine)@ == Self::call_d_twice_outcome(
                old(engine)@,
                this,
                authorizer,
                c,
                d,
            ).state,
            Self::call_d_twice_outcome(
                old(engine)@,
                this,
                authorizer,
                c,
                d,
            ).settled(old(engine)@, 4),
            running_as(old(engine)@, authorizer) ==> costs(
                Self::call_d_twice_outcome(old(engine)@, this, authorizer, c, d),
                old(engine)@,
                authorizer,
                ContractC::authorized_fn_c_context(c, authorizer),
                needed(d, authorizer) + needed(this, authorizer),
            ),
    {
        let handle = engine.enter(this, "call_d_twice", three_addresses(authorizer, c, d));
        let ghost entered = engine@;
        proof {
            reveal(ContractB::call_d_twice_outcome);
            if running_as(old(engine)@, authorizer) {
                lemma_call_d_twice_costs(old(engine)@, this, authorizer, c, d);
            }
            lemma_enter_pushes(old(engine)@, Self::call_d_twice_context(this, authorizer, c, d));
            lemma_check_keeps_calls(entered, authorizer);
        }
        let result = engine.require_auth(authorizer);
        let result = match result {
            Ok(()) => ContractD::call_c(engine, d, authorizer, this, c),
            Err(e) => Err(e),
        };
        let result = match result {
            Ok(()) => ContractC::authorized_fn_c(engine, c, authorizer),
            Err(e) => Err(e),
        };
        proof {
            lemma_enter_then_leave(old(engine)@, entered, engine@, handle);
        }
        leave(engine, handle, result)
    }
}

/// The unit that declares what it accepts and starts the chain of calls.
#[derive(Clone, Copy, Debug, PartialEq, Eq, Structural)]
pub struct ContractA;

impl ContractA {
    /// The value of [`ContractA::allow_call_to_c`].
    pub open spec fn allow_call_to_c_node(this: Principal, c: Principal) -> NodeView {
        NodeView { context: ContractC::authorized_fn_c_context(c, this), children: Seq::empty() }
    }

    /// The value of [`ContractA::allow_call_to_c_under_bad_root`].
    pub open spec fn allow_call_to_c_under_bad_root_node(
        this: Principal,
        c: Principal,
    ) -> NodeView {
        NodeView {
            context: ContextView { target: this, operation: ""@, args: Seq::empty() },
            children: seq![Self::allow_call_to_c_node(this, c)],
        }
    }

    /// The value of [`ContractA::allow_nested_call_to_c`].
    pub open spec fn allow_nested_call_to_c_node(
        this: Principal,
        b: Principal,
        c: Principal,
        d: Principal,
    ) -> NodeView {
        NodeView {
            context: ContractD::call_c_authorized_context(d, this, b, c),
            children: seq![Self::allow_call_to_c_node(this, c)],
        }
    }

    /// The tree by which the unit at `this` accepts one call of
    /// `authorized_fn_c` on `c` on its behalf.
    pub fn allow_call_to_c(this: Principal, c: Principal) -> (node: AuthorizationNode)
        ensures
            node@ == Self::allow_call_to_c_node(this, c),
    {
        AuthorizationNode::leaf(InvocationContext::new(c, "authorized_fn_c", one_address(this)))
    }

    /// The tree that has the call of `C` below a call of the unit at `this`
    /// itself without an operation name and without arguments. The context
    /// at its root is empty, so the tree is not well formed.
    pub fn allow_call_to_c_under_bad_root(this: Principal, c: Principal) -> (node:
        AuthorizationNode)
        ensures
            node@ == Self::allow_call_to_c_under_bad_root_node(this, c),
    {
        AuthorizationNode::new(
            InvocationContext::new(this, "", Vec::new()),
            one_node(Self::allow_call_to_c(this, c)),
        )
    }

    /// The tree that accepts the call of `call_c_authorized` on `d` by `b`,
    /// and below it the call of `C`.
    pub fn allow_nested_call_to_c(
        this: Principal,
        b: Principal,
        c: Principal,
        d: Principal,
    ) -> (node: AuthorizationNode)
        ensures
            node@ == Self::allow_nested_call_to_c_node(this, b, c, d),
    {
        AuthorizationNode::new(
            InvocationContext::new(d, "call_c_authorized", three_addresses(this, b, c)),
            one_node(Self::allow_call_to_c(this, c)),
        )
    }

    /// The context of a call of `call_b` on the unit at `this`.
    pub open spec fn call_b_context(this: Principal, b: Principal, c: Principal) -> ContextView {
        ContextView {
            target: this,
            operation: "call_b"@,
            args: seq![Value::Address(b), Value::Address(c)],
        }
    }

    /// The context of a call of `call_d_through_b` on the unit at `this`.
    pub open spec fn call_d_through_b_context(
        this: Principal,
        b: Principal,
        c: Principal,
        d: Principal,
    ) -> ContextView {
        ContextView {
            target: this,
            operation: "call_d_through_b"@,
            args: seq![Value::Address(b), Value::Address(c), Value::Address(d)],
        }
    }

    /// The context of a call of `call_b_twice_single_auth` on the unit at `this`.
    pub open spec fn call_b_twice_single_auth_context(
        this: Principal,
        b: Principal,
        c: Principal,
        d: Principal,
    ) -> ContextView {
        ContextView {
            target: this,
            operation: "call_b_twice_single_auth"@,
            args: seq![Value::Address(b), Value::Address(c), Value::Address(d)],
        }
    }

    /// The context of a call of `call_b_twice_double_auth` on the unit at `this`.
    pub open spec fn call_b_twice_double_auth_context(
        this: Principal,
        b: Principal,
        c: Principal,
        d: Principal,
    ) -> ContextView {
        ContextView {
            target: this,
            operation: "call_b_twice_double_auth"@,
            args: seq![Value::Address(b), Value::Address(c), Value::Address(d)],
        }
    }

    /// The context of a call of `auth_double_call` on the unit at `this`.
    pub open spec fn auth_double_call_context(
        this: Principal,
        b: Principal,
        c: Principal,
        d: Principal,
    ) -> ContextView {
        ContextView {
            target: this,
            operation: "auth_double_call"@,
            args: seq![Value::Address(b), Value::Address(c), Value::Address(d)],
        }
    }

    /// The context of a call of `auth_sub_invocation_bad_root` on the unit at `this`.
    pub open spec fn auth_sub_invocation_bad_root_context(
        this: Principal,
        b: Principal,
        c: Principal,
        d: Principal,
    ) -> ContextView {
        ContextView {
            target: this,
            operation: "auth_sub_invocation_bad_root"@,
            args: seq![Value::Address(b), Value::Address(c), Value::Address(d)],
        }
    }

    /// The context of a call of `auth_sub_invocation` on the unit at `this`.
    pub open spec fn auth_sub_invocation_context(
        this: Principal,
        b: Principal,
        c: Principal,
        d: Principal,
    ) -> ContextView {
        ContextView {
            target: this,
            operation: "auth_sub_invocation"@,
            args: seq![Value::Address(b), Value::Address(c), Value::Address(d)],
        }
    }

    /// What [`ContractA::call_b`] does to the engine and answers.
    #[verifier::opaque]
    pub open spec fn call_b_outcome(
        state: EngineView,
        this: Principal,
        b: Principal,
        c: Principal,
    ) -> Outcome {
        Outcome::begin(state, Self::call_b_context(this, b, c))
            .then_authorize(seq![Self::allow_call_to_c_node(this, c)])
            .and_then(|t: EngineView| ContractB::authorized_fn_b_outcome(t, b, this, c))
            .then_leave()
    }

    /// What [`ContractA::call_d_through_b`] does to the engine and answers.
    #[verifier::opaque]
    pub open spec fn call_d_through_b_outcome(
        state: EngineView,
        this: Principal,
        b: Principal,
        c: Principal,
        d: Principal,
    ) -> Outcome {
        Outcome::begin(state, Self::call_d_through_b_context(this, b, c, d))
            .then_authorize(seq![Self::allow_call_to_c_node(this, c)])
            .and_then(|t: EngineView| ContractB::call_d_outcome(t, b, this, c, d))
            .then_leave()
    }

    /// What [`ContractA::call_b_twice_single_auth`] does to the engine and answers.
    #[verifier::opaque]
    pub open spec fn call_b_twice_single_auth_outcome(
        state: EngineView,
        this: Principal,
        b: Principal,
        c: Principal,
        d: Principal,
    ) -> Outcome {
        Outcome::begin(state, Self::call_b_twice_single_auth_context(this, b, c, d))
            .then_authorize(seq![Self::allow_call_to_c_node(this, c)])
            .and_then(|t: EngineView| ContractB::call_d_outcome(t, b, this, c, d))
            .and_then(|t: EngineView| ContractB::call_d_outcome(t, b, this, c, d))
            .then_leave()
    }

    /// What [`ContractA::call_b_twice_double_auth`] does to the engine and answers.
    #[verifier::opaque]
    pub open spec fn call_b_twice_double_auth_outcome(
        state: EngineView,
        this: Principal,
        b: Principal,
        c: Principal,
        d: Principal,
    ) -> Outcome {
        Outcome::begin(state, Self::call_b_twice_double_auth_context(this, b, c, d))
            .then_authorize(seq![Self::allow_call_to_c_node(this, c)])
            .and_then(|t: EngineView| ContractB::call_d_outcome(t, b, this, c, d))
            .then_authorize(seq![Self::allow_call_to_c_node(this, c)])
            .and_then(|t: EngineView| ContractB::call_d_outcome(t, b, this, c, d))
            .then_leave()
    }

    /// What [`ContractA::auth_double_call`] does to the engine and answers.
    #[verifier::opaque]
    pub open spec fn auth_double_call_outcome(
        state: EngineView,
        this: Principal,
        b: Principal,
        c: Principal,
        d: Principal,
    ) -> Outcome {
        Outcome::begin(state, Self::auth_double_call_context(this, b, c, d))
            .then_authorize(
                seq![Self::allow_call_to_c_node(this, c), Self::allow_call_to_c_node(this, c)],
            )
            .and_then(|t: EngineView| ContractB::call_d_twice_outcome(t, b, this, c, d))
            .then_leave()
    }

    /// What [`ContractA::auth_sub_invocation_bad_root`] does to the engine and answers.
    #[verifier::opaque]
    pub open spec fn auth_sub_invocation_bad_root_outcome(
        state: EngineView,
        this: Principal,
        b: Principal,
        c: Principal,
        d: Principal,
    ) -> Outcome {
        Outcome::begin(state, Self::auth_sub_invocation_bad_root_context(this, b, c, d))
            .then_authorize(seq![Self::allow_call_to_c_under_bad_root_node(this, c)])
            .and_then(|t: EngineView| ContractB::call_d_outcome(t, b, this, c, d))
            .then_leave()
    }

    /// What [`ContractA::auth_sub_invocation`] does to the engine and answers.
    #[verifier::opaque]
    pub open spec fn auth_sub_invocation_outcome(
        state: EngineView,
        this: Principal,
        b: Principal,
        c: Principal,
        d: Principal,
    ) -> Outcome {
        Outcome::begin(state, Self::auth_sub_invocation_context(this, b, c, d))
            .then_authorize(seq![Self::allow_nested_call_to_c_node(this, b, c, d)])
            .and_then(|t: EngineView| ContractB::call_authorized_d_outcome(t, b, this, c, d))
            .then_leave()
    }

    /// An invocation of `call_b` on the unit at `this`: it accepts one call
    /// of `C` on its behalf and calls `B`, which calls `C`. It succeeds from
    /// every state.
    pub fn call_b(
        engine: &mut AuthEngine,
        this: Principal,
        b: Principal,
        c: Principal,
    ) -> (result: Result<(), AuthError>)
        requires
            old(engine).wf(),
            has_room(old(engine)@, 3),
        ensures
            result == Self::call_b_outcome(old(engine)@, this, b, c).result,
            final(engine)@ == Self::call_b_outcome(old(engine)@, this, b, c).state,
            Self::call_b_outcome(old(engine)@, this, b, c).settled(old(engine)@, 3),
            result == Ok::<(), AuthError>(()),
            turnover(
                old(engine)@,
                final(engine)@,
                this,
                ContractC::authorized_fn_c_context(c, this),
                granted(this, seq![Self::allow_call_to_c_node(this, c)]),
                needed(b, this),
            ),
    {
        let handle = engine.enter(this, "call_b", two_addresses(b, c));
        let ghost entered = engine@;
        proof {
            reveal(ContractA::call_b_outcome);
            theorem_call_b(old(engine)@, this, b, c);
            lemma_declared_trees_well_formed(this, b, c, this);
            assert(all_nodes_well_formed(seq![Self::allow_call_to_c_node(this, c)]));
            lemma_enter_pushes(old(engine)@, Self::call_b_context(this, b, c));
        }
        let result = engine.authorize_as_self(one_node(Self::allow_call_to_c(this, c)));
        let result = match result {
            Ok(()) => ContractB::authorized_fn_b(engine, b, this, c),
            Err(e) => Err(e),
        };
        proof {
            lemma_enter_then_leave(old(engine)@, entered, engine@, handle);
        }
        leave(engine, handle, result)
    }

    /// An invocation of `call_d_through_b` on the unit at `this`: it accepts
    /// one call of `C` on its behalf and calls `B`, which reaches `C` through
    /// `D`, a unit that `A` has not named. It succeeds from every state.
    pub fn call_d_through_b(
        engine: &mut AuthEngine,
        this: Principal,
        b: Principal,
        c: Principal,
        d: Principal,
    ) -> (result: Result<(), AuthError>)
        requires
            old(engine).wf(),
            has_room(old(engine)@, 4),
        ensures
            result == Self::call_d_through_b_outcome(old(engine)@, this, b, c, d).result,
            final(engine)@ == Self::call_d_through_b_outcome(old(engine)@, this, b, c, d).state,
            Self::call_d_through_b_outcome(old(engine)@, this, b, c, d).settled(old(engine)@, 4),
            result == Ok::<(), AuthError>(()),
            turnover(
                old(engine)@,
                final(engine)@,
                this,
                ContractC::authorized_fn_c_context(c, this),
                granted(this, seq![Self::allow_call_to_c_node(this, c)]),
                needed(d, this),
            ),
    {
        let handle = engine.enter(this, "call_d_through_b", three_addresses(b, c, d));
        let ghost entered = engine@;
        proof {
            reveal(ContractA::call_d_through_b_outcome);
            theorem_call_d_through_b(old(engine)@, this, b, c, d);
            lemma_declared_trees_well_formed(this, b, c, d);
            assert(all_nodes_well_formed(seq![Self::allow_call_to_c_node(this, c)]));
            lemma_enter_pushes(old(engine)@, Self::call_d_through_b_context(this, b, c, d));
        }
        let result = engine.authorize_as_self(one_node(Self::allow_call_to_c(this, c)));
        let result = match result {
            Ok(()) => ContractB::call_d(engine, b, this, c, d),
            Err(e) => Err(e),
        };
        proof {
            lemma_enter_then_leave(old(engine)@, entered, engine@, handle);
        }
        leave(engine, handle, result)
    }

    /// An invocation of `call_b_twice_single_auth` on the unit at `this`: it
    /// accepts one call of `C` on its behalf and has `B` reach `C` twice. The
    /// second call of `C` is denied, unless `d` is `this` itself or something
    /// was pending for that call before.
    pub fn call_b_twice_single_auth(
        engine: &mut AuthEngine,
        this: Principal,
        b: Principal,
        c: Principal,
        d: Principal,
    ) -> (result: Result<(), AuthError>)
        requires
            old(engine).wf(),
            has_room(old(engine)@, 7),
        ensures
            result == Self::call_b_twice_single_auth_outcome(old(engine)@, this, b, c, d).result,
            final(engine)@ == Self::call_b_twice_single_auth_outcome(
                old(engine)@,
                this,
                b,
                c,
                d,
            ).state,
            Self::call_b_twice_single_auth_outcome(
                old(engine)@,
                this,
                b,
                c,
                d,
            ).settled(old(engine)@, 7),
            result == if d == this || old(engine)@.pending_for(
                this,
                ContractC::authorized_fn_c_context(c, this),
            ) >= 1 {
                Ok::<(), AuthError>(())
            } else {
                Err::<(), AuthError>(AuthError::AuthorizationDenied)
            },
            turnover(
                old(engine)@,
                final(engine)@,
                this,
                ContractC::authorized_fn_c_context(c, this),
                granted(this, seq![Self::allow_call_to_c_node(this, c)]),
                single_auth_consumed(old(engine)@, this, c, d),
            ),
    {
        let handle = engine.enter(this, "call_b_twice_single_auth", three_addresses(b, c, d));
        let ghost entered = engine@;
        proof {
            reveal(ContractA::call_b_twice_single_auth_outcome);
            theorem_call_b_twice_single_auth(old(engine)@, this, b, c, d);
            lemma_declared_trees_well_formed(this, b, c, d);
            assert(all_nodes_well_formed(seq![Self::allow_call_to_c_node(this, c)]));
            lemma_enter_pushes(old(engine)@, Self::call_b_twice_single_auth_context(this, b, c, d));
        }
        let result = engine.authorize_as_self(one_node(Self::allow_call_to_c(this, c)));
        let result = match result {
            Ok(()) => ContractB::call_d(engine, b, this, c, d),
            Err(e) => Err(e),
        };
        let result = match result {
            Ok(()) => ContractB::call_d(engine, b, this, c, d),
            Err(e) => Err(e),
        };
        proof {
            lemma_enter_then_leave(old(engine)@, entered, engine@, handle);
        }
        leave(engine, handle, result)
    }

    /// An invocation of `call_b_twice_double_auth` on the unit at `this`:
    /// twice, it accepts one call of `C` on its behalf and has `B` reach `C`.
    /// It succeeds from every state.
    pub fn call_b_twice_double_auth(
        engine: &mut AuthEngine,
        this: Principal,
        b: Principal,
        c: Principal,
        d: Principal,
    ) -> (result: Result<(), AuthError>)
        requires
            old(engine).wf(),
            has_room(old(engine)@, 7),
        ensures
            result == Self::call_b_twice_double_auth_outcome(old(engine)@, this, b, c, d).result,
            final(engine)@ == Self::call_b_twice_double_auth_outcome(
                old(engine)@,
                this,
                b,
                c,
                d,
            ).state,
            Self::call_b_twice_double_auth_outcome(
                old(engine)@,
                this,
                b,
                c,
                d,
            ).settled(old(engine)@, 7),
            result == Ok::<(), AuthError>(()),
            turnover(
                old(engine)@,
                final(engine)@,
                this,
                ContractC::authorized_fn_c_context(c, this),
                granted(this, seq![Self::allow_call_to_c_node(this, c)])
                    + granted(this, seq![Self::allow_call_to_c_node(this, c)]),
                needed(d, this) + needed(d, this),
            ),
    {
        let handle = engine.enter(this, "call_b_twice_double_auth", three_addresses(b, c, d));
        let ghost entered = engine@;
        proof {
            reveal(ContractA::call_b_twice_double_auth_outcome);
            theorem_call_b_twice_double_auth(old(engine)@, this, b, c, d);
            lemma_declared_trees_well_formed(this, b, c, d);
            assert(all_nodes_well_formed(seq![Self::allow_call_to_c_node(this, c)]));
            lemma_enter_pushes(old(engine)@, Self::call_b_twice_double_auth_context(this, b, c, d));
        }
        let result = engine.authorize_as_self(one_node(Self::allow_call_to_c(this, c)));
        let result = match result {
            Ok(()) => ContractB::call_d(engine, b, this, c, d),
            Err(e) => Err(e),
        };
        let result = match result {
            Ok(()) => engine.authorize_as_self(one_node(Self::allow_call_to_c(this, c))),
            Err(e) => Err(e),
        };
        let result = match result {
            Ok(()) => ContractB::call_d(engine, b, this, c, d),
            Err(e) => Err(e),
        };
        proof {
            lemma_enter_then_leave(old(engine)@, entered, engine@, handle);
        }
        leave(engine, handle, result)
    }

    /// An invocation of `auth_double_call` on the unit at `this`: it accepts
    /// two calls of `C` on its behalf in one declaration and calls `B`, which
    /// reaches `C` twice. It succeeds from every state.
    pub fn auth_double_call(
        engine: &mut AuthEngine,
        this: Principal,
        b: Principal,
        c: Principal,
        d: Principal,
    ) -> (result: Result<(), AuthError>)
        requires
            old(engine).wf(),
            has_room(old(engine)@, 5),
        ensures
            result == Self::auth_double_call_outcome(old(engine)@, this, b, c, d).result,
            final(engine)@ == Self::auth_double_call_outcome(old(engine)@, this, b, c, d).state,
            Self::auth_double_call_outcome(old(engine)@, this, b, c, d).settled(old(engine)@, 5),
            result == Ok::<(), AuthError>(()),
            turnover(
                old(engine)@,
                final(engine)@,
                this,
                ContractC::authorized_fn_c_context(c, this),
                granted(
                    this,
                    seq![Self::allow_call_to_c_node(this, c), Self::allow_call_to_c_node(this, c)],
                ),
                needed(d, this) + needed(b, this),
            ),
    {
        let handle = engine.enter(this, "auth_double_call", three_addresses(b, c, d));
        let ghost entered = engine@;
        proof {
            reveal(ContractA::auth_double_call_outcome);
            theorem_auth_double_call(old(engine)@, this, b, c, d);
            lemma_declared_trees_well_formed(this, b, c, d);
            assert(all_nodes_well_formed(
                seq![Self::allow_call_to_c_node(this, c), Self::allow_call_to_c_node(this, c)],
            ));
            lemma_enter_pushes(old(engine)@, Self::auth_double_call_context(this, b, c, d));
        }
        let result = engine.authorize_as_self(
            two_nodes(Self::allow_call_to_c(this, c), Self::allow_call_to_c(this, c)),
        );
        let result = match result {
            Ok(()) => ContractB::call_d_twice(engine, b, this, c, d),
            Err(e) => Err(e),
        };
        proof {
            lemma_enter_then_leave(old(engine)@, entered, engine@, handle);
        }
        leave(engine, handle, result)
    }

    /// An invocation of `auth_sub_invocation_bad_root` on the unit at
    /// `this`: it declares the call of `C` below a root without an operation
    /// name and without arguments, and goes on to have `B` reach `C`. The
    /// root's context is empty, so the declaration is refused as malformed:
    /// nothing is declared, `B` is not called, and the engine is left as it
    /// was found.
    pub fn auth_sub_invocation_bad_root(
        engine: &mut AuthEngine,
        this: Principal,
        b: Principal,
        c: Principal,
        d: Principal,
    ) -> (result: Result<(), AuthError>)
        requires
            old(engine).wf(),
            has_room(old(engine)@, 1),
        ensures
            result == Self::auth_sub_invocation_bad_root_outcome(
                old(engine)@,
                this,
                b,
                c,
                d,
            ).result,
            final(engine)@ == Self::auth_sub_invocation_bad_root_outcome(
                old(engine)@,
                this,
                b,
                c,
                d,
            ).state,
            Self::auth_sub_invocation_bad_root_outcome(
                old(engine)@,
                this,
                b,
                c,
                d,
            ).settled(old(engine)@, 1),
            result == Err::<(), AuthError>(AuthError::MalformedDeclaration),
            untouched(old(engine)@, final(engine)@),
            final(engine)@.tracker.entered == old(engine)@.tracker.entered + 1,
    {
        let handle = engine.enter(this, "auth_sub_invocation_bad_root", three_addresses(b, c, d));
        let ghost entered = engine@;
        proof {
            reveal(ContractA::auth_sub_invocation_bad_root_outcome);
            theorem_auth_sub_invocation_bad_root(old(engine)@, this, b, c, d);
            lemma_bad_root_malformed(this, c);
            lemma_enter_pushes(
                old(engine)@,
                Self::auth_sub_invocation_bad_root_context(this, b, c, d),
            );
        }
        let result = engine.authorize_as_self(
            one_node(Self::allow_call_to_c_under_bad_root(this, c)),
        );
        let result = match result {
            Ok(()) => ContractB::call_d(engine, b, this, c, d),
            Err(e) => Err(e),
        };
        proof {
            lemma_enter_then_leave(old(engine)@, entered, engine@, handle);
        }
        leave(engine, handle, result)
    }

    /// An invocation of `auth_sub_invocation` on the unit at `this`: it
    /// accepts the call of `D` that asks for its consent, with the call of
    /// `C` below it, and has `B` make that call of `D`. It succeeds wherever
    /// `b` is not `this` itself and nothing else is pending for the call of
    /// `D`.
    pub fn auth_sub_invocation(
        engine: &mut AuthEngine,
        this: Principal,
        b: Principal,
        c: Principal,
        d: Principal,
    ) -> (result: Result<(), AuthError>)
        requires
            old(engine).wf(),
            has_room(old(engine)@, 4),
        ensures
            result == Self::auth_sub_invocation_outcome(old(engine)@, this, b, c, d).result,
            final(engine)@ == Self::auth_sub_invocation_outcome(old(engine)@, this, b, c, d).state,
            Self::auth_sub_invocation_outcome(old(engine)@, this, b, c, d).settled(old(engine)@, 4),
            b != this && old(engine)@.pending_for(
                this,
                ContractD::call_c_authorized_context(d, this, b, c),
            ) == 0 ==> result == Ok::<(), AuthError>(()),
            b != this && d != this && old(engine)@.pending_for(
                this,
                ContractD::call_c_authorized_context(d, this, b, c),
            ) == 0 ==> final(engine)@ == sub_invocation_done(old(engine)@, this, b, c, d),
    {
        let handle = engine.enter(this, "auth_sub_invocation", three_addresses(b, c, d));
        let ghost entered = engine@;
        proof {
            reveal(ContractA::auth_sub_invocation_outcome);
            if b != this && old(engine)@.pending_for(
                this,
                ContractD::call_c_authorized_context(d, this, b, c),
            ) == 0 {
                theorem_auth_sub_invocation(old(engine)@, this, b, c, d);
            }
            lemma_declared_trees_well_formed(this, b, c, d);
            assert(all_nodes_well_formed(seq![Self::allow_nested_call_to_c_node(this, b, c, d)]));
            lemma_enter_pushes(old(engine)@, Self::auth_sub_invocation_context(this, b, c, d));
        }
        let result = engine.authorize_as_self(
            one_node(Self::allow_nested_call_to_c(this, b, c, d)),
        );
        let result = match result {
            Ok(()) => ContractB::call_authorized_d(engine, b, this, c, d),
            Err(e) => Err(e),
        };
        proof {
            lemma_enter_then_leave(old(engine)@, entered, engine@, handle);
        }
        leave(engine, handle, result)
    }
}

} // verus!
