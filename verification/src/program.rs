//! What a transaction does to the engine: a sequence of operations, each
//! with the answer that it gets; and the interpreter that performs them.

use crate::context::{ContextView, Principal, Value};
use crate::engine::{AuthEngine, EngineView};
use crate::error::AuthError;
use crate::node::{views_of, AuthorizationNode, NodeView};
use crate::pool::all_nodes_well_formed;
use crate::tracker::FrameHandle;
use vstd::prelude::*;

verus! {

/// One operation on the engine.
pub enum Step {
    /// A call with this context begins.
    Enter(ContextView),
    /// The call whose frame has this handle returns.
    Exit(FrameHandle),
    /// The principal declares the tree.
    Declare(Principal, NodeView),
    /// The unit that is executing declares the trees on its own behalf.
    AuthorizeAsSelf(Seq<NodeView>),
    /// The active frame asks whether the principal has authorized its call.
    Require(Principal),
    /// The active frame asks as unit code does: its direct caller passes.
    RequireAuth(Principal),
}

/// The engine after `step`. An operation that is refused changes nothing.
pub open spec fn after_step(state: EngineView, step: Step) -> EngineView {
    match step {
        Step::Enter(context) => state.enter(context),
        Step::Exit(handle) => if state.tracker.active() == Some(handle) {
            state.exit()
        } else {
            state
        },
        Step::Declare(principal, node) => if node.well_formed() {
            state.declare(principal, node)
        } else {
            state
        },
        Step::AuthorizeAsSelf(nodes) => if state.has_active_frame() && all_nodes_well_formed(
            nodes,
        ) {
            state.declare_all(state.current().target, nodes)
        } else {
            state
        },
        Step::Require(principal) => state.check(principal),
        Step::RequireAuth(principal) => state.auth_check(principal),
    }
}

/// The answer that `step` gets.
pub open spec fn answer_to(state: EngineView, step: Step) -> Result<(), AuthError> {
    match step {
        Step::Enter(context) => Ok(()),
        Step::Exit(handle) => if state.tracker.active() == Some(handle) {
            Ok(())
        } else {
            Err(AuthError::FrameInvariantViolation)
        },
        Step::Declare(principal, node) => if node.well_formed() {
            Ok(())
        } else {
            Err(AuthError::MalformedDeclaration)
        },
        Step::AuthorizeAsSelf(nodes) => if !state.has_active_frame() {
            Err(AuthError::FrameInvariantViolation)
        } else if !all_nodes_well_formed(nodes) {
            Err(AuthError::MalformedDeclaration)
        } else {
            Ok(())
        },
        Step::Require(principal) => state.verdict(principal),
        Step::RequireAuth(principal) => state.auth_verdict(principal),
    }
}

/// The engine after `steps`, in order.
pub open spec fn after_steps(state: EngineView, steps: Seq<Step>) -> EngineView
    decreases steps.len(),
{
    if steps.len() == 0 {
        state
    } else {
        after_steps(after_step(state, steps[0]), steps.drop_first())
    }
}

/// The answers that `steps` get, in order.
pub open spec fn answers_to(state: EngineView, steps: Seq<Step>) -> Seq<Result<(), AuthError>>
    decreases steps.len(),
{
    if steps.len() == 0 {
        Seq::empty()
    } else {
        seq![answer_to(state, steps[0])] + answers_to(
            after_step(state, steps[0]),
            steps.drop_first(),
        )
    }
}

/// Whether no call with `context` is running.
pub open spec fn no_call_with(state: EngineView, context: ContextView) -> bool {
    forall|j: int|
        0 <= j < state.tracker.frames.len() ==> (#[trigger] state.tracker.frames[j]).context
            != context
}

/// Whether no call with `context` begins in `steps`.
pub open spec fn never_enters(steps: Seq<Step>, context: ContextView) -> bool {
    forall|k: int| 0 <= k < steps.len() ==> #[trigger] steps[k] != Step::Enter(context)
}

/// One operation on the engine, as a dispatcher hands it over.
#[derive(Debug)]
pub enum Operation {
    /// A call of `operation` on `principal` with `args` begins.
    Enter { principal: Principal, operation: String, args: Vec<Value> },
    /// The call whose frame has this handle returns.
    Exit(FrameHandle),
    /// The principal declares the tree.
    Declare(Principal, AuthorizationNode),
    /// The unit that is executing declares the trees on its own behalf.
    AuthorizeAsSelf(Vec<AuthorizationNode>),
    /// The active frame asks whether the principal has authorized its call.
    Require(Principal),
    /// The active frame asks as unit code does: its direct caller passes.
    RequireAuth(Principal),
}

impl View for Operation {
    type V = Step;

    open spec fn view(&self) -> Step {
        match *self {
            Operation::Enter { principal, operation, args } => Step::Enter(
                ContextView { target: principal, operation: operation@, args: args@ },
            ),
            Operation::Exit(handle) => Step::Exit(handle),
            Operation::Declare(principal, node) => Step::Declare(principal, node@),
            Operation::AuthorizeAsSelf(nodes) => Step::AuthorizeAsSelf(views_of(nodes@)),
            Operation::Require(principal) => Step::Require(principal),
            Operation::RequireAuth(principal) => Step::RequireAuth(principal),
        }
    }
}

/// The steps that a sequence of operations stands for, in order.
pub open spec fn steps_of(operations: Seq<Operation>) -> Seq<Step> {
    Seq::new(operations.len(), |i: int| operations[i]@)
}

/// Performs one operation on the engine and hands back its answer.
pub fn apply(engine: &mut AuthEngine, operation: Operation) -> (answer: Result<(), AuthError>)
    requires
        old(engine).wf(),
        operation is Enter ==> old(engine)@.tracker.entered < u64::MAX,
    ensures
        final(engine).wf(),
        final(engine)@ == after_step(old(engine)@, operation@),
        answer == answer_to(old(engine)@, operation@),
        final(engine)@.tracker.entered <= old(engine)@.tracker.entered + 1,
        !(operation is Enter) ==> final(engine)@.tracker.entered == old(engine)@.tracker.entered,
{
    proof {
        reveal(EngineView::check);
    }
    match operation {
        Operation::Enter { principal, operation, args } => {
            engine.enter(principal, operation.as_str(), args);
            Ok(())
        },
        Operation::Exit(handle) => engine.exit(handle),
        Operation::Declare(principal, node) => engine.declare(principal, node),
        Operation::AuthorizeAsSelf(nodes) => engine.authorize_as_self(nodes),
        Operation::Require(principal) => engine.require_authorization(principal),
        Operation::RequireAuth(principal) => engine.require_auth(principal),
    }
}

/// Performs `operations` in order, whatever their answers, and hands back
/// the answers.
pub fn run(engine: &mut AuthEngine, operations: Vec<Operation>) -> (answers: Vec<
    Result<(), AuthError>,
>)
    requires
        old(engine).wf(),
        old(engine)@.tracker.entered + operations@.len() <= u64::MAX,
    ensures
        final(engine).wf(),
        final(engine)@ == after_steps(old(engine)@, steps_of(operations@)),
        answers@ == answers_to(old(engine)@, steps_of(operations@)),
{
    let ghost steps = steps_of(operations@);
    let ghost total = operations@.len();
    let mut reversed = operations;
    reverse(&mut reversed);
    let mut answers: Vec<Result<(), AuthError>> = Vec::new();
    assert(steps.subrange(0, total as int) =~= steps);
    while reversed.len() > 0
        invariant
            engine.wf(),
            total == steps.len(),
            reversed@.len() <= total,
            answers@.len() + reversed@.len() == total,
            engine@.tracker.entered + reversed@.len() <= u64::MAX,
            forall|j: int|
                0 <= j < reversed@.len() ==> (#[trigger] reversed@[j])@ == steps[total - 1 - j],
            after_steps(old(engine)@, steps) == after_steps(
                engine@,
                steps.subrange(answers@.len() as int, total as int),
            ),
            answers_to(old(engine)@, steps) == answers@ + answers_to(
                engine@,
                steps.subrange(answers@.len() as int, total as int),
            ),
        decreases reversed.len(),
    {
        let ghost done = answers@.len() as int;
        let ghost rest = steps.subrange(done, total as int);
        let ghost before = engine@;
        let operation = reversed.pop().unwrap();
        assert(operation@ == rest[0]);
        let answer = apply(engine, operation);
        answers.push(answer);
        proof {
            assert(rest.drop_first() =~= steps.subrange(done + 1, total as int));
            assert(answers@ + answers_to(engine@, rest.drop_first()) =~= answers@.drop_last() + (
            seq![answer] + answers_to(engine@, rest.drop_first())));
        }
    }
    proof {
        let empty = steps.subrange(total as int, total as int);
        assert(empty.len() == 0);
        assert(answers@ + answers_to(engine@, empty) =~= answers@);
    }
    answers
}

/// Puts the operations into the opposite order.
fn reverse(operations: &mut Vec<Operation>)
    ensures
        final(operations)@.len() == old(operations)@.len(),
        forall|j: int|
            0 <= j < old(operations)@.len() ==> (#[trigger] final(operations)@[j])
                == old(operations)@[old(operations)@.len() - 1 - j],
{
    let ghost all = operations@;
    let mut reversed: Vec<Operation> = Vec::new();
    while operations.len() > 0
        invariant
            operations@.len() + reversed@.len() == all.len(),
            forall|j: int| 0 <= j < operations@.len() ==> (#[trigger] operations@[j]) == all[j],
            forall|j: int|
                0 <= j < reversed@.len() ==> (#[trigger] reversed@[j]) == all[all.len() - 1 - j],
        decreases operations.len(),
    {
        let operation = operations.pop().unwrap();
        reversed.push(operation);
    }
    *operations = reversed;
}

} // verus!
