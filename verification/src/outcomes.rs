//! What the invocations of the four units come to: how many pending
//! entries each of them needs, and which answer it gets.

use crate::context::{is_operation_name, ContextView, Principal};
use crate::engine::{ConsumedView, EngineView, Origin};
use crate::error::AuthError;
use crate::laws::{
    consumed_entry, law_authorized_iff_available, law_check_consumes_one,
    law_denial_changes_nothing, law_enter_sees_pending, law_match_opens_children,
    lemma_enter_exit_pending, lemma_enter_keeps_pending,
};
use crate::node::NodeView;
use crate::pool::{
    all_nodes_well_formed, answers, count_matches, first_match, granted, lemma_count_add,
    lemma_count_positive, lemma_count_push, lemma_count_remove, lemma_count_zero,
    lemma_first_match_from, PendingView,
};
use crate::tracker::{
    lemma_scoped_hit_below, lemma_scoped_hit_counts, lemma_scoped_matches_same, TrackerView,
};
use crate::units::{
    lemma_check_keeps_calls, lemma_enter_pushes, lemma_enter_then_leave, ContractA, ContractB,
    ContractC, ContractD, Outcome,
};
use vstd::prelude::*;

verus! {

/// Whether `later` is `earlier` followed by the records of `n` entries
/// consumed for `(principal, context)`.
pub open spec fn grew_by(
    earlier: Seq<ConsumedView>,
    later: Seq<ConsumedView>,
    principal: Principal,
    context: ContextView,
    n: nat,
) -> bool {
    &&& later.len() == earlier.len() + n
    &&& later.subrange(0, earlier.len() as int) == earlier
    &&& forall|i: int|
        earlier.len() <= i < later.len() ==> (#[trigger] later[i]).principal == principal
            && later[i].context == context
}

/// Whether `after` is `before` with the entries `declared` added and
/// `consumed` entries that answer `(principal, context)` taken away, and
/// nothing else changed hands: the same calls are running; for every
/// principal and context, what is pending is what was pending, more what
/// was declared for them, less what was consumed; no frame holds more than
/// it held; and the trace has grown by the records of what was consumed.
pub open spec fn turnover(
    before: EngineView,
    after: EngineView,
    principal: Principal,
    context: ContextView,
    declared: Seq<PendingView>,
    consumed: nat,
) -> bool {
    &&& after.tracker.calls() == before.tracker.calls()
    &&& forall|q: Principal, x: ContextView|
        #[trigger] after.pending_for(q, x) + (if q == principal && x == context {
            consumed
        } else {
            0
        }) == before.pending_for(q, x) + count_matches(declared, q, x)
    &&& forall|j: int, q: Principal, x: ContextView|
        0 <= j < before.tracker.frames.len() ==> #[trigger] count_matches(
            after.tracker.frames[j].scoped,
            q,
            x,
        ) <= count_matches(before.tracker.frames[j].scoped, q, x)
    &&& grew_by(before.trace, after.trace, principal, context, consumed)
}

/// Whether `after` is what is left of `before` when `n` entries that
/// answer `(principal, context)` have been consumed and nothing else has
/// changed hands.
pub open spec fn spent(
    before: EngineView,
    after: EngineView,
    principal: Principal,
    context: ContextView,
    n: nat,
) -> bool {
    turnover(before, after, principal, context, Seq::empty(), n)
}

/// Whether `after` holds the frames, the pool and the trace of `before`:
/// nothing was declared, consumed or opened, and no frame was left behind.
pub open spec fn untouched(before: EngineView, after: EngineView) -> bool {
    &&& after.tracker.frames == before.tracker.frames
    &&& after.pool == before.pool
    &&& after.trace == before.trace
}

/// What an invocation that starts from `before` consumes when it needs `n`
/// pending entries that answer `(principal, context)`: all `n` of them
/// where that many are pending, and what is pending where it is less.
pub open spec fn consumed_of(
    before: EngineView,
    principal: Principal,
    context: ContextView,
    n: nat,
) -> nat {
    if before.pending_for(principal, context) >= n {
        n
    } else {
        before.pending_for(principal, context)
    }
}

/// Whether an invocation that starts from `before` needs `n` pending
/// entries that answer `(principal, context)`: with that many pending it
/// succeeds; with fewer it is denied, when it has consumed what there was.
/// Either way it leaves the calls that are running as they were and
/// consumes nothing else; where it consumes nothing, it leaves the engine as
/// it found it.
pub open spec fn costs(
    outcome: Outcome,
    before: EngineView,
    principal: Principal,
    context: ContextView,
    n: nat,
) -> bool {
    &&& outcome.result == if before.pending_for(principal, context) >= n {
        Ok::<(), AuthError>(())
    } else {
        Err::<(), AuthError>(AuthError::AuthorizationDenied)
    }
    &&& spent(
        before,
        outcome.state,
        principal,
        context,
        consumed_of(before, principal, context, n),
    )
    &&& consumed_of(before, principal, context, n) == 0 ==> untouched(before, outcome.state)
}

/// Whether the call that is running executes `principal`.
pub open spec fn running_as(state: EngineView, principal: Principal) -> bool {
    state.has_active_frame() && state.current().target == principal
}

/// The calls that are running tell the frames' number and contexts.
pub proof fn lemma_calls(left: EngineView, right: EngineView)
    requires
        left.tracker.calls() == right.tracker.calls(),
    ensures
        left.tracker.frames.len() == right.tracker.frames.len(),
        left.has_active_frame() == right.has_active_frame(),
        left.has_active_frame() ==> left.current() == right.current(),
        forall|p: Principal| running_as(left, p) == running_as(right, p),
        forall|p: Principal| left.called_by(p) == right.called_by(p),
{
    let n = left.tracker.frames.len() as int;
    assert(left.tracker.calls().len() == n);
    assert(right.tracker.calls().len() == right.tracker.frames.len());
    if n > 0 {
        assert(left.tracker.calls()[n - 1] == left.tracker.frames[n - 1].call());
        assert(right.tracker.calls()[n - 1] == right.tracker.frames[n - 1].call());
    }
    if n > 1 {
        assert(left.tracker.calls()[n - 2] == left.tracker.frames[n - 2].call());
        assert(right.tracker.calls()[n - 2] == right.tracker.frames[n - 2].call());
    }
}

/// An engine that is untouched has declared and consumed nothing.
pub proof fn lemma_spent_nothing(
    before: EngineView,
    after: EngineView,
    principal: Principal,
    context: ContextView,
)
    requires
        untouched(before, after),
    ensures
        spent(before, after, principal, context, 0),
{
    assert(after.trace.subrange(0, before.trace.len() as int) =~= before.trace);
    assert forall|q: Principal, x: ContextView|
        #[trigger] after.pending_for(q, x) + 0 == before.pending_for(q, x) + count_matches(
            Seq::<PendingView>::empty(),
            q,
            x,
        ) by {}
}

/// A declaration adds what it declares and consumes nothing.
pub proof fn lemma_declared(
    state: EngineView,
    declarer: Principal,
    nodes: Seq<NodeView>,
    principal: Principal,
    context: ContextView,
)
    ensures
        turnover(
            state,
            state.declare_all(declarer, nodes),
            principal,
            context,
            granted(declarer, nodes),
            0,
        ),
{
    let after = state.declare_all(declarer, nodes);
    assert(after.trace.subrange(0, state.trace.len() as int) =~= state.trace);
    assert forall|q: Principal, x: ContextView|
        #[trigger] after.pending_for(q, x) + 0 == state.pending_for(q, x) + count_matches(
            granted(declarer, nodes),
            q,
            x,
        ) by {
        lemma_count_add(state.pool, granted(declarer, nodes), q, x);
    }
}

/// What is declared and consumed in two steps in a row adds up.
pub proof fn lemma_turnover_chain(
    first: EngineView,
    second: EngineView,
    third: EngineView,
    principal: Principal,
    context: ContextView,
    declared: Seq<PendingView>,
    consumed: nat,
    declared_then: Seq<PendingView>,
    consumed_then: nat,
)
    requires
        turnover(first, second, principal, context, declared, consumed),
        turnover(second, third, principal, context, declared_then, consumed_then),
    ensures
        turnover(
            first,
            third,
            principal,
            context,
            declared + declared_then,
            consumed + consumed_then,
        ),
{
    lemma_calls(first, second);
    assert forall|q: Principal, x: ContextView|
        #[trigger] third.pending_for(q, x) + (if q == principal && x == context {
            consumed + consumed_then
        } else {
            0
        }) == first.pending_for(q, x) + count_matches(declared + declared_then, q, x) by {
        assert(second.pending_for(q, x) + (if q == principal && x == context {
            consumed
        } else {
            0
        }) == first.pending_for(q, x) + count_matches(declared, q, x));
        lemma_count_add(declared, declared_then, q, x);
    }
    assert forall|j: int, q: Principal, x: ContextView|
        0 <= j < first.tracker.frames.len() implies #[trigger] count_matches(
        third.tracker.frames[j].scoped,
        q,
        x,
    ) <= count_matches(first.tracker.frames[j].scoped, q, x) by {
        assert(count_matches(second.tracker.frames[j].scoped, q, x) <= count_matches(
            first.tracker.frames[j].scoped,
            q,
            x,
        ));
    }
    assert(third.trace.subrange(0, first.trace.len() as int) =~= first.trace) by {
        assert forall|i: int| 0 <= i < first.trace.len() implies third.trace[i]
            == first.trace[i] by {
            assert(third.trace.subrange(0, second.trace.len() as int)[i] == third.trace[i]);
            assert(second.trace.subrange(0, first.trace.len() as int)[i] == second.trace[i]);
        }
    }
    assert forall|i: int| first.trace.len() <= i < third.trace.len() implies (
    #[trigger] third.trace[i]).principal == principal && third.trace[i].context == context by {
        if i < second.trace.len() {
            assert(third.trace.subrange(0, second.trace.len() as int)[i] == third.trace[i]);
            assert(second.trace[i].principal == principal);
        }
    }
}

/// What is spent in two invocations in a row adds up.
pub proof fn lemma_spent_chain(
    first: EngineView,
    second: EngineView,
    third: EngineView,
    principal: Principal,
    context: ContextView,
    n: nat,
    m: nat,
)
    requires
        spent(first, second, principal, context, n),
        spent(second, third, principal, context, m),
    ensures
        spent(first, third, principal, context, n + m),
{
    let empty = Seq::<PendingView>::empty();
    lemma_turnover_chain(first, second, third, principal, context, empty, n, empty, m);
    assert(empty + empty =~= empty);
}

/// What an invocation declares and consumes inside a frame that was
/// entered for it is what was declared and consumed once that frame is
/// left: the frame held nothing when it was entered, so it takes nothing
/// with it.
pub proof fn lemma_turnover_inside(
    before: EngineView,
    entered: ContextView,
    after: EngineView,
    principal: Principal,
    context: ContextView,
    declared: Seq<PendingView>,
    consumed: nat,
)
    requires
        turnover(before.enter(entered), after, principal, context, declared, consumed),
    ensures
        turnover(before, after.exit(), principal, context, declared, consumed),
        after.exit().tracker.entered == after.tracker.entered,
        untouched(before.enter(entered), after) ==> untouched(before, after.exit()),
{
    let inside = before.enter(entered);
    let left = after.exit();
    let top = before.tracker.frames.len() as int;
    lemma_calls(inside, after);
    lemma_enter_pushes(before, entered);
    lemma_enter_then_leave(before, inside, after, inside.tracker.calls().last().handle);
    assert forall|q: Principal, x: ContextView|
        #[trigger] left.pending_for(q, x) + (if q == principal && x == context {
            consumed
        } else {
            0
        }) == before.pending_for(q, x) + count_matches(declared, q, x) by {
        assert(after.pending_for(q, x) + (if q == principal && x == context {
            consumed
        } else {
            0
        }) == inside.pending_for(q, x) + count_matches(declared, q, x));
        lemma_enter_keeps_pending(before, entered, q, x);
        assert(count_matches(after.tracker.frames[top].scoped, q, x) <= count_matches(
            inside.tracker.frames[top].scoped,
            q,
            x,
        ));
        assert(inside.tracker.frames[top].scoped =~= Seq::<PendingView>::empty());
        lemma_scoped_matches_same(after.tracker.frames, left.tracker.frames, q, x, top);
    }
    assert forall|j: int, q: Principal, x: ContextView|
        0 <= j < before.tracker.frames.len() implies #[trigger] count_matches(
        left.tracker.frames[j].scoped,
        q,
        x,
    ) <= count_matches(before.tracker.frames[j].scoped, q, x) by {
        assert(left.tracker.frames[j] == after.tracker.frames[j]);
        assert(inside.tracker.frames[j] == before.tracker.frames[j]);
        assert(count_matches(after.tracker.frames[j].scoped, q, x) <= count_matches(
            inside.tracker.frames[j].scoped,
            q,
            x,
        ));
    }
    if untouched(inside, after) {
        assert(left.tracker.frames =~= before.tracker.frames);
    }
}

/// What an invocation spends inside a frame that was entered for it is
/// what was spent once that frame is left.
pub proof fn lemma_spent_inside(
    before: EngineView,
    entered: ContextView,
    after: EngineView,
    principal: Principal,
    context: ContextView,
    n: nat,
)
    requires
        spent(before.enter(entered), after, principal, context, n),
    ensures
        spent(before, after.exit(), principal, context, n),
        after.exit().tracker.entered == after.tracker.entered,
        untouched(before.enter(entered), after) ==> untouched(before, after.exit()),
{
    lemma_turnover_inside(before, entered, after, principal, context, Seq::empty(), n);
}

/// A check that succeeds in a frame entered for it has spent one entry
/// once that frame is left.
pub proof fn lemma_check_spends_one(before: EngineView, principal: Principal, context: ContextView)
    requires
        before.pending_for(principal, context) >= 1,
    ensures
        before.enter(context).verdict(principal) == Ok::<(), AuthError>(()),
        spent(before, before.enter(context).check(principal).exit(), principal, context, 1),
{
    reveal(EngineView::found);
    reveal(EngineView::check);
    let inside = before.enter(context);
    let checked = inside.check(principal);
    let left = checked.exit();
    let top = before.tracker.frames.len() as int;
    law_enter_sees_pending(before, principal, context);
    law_authorized_iff_available(inside, principal);
    lemma_enter_pushes(before, context);
    lemma_check_keeps_calls(inside, principal);
    lemma_enter_then_leave(before, inside, checked, inside.tracker.calls().last().handle);
    let entry = consumed_entry(inside, principal);
    assert forall|q: Principal, x: ContextView|
        #[trigger] left.pending_for(q, x) + (if q == principal && x == context {
            1nat
        } else {
            0nat
        }) == before.pending_for(q, x) + count_matches(Seq::<PendingView>::empty(), q, x) by {
        law_check_consumes_one(inside, principal, q, x);
        lemma_enter_exit_pending(before, context, q, x);
        assert(inside.exit().pending_for(q, x) == before.pending_for(q, x));
    }
    lemma_scoped_hit_below(inside.tracker.frames, principal, context, top);
    assert forall|j: int, q: Principal, x: ContextView|
        0 <= j < before.tracker.frames.len() implies #[trigger] count_matches(
        left.tracker.frames[j].scoped,
        q,
        x,
    ) <= count_matches(before.tracker.frames[j].scoped, q, x) by {
        assert(left.tracker.frames[j] == checked.tracker.frames[j]);
        assert(inside.tracker.frames[j] == before.tracker.frames[j]);
        match inside.tracker.scoped_hit(principal) {
            Some((k, i)) => {
                if j == k {
                    lemma_count_remove(before.tracker.frames[j].scoped, i, q, x);
                }
            },
            None => {},
        }
    }
    assert(left.trace.len() == before.trace.len() + 1);
    assert(left.trace.subrange(0, before.trace.len() as int) =~= before.trace);
    assert(left.trace[before.trace.len() as int].principal == principal);
    assert(left.trace[before.trace.len() as int].context == context);
}

/// How many pending entries a check on behalf of `authorizer` needs in a
/// call that `caller` makes: none if the caller is the authorizer itself,
/// else one.
pub open spec fn needed(caller: Principal, authorizer: Principal) -> nat {
    if caller == authorizer {
        0
    } else {
        1
    }
}

/// An invocation of `authorized_fn_c` needs no pending entry when
/// `authorizer` itself makes the call, and one entry for the call's context
/// otherwise.
pub proof fn lemma_authorized_fn_c_costs(state: EngineView, this: Principal, authorizer: Principal)
    ensures
        costs(
            ContractC::authorized_fn_c_outcome(state, this, authorizer),
            state,
            authorizer,
            ContractC::authorized_fn_c_context(this, authorizer),
            if running_as(state, authorizer) {
                0
            } else {
                1
            },
        ),
{
    reveal(ContractC::authorized_fn_c_outcome);
    let context = ContractC::authorized_fn_c_context(this, authorizer);
    let inside = state.enter(context);
    assert(inside.called_by(authorizer) == running_as(state, authorizer)) by {
        let n = state.tracker.frames.len() as int;
        if n > 0 {
            assert(inside.tracker.frames[n - 1] == state.tracker.frames[n - 1]);
        }
    }
    assert(inside.exit().tracker.frames =~= state.tracker.frames);
    if running_as(state, authorizer) {
        lemma_spent_nothing(state, inside.exit(), authorizer, context);
    } else {
        law_enter_sees_pending(state, authorizer, context);
        law_authorized_iff_available(inside, authorizer);
        if state.pending_for(authorizer, context) >= 1 {
            lemma_check_spends_one(state, authorizer, context);
        } else {
            law_denial_changes_nothing(inside, authorizer);
            lemma_spent_nothing(state, inside.exit(), authorizer, context);
        }
    }
}

/// An invocation of `call_c` that `B` makes needs what the call of `C`
/// inside it needs.
pub proof fn lemma_call_c_costs(
    state: EngineView,
    this: Principal,
    authorizer: Principal,
    b: Principal,
    c: Principal,
)
    requires
        running_as(state, b),
    ensures
        costs(
            ContractD::call_c_outcome(
                state,
                this,
                authorizer,
                b,
                c,
            ),
            state,
            authorizer,
            ContractC::authorized_fn_c_context(c, authorizer),
            needed(this, authorizer),
        ),
{
    reveal(ContractD::call_c_outcome);
    let entered = ContractD::call_c_context(
        this,
        authorizer,
        b,
        c,
    );
    let context = ContractC::authorized_fn_c_context(c, authorizer);
    let inside = state.enter(entered);
    lemma_entered_by(state, entered, b);
    lemma_authorized_fn_c_costs(inside, c, authorizer);
    lemma_enter_keeps_pending(state, entered, authorizer, context);
    let inner = ContractC::authorized_fn_c_outcome(inside, c, authorizer);
    let n = consumed_of(inside, authorizer, context, needed(this, authorizer));
    lemma_spent_inside(state, entered, inner.state, authorizer, context, n);
}

/// In a frame that has just been entered, the caller is the principal that
/// was running, the frame executes the target of its context, and no check
/// has been made.
pub proof fn lemma_entered_by(state: EngineView, entered: ContextView, caller: Principal)
    requires
        running_as(state, caller),
    ensures
        state.enter(entered).called_by(caller),
        state.enter(entered).auth_check(caller) == state.enter(entered),
        state.enter(entered).auth_verdict(caller) == Ok::<(), AuthError>(()),
        forall|p: Principal| running_as(state.enter(entered), p) == (p == entered.target),
{
    let n = state.tracker.frames.len() as int;
    assert(state.enter(entered).tracker.frames[n - 1] == state.tracker.frames[n - 1]);
}

/// An invocation of `call_d` that `authorizer` makes needs what the call
/// of `C` by `D` needs.
pub proof fn lemma_call_d_costs(
    state: EngineView,
    this: Principal,
    authorizer: Principal,
    c: Principal,
    d: Principal,
)
    requires
        running_as(state, authorizer),
    ensures
        costs(
            ContractB::call_d_outcome(
                state,
                this,
                authorizer,
                c,
                d,
            ),
            state,
            authorizer,
            ContractC::authorized_fn_c_context(c, authorizer),
            needed(d, authorizer),
        ),
{
    reveal(ContractB::call_d_outcome);
    let entered = ContractB::call_d_context(
        this,
        authorizer,
        c,
        d,
    );
    let context = ContractC::authorized_fn_c_context(c, authorizer);
    let n = needed(d, authorizer);
    let inside = state.enter(entered);
    lemma_entered_by(state, entered, authorizer);
    lemma_call_c_costs(inside, d, authorizer, this, c);
    lemma_enter_keeps_pending(state, entered, authorizer, context);
    let inner = ContractD::call_c_outcome(
        inside,
        d,
        authorizer,
        this,
        c,
    );
    let k = consumed_of(inside, authorizer, context, n);
    lemma_spent_inside(state, entered, inner.state, authorizer, context, k);
}

/// An invocation of `authorized_fn_b` that `authorizer` makes needs what
/// the call of `C` by `B` needs.
pub proof fn lemma_authorized_fn_b_costs(
    state: EngineView,
    this: Principal,
    authorizer: Principal,
    c: Principal,
)
    requires
        running_as(state, authorizer),
    ensures
        costs(
            ContractB::authorized_fn_b_outcome(state, this, authorizer, c),
            state,
            authorizer,
            ContractC::authorized_fn_c_context(c, authorizer),
            needed(this, authorizer),
        ),
{
    reveal(ContractB::authorized_fn_b_outcome);
    let entered = ContractB::authorized_fn_b_context(this, authorizer, c);
    let context = ContractC::authorized_fn_c_context(c, authorizer);
    let n = needed(this, authorizer);
    let inside = state.enter(entered);
    lemma_entered_by(state, entered, authorizer);
    lemma_authorized_fn_c_costs(inside, c, authorizer);
    lemma_enter_keeps_pending(state, entered, authorizer, context);
    let inner = ContractC::authorized_fn_c_outcome(inside, c, authorizer);
    let k = consumed_of(inside, authorizer, context, n);
    lemma_spent_inside(state, entered, inner.state, authorizer, context, k);
}

/// An invocation of `call_d_twice` that `authorizer` makes needs what the
/// call of `C` by `D` and the call of `C` by `B` need together.
pub proof fn lemma_call_d_twice_costs(
    state: EngineView,
    this: Principal,
    authorizer: Principal,
    c: Principal,
    d: Principal,
)
    requires
        running_as(state, authorizer),
    ensures
        costs(
            ContractB::call_d_twice_outcome(
                state,
                this,
                authorizer,
                c,
                d,
            ),
            state,
            authorizer,
            ContractC::authorized_fn_c_context(c, authorizer),
            needed(d, authorizer) + needed(this, authorizer),
        ),
{
    reveal(ContractB::call_d_twice_outcome);
    let entered = ContractB::call_d_twice_context(
        this,
        authorizer,
        c,
        d,
    );
    let context = ContractC::authorized_fn_c_context(c, authorizer);
    let through_d = needed(d, authorizer);
    let direct = needed(this, authorizer);
    let inside = state.enter(entered);
    lemma_entered_by(state, entered, authorizer);
    lemma_call_c_costs(inside, d, authorizer, this, c);
    lemma_enter_keeps_pending(state, entered, authorizer, context);
    let first = ContractD::call_c_outcome(
        inside,
        d,
        authorizer,
        this,
        c,
    );
    let taken = consumed_of(inside, authorizer, context, through_d);
    if state.pending_for(authorizer, context) >= through_d {
        lemma_calls(first.state, inside);
        lemma_authorized_fn_c_costs(first.state, c, authorizer);
        let second = ContractC::authorized_fn_c_outcome(first.state, c, authorizer);
        assert(first.state.pending_for(authorizer, context) + through_d == inside.pending_for(
            authorizer,
            context,
        ));
        let then = consumed_of(first.state, authorizer, context, direct);
        lemma_spent_chain(inside, first.state, second.state, authorizer, context, taken, then);
        lemma_spent_inside(state, entered, second.state, authorizer, context, taken + then);
    } else {
        lemma_spent_inside(state, entered, first.state, authorizer, context, taken);
    }
}

/// The trees that `A` declares for the calls of `C` and of `D` are well
/// formed.
pub proof fn lemma_declared_trees_well_formed(
    this: Principal,
    b: Principal,
    c: Principal,
    d: Principal,
)
    ensures
        ContractA::allow_call_to_c_node(this, c).well_formed(),
        ContractA::allow_nested_call_to_c_node(this, b, c, d).well_formed(),
{
    reveal_strlit("authorized_fn_c");
    reveal_strlit("call_c_authorized");
    assert(is_operation_name("authorized_fn_c"@));
    assert(is_operation_name("call_c_authorized"@));
    let leaf = ContractA::allow_call_to_c_node(this, c);
    assert(leaf.well_formed());
    let nested = ContractA::allow_nested_call_to_c_node(this, b, c, d);
    assert(nested.children[0] == leaf);
    assert(nested.well_formed());
}

/// The tree that `A` declares below a root without an operation name is
/// not well formed: the context at its root is empty.
pub proof fn lemma_bad_root_malformed(this: Principal, c: Principal)
    ensures
        !ContractA::allow_call_to_c_under_bad_root_node(this, c).well_formed(),
        !all_nodes_well_formed(seq![ContractA::allow_call_to_c_under_bad_root_node(this, c)]),
{
    reveal_strlit("");
    let bad = ContractA::allow_call_to_c_under_bad_root_node(this, c);
    assert(!is_operation_name(""@));
    assert(seq![bad][0] == bad);
}

/// One declared tree answers its principal for the context at its root,
/// and nobody else.
pub proof fn lemma_granted_one(
    principal: Principal,
    node: NodeView,
    other: Principal,
    context: ContextView,
)
    ensures
        count_matches(granted(principal, seq![node]), other, context) == if other == principal
            && context == node.context {
            1nat
        } else {
            0nat
        },
{
    let added = granted(principal, seq![node]);
    assert(added.drop_last() =~= Seq::<PendingView>::empty());
    assert(count_matches(added.drop_last(), other, context) == 0);
}

/// Two declared trees for one context answer twice.
pub proof fn lemma_granted_two(
    principal: Principal,
    first: NodeView,
    second: NodeView,
    other: Principal,
    context: ContextView,
)
    requires
        first.context == second.context,
    ensures
        count_matches(granted(principal, seq![first, second]), other, context) == if other
            == principal && context == first.context {
            2nat
        } else {
            0nat
        },
{
    let added = granted(principal, seq![first, second]);
    let one = Seq::<PendingView>::empty().push(PendingView { principal, node: first });
    assert(added =~= one.push(PendingView { principal, node: second }));
    lemma_count_push(one, PendingView { principal, node: second }, other, context);
    lemma_count_push(
        Seq::<PendingView>::empty(),
        PendingView { principal, node: first },
        other,
        context,
    );
    assert(count_matches(Seq::<PendingView>::empty(), other, context) == 0);
}

/// An invocation of `A` that enters its frame, declares `nodes` and
/// makes one call comes to what was declared and what the call consumed.
pub proof fn lemma_declare_then_call(
    state: EngineView,
    entered: ContextView,
    nodes: Seq<NodeView>,
    after: EngineView,
    context: ContextView,
    consumed: nat,
)
    requires
        spent(
            state.enter(entered).declare_all(entered.target, nodes),
            after,
            entered.target,
            context,
            consumed,
        ),
    ensures
        turnover(
            state,
            after.exit(),
            entered.target,
            context,
            granted(entered.target, nodes),
            consumed,
        ),
{
    let this = entered.target;
    let begun = state.enter(entered);
    let declared = begun.declare_all(this, nodes);
    let added = granted(this, nodes);
    lemma_declared(begun, this, nodes, this, context);
    lemma_turnover_chain(begun, declared, after, this, context, added, 0, Seq::empty(), consumed);
    assert(added + Seq::<PendingView>::empty() =~= added);
    lemma_turnover_inside(state, entered, after, this, context, added, consumed);
}

/// The frame in which `A` runs after it has declared `nodes`: `A` is the
/// principal that is running, and what is pending is what was pending with
/// what was declared.
pub proof fn lemma_begun_as(
    state: EngineView,
    entered: ContextView,
    nodes: Seq<NodeView>,
    context: ContextView,
)
    ensures
        running_as(state.enter(entered), entered.target),
        running_as(state.enter(entered).declare_all(entered.target, nodes), entered.target),
        state.enter(entered).has_active_frame(),
        state.enter(entered).current() == entered,
        state.enter(entered).declare_all(entered.target, nodes).pending_for(
            entered.target,
            context,
        ) == state.pending_for(entered.target, context) + count_matches(
            granted(entered.target, nodes),
            entered.target,
            context,
        ),
{
    lemma_enter_keeps_pending(state, entered, entered.target, context);
    lemma_count_add(
        state.enter(entered).pool,
        granted(entered.target, nodes),
        entered.target,
        context,
    );
}

/// `call_b` succeeds from every state: `A` accepts one call of `C`, and
/// one is what `B` needs at most. At return the declared tree is added to
/// what was pending, less what the call of `C` by `B` consumed.
pub proof fn theorem_call_b(state: EngineView, this: Principal, b: Principal, c: Principal)
    ensures
        ContractA::call_b_outcome(state, this, b, c).result == Ok::<(), AuthError>(()),
        turnover(
            state,
            ContractA::call_b_outcome(state, this, b, c).state,
            this,
            ContractC::authorized_fn_c_context(c, this),
            granted(this, seq![ContractA::allow_call_to_c_node(this, c)]),
            needed(b, this),
        ),
{
    reveal(ContractA::call_b_outcome);
    let entered = ContractA::call_b_context(this, b, c);
    let node = ContractA::allow_call_to_c_node(this, c);
    let context = node.context;
    let declared = state.enter(entered).declare_all(this, seq![node]);
    lemma_declared_trees_well_formed(this, b, c, this);
    lemma_begun_as(state, entered, seq![node], context);
    lemma_granted_one(this, node, this, context);
    lemma_authorized_fn_b_costs(declared, b, this, c);
    let inner = ContractB::authorized_fn_b_outcome(declared, b, this, c);
    lemma_declare_then_call(state, entered, seq![node], inner.state, context, needed(b, this));
}

/// `call_d_through_b` succeeds from every state: `A` accepts one call of
/// `C`, and it does not matter that the call reaches `C` through a unit that
/// `A` has not named. At return the declared tree is added to what was
/// pending, less what the call of `C` by `D` consumed.
pub proof fn theorem_call_d_through_b(
    state: EngineView,
    this: Principal,
    b: Principal,
    c: Principal,
    d: Principal,
)
    ensures
        ContractA::call_d_through_b_outcome(state, this, b, c, d).result == Ok::<(), AuthError>(
            (),
        ),
        turnover(
            state,
            ContractA::call_d_through_b_outcome(state, this, b, c, d).state,
            this,
            ContractC::authorized_fn_c_context(c, this),
            granted(this, seq![ContractA::allow_call_to_c_node(this, c)]),
            needed(d, this),
        ),
{
    reveal(ContractA::call_d_through_b_outcome);
    let entered = ContractA::call_d_through_b_context(this, b, c, d);
    let node = ContractA::allow_call_to_c_node(this, c);
    let context = node.context;
    let declared = state.enter(entered).declare_all(this, seq![node]);
    lemma_declared_trees_well_formed(this, b, c, this);
    lemma_begun_as(state, entered, seq![node], context);
    lemma_granted_one(this, node, this, context);
    lemma_call_d_costs(declared, b, this, c, d);
    let inner = ContractB::call_d_outcome(declared, b, this, c, d);
    lemma_declare_then_call(state, entered, seq![node], inner.state, context, needed(d, this));
}

/// What `call_b_twice_single_auth` consumes: nothing where `d` is `this`
/// itself; else the entry for each of the two calls of `C` where something
/// was pending before, and only the one that `A` declares where nothing was.
pub open spec fn single_auth_consumed(
    state: EngineView,
    this: Principal,
    c: Principal,
    d: Principal,
) -> nat {
    if d == this {
        0
    } else if state.pending_for(this, ContractC::authorized_fn_c_context(c, this)) >= 1 {
        2
    } else {
        1
    }
}

/// `call_b_twice_single_auth` is denied exactly when the second call of
/// `C` finds nothing: when `d` is not `this` itself and nothing was pending
/// for the call of `C` before. The first call of `B` succeeds and consumes
/// one entry, which is the one that `A` declares where nothing else was
/// pending; the second call of `B` gets the answer of the whole.
pub proof fn theorem_call_b_twice_single_auth(
    state: EngineView,
    this: Principal,
    b: Principal,
    c: Principal,
    d: Principal,
)
    ensures
        ContractA::call_b_twice_single_auth_outcome(state, this, b, c, d).result == if d == this
            || state.pending_for(this, ContractC::authorized_fn_c_context(c, this)) >= 1 {
            Ok::<(), AuthError>(())
        } else {
            Err::<(), AuthError>(AuthError::AuthorizationDenied)
        },
        turnover(
            state,
            ContractA::call_b_twice_single_auth_outcome(state, this, b, c, d).state,
            this,
            ContractC::authorized_fn_c_context(c, this),
            granted(this, seq![ContractA::allow_call_to_c_node(this, c)]),
            single_auth_consumed(state, this, c, d),
        ),
        ({
            let context = ContractC::authorized_fn_c_context(c, this);
            let declared = state.enter(
                ContractA::call_b_twice_single_auth_context(this, b, c, d),
            ).declare_all(this, seq![ContractA::allow_call_to_c_node(this, c)]);
            let first = ContractB::call_d_outcome(declared, b, this, c, d);
            let second = ContractB::call_d_outcome(first.state, b, this, c, d);
            &&& declared.pending_for(this, context) == state.pending_for(this, context) + 1
            &&& first.result == Ok::<(), AuthError>(())
            &&& first.state.pending_for(this, context) + needed(d, this) == declared.pending_for(
                this,
                context,
            )
            &&& second.result == ContractA::call_b_twice_single_auth_outcome(
                state,
                this,
                b,
                c,
                d,
            ).result
        }),
{
    reveal(ContractA::call_b_twice_single_auth_outcome);
    let entered = ContractA::call_b_twice_single_auth_context(this, b, c, d);
    let node = ContractA::allow_call_to_c_node(this, c);
    let context = node.context;
    let declared = state.enter(entered).declare_all(this, seq![node]);
    lemma_declared_trees_well_formed(this, b, c, this);
    lemma_begun_as(state, entered, seq![node], context);
    lemma_granted_one(this, node, this, context);
    lemma_call_d_costs(declared, b, this, c, d);
    let first = ContractB::call_d_outcome(declared, b, this, c, d);
    lemma_calls(first.state, declared);
    assert(first.state.pending_for(this, context) + needed(d, this) == declared.pending_for(
        this,
        context,
    ));
    lemma_call_d_costs(first.state, b, this, c, d);
    let second = ContractB::call_d_outcome(first.state, b, this, c, d);
    let taken = consumed_of(first.state, this, context, needed(d, this));
    lemma_spent_chain(declared, first.state, second.state, this, context, needed(d, this), taken);
    lemma_declare_then_call(
        state,
        entered,
        seq![node],
        second.state,
        context,
        needed(d, this) + taken,
    );
}

/// `call_b_twice_double_auth` succeeds from every state: each of the two
/// calls of `C` has a declaration of its own. Each declaration adds one
/// entry to what is pending for the call of `C`, and each call of `B`
/// consumes what the call of `C` by `D` needs.
pub proof fn theorem_call_b_twice_double_auth(
    state: EngineView,
    this: Principal,
    b: Principal,
    c: Principal,
    d: Principal,
)
    ensures
        ContractA::call_b_twice_double_auth_outcome(state, this, b, c, d).result == Ok::<
            (),
            AuthError,
        >(()),
        turnover(
            state,
            ContractA::call_b_twice_double_auth_outcome(state, this, b, c, d).state,
            this,
            ContractC::authorized_fn_c_context(c, this),
            granted(this, seq![ContractA::allow_call_to_c_node(this, c)]) + granted(
                this,
                seq![ContractA::allow_call_to_c_node(this, c)],
            ),
            needed(d, this) + needed(d, this),
        ),
        ({
            let context = ContractC::authorized_fn_c_context(c, this);
            let node = ContractA::allow_call_to_c_node(this, c);
            let declared = state.enter(
                ContractA::call_b_twice_double_auth_context(this, b, c, d),
            ).declare_all(this, seq![node]);
            let first = ContractB::call_d_outcome(declared, b, this, c, d);
            let again = first.state.declare_all(this, seq![node]);
            let second = ContractB::call_d_outcome(again, b, this, c, d);
            &&& declared.pending_for(this, context) == state.pending_for(this, context) + 1
            &&& first.result == Ok::<(), AuthError>(())
            &&& first.state.pending_for(this, context) + needed(d, this) == declared.pending_for(
                this,
                context,
            )
            &&& again.pending_for(this, context) == first.state.pending_for(this, context) + 1
            &&& second.result == Ok::<(), AuthError>(())
            &&& second.state.pending_for(this, context) + needed(d, this) == again.pending_for(
                this,
                context,
            )
        }),
{
    reveal(ContractA::call_b_twice_double_auth_outcome);
    let entered = ContractA::call_b_twice_double_auth_context(this, b, c, d);
    let node = ContractA::allow_call_to_c_node(this, c);
    let context = node.context;
    let added = granted(this, seq![node]);
    let empty = Seq::<PendingView>::empty();
    let n = needed(d, this);
    let begun = state.enter(entered);
    let declared = begun.declare_all(this, seq![node]);
    lemma_declared_trees_well_formed(this, b, c, this);
    lemma_begun_as(state, entered, seq![node], context);
    lemma_granted_one(this, node, this, context);
    lemma_declared(begun, this, seq![node], this, context);
    lemma_call_d_costs(declared, b, this, c, d);
    let first = ContractB::call_d_outcome(declared, b, this, c, d);
    lemma_calls(first.state, declared);
    assert(first.state.pending_for(this, context) + n == declared.pending_for(this, context));
    let again = first.state.declare_all(this, seq![node]);
    lemma_declared(first.state, this, seq![node], this, context);
    assert(again.pending_for(this, context) == first.state.pending_for(this, context) + 1);
    assert(running_as(again, this));
    lemma_call_d_costs(again, b, this, c, d);
    let second = ContractB::call_d_outcome(again, b, this, c, d);
    lemma_turnover_chain(begun, declared, first.state, this, context, added, 0, empty, n);
    lemma_turnover_chain(begun, first.state, again, this, context, added + empty, n, added, 0);
    lemma_turnover_chain(
        begun,
        again,
        second.state,
        this,
        context,
        added + empty + added,
        n,
        empty,
        n,
    );
    assert(added + empty + added + empty =~= added + added);
    lemma_turnover_inside(state, entered, second.state, this, context, added + added, n + n);
}

/// `auth_double_call` succeeds from every state: `A` accepts two calls of
/// `C` in one declaration, and two is what `B` needs at most. The two
/// declared trees are entries of their own, and each call of `C` that is
/// not made by `A` itself consumes one.
pub proof fn theorem_auth_double_call(
    state: EngineView,
    this: Principal,
    b: Principal,
    c: Principal,
    d: Principal,
)
    ensures
        ContractA::auth_double_call_outcome(state, this, b, c, d).result == Ok::<(), AuthError>(
            (),
        ),
        turnover(
            state,
            ContractA::auth_double_call_outcome(state, this, b, c, d).state,
            this,
            ContractC::authorized_fn_c_context(c, this),
            granted(
                this,
                seq![
                    ContractA::allow_call_to_c_node(this, c),
                    ContractA::allow_call_to_c_node(this, c),
                ],
            ),
            needed(d, this) + needed(b, this),
        ),
        state.enter(ContractA::auth_double_call_context(this, b, c, d)).declare_all(
            this,
            seq![
                ContractA::allow_call_to_c_node(this, c),
                ContractA::allow_call_to_c_node(this, c),
            ],
        ).pending_for(this, ContractC::authorized_fn_c_context(c, this)) == state.pending_for(
            this,
            ContractC::authorized_fn_c_context(c, this),
        ) + 2,
{
    reveal(ContractA::auth_double_call_outcome);
    let entered = ContractA::auth_double_call_context(this, b, c, d);
    let node = ContractA::allow_call_to_c_node(this, c);
    let context = node.context;
    let declared = state.enter(entered).declare_all(this, seq![node, node]);
    lemma_declared_trees_well_formed(this, b, c, this);
    lemma_begun_as(state, entered, seq![node, node], context);
    lemma_granted_two(this, node, node, this, context);
    lemma_call_d_twice_costs(declared, b, this, c, d);
    let inner = ContractB::call_d_twice_outcome(declared, b, this, c, d);
    lemma_declare_then_call(
        state,
        entered,
        seq![node, node],
        inner.state,
        context,
        needed(d, this) + needed(b, this),
    );
}

/// `auth_sub_invocation_bad_root` is refused from every state: the root
/// of the tree that `A` declares has an empty context, so the declaration
/// is malformed. Nothing is declared and `B` is not called: `A` enters its
/// frame and leaves it, and the engine is as it was found.
pub proof fn theorem_auth_sub_invocation_bad_root(
    state: EngineView,
    this: Principal,
    b: Principal,
    c: Principal,
    d: Principal,
)
    ensures
        ContractA::auth_sub_invocation_bad_root_outcome(state, this, b, c, d).result == Err::<
            (),
            AuthError,
        >(AuthError::MalformedDeclaration),
        untouched(
            state,
            ContractA::auth_sub_invocation_bad_root_outcome(state, this, b, c, d).state,
        ),
        ContractA::auth_sub_invocation_bad_root_outcome(state, this, b, c, d).state
            == state.enter(
            ContractA::auth_sub_invocation_bad_root_context(this, b, c, d),
        ).exit(),
{
    reveal(ContractA::auth_sub_invocation_bad_root_outcome);
    let entered = ContractA::auth_sub_invocation_bad_root_context(this, b, c, d);
    lemma_bad_root_malformed(this, c);
    assert(state.enter(entered).exit().tracker.frames =~= state.tracker.frames);
}

/// Where exactly one pending entry answers a check, and it is a root, it
/// is the entry that the check consumes.
pub proof fn lemma_only_answer_is_consumed(state: EngineView, principal: Principal, i: int)
    requires
        state.has_active_frame(),
        state.available(principal) == 1,
        0 <= i < state.pool.len(),
        answers(state.pool[i], principal, state.current()),
    ensures
        state.authorizes(principal),
        consumed_entry(state, principal) == state.pool[i],
        state.tracker.scoped_hit(principal) is None,
        first_match(state.pool, principal, state.current()) == Some(i),
{
    reveal(EngineView::found);
    let frames = state.tracker.frames;
    let current = state.current();
    law_authorized_iff_available(state, principal);
    lemma_count_positive(state.pool, i, principal, current);
    lemma_scoped_hit_counts(frames, principal, current, frames.len() - 1);
    lemma_first_match_from(state.pool, principal, current, 0);
    let j = first_match(state.pool, principal, current).unwrap();
    if j != i {
        lemma_count_remove(state.pool, i, principal, current);
        let rest = state.pool.remove(i);
        let at = if j < i {
            j
        } else {
            j - 1
        };
        assert(rest[at] == state.pool[j]);
        lemma_count_positive(rest, at, principal, current);
    }
}

/// Whether the tree `node` is pending as a root of `principal`, and is
/// all that is pending for the context at its root.
pub open spec fn only_pending(state: EngineView, principal: Principal, node: NodeView) -> bool {
    &&& state.pending_for(principal, node.context) == 1
    &&& exists|i: int|
        0 <= i < state.pool.len() && #[trigger] state.pool[i] == (PendingView { principal, node })
}

/// The engine after the call of `call_c_authorized` on `d`, with the call
/// of `C` nested in it, has consumed the tree that `A` declares for it,
/// `frames` frames later: the frames are those of `state`; the root is gone
/// from the pool, and nothing else is; and the trace has grown by the
/// root, taken from the pool, and then by its child, taken from what the
/// frame of `d` held.
pub open spec fn nested_call_done(
    state: EngineView,
    authorizer: Principal,
    b: Principal,
    c: Principal,
    d: Principal,
    frames: nat,
) -> EngineView {
    let root = ContractD::call_c_authorized_context(d, authorizer, b, c);
    EngineView {
        tracker: TrackerView {
            frames: state.tracker.frames,
            entered: state.tracker.entered + frames,
        },
        pool: state.pool.remove(first_match(state.pool, authorizer, root).unwrap()),
        trace: state.trace.push(
            ConsumedView { principal: authorizer, context: root, origin: Origin::Root },
        ).push(
            ConsumedView {
                principal: authorizer,
                context: ContractC::authorized_fn_c_context(c, authorizer),
                origin: Origin::Scoped,
            },
        ),
    }
}

/// An invocation of `call_c_authorized` that `B` makes for another
/// principal is denied where nothing is pending for it, and then leaves
/// the engine as it found it. It succeeds where the tree that `A` declares
/// for it is all that is pending: the call consumes the root, and the call
/// of `C` nested in it finds the root's child.
pub proof fn lemma_call_c_authorized_result(
    state: EngineView,
    this: Principal,
    authorizer: Principal,
    b: Principal,
    c: Principal,
)
    requires
        running_as(state, b),
        authorizer != b,
    ensures
        state.pending_for(
            authorizer,
            ContractD::call_c_authorized_context(this, authorizer, b, c),
        ) == 0 ==> ContractD::call_c_authorized_outcome(state, this, authorizer, b, c).result
            == Err::<(), AuthError>(AuthError::AuthorizationDenied) && untouched(
            state,
            ContractD::call_c_authorized_outcome(state, this, authorizer, b, c).state,
        ),
        only_pending(
            state,
            authorizer,
            ContractA::allow_nested_call_to_c_node(authorizer, b, c, this),
        ) ==> ContractD::call_c_authorized_outcome(state, this, authorizer, b, c).result == Ok::<
            (),
            AuthError,
        >(()),
        only_pending(
            state,
            authorizer,
            ContractA::allow_nested_call_to_c_node(authorizer, b, c, this),
        ) && this != authorizer ==> ContractD::call_c_authorized_outcome(
            state,
            this,
            authorizer,
            b,
            c,
        ).state == nested_call_done(state, authorizer, b, c, this, 2),
{
    reveal(ContractD::call_c_authorized_outcome);
    let node = ContractA::allow_nested_call_to_c_node(authorizer, b, c, this);
    let leaf = ContractA::allow_call_to_c_node(authorizer, c);
    let root = node.context;
    let context = ContractC::authorized_fn_c_context(c, authorizer);
    let inside = state.enter(root);
    let n = state.tracker.frames.len() as int;
    lemma_entered_by(state, root, b);
    // `D` asks for the consent of the authorizer, which is not its caller.
    assert(!inside.called_by(authorizer)) by {
        assert(inside.tracker.frames[n - 1] == state.tracker.frames[n - 1]);
    }
    law_enter_sees_pending(state, authorizer, root);
    law_authorized_iff_available(inside, authorizer);
    if state.pending_for(authorizer, root) == 0 {
        law_denial_changes_nothing(inside, authorizer);
        assert(inside.exit().tracker.frames =~= state.tracker.frames);
    }
    if only_pending(state, authorizer, node) {
        let i = choose|i: int|
            0 <= i < state.pool.len() && #[trigger] state.pool[i] == (PendingView {
                principal: authorizer,
                node,
            });
        lemma_only_answer_is_consumed(inside, authorizer, i);
        law_match_opens_children(inside, authorizer, 0, Seq::empty());
        let opened = inside.check(authorizer);
        assert(node.children[0].context == context);
        lemma_authorized_fn_c_costs(opened, c, authorizer);
        if this != authorizer {
            reveal(EngineView::check);
            reveal(EngineView::found);
            reveal(ContractC::authorized_fn_c_outcome);
            let held = granted(authorizer, node.children);
            assert(held =~= seq![PendingView { principal: authorizer, node: leaf }]);
            assert(inside.tracker.frames[n].scoped =~= Seq::<PendingView>::empty());
            assert(opened.tracker.frames[n].scoped =~= held);
            assert(opened.pool == state.pool.remove(i));
            // `C` is called by `D`, and asks for the consent of the authorizer.
            let in_c = opened.enter(context);
            lemma_check_keeps_calls(inside, authorizer);
            lemma_calls(opened, inside);
            assert(!in_c.called_by(authorizer)) by {
                assert(in_c.tracker.frames[n] == opened.tracker.frames[n]);
            }
            assert(in_c.tracker.frames[n].scoped == held);
            assert(first_match(held, authorizer, context) == Some(0int)) by {
                assert(answers(held[0], authorizer, context));
            }
            assert(in_c.tracker.scoped_hit(authorizer) == Some((n, 0int)));
            let checked = in_c.check(authorizer);
            assert(held.remove(0) =~= Seq::<PendingView>::empty());
            assert(granted(authorizer, leaf.children) =~= Seq::<PendingView>::empty());
            let done = checked.exit().exit();
            let expected = nested_call_done(state, authorizer, b, c, this, 2);
            assert(done.tracker.frames =~= state.tracker.frames);
            assert(done.tracker.entered == state.tracker.entered + 2);
            assert(done.pool == expected.pool);
            assert(done.trace == expected.trace);
        }
    }
}

/// An invocation of `call_authorized_d` that `authorizer` makes is denied
/// where nothing is pending for the call of `D`, and then leaves the
/// engine as it found it. It succeeds where the tree that `A` declares for
/// it is all that is pending, and consumes that tree.
pub proof fn lemma_call_authorized_d_result(
    state: EngineView,
    this: Principal,
    authorizer: Principal,
    c: Principal,
    d: Principal,
)
    requires
        running_as(state, authorizer),
        authorizer != this,
    ensures
        state.pending_for(
            authorizer,
            ContractD::call_c_authorized_context(d, authorizer, this, c),
        ) == 0 ==> ContractB::call_authorized_d_outcome(state, this, authorizer, c, d).result
            == Err::<(), AuthError>(AuthError::AuthorizationDenied) && untouched(
            state,
            ContractB::call_authorized_d_outcome(state, this, authorizer, c, d).state,
        ),
        only_pending(
            state,
            authorizer,
            ContractA::allow_nested_call_to_c_node(authorizer, this, c, d),
        ) ==> ContractB::call_authorized_d_outcome(state, this, authorizer, c, d).result == Ok::<
            (),
            AuthError,
        >(()),
        only_pending(
            state,
            authorizer,
            ContractA::allow_nested_call_to_c_node(authorizer, this, c, d),
        ) && d != authorizer ==> ContractB::call_authorized_d_outcome(
            state,
            this,
            authorizer,
            c,
            d,
        ).state == nested_call_done(state, authorizer, this, c, d, 3),
{
    reveal(ContractB::call_authorized_d_outcome);
    let node = ContractA::allow_nested_call_to_c_node(authorizer, this, c, d);
    let entered = ContractB::call_authorized_d_context(this, authorizer, c, d);
    let inside = state.enter(entered);
    lemma_entered_by(state, entered, authorizer);
    lemma_enter_keeps_pending(state, entered, authorizer, node.context);
    if only_pending(state, authorizer, node) {
        let i = choose|i: int|
            0 <= i < state.pool.len() && #[trigger] state.pool[i] == (PendingView {
                principal: authorizer,
                node,
            });
        assert(inside.pool[i] == (PendingView { principal: authorizer, node }));
    }
    lemma_call_c_authorized_result(inside, d, authorizer, this, c);
    let inner = ContractD::call_c_authorized_outcome(inside, d, authorizer, this, c);
    if state.pending_for(authorizer, node.context) == 0 {
        assert(inner.state.exit().tracker.frames =~= state.tracker.frames);
    }
    if only_pending(state, authorizer, node) && d != authorizer {
        let expected = nested_call_done(state, authorizer, this, c, d, 3);
        assert(inner.state.exit().tracker.frames =~= state.tracker.frames);
        assert(inner.state.exit().tracker == expected.tracker);
    }
}

/// The engine after `auth_sub_invocation` has succeeded by its own
/// declaration: the frames and the pool are those of `state`, and the
/// trace has grown by the root that `A` declared, taken from the pool, and
/// then by its child, taken from what the frame of `d` held.
pub open spec fn sub_invocation_done(
    state: EngineView,
    this: Principal,
    b: Principal,
    c: Principal,
    d: Principal,
) -> EngineView {
    EngineView {
        tracker: TrackerView {
            frames: state.tracker.frames,
            entered: state.tracker.entered + 4,
        },
        pool: state.pool,
        trace: state.trace.push(
            ConsumedView {
                principal: this,
                context: ContractD::call_c_authorized_context(d, this, b, c),
                origin: Origin::Root,
            },
        ).push(
            ConsumedView {
                principal: this,
                context: ContractC::authorized_fn_c_context(c, this),
                origin: Origin::Scoped,
            },
        ),
    }
}

/// `auth_sub_invocation` succeeds wherever `b` is not `this` itself and
/// nothing else is pending for the call of `D`: that call consumes the root
/// that `A` declared, and the call of `C` nested in it finds the root's
/// child. Where `d` is not `this` itself either, both are consumed: the
/// pool is left as it was, and the trace grows by the root and then by its
/// child.
pub proof fn theorem_auth_sub_invocation(
    state: EngineView,
    this: Principal,
    b: Principal,
    c: Principal,
    d: Principal,
)
    requires
        b != this,
        state.pending_for(this, ContractD::call_c_authorized_context(d, this, b, c)) == 0,
    ensures
        ContractA::auth_sub_invocation_outcome(state, this, b, c, d).result == Ok::<
            (),
            AuthError,
        >(()),
        d != this ==> ContractA::auth_sub_invocation_outcome(state, this, b, c, d).state
            == sub_invocation_done(state, this, b, c, d),
{
    reveal(ContractA::auth_sub_invocation_outcome);
    let node = ContractA::allow_nested_call_to_c_node(this, b, c, d);
    let root = node.context;
    let entered = ContractA::auth_sub_invocation_context(this, b, c, d);
    let begun = state.enter(entered);
    let declared = begun.declare_all(this, seq![node]);
    lemma_declared_trees_well_formed(this, b, c, d);
    lemma_begun_as(state, entered, seq![node], root);
    lemma_granted_one(this, node, this, root);
    let last = begun.pool.len() as int;
    assert(declared.pool[last] == (PendingView { principal: this, node })) by {
        assert(granted(this, seq![node])[0] == (PendingView { principal: this, node }));
    }
    lemma_call_authorized_d_result(declared, b, this, c, d);
    if d != this {
        let inner = ContractB::call_authorized_d_outcome(declared, b, this, c, d);
        let expected = sub_invocation_done(state, this, b, c, d);
        lemma_first_match_from(declared.pool, this, root, 0);
        lemma_count_zero_of_pending(state, this, root);
        assert(first_match(declared.pool, this, root) == Some(last)) by {
            let found = first_match(declared.pool, this, root).unwrap();
            if found < last {
                assert(declared.pool[found] == state.pool[found]);
            }
        }
        assert(declared.pool.remove(last) =~= state.pool);
        assert(inner.state.exit().tracker.frames =~= state.tracker.frames);
        assert(inner.state.exit().tracker == expected.tracker);
    }
}

/// Where nothing is pending for a principal and a context, no root
/// answers them.
pub proof fn lemma_count_zero_of_pending(
    state: EngineView,
    principal: Principal,
    context: ContextView,
)
    requires
        state.pending_for(principal, context) == 0,
    ensures
        forall|i: int|
            0 <= i < state.pool.len() ==> !answers(#[trigger] state.pool[i], principal, context),
{
    lemma_count_zero(state.pool, principal, context);
}

} // verus!
