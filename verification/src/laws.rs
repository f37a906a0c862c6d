//! What holds of the engine, whatever the state it is in.

use crate::context::{ContextView, Principal};
use crate::engine::EngineView;
use crate::error::AuthError;
use crate::node::NodeView;
use crate::pool::{
    all_nodes_well_formed, answers, count_matches, first_match, granted, lemma_count_add,
    lemma_count_positive, lemma_count_push, lemma_count_remove, lemma_count_zero,
    lemma_first_match_counts, lemma_first_match_from, lemma_first_match_skips, PendingView,
};
use crate::program::{
    after_step, after_steps, answer_to, answers_to, never_enters, no_call_with, Step,
};
use crate::tracker::{
    lemma_scoped_hit_below, lemma_scoped_hit_counts, lemma_scoped_matches_same,
    lemma_scoped_matches_without, scoped_matches_below, FrameView, TrackerView,
};
use vstd::prelude::*;

verus! {

/// The entry that a successful check on behalf of `principal` consumes.
pub open spec fn consumed_entry(state: EngineView, principal: Principal) -> PendingView
    recommends
        state.authorizes(principal),
{
    PendingView { principal, node: state.found(principal).unwrap().1 }
}

/// A check succeeds exactly when a pending entry answers it: the answer is
/// `Ok` if one of the entries scoped to the enclosing frames or one of the
/// roots was declared by the principal for the context of the active
/// frame, and `AuthorizationDenied` if none was.
pub proof fn law_authorized_iff_available(state: EngineView, principal: Principal)
    requires
        state.has_active_frame(),
    ensures
        state.authorizes(principal) <==> state.available(principal) > 0,
        state.available(principal) > 0 ==> state.verdict(principal) == Ok::<(), AuthError>(()),
        state.available(principal) == 0 ==> state.verdict(principal) == Err::<(), AuthError>(
            AuthError::AuthorizationDenied,
        ),
        state.authorizes(principal) ==> answers(
            consumed_entry(state, principal),
            principal,
            state.current(),
        ),
{
    reveal(EngineView::found);
    let frames = state.tracker.frames;
    let limit = frames.len() - 1;
    lemma_scoped_hit_counts(frames, principal, state.current(), limit);
    lemma_scoped_hit_below(frames, principal, state.current(), limit);
    lemma_first_match_counts(state.pool, principal, state.current());
    lemma_first_match_from(state.pool, principal, state.current(), 0);
    match state.tracker.scoped_hit(principal) {
        Some((k, i)) => {
            lemma_first_match_from(frames[k].scoped, principal, state.current(), 0);
        },
        None => {},
    }
}

/// A check that is denied changes nothing.
pub proof fn law_denial_changes_nothing(state: EngineView, principal: Principal)
    requires
        !state.authorizes(principal),
    ensures
        state.check(principal) == state,
{
    reveal(EngineView::found);
    reveal(EngineView::check);
}

/// One-shot consumption. A successful check takes exactly one entry away,
/// the one that it consumed: for the frame that asked, one entry fewer
/// answers the same question; and once that frame is left, what is pending
/// for any principal and any context is what was pending around the frame
/// before, less that entry. What the consumed node held below its root is
/// scoped to the frame and goes with it.
pub proof fn law_check_consumes_one(
    state: EngineView,
    principal: Principal,
    other: Principal,
    context: ContextView,
)
    requires
        state.authorizes(principal),
    ensures
        state.check(principal).available(principal) + 1 == state.available(principal),
        state.check(principal).exit().pending_for(other, context) + (if answers(
            consumed_entry(state, principal),
            other,
            context,
        ) {
            1nat
        } else {
            0nat
        }) == state.exit().pending_for(other, context),
{
    reveal(EngineView::found);
    reveal(EngineView::check);
    let frames = state.tracker.frames;
    let limit = frames.len() - 1;
    let current = state.current();
    let after = state.check(principal);
    lemma_scoped_hit_below(frames, principal, current, limit);
    lemma_first_match_from(state.pool, principal, current, 0);
    match state.tracker.scoped_hit(principal) {
        Some((k, i)) => {
            lemma_first_match_from(frames[k].scoped, principal, current, 0);
            let without = state.tracker.without_scoped(k, i);
            lemma_scoped_matches_without(state.tracker, k, i, principal, current, limit);
            lemma_scoped_matches_without(state.tracker, k, i, other, context, limit);
            lemma_scoped_matches_same(
                without.frames,
                after.tracker.frames,
                principal,
                current,
                limit,
            );
            lemma_scoped_matches_same(
                without.frames,
                after.exit().tracker.frames,
                other,
                context,
                limit,
            );
            lemma_scoped_matches_same(frames, state.exit().tracker.frames, other, context, limit);
        },
        None => {
            let i = first_match(state.pool, principal, current).unwrap();
            lemma_count_remove(state.pool, i, principal, current);
            lemma_count_remove(state.pool, i, other, context);
            lemma_scoped_matches_same(frames, after.tracker.frames, principal, current, limit);
            lemma_scoped_matches_same(frames, after.exit().tracker.frames, other, context, limit);
            lemma_scoped_matches_same(frames, state.exit().tracker.frames, other, context, limit);
        },
    }
}

/// A call that begins sees what is pending around it: the entries scoped
/// to the frames that are active and the roots.
pub proof fn law_enter_sees_pending(state: EngineView, principal: Principal, context: ContextView)
    ensures
        state.enter(context).available(principal) == state.pending_for(principal, context),
        state.enter(context).current() == context,
        state.enter(context).has_active_frame(),
{
    let entered = state.enter(context);
    lemma_scoped_matches_same(
        state.tracker.frames,
        entered.tracker.frames,
        principal,
        context,
        state.tracker.frames.len() as int,
    );
}

/// Where no root is pending and no frame holds anything, nothing is
/// pending for anybody.
pub proof fn law_nothing_held_nothing_pending(
    state: EngineView,
    principal: Principal,
    context: ContextView,
)
    requires
        state.pool.len() == 0,
        forall|j: int|
            0 <= j < state.tracker.frames.len() ==> (
            #[trigger] state.tracker.frames[j]).scoped.len() == 0,
    ensures
        state.pending_for(principal, context) == 0,
{
    let frames = state.tracker.frames;
    lemma_nothing_scoped(frames, principal, context, frames.len() as int);
}

/// Frames that hold nothing hold nothing that answers.
pub proof fn lemma_nothing_scoped(
    frames: Seq<FrameView>,
    principal: Principal,
    context: ContextView,
    limit: int,
)
    requires
        limit <= frames.len(),
        forall|j: int| 0 <= j < frames.len() ==> (#[trigger] frames[j]).scoped.len() == 0,
    ensures
        scoped_matches_below(frames, principal, context, limit) == 0,
    decreases limit,
{
    if limit > 0 {
        lemma_nothing_scoped(frames, principal, context, limit - 1);
        assert(frames[limit - 1].scoped.len() == 0);
    }
}

/// A declaration adds one to what is pending for its principal and the
/// context at its root, and nothing to what is pending for anything else.
pub proof fn law_declare_adds_one(
    state: EngineView,
    principal: Principal,
    node: NodeView,
    other: Principal,
    context: ContextView,
)
    ensures
        state.declare(principal, node).pending_for(other, context) == state.pending_for(
            other,
            context,
        ) + if other == principal && context == node.context {
            1nat
        } else {
            0nat
        },
{
    lemma_count_push(state.pool, PendingView { principal, node }, other, context);
}

/// Single authorization, single use. Where nothing is pending for a
/// context, one declaration for it lets the first call with that context
/// pass, by consuming that declaration, and the second call is denied:
/// whether it asks again from the same frame or from a new frame with the
/// same context.
pub proof fn law_single_authorization_single_use(
    state: EngineView,
    principal: Principal,
    node: NodeView,
)
    requires
        state.pending_for(principal, node.context) == 0,
    ensures
        ({
            let first = state.declare(principal, node).enter(node.context);
            let again = first.check(principal);
            let second = first.check(principal).exit().enter(node.context);
            &&& first.verdict(principal) == Ok::<(), AuthError>(())
            &&& consumed_entry(first, principal) == (PendingView { principal, node })
            &&& again.verdict(principal) == Err::<(), AuthError>(AuthError::AuthorizationDenied)
            &&& second.verdict(principal) == Err::<(), AuthError>(AuthError::AuthorizationDenied)
        }),
{
    let context = node.context;
    let declared = state.declare(principal, node);
    let first = declared.enter(context);
    let again = first.check(principal);
    let left = again.exit();
    let second = left.enter(context);
    law_declare_adds_one(state, principal, node, principal, context);
    law_enter_sees_pending(declared, principal, context);
    law_authorized_iff_available(first, principal);
    law_check_consumes_one(first, principal, principal, context);
    lemma_enter_exit_pending(declared, context, principal, context);
    law_enter_sees_pending(left, principal, context);
    law_authorized_iff_available(second, principal);
    lemma_check_keeps_frame(first, principal);
    law_authorized_iff_available(again, principal);
    // The declaration is the only entry that answers, so it is the one
    // that is consumed.
    assert(consumed_entry(first, principal) == (PendingView { principal, node })) by {
        reveal(EngineView::found);
        let frames = first.tracker.frames;
        lemma_scoped_matches_same(
            state.tracker.frames,
            frames,
            principal,
            context,
            frames.len() - 1,
        );
        lemma_scoped_hit_counts(frames, principal, context, frames.len() - 1);
        lemma_first_match_from(first.pool, principal, context, 0);
        lemma_count_zero(state.pool, principal, context);
        let i = first_match(first.pool, principal, context).unwrap();
        if i < state.pool.len() {
            assert(first.pool[i] == state.pool[i]);
        }
    }
}

/// Replenishment. Two declarations for one context let two calls with
/// that context pass, and each call consumes one entry: after both, as
/// much is pending for the context as before the declarations.
pub proof fn law_replenishment(
    state: EngineView,
    principal: Principal,
    first_node: NodeView,
    second_node: NodeView,
)
    requires
        first_node.context == second_node.context,
    ensures
        ({
            let context = first_node.context;
            let declared = state.declare(principal, first_node).declare(principal, second_node);
            let first = declared.enter(context);
            let second = first.check(principal).exit().enter(context);
            let done = second.check(principal).exit();
            &&& declared.pending_for(principal, context) == state.pending_for(principal, context)
                + 2
            &&& first.verdict(principal) == Ok::<(), AuthError>(())
            &&& second.verdict(principal) == Ok::<(), AuthError>(())
            &&& second.available(principal) + 1 == first.available(principal)
            &&& done.pending_for(principal, context) == state.pending_for(principal, context)
        }),
{
    let context = first_node.context;
    let once = state.declare(principal, first_node);
    let declared = once.declare(principal, second_node);
    let first = declared.enter(context);
    let left = first.check(principal).exit();
    let second = left.enter(context);
    law_declare_adds_one(state, principal, first_node, principal, context);
    law_declare_adds_one(once, principal, second_node, principal, context);
    law_enter_sees_pending(declared, principal, context);
    law_authorized_iff_available(first, principal);
    law_check_consumes_one(first, principal, principal, context);
    lemma_enter_exit_pending(declared, context, principal, context);
    law_enter_sees_pending(left, principal, context);
    law_authorized_iff_available(second, principal);
    law_check_consumes_one(second, principal, principal, context);
    lemma_enter_exit_pending(left, context, principal, context);
}

/// Scope locality. A match made in a frame authorizes nothing outside that
/// frame: once the frame is left, no principal has more pending for any
/// context than it had around the frame before the match, so a call that
/// begins under another frame is denied whenever it would have been denied
/// without the match.
pub proof fn law_scope_locality(
    state: EngineView,
    principal: Principal,
    other: Principal,
    context: ContextView,
)
    requires
        state.authorizes(principal),
    ensures
        state.check(principal).exit().pending_for(other, context) <= state.exit().pending_for(
            other,
            context,
        ),
        !state.exit().enter(context).authorizes(other) ==> !state.check(principal).exit().enter(
            context,
        ).authorizes(other),
{
    law_check_consumes_one(state, principal, other, context);
    law_enter_sees_pending(state.exit(), other, context);
    law_enter_sees_pending(state.check(principal).exit(), other, context);
    law_authorized_iff_available(state.exit().enter(context), other);
    law_authorized_iff_available(state.check(principal).exit().enter(context), other);
}

/// A match opens the children of the node that it consumed to the calls
/// nested in the frame that asked: each child is pending there for the
/// principal, so a call with the child's context that begins inside the
/// frame is authorized, directly below it or below any chain of calls
/// `between`.
pub proof fn law_match_opens_children(
    state: EngineView,
    principal: Principal,
    child: int,
    between: Seq<ContextView>,
)
    requires
        state.authorizes(principal),
        0 <= child < consumed_entry(state, principal).node.children.len(),
    ensures
        ({
            let context = consumed_entry(state, principal).node.children[child].context;
            let opened = state.check(principal);
            &&& opened.pending_for(principal, context) >= 1
            &&& opened.enter(context).verdict(principal) == Ok::<(), AuthError>(())
            &&& opened.enter_all(between).enter(context).verdict(principal) == Ok::<
                (),
                AuthError,
            >(())
        }),
{
    reveal(EngineView::found);
    reveal(EngineView::check);
    let node = consumed_entry(state, principal).node;
    let context = node.children[child].context;
    let opened = state.check(principal);
    let frames = state.tracker.frames;
    let top = frames.len() - 1;
    lemma_scoped_hit_below(frames, principal, state.current(), top);
    lemma_first_match_from(state.pool, principal, state.current(), 0);
    let added = granted(principal, node.children);
    assert(answers(added[child], principal, context));
    lemma_count_positive(added, child, principal, context);
    let held = opened.tracker.frames[top].scoped;
    assert(exists|before: Seq<PendingView>| held == before + added) by {
        match state.tracker.scoped_hit(principal) {
            Some((k, i)) => {
                assert(held == state.tracker.without_scoped(k, i).frames[top].scoped + added);
            },
            None => {
                assert(held == frames[top].scoped + added);
            },
        }
    }
    let before = choose|before: Seq<PendingView>| held == before + added;
    lemma_count_add(before, added, principal, context);
    law_enter_sees_pending(opened, principal, context);
    law_authorized_iff_available(opened.enter(context), principal);
    lemma_enter_all_keeps_pending(opened, between, principal, context);
    law_enter_sees_pending(opened.enter_all(between), principal, context);
    law_authorized_iff_available(opened.enter_all(between).enter(context), principal);
}

/// Depth propagation. Where nothing else is pending for the context at its
/// root, a declared tree is matched by the call that its root describes,
/// and from then on each of its children authorizes a call with the
/// child's context that is nested in that call, at any depth.
pub proof fn law_depth_propagation(
    state: EngineView,
    principal: Principal,
    root: NodeView,
    child: int,
    between: Seq<ContextView>,
)
    requires
        state.pending_for(principal, root.context) == 0,
        0 <= child < root.children.len(),
    ensures
        ({
            let outer = state.declare(principal, root).enter(root.context);
            let opened = outer.check(principal);
            &&& outer.verdict(principal) == Ok::<(), AuthError>(())
            &&& opened.enter(root.children[child].context).verdict(principal) == Ok::<
                (),
                AuthError,
            >(())
            &&& opened.enter_all(between).enter(root.children[child].context).verdict(principal)
                == Ok::<(), AuthError>(())
        }),
{
    let outer = state.declare(principal, root).enter(root.context);
    law_single_authorization_single_use(state, principal, root);
    law_authorized_iff_available(outer, principal);
    law_match_opens_children(outer, principal, child, between);
}

/// Without a match of its root, nothing below the root of a declared tree
/// authorizes anything: where nothing is pending for a context, a call
/// with that context is denied below any chain of calls in which nothing
/// was asked, although a tree that was declared holds a node for it below a
/// root with another context.
pub proof fn law_unmatched_root_denies(
    state: EngineView,
    principal: Principal,
    root: NodeView,
    context: ContextView,
    between: Seq<ContextView>,
)
    requires
        state.pending_for(principal, context) == 0,
        root.context != context,
    ensures
        state.declare(principal, root).enter_all(between).enter(context).verdict(principal)
            == Err::<(), AuthError>(AuthError::AuthorizationDenied),
{
    let declared = state.declare(principal, root);
    law_declare_adds_one(state, principal, root, principal, context);
    lemma_enter_all_keeps_pending(declared, between, principal, context);
    law_enter_sees_pending(declared.enter_all(between), principal, context);
    law_authorized_iff_available(declared.enter_all(between).enter(context), principal);
}

/// Frames that have just been entered hold nothing: what is pending is
/// what was pending before.
pub proof fn lemma_enter_all_keeps_pending(
    state: EngineView,
    entered: Seq<ContextView>,
    principal: Principal,
    context: ContextView,
)
    ensures
        state.enter_all(entered).pending_for(principal, context) == state.pending_for(
            principal,
            context,
        ),
    decreases entered.len(),
{
    if entered.len() > 0 {
        lemma_enter_keeps_pending(state, entered[0], principal, context);
        lemma_enter_all_keeps_pending(
            state.enter(entered[0]),
            entered.drop_first(),
            principal,
            context,
        );
        assert(state.enter_all(entered) == state.enter(entered[0]).enter_all(
            entered.drop_first(),
        ));
    }
}

/// A frame that has just been entered holds nothing: what is pending is
/// what was pending before.
pub proof fn lemma_enter_keeps_pending(
    state: EngineView,
    entered: ContextView,
    principal: Principal,
    context: ContextView,
)
    ensures
        state.enter(entered).pending_for(principal, context) == state.pending_for(
            principal,
            context,
        ),
{
    let after = state.enter(entered);
    lemma_scoped_matches_same(
        state.tracker.frames,
        after.tracker.frames,
        principal,
        context,
        state.tracker.frames.len() as int,
    );
    assert(count_matches(after.tracker.frames.last().scoped, principal, context) == 0);
}

/// Leaving a frame that has just been entered gives back what was pending
/// before.
pub proof fn lemma_enter_exit_pending(
    state: EngineView,
    entered: ContextView,
    principal: Principal,
    context: ContextView,
)
    ensures
        state.enter(entered).exit().pending_for(principal, context) == state.pending_for(
            principal,
            context,
        ),
        state.enter(entered).exit().tracker.frames == state.tracker.frames,
{
    assert(state.enter(entered).exit().tracker.frames =~= state.tracker.frames);
}

/// A check leaves the active frame in place, with its context.
pub proof fn lemma_check_keeps_frame(state: EngineView, principal: Principal)
    requires
        state.has_active_frame(),
    ensures
        state.check(principal).has_active_frame(),
        state.check(principal).current() == state.current(),
        state.check(principal).tracker.frames.len() == state.tracker.frames.len(),
{
    reveal(EngineView::check);
    let frames = state.tracker.frames;
    lemma_scoped_hit_below(frames, principal, state.current(), frames.len() - 1);
}

/// Idempotent tracker. Entering any number of nested frames and leaving
/// as many gives back the stack of frames, and with it the active-frame
/// pointer, that was there before.
pub proof fn law_enter_exit_balanced(tracker: TrackerView, contexts: Seq<ContextView>)
    ensures
        tracker.enter_all(contexts).exit_times(contexts.len()).frames == tracker.frames,
        tracker.enter_all(contexts).exit_times(contexts.len()).active() == tracker.active(),
    decreases contexts.len(),
{
    if contexts.len() > 0 {
        let entered = tracker.enter(contexts[0]);
        let rest = contexts.drop_first();
        law_enter_exit_balanced(entered, rest);
        lemma_exit_times_last(entered.enter_all(rest), rest.len());
        assert(entered.exit().frames =~= tracker.frames);
    }
}

/// Leaving `n + 1` frames is leaving `n` frames and then one more.
pub proof fn lemma_exit_times_last(tracker: TrackerView, n: nat)
    ensures
        tracker.exit_times(n + 1) == tracker.exit_times(n).exit(),
    decreases n,
{
    assert(tracker.exit_times(n + 1) == tracker.exit().exit_times(n));
    if n > 0 {
        lemma_exit_times_last(tracker.exit(), (n - 1) as nat);
        assert(tracker.exit_times(n) == tracker.exit().exit_times((n - 1) as nat));
    } else {
        assert(tracker.exit().exit_times(0) == tracker.exit());
    }
}

/// No frame can be left twice: once the innermost frame is gone, its
/// handle is not the active-frame pointer any more, and it never will be
/// again, since every frame entered later gets a handle that was not
/// given out before.
pub proof fn law_no_double_exit(tracker: TrackerView, context: ContextView)
    requires
        tracker.wf(),
        tracker.frames.len() > 0,
    ensures
        tracker.exit().active() != tracker.active(),
        tracker.entered < u64::MAX ==> tracker.exit().enter(context).active() != tracker.active(),
{
    let n = tracker.frames.len() as int;
    if n >= 2 {
        assert(tracker.frames[n - 2].handle.id < tracker.frames[n - 1].handle.id);
        assert(tracker.exit().frames[n - 2] == tracker.frames[n - 2]);
    }
    assert(tracker.frames[n - 1].handle.id < tracker.entered);
}

/// Whether `with` is `without` with one more pending root, at position
/// `extra` of the pool.
pub open spec fn holds_extra_root(with: EngineView, without: EngineView, extra: int) -> bool {
    &&& with.tracker == without.tracker
    &&& with.trace == without.trace
    &&& 0 <= extra < with.pool.len()
    &&& without.pool == with.pool.remove(extra)
}

/// One operation of a transaction in which no call has the context at the
/// root of a pending tree goes as it would without that tree: it gets the
/// same answer, and afterwards the engine differs from what it would be
/// only by the tree, which is still pending as a whole.
pub proof fn lemma_step_ignores_unmatched_root(
    with: EngineView,
    without: EngineView,
    extra: int,
    step: Step,
) -> (position: int)
    requires
        holds_extra_root(with, without, extra),
        no_call_with(with, with.pool[extra].node.context),
        step != Step::Enter(with.pool[extra].node.context),
    ensures
        answer_to(with, step) == answer_to(without, step),
        holds_extra_root(after_step(with, step), after_step(without, step), position),
        after_step(with, step).pool[position] == with.pool[extra],
        no_call_with(after_step(with, step), with.pool[extra].node.context),
{
    let entry = with.pool[extra];
    let context = entry.node.context;
    match step {
        Step::Enter(entered) => {
            let after = after_step(with, step);
            assert forall|j: int| 0 <= j < after.tracker.frames.len() implies (
            #[trigger] after.tracker.frames[j]).context != context by {
                if j < with.tracker.frames.len() {
                    assert(after.tracker.frames[j] == with.tracker.frames[j]);
                }
            }
            extra
        },
        Step::Exit(handle) => {
            let after = after_step(with, step);
            assert forall|j: int| 0 <= j < after.tracker.frames.len() implies (
            #[trigger] after.tracker.frames[j]).context != context by {
                assert(after.tracker.frames[j] == with.tracker.frames[j]);
            }
            extra
        },
        Step::Declare(principal, node) => {
            if node.well_formed() {
                let added = PendingView { principal, node };
                assert(with.pool.push(added).remove(extra) =~= with.pool.remove(extra).push(added));
            }
            extra
        },
        Step::AuthorizeAsSelf(nodes) => {
            if with.has_active_frame() && all_nodes_well_formed(nodes) {
                let added = granted(with.current().target, nodes);
                assert((with.pool + added).remove(extra) =~= with.pool.remove(extra) + added);
            }
            extra
        },
        Step::Require(principal) => lemma_check_ignores_unmatched_root(
            with,
            without,
            extra,
            principal,
        ),
        Step::RequireAuth(principal) => {
            if with.called_by(principal) {
                extra
            } else {
                lemma_check_ignores_unmatched_root(with, without, extra, principal)
            }
        },
    }
}

/// A check in a frame whose context is not the one at the root of a
/// pending tree goes as it would without that tree.
pub proof fn lemma_check_ignores_unmatched_root(
    with: EngineView,
    without: EngineView,
    extra: int,
    principal: Principal,
) -> (position: int)
    requires
        holds_extra_root(with, without, extra),
        no_call_with(with, with.pool[extra].node.context),
    ensures
        with.verdict(principal) == without.verdict(principal),
        holds_extra_root(with.check(principal), without.check(principal), position),
        with.check(principal).pool[position] == with.pool[extra],
        no_call_with(with.check(principal), with.pool[extra].node.context),
{
    reveal(EngineView::found);
    reveal(EngineView::check);
    let context = with.pool[extra].node.context;
    if !with.has_active_frame() {
        extra
    } else {
        let frames = with.tracker.frames;
        let current = with.current();
        assert(frames.last().context != context);
        lemma_scoped_hit_below(frames, principal, current, frames.len() - 1);
        let after = with.check(principal);
        assert(after.tracker.frames.len() == frames.len());
        assert forall|j: int| 0 <= j < after.tracker.frames.len() implies (
        #[trigger] after.tracker.frames[j]).context != context by {
            assert(frames[j].context != context);
        }
        match with.tracker.scoped_hit(principal) {
            Some((k, i)) => extra,
            None => {
                lemma_first_match_skips(with.pool, extra, principal, current);
                lemma_first_match_from(without.pool, principal, current, 0);
                match first_match(without.pool, principal, current) {
                    Some(j) => {
                        if j < extra {
                            assert(with.pool[j] == without.pool[j]);
                            assert(with.pool.remove(j).remove(extra - 1) =~= with.pool.remove(
                                extra,
                            ).remove(j));
                            extra - 1
                        } else {
                            assert(with.pool[j + 1] == without.pool[j]);
                            assert(with.pool.remove(j + 1).remove(extra) =~= with.pool.remove(
                                extra,
                            ).remove(j));
                            extra
                        }
                    },
                    None => extra,
                }
            },
        }
    }
}

/// Root-mismatch opacity. A pending tree whose root context is the
/// context of no call of the transaction takes no part in it: every
/// operation gets the answer that it would get if the tree had never been
/// declared, whatever the tree holds below its root and whatever contexts
/// the calls have, and at the end the tree is still pending as a whole.
pub proof fn law_root_mismatch_opacity(
    with: EngineView,
    without: EngineView,
    extra: int,
    steps: Seq<Step>,
) -> (position: int)
    requires
        holds_extra_root(with, without, extra),
        no_call_with(with, with.pool[extra].node.context),
        never_enters(steps, with.pool[extra].node.context),
    ensures
        answers_to(with, steps) == answers_to(without, steps),
        holds_extra_root(after_steps(with, steps), after_steps(without, steps), position),
        after_steps(with, steps).pool[position] == with.pool[extra],
    decreases steps.len(),
{
    if steps.len() == 0 {
        extra
    } else {
        let context = with.pool[extra].node.context;
        assert(steps[0] != Step::Enter(context));
        let next = lemma_step_ignores_unmatched_root(with, without, extra, steps[0]);
        let rest = steps.drop_first();
        assert forall|k: int| 0 <= k < rest.len() implies #[trigger] rest[k] != Step::Enter(
            context,
        ) by {
            assert(rest[k] == steps[k + 1]);
        }
        law_root_mismatch_opacity(
            after_step(with, steps[0]),
            after_step(without, steps[0]),
            next,
            rest,
        )
    }
}

/// The engine in which a tree has just been declared is the engine
/// without it, with one more pending root.
pub proof fn lemma_declared_is_extra_root(state: EngineView, principal: Principal, node: NodeView)
    ensures
        holds_extra_root(state.declare(principal, node), state, state.pool.len() as int),
        state.declare(principal, node).pool[state.pool.len() as int] == (PendingView {
            principal,
            node,
        }),
{
    assert(state.pool.push(PendingView { principal, node }).remove(state.pool.len() as int)
        =~= state.pool);
}

/// Root-mismatch opacity, of a declaration. Where no call that is
/// running or that begins later has the context at the root of a tree, it
/// makes no difference to any answer whether the tree is declared or not.
pub proof fn law_unmatched_declaration_changes_no_answer(
    state: EngineView,
    principal: Principal,
    node: NodeView,
    steps: Seq<Step>,
)
    requires
        no_call_with(state, node.context),
        never_enters(steps, node.context),
    ensures
        answers_to(state.declare(principal, node), steps) == answers_to(state, steps),
        after_steps(state.declare(principal, node), steps).tracker == after_steps(
            state,
            steps,
        ).tracker,
        after_steps(state.declare(principal, node), steps).trace == after_steps(state, steps).trace,
{
    lemma_declared_is_extra_root(state, principal, node);
    let position = law_root_mismatch_opacity(
        state.declare(principal, node),
        state,
        state.pool.len() as int,
        steps,
    );
}

} // verus!
