//! The call tree tracker: the chain of invocations that are running, each
//! nested under its caller.
//!
//! A frame holds the trees that a match made in it has opened. They are
//! visible to the frames nested inside it, never to the frame itself, and
//! they are dropped when the frame is left.

use crate::context::{ContextView, InvocationContext, Principal, Value};
use crate::error::AuthError;
use crate::node::{AuthorizationNode, NodeView};
use crate::pool::{
    all_well_formed, answers, count_matches, first_match, granted, lemma_count_remove,
    lemma_first_match_counts, lemma_first_match_from, lemma_granted_well_formed,
    lemma_remove_well_formed, pending_from, pending_views, take_scoped_match, Pending,
    PendingView,
};
use vstd::prelude::*;

verus! {

/// The identity of one frame. No two frames that a tracker ever entered
/// share a handle, whatever principal they executed.
#[derive(Clone, Copy, Debug, PartialEq, Eq, Hash, Structural)]
pub struct FrameHandle {
    pub id: u64,
}

/// The mathematical value of a [`CallFrame`].
pub struct FrameView {
    pub handle: FrameHandle,
    pub parent: Option<FrameHandle>,
    pub context: ContextView,
    pub scoped: Seq<PendingView>,
}

/// What identifies a running call: the frame's handle, its parent and the
/// context of the call. What is scoped to the frame is no part of it.
pub struct CallView {
    pub handle: FrameHandle,
    pub parent: Option<FrameHandle>,
    pub context: ContextView,
}

impl FrameView {
    /// The call that this frame is the record of.
    pub open spec fn call(self) -> CallView {
        CallView { handle: self.handle, parent: self.parent, context: self.context }
    }
}

/// The record of one active invocation.
#[derive(Debug)]
pub struct CallFrame {
    /// The identity of this frame.
    pub handle: FrameHandle,
    /// The frame of the caller; `None` for the root of the call tree.
    pub parent: Option<FrameHandle>,
    /// The executing principal, the operation and its arguments.
    pub context: InvocationContext,
    /// The trees opened by the matches made in this frame, for the frames
    /// nested inside it.
    pub scoped_pending_children: Vec<Pending>,
}

impl View for CallFrame {
    type V = FrameView;

    open spec fn view(&self) -> FrameView {
        FrameView {
            handle: self.handle,
            parent: self.parent,
            context: self.context@,
            scoped: pending_views(self.scoped_pending_children@),
        }
    }
}

/// The values of a stack of frames, outermost first.
pub open spec fn frame_views(frames: Seq<CallFrame>) -> Seq<FrameView> {
    Seq::new(frames.len(), |i: int| frames[i]@)
}

/// Where among the frames below position `limit` a call with `context` on
/// behalf of `principal` finds its entry: in the innermost of them that
/// holds one, at the first entry there that answers. The result is the
/// position of the frame and the position of the entry in it.
pub open spec fn scoped_hit_below(
    frames: Seq<FrameView>,
    principal: Principal,
    context: ContextView,
    limit: int,
) -> Option<(int, int)>
    decreases limit,
{
    if limit <= 0 || limit > frames.len() {
        None
    } else {
        match first_match(frames[limit - 1].scoped, principal, context) {
            Some(i) => Some((limit - 1, i)),
            None => scoped_hit_below(frames, principal, context, limit - 1),
        }
    }
}

/// How many of the entries scoped to the frames below position `limit`
/// answer `(principal, context)`.
pub open spec fn scoped_matches_below(
    frames: Seq<FrameView>,
    principal: Principal,
    context: ContextView,
    limit: int,
) -> nat
    decreases limit,
{
    if limit <= 0 || limit > frames.len() {
        0
    } else {
        scoped_matches_below(frames, principal, context, limit - 1) + count_matches(
            frames[limit - 1].scoped,
            principal,
            context,
        )
    }
}

/// The mathematical value of a [`CallTreeTracker`]: the active frames,
/// outermost first, and the number of frames entered so far.
pub struct TrackerView {
    pub frames: Seq<FrameView>,
    pub entered: nat,
}

impl TrackerView {
    /// The count of frames entered fits a handle, handles grow along the
    /// stack and are below that count, each frame names the one below it as
    /// its parent, and every scoped tree is well formed.
    pub open spec fn wf(self) -> bool {
        &&& self.entered <= u64::MAX
        &&& forall|i: int|
            0 <= i < self.frames.len() ==> (#[trigger] self.frames[i]).handle.id < self.entered
        &&& forall|i: int, j: int|
            0 <= i < j < self.frames.len() ==> (#[trigger] self.frames[i]).handle.id < (
            #[trigger] self.frames[j]).handle.id
        &&& forall|i: int|
            0 <= i < self.frames.len() ==> self.frames[i].parent == #[trigger] self.handle_below(i)
        &&& forall|i: int|
            0 <= i < self.frames.len() ==> all_well_formed((#[trigger] self.frames[i]).scoped)
    }

    /// The handle of the frame under position `i`, if there is one.
    pub open spec fn handle_below(self, i: int) -> Option<FrameHandle> {
        if 0 < i <= self.frames.len() {
            Some(self.frames[i - 1].handle)
        } else {
            None
        }
    }

    /// The calls that are running, outermost first.
    pub open spec fn calls(self) -> Seq<CallView> {
        Seq::new(self.frames.len(), |i: int| self.frames[i].call())
    }

    /// The active-frame pointer: the handle of the innermost frame.
    pub open spec fn active(self) -> Option<FrameHandle> {
        self.handle_below(self.frames.len() as int)
    }

    /// The tracker after a call with `context` has begun.
    pub open spec fn enter(self, context: ContextView) -> TrackerView {
        TrackerView {
            frames: self.frames.push(
                FrameView {
                    handle: FrameHandle { id: self.entered as u64 },
                    parent: self.active(),
                    context,
                    scoped: Seq::empty(),
                },
            ),
            entered: self.entered + 1,
        }
    }

    /// The tracker after the innermost call has returned: its frame is
    /// gone, with all that was scoped to it.
    pub open spec fn exit(self) -> TrackerView {
        TrackerView { frames: self.frames.drop_last(), entered: self.entered }
    }

    /// The tracker after calls with `contexts` have begun, each nested in
    /// the one before it.
    pub open spec fn enter_all(self, contexts: Seq<ContextView>) -> TrackerView
        decreases contexts.len(),
    {
        if contexts.len() == 0 {
            self
        } else {
            self.enter(contexts[0]).enter_all(contexts.drop_first())
        }
    }

    /// The tracker after the `n` innermost calls have returned.
    pub open spec fn exit_times(self, n: nat) -> TrackerView
        decreases n,
    {
        if n == 0 {
            self
        } else {
            self.exit().exit_times((n - 1) as nat)
        }
    }

    /// The entry that a check in the active frame on behalf of `principal`
    /// finds among the scoped trees: those held by the frames that enclose
    /// the active one.
    pub open spec fn scoped_hit(self, principal: Principal) -> Option<(int, int)> {
        if self.frames.len() == 0 {
            None
        } else {
            scoped_hit_below(
                self.frames,
                principal,
                self.frames.last().context,
                self.frames.len() - 1,
            )
        }
    }

    /// The tracker without entry `i` of the scoped trees of frame `k`.
    pub open spec fn without_scoped(self, k: int, i: int) -> TrackerView {
        TrackerView {
            frames: self.frames.update(
                k,
                FrameView { scoped: self.frames[k].scoped.remove(i), ..self.frames[k] },
            ),
            entered: self.entered,
        }
    }

    /// The tracker with `children` opened, on behalf of `principal`, to the
    /// frames nested inside the active one.
    pub open spec fn grant(self, principal: Principal, children: Seq<NodeView>) -> TrackerView {
        let top = self.frames.len() - 1;
        TrackerView {
            frames: self.frames.update(
                top,
                FrameView {
                    scoped: self.frames[top].scoped + granted(principal, children),
                    ..self.frames[top]
                },
            ),
            entered: self.entered,
        }
    }
}

impl TrackerView {
    /// Of two stacks, one of which begins with the other, each frame that
    /// both hold has the same frame below it in both.
    pub proof fn lemma_parents_kept(self, longer: TrackerView)
        requires
            self.frames.len() <= longer.frames.len(),
            forall|j: int| 0 <= j < self.frames.len() ==> self.frames[j] == longer.frames[j],
        ensures
            forall|j: int|
                #![trigger self.handle_below(j)]
                #![trigger longer.handle_below(j)]
                0 <= j <= self.frames.len() ==> self.handle_below(j) == longer.handle_below(j),
    {
        assert forall|j: int| 0 <= j <= self.frames.len() implies #[trigger] self.handle_below(j)
            == longer.handle_below(j) by {
            if j > 0 {
                assert(self.frames[j - 1] == longer.frames[j - 1]);
            }
        }
    }

    /// The tracker with `scoped` in the place of what frame `k` holds.
    pub open spec fn with_scoped(self, k: int, scoped: Seq<PendingView>) -> TrackerView {
        TrackerView {
            frames: self.frames.update(k, FrameView { scoped, ..self.frames[k] }),
            entered: self.entered,
        }
    }

    /// Putting well-formed trees in the place of what one frame holds
    /// keeps the tracker well formed.
    pub proof fn lemma_with_scoped_wf(self, k: int, scoped: Seq<PendingView>)
        requires
            self.wf(),
            0 <= k < self.frames.len(),
            all_well_formed(scoped),
        ensures
            self.with_scoped(k, scoped).wf(),
    {
        let after = self.with_scoped(k, scoped);
        assert forall|j: int| 0 <= j < after.frames.len() implies after.frames[j].parent
            == #[trigger] after.handle_below(j) by {
            assert(self.frames[j].parent == self.handle_below(j));
        }
        assert forall|a: int, b: int| 0 <= a < b < after.frames.len() implies (
        #[trigger] after.frames[a]).handle.id < (#[trigger] after.frames[b]).handle.id by {
            assert(self.frames[a].handle.id < self.frames[b].handle.id);
        }
        assert forall|j: int| 0 <= j < after.frames.len() implies all_well_formed(
            (#[trigger] after.frames[j]).scoped,
        ) by {
            assert(all_well_formed(self.frames[j].scoped));
        }
        assert forall|j: int| 0 <= j < after.frames.len() implies (
        #[trigger] after.frames[j]).handle.id < after.entered by {
            assert(self.frames[j].handle.id < self.entered);
        }
    }

    /// Taking a scoped entry out keeps the tracker well formed.
    pub proof fn lemma_without_scoped_wf(self, k: int, i: int)
        requires
            self.wf(),
            0 <= k < self.frames.len(),
            0 <= i < self.frames[k].scoped.len(),
        ensures
            self.without_scoped(k, i).wf(),
            self.frames[k].scoped[i].node.well_formed(),
    {
        lemma_remove_well_formed(self.frames[k].scoped, i);
        self.lemma_with_scoped_wf(k, self.frames[k].scoped.remove(i));
    }

    /// Opening the children of a well-formed node keeps the tracker well
    /// formed.
    pub proof fn lemma_grant_wf(self, principal: Principal, node: NodeView)
        requires
            self.wf(),
            self.frames.len() > 0,
            node.well_formed(),
        ensures
            self.grant(principal, node.children).wf(),
    {
        let top = self.frames.len() - 1;
        lemma_granted_well_formed(self.frames[top].scoped, principal, node);
        self.lemma_with_scoped_wf(top, self.frames[top].scoped + granted(principal, node.children));
    }
}

/// What a scan of the enclosing frames finds lies in one of them, and is
/// the first entry there that answers.
pub proof fn lemma_scoped_hit_below(
    frames: Seq<FrameView>,
    principal: Principal,
    context: ContextView,
    limit: int,
)
    requires
        limit <= frames.len(),
    ensures
        match scoped_hit_below(frames, principal, context, limit) {
            Some((k, i)) => {
                &&& 0 <= k < limit
                &&& first_match(frames[k].scoped, principal, context) == Some(i)
                &&& 0 <= i < frames[k].scoped.len()
                &&& forall|j: int|
                    k < j < limit ==> first_match(
                        (#[trigger] frames[j]).scoped,
                        principal,
                        context,
                    ) is None
            },
            None => forall|j: int|
                0 <= j < limit ==> first_match((#[trigger] frames[j]).scoped, principal, context)
                    is None,
        },
    decreases limit,
{
    if limit > 0 {
        lemma_first_match_from(frames[limit - 1].scoped, principal, context, 0);
        if first_match(frames[limit - 1].scoped, principal, context) is None {
            lemma_scoped_hit_below(frames, principal, context, limit - 1);
        }
    }
}

/// A scan of the enclosing frames finds an entry exactly when at least one
/// of their entries answers.
pub proof fn lemma_scoped_hit_counts(
    frames: Seq<FrameView>,
    principal: Principal,
    context: ContextView,
    limit: int,
)
    requires
        limit <= frames.len(),
    ensures
        scoped_hit_below(frames, principal, context, limit) is Some <==> scoped_matches_below(
            frames,
            principal,
            context,
            limit,
        ) > 0,
    decreases limit,
{
    if limit > 0 {
        lemma_first_match_counts(frames[limit - 1].scoped, principal, context);
        lemma_scoped_hit_counts(frames, principal, context, limit - 1);
    }
}

/// Two stacks that hold the same scoped entries below `limit` give the
/// same count there.
pub proof fn lemma_scoped_matches_same(
    left: Seq<FrameView>,
    right: Seq<FrameView>,
    principal: Principal,
    context: ContextView,
    limit: int,
)
    requires
        limit <= left.len(),
        limit <= right.len(),
        forall|j: int|
            0 <= j < limit ==> (#[trigger] left[j]).scoped == (#[trigger] right[j]).scoped,
    ensures
        scoped_matches_below(left, principal, context, limit) == scoped_matches_below(
            right,
            principal,
            context,
            limit,
        ),
    decreases limit,
{
    if limit > 0 {
        lemma_scoped_matches_same(left, right, principal, context, limit - 1);
        assert(left[limit - 1].scoped == right[limit - 1].scoped);
    }
}

/// Taking entry `i` out of frame `k` takes one from the count below
/// `limit` exactly when that frame lies below `limit` and the entry
/// answers.
pub proof fn lemma_scoped_matches_without(
    tracker: TrackerView,
    k: int,
    i: int,
    principal: Principal,
    context: ContextView,
    limit: int,
)
    requires
        0 <= k < tracker.frames.len(),
        0 <= i < tracker.frames[k].scoped.len(),
        limit <= tracker.frames.len(),
    ensures
        scoped_matches_below(tracker.frames, principal, context, limit) == scoped_matches_below(
            tracker.without_scoped(k, i).frames,
            principal,
            context,
            limit,
        ) + if k < limit && answers(tracker.frames[k].scoped[i], principal, context) {
            1nat
        } else {
            0nat
        },
    decreases limit,
{
    let after = tracker.without_scoped(k, i).frames;
    if limit > 0 {
        lemma_scoped_matches_without(tracker, k, i, principal, context, limit - 1);
        if k == limit - 1 {
            lemma_count_remove(tracker.frames[k].scoped, i, principal, context);
            assert(after[k].scoped == tracker.frames[k].scoped.remove(i));
        } else {
            assert(after[limit - 1] == tracker.frames[limit - 1]);
        }
    }
}

/// The stack of active frames.
#[derive(Debug)]
pub struct CallTreeTracker {
    frames: Vec<CallFrame>,
    entered: u64,
}

impl View for CallTreeTracker {
    type V = TrackerView;

    closed spec fn view(&self) -> TrackerView {
        TrackerView { frames: frame_views(self.frames@), entered: self.entered as nat }
    }
}

impl CallTreeTracker {
    /// The tracker's value is well formed.
    pub open spec fn wf(&self) -> bool {
        self@.wf()
    }

    /// A tracker with no active frame.
    pub fn new() -> (tracker: Self)
        ensures
            tracker.wf(),
            tracker@ == (TrackerView { frames: Seq::empty(), entered: 0 }),
    {
        let tracker = CallTreeTracker { frames: Vec::new(), entered: 0 };
        assert(tracker@.frames =~= Seq::empty());
        tracker
    }

    /// The number of active frames.
    pub fn depth(&self) -> (n: usize)
        ensures
            n == self@.frames.len(),
    {
        self.frames.len()
    }

    /// The number of frames entered so far.
    pub fn entered(&self) -> (n: u64)
        ensures
            n == self@.entered,
    {
        self.entered
    }

    /// The active-frame pointer: the handle of the innermost frame, or
    /// `None` when no call is running.
    pub fn active(&self) -> (handle: Option<FrameHandle>)
        ensures
            handle == self@.active(),
    {
        let depth = self.frames.len();
        if depth == 0 {
            None
        } else {
            Some(self.frames[depth - 1].handle)
        }
    }

    /// The innermost frame, if a call is running.
    pub fn active_frame(&self) -> (frame: Option<&CallFrame>)
        ensures
            match frame {
                Some(f) => self@.frames.len() > 0 && f@ == self@.frames.last(),
                None => self@.frames.len() == 0,
            },
    {
        let depth = self.frames.len();
        if depth == 0 {
            None
        } else {
            Some(&self.frames[depth - 1])
        }
    }

    /// The principal whose frame encloses the active one directly: the
    /// caller of the call that is running.
    pub fn caller(&self) -> (principal: Option<Principal>)
        ensures
            principal == if self@.frames.len() >= 2 {
                Some(self@.frames[self@.frames.len() - 2].context.target)
            } else {
                None
            },
    {
        let depth = self.frames.len();
        if depth < 2 {
            None
        } else {
            Some(self.frames[depth - 2].context.target)
        }
    }

    /// Begins a call of `operation` on `principal` with `args`: pushes its
    /// frame as a child of the active frame, or as a root when none is
    /// active. The same principal may enter again below its own frame.
    pub fn enter(&mut self, principal: Principal, operation: &str, args: Vec<Value>) -> (handle:
        FrameHandle)
        requires
            old(self).wf(),
            old(self)@.entered < u64::MAX,
        ensures
            final(self).wf(),
            final(self)@ == old(self)@.enter(
                ContextView { target: principal, operation: operation@, args: args@ },
            ),
            final(self)@.active() == Some(handle),
            handle.id == old(self)@.entered,
    {
        let handle = FrameHandle { id: self.entered };
        let parent = self.active();
        let frame = CallFrame {
            handle,
            parent,
            context: InvocationContext::new(principal, operation, args),
            scoped_pending_children: Vec::new(),
        };
        proof {
            assert(frame@.scoped =~= Seq::empty());
        }
        self.frames.push(frame);
        self.entered = self.entered + 1;
        proof {
            let context = ContextView { target: principal, operation: operation@, args: args@ };
            assert(self@.frames =~= old(self)@.enter(context).frames);
            old(self)@.lemma_parents_kept(self@);
        }
        handle
    }

    /// Ends the call whose frame is `handle`. Only the innermost frame can
    /// be left: a handle of any other frame, or of a frame that was left
    /// before, is refused and the tracker stays as it was. Nothing of the
    /// frame is handed to the frames that enclose it.
    pub fn exit(&mut self, handle: FrameHandle) -> (result: Result<(), AuthError>)
        requires
            old(self).wf(),
        ensures
            final(self).wf(),
            old(self)@.active() == Some(handle) ==> result == Ok::<(), AuthError>(())
                && final(self)@ == old(self)@.exit(),
            old(self)@.active() != Some(handle) ==> result == Err::<(), AuthError>(
                AuthError::FrameInvariantViolation,
            ) && final(self)@ == old(self)@,
    {
        let depth = self.frames.len();
        if depth == 0 || self.frames[depth - 1].handle != handle {
            return Err(AuthError::FrameInvariantViolation);
        }
        self.frames.pop();
        proof {
            assert(self@.frames =~= old(self)@.exit().frames);
            self@.lemma_parents_kept(old(self)@);
        }
        Ok(())
    }

    /// Scans the scoped trees visible to the active frame, innermost
    /// enclosing frame first, for an entry that `principal` declared for the
    /// context of the active frame; removes and returns it when there is
    /// one.
    pub fn take_scoped(&mut self, principal: Principal) -> (taken: Option<AuthorizationNode>)
        requires
            old(self).wf(),
        ensures
            final(self).wf(),
            match old(self)@.scoped_hit(principal) {
                Some((k, i)) => {
                    &&& taken is Some
                    &&& taken.unwrap()@ == old(self)@.frames[k].scoped[i].node
                    &&& final(self)@ == old(self)@.without_scoped(k, i)
                },
                None => taken is None && final(self)@ == old(self)@,
            },
    {
        let depth = self.frames.len();
        if depth == 0 {
            return None;
        }
        let context = self.frames[depth - 1].context.duplicate();
        let mut k: usize = depth - 1;
        while k > 0
            invariant
                k <= depth - 1,
                depth == self.frames.len(),
                depth == old(self)@.frames.len(),
                self@ == old(self)@,
                self.wf(),
                context@ == old(self)@.frames.last().context,
                old(self)@.scoped_hit(principal) == scoped_hit_below(
                    old(self)@.frames,
                    principal,
                    context@,
                    k as int,
                ),
            decreases k,
        {
            k -= 1;
            let ghost before = self@;
            let taken = take_scoped_match(
                &mut self.frames[k].scoped_pending_children,
                principal,
                &context,
            );
            proof {
                lemma_first_match_from(before.frames[k as int].scoped, principal, context@, 0);
            }
            if taken.is_some() {
                proof {
                    let held = before.frames[k as int].scoped;
                    let i = first_match(held, principal, context@).unwrap();
                    assert(self@.frames =~= before.without_scoped(k as int, i).frames);
                    before.lemma_without_scoped_wf(k as int, i);
                }
                return taken;
            }
            proof {
                assert(self@.frames =~= before.frames);
            }
        }
        None
    }

    /// Opens the children of `node`, which a check on behalf of `principal`
    /// has consumed in the active frame, to the frames nested inside it.
    /// Without an active frame nothing is kept.
    pub fn grant(&mut self, principal: Principal, node: AuthorizationNode)
        requires
            old(self).wf(),
            node@.well_formed(),
        ensures
            final(self).wf(),
            old(self)@.frames.len() > 0 ==> final(self)@ == old(self)@.grant(
                principal,
                node@.children,
            ),
            old(self)@.frames.len() == 0 ==> final(self)@ == old(self)@,
    {
        let depth = self.frames.len();
        if depth == 0 {
            return ;
        }
        proof {
            node.lemma_view();
        }
        let mut entries = pending_from(principal, node.children);
        self.frames[depth - 1].scoped_pending_children.append(&mut entries);
        proof {
            let target = old(self)@.grant(principal, node@.children);
            assert(self@.frames[depth - 1].scoped =~= target.frames[depth - 1].scoped);
            assert(self@.frames =~= target.frames);
            old(self)@.lemma_grant_wf(principal, node@);
        }
    }
}

} // verus!
