//! The engine: the tracker, the pool and the record of what was consumed,
//! with the declaration interface and the checkpoint that unit code calls.

use crate::context::{ContextView, InvocationContext, Principal, Value};
use crate::error::AuthError;
use crate::laws::{
    law_authorized_iff_available, law_check_consumes_one, law_denial_changes_nothing,
};
use crate::node::{views_of, AuthorizationNode, NodeView};
use crate::pool::{
    all_nodes_well_formed, all_well_formed, count_matches, first_match, granted,
    lemma_first_match_from, lemma_remove_well_formed, AuthorizationPool, PendingView,
};
use crate::tracker::{
    lemma_scoped_hit_below, scoped_matches_below, CallTreeTracker, FrameHandle, TrackerView,
};
use vstd::prelude::*;

verus! {

/// Where a consumed declaration was pending.
#[derive(Clone, Copy, Debug, PartialEq, Eq, Hash, Structural)]
pub enum Origin {
    /// Among the root trees of the principal's pool.
    Root,
    /// Among the trees that an enclosing frame's match had opened.
    Scoped,
}

/// The mathematical value of a [`Consumed`] record.
pub struct ConsumedView {
    pub principal: Principal,
    pub context: ContextView,
    pub origin: Origin,
}

/// One entry of the authorization trace: a declaration of `principal` for
/// `context` was consumed.
#[derive(Debug)]
pub struct Consumed {
    pub principal: Principal,
    pub context: InvocationContext,
    pub origin: Origin,
}

impl View for Consumed {
    type V = ConsumedView;

    open spec fn view(&self) -> ConsumedView {
        ConsumedView { principal: self.principal, context: self.context@, origin: self.origin }
    }
}

/// The values of a trace, oldest first.
pub open spec fn trace_views(trace: Seq<Consumed>) -> Seq<ConsumedView> {
    Seq::new(trace.len(), |i: int| trace[i]@)
}

/// The mathematical value of an [`AuthEngine`].
pub struct EngineView {
    /// The active frames and what is scoped to them.
    pub tracker: TrackerView,
    /// The pending root trees of all principals, in declaration order.
    pub pool: Seq<PendingView>,
    /// What was consumed so far, oldest first.
    pub trace: Seq<ConsumedView>,
}

impl EngineView {
    /// The tracker is well formed and so is every pending root.
    pub open spec fn wf(self) -> bool {
        self.tracker.wf() && all_well_formed(self.pool)
    }

    /// Whether a call is running.
    pub open spec fn has_active_frame(self) -> bool {
        self.tracker.frames.len() > 0
    }

    /// The context of the call that is running.
    pub open spec fn current(self) -> ContextView
        recommends
            self.has_active_frame(),
    {
        self.tracker.frames.last().context
    }

    /// Whether `principal` is the direct caller of the call that is running.
    pub open spec fn called_by(self, principal: Principal) -> bool {
        self.tracker.frames.len() >= 2 && self.tracker.frames[self.tracker.frames.len()
            - 2].context.target == principal
    }

    /// The engine after a call with `context` has begun.
    pub open spec fn enter(self, context: ContextView) -> EngineView {
        EngineView { tracker: self.tracker.enter(context), ..self }
    }

    /// The engine after calls with `contexts` have begun, each nested in
    /// the one before it.
    pub open spec fn enter_all(self, contexts: Seq<ContextView>) -> EngineView {
        EngineView { tracker: self.tracker.enter_all(contexts), ..self }
    }

    /// The engine after the innermost call has returned.
    pub open spec fn exit(self) -> EngineView {
        EngineView { tracker: self.tracker.exit(), ..self }
    }

    /// The engine after `principal` has declared `node`.
    pub open spec fn declare(self, principal: Principal, node: NodeView) -> EngineView {
        EngineView { pool: self.pool.push(PendingView { principal, node }), ..self }
    }

    /// The engine after `principal` has declared `nodes`, in order.
    pub open spec fn declare_all(self, principal: Principal, nodes: Seq<NodeView>) -> EngineView {
        EngineView { pool: self.pool + granted(principal, nodes), ..self }
    }

    /// The declaration that a check on behalf of `principal` in the active
    /// frame consumes, and where it was pending. Scoped trees come before
    /// root trees; among the scoped, those of the innermost enclosing frame
    /// come first; within one collection, the entry declared first.
    #[verifier::opaque]
    pub open spec fn found(self, principal: Principal) -> Option<(Origin, NodeView)> {
        if !self.has_active_frame() {
            None
        } else {
            match self.tracker.scoped_hit(principal) {
                Some((k, i)) => Some((Origin::Scoped, self.tracker.frames[k].scoped[i].node)),
                None => match first_match(self.pool, principal, self.current()) {
                    Some(i) => Some((Origin::Root, self.pool[i].node)),
                    None => None,
                },
            }
        }
    }

    /// How many pending entries answer a check on behalf of `principal`
    /// in the active frame: those scoped to the enclosing frames and the
    /// roots.
    pub open spec fn available(self, principal: Principal) -> nat {
        if !self.has_active_frame() {
            0
        } else {
            scoped_matches_below(
                self.tracker.frames,
                principal,
                self.current(),
                self.tracker.frames.len() - 1,
            ) + count_matches(self.pool, principal, self.current())
        }
    }

    /// How many pending entries would answer a call with `context` that
    /// begins now, on behalf of `principal`: those scoped to the active
    /// frames and the roots.
    pub open spec fn pending_for(self, principal: Principal, context: ContextView) -> nat {
        scoped_matches_below(
            self.tracker.frames,
            principal,
            context,
            self.tracker.frames.len() as int,
        ) + count_matches(self.pool, principal, context)
    }

    /// Whether `principal` has authorized the call that is running.
    pub open spec fn authorizes(self, principal: Principal) -> bool {
        self.found(principal) is Some
    }

    /// What a check on behalf of `principal` answers.
    pub open spec fn verdict(self, principal: Principal) -> Result<(), AuthError> {
        if !self.has_active_frame() {
            Err(AuthError::FrameInvariantViolation)
        } else if self.authorizes(principal) {
            Ok(())
        } else {
            Err(AuthError::AuthorizationDenied)
        }
    }

    /// The engine after a check on behalf of `principal` in the active
    /// frame. A match leaves its collection, its children are opened to the
    /// frames nested inside the active one, and the trace grows by one
    /// entry. A check that does not succeed changes nothing.
    #[verifier::opaque]
    pub open spec fn check(self, principal: Principal) -> EngineView {
        if !self.has_active_frame() {
            self
        } else {
            match self.tracker.scoped_hit(principal) {
                Some((k, i)) => EngineView {
                    tracker: self.tracker.without_scoped(k, i).grant(
                        principal,
                        self.tracker.frames[k].scoped[i].node.children,
                    ),
                    pool: self.pool,
                    trace: self.trace.push(
                        ConsumedView { principal, context: self.current(), origin: Origin::Scoped },
                    ),
                },
                None => match first_match(self.pool, principal, self.current()) {
                    Some(i) => EngineView {
                        tracker: self.tracker.grant(principal, self.pool[i].node.children),
                        pool: self.pool.remove(i),
                        trace: self.trace.push(
                            ConsumedView {
                                principal,
                                context: self.current(),
                                origin: Origin::Root,
                            },
                        ),
                    },
                    None => self,
                },
            }
        }
    }

    /// What the checkpoint of unit code answers: a principal consents to
    /// the calls that it makes itself, so the direct caller passes; for
    /// anyone else a declaration must be pending.
    pub open spec fn auth_verdict(self, principal: Principal) -> Result<(), AuthError> {
        if self.called_by(principal) {
            Ok(())
        } else {
            self.verdict(principal)
        }
    }

    /// The engine after the checkpoint of unit code: the direct caller
    /// passes without consuming anything.
    pub open spec fn auth_check(self, principal: Principal) -> EngineView {
        if self.called_by(principal) {
            self
        } else {
            self.check(principal)
        }
    }

    /// A check keeps a well-formed engine well formed.
    pub proof fn lemma_check_wf(self, principal: Principal)
        requires
            self.wf(),
        ensures
            self.check(principal).wf(),
            self.auth_check(principal).wf(),
    {
        reveal(EngineView::check);
        if self.has_active_frame() {
            let frames = self.tracker.frames;
            lemma_scoped_hit_below(frames, principal, self.current(), frames.len() - 1);
            match self.tracker.scoped_hit(principal) {
                Some((k, i)) => {
                    self.tracker.lemma_without_scoped_wf(k, i);
                    self.tracker.without_scoped(k, i).lemma_grant_wf(
                        principal,
                        frames[k].scoped[i].node,
                    );
                },
                None => {
                    lemma_first_match_from(self.pool, principal, self.current(), 0);
                    match first_match(self.pool, principal, self.current()) {
                        Some(i) => {
                            lemma_remove_well_formed(self.pool, i);
                            self.tracker.lemma_grant_wf(principal, self.pool[i].node);
                        },
                        None => {},
                    }
                },
            }
        }
    }
}

/// The state of one transaction: the call tree tracker, the authorization
/// pool and the trace. A transaction starts from [`AuthEngine::new`]; what
/// is pending when it ends is dropped with the engine.
#[derive(Debug)]
pub struct AuthEngine {
    tracker: CallTreeTracker,
    pool: AuthorizationPool,
    trace: Vec<Consumed>,
}

impl View for AuthEngine {
    type V = EngineView;

    closed spec fn view(&self) -> EngineView {
        EngineView { tracker: self.tracker@, pool: self.pool@, trace: trace_views(self.trace@) }
    }
}

impl AuthEngine {
    /// The engine's value is well formed.
    pub open spec fn wf(&self) -> bool {
        self@.wf()
    }

    /// An engine with no active frame, nothing pending and an empty trace.
    pub fn new() -> (engine: Self)
        ensures
            engine.wf(),
            engine@ == (EngineView {
                tracker: TrackerView { frames: Seq::empty(), entered: 0 },
                pool: Seq::empty(),
                trace: Seq::empty(),
            }),
    {
        let engine = AuthEngine {
            tracker: CallTreeTracker::new(),
            pool: AuthorizationPool::new(),
            trace: Vec::new(),
        };
        assert(engine@.trace =~= Seq::empty());
        engine
    }

    /// The call tree tracker, to read.
    pub fn tracker(&self) -> (tracker: &CallTreeTracker)
        ensures
            tracker@ == self@.tracker,
    {
        &self.tracker
    }

    /// The authorization pool, to read.
    pub fn pool(&self) -> (pool: &AuthorizationPool)
        ensures
            pool@ == self@.pool,
    {
        &self.pool
    }

    /// The authorization trace: which declarations were consumed, oldest
    /// first.
    pub fn trace(&self) -> (trace: &Vec<Consumed>)
        ensures
            trace_views(trace@) == self@.trace,
    {
        &self.trace
    }

    /// Ends the transaction: what is still pending is dropped, and the
    /// authorization trace is handed out.
    pub fn into_trace(self) -> (trace: Vec<Consumed>)
        ensures
            trace_views(trace@) == self@.trace,
    {
        self.trace
    }

    /// Begins a call of `operation` on `principal` with `args`.
    pub fn enter(&mut self, principal: Principal, operation: &str, args: Vec<Value>) -> (handle:
        FrameHandle)
        requires
            old(self).wf(),
            old(self)@.tracker.entered < u64::MAX,
        ensures
            final(self).wf(),
            final(self)@ == old(self)@.enter(
                ContextView { target: principal, operation: operation@, args: args@ },
            ),
            final(self)@.tracker.active() == Some(handle),
            handle.id == old(self)@.tracker.entered,
    {
        self.tracker.enter(principal, operation, args)
    }

    /// Ends the call whose frame is `handle`, which must be the innermost
    /// one; any other handle is refused and nothing changes.
    pub fn exit(&mut self, handle: FrameHandle) -> (result: Result<(), AuthError>)
        requires
            old(self).wf(),
        ensures
            final(self).wf(),
            old(self)@.tracker.active() == Some(handle) ==> result == Ok::<(), AuthError>(())
                && final(self)@ == old(self)@.exit(),
            old(self)@.tracker.active() != Some(handle) ==> result == Err::<(), AuthError>(
                AuthError::FrameInvariantViolation,
            ) && final(self)@ == old(self)@,
    {
        self.tracker.exit(handle)
    }

    /// Inserts `node` as a pending root of `principal`. A tree that is not
    /// well formed is refused and nothing changes.
    pub fn declare(&mut self, principal: Principal, node: AuthorizationNode) -> (result: Result<
        (),
        AuthError,
    >)
        requires
            old(self).wf(),
        ensures
            final(self).wf(),
            node@.well_formed() ==> result == Ok::<(), AuthError>(()) && final(self)@ == old(
                self,
            )@.declare(principal, node@),
            !node@.well_formed() ==> result == Err::<(), AuthError>(
                AuthError::MalformedDeclaration,
            ) && final(self)@ == old(self)@,
    {
        self.pool.declare(principal, node)
    }

    /// Declares `nodes` on behalf of the unit that is executing: each
    /// becomes a pending root of the principal of the active frame, behind
    /// what that principal declared before. Without an active frame, or if
    /// one of the trees is not well formed, nothing is inserted.
    pub fn authorize_as_self(&mut self, nodes: Vec<AuthorizationNode>) -> (result: Result<
        (),
        AuthError,
    >)
        requires
            old(self).wf(),
        ensures
            final(self).wf(),
            !old(self)@.has_active_frame() ==> result == Err::<(), AuthError>(
                AuthError::FrameInvariantViolation,
            ) && final(self)@ == old(self)@,
            old(self)@.has_active_frame() && !all_nodes_well_formed(views_of(nodes@)) ==> result
                == Err::<(), AuthError>(AuthError::MalformedDeclaration) && final(self)@ == old(
                self,
            )@,
            old(self)@.has_active_frame() && all_nodes_well_formed(views_of(nodes@)) ==> result
                == Ok::<(), AuthError>(()) && final(self)@ == old(self)@.declare_all(
                old(self)@.current().target,
                views_of(nodes@),
            ),
    {
        match self.tracker.active_frame() {
            None => Err(AuthError::FrameInvariantViolation),
            Some(frame) => {
                let principal = frame.context.target;
                self.pool.declare_all(principal, nodes)
            },
        }
    }

    /// The checkpoint "`principal` must have authorized this exact call",
    /// asked from within the active frame.
    ///
    /// The call's context is looked up first among the trees scoped to the
    /// enclosing frames, then among the principal's pending roots. The
    /// entry found is consumed, and its children are opened to the frames
    /// that will be nested inside the active one. If there is none, the
    /// answer is `AuthorizationDenied` and nothing changes.
    pub fn require_authorization(&mut self, principal: Principal) -> (result: Result<
        (),
        AuthError,
    >)
        requires
            old(self).wf(),
        ensures
            final(self).wf(),
            result == old(self)@.verdict(principal),
            final(self)@ == old(self)@.check(principal),
            old(self)@.has_active_frame() ==> (result is Ok <==> old(self)@.available(principal)
                > 0),
            result is Ok ==> final(self)@.available(principal) + 1 == old(self)@.available(
                principal,
            ),
            !(result is Ok) ==> final(self)@ == old(self)@,
    {
        proof {
            if self@.has_active_frame() {
                law_authorized_iff_available(self@, principal);
            }
            if self@.authorizes(principal) {
                law_check_consumes_one(self@, principal, principal, self@.current());
            } else {
                law_denial_changes_nothing(self@, principal);
            }
            reveal(EngineView::check);
            reveal(EngineView::found);
            self@.lemma_check_wf(principal);
        }
        let context = match self.tracker.active_frame() {
            None => {
                return Err(AuthError::FrameInvariantViolation);
            },
            Some(frame) => frame.context.duplicate(),
        };
        proof {
            let frames = self@.tracker.frames;
            lemma_scoped_hit_below(frames, principal, self@.current(), frames.len() - 1);
            lemma_first_match_from(self@.pool, principal, self@.current(), 0);
        }
        let (node, origin) = match self.tracker.take_scoped(principal) {
            Some(node) => (node, Origin::Scoped),
            None => match self.pool.take_root_match(principal, &context) {
                Some(node) => (node, Origin::Root),
                None => {
                    return Err(AuthError::AuthorizationDenied);
                },
            },
        };
        self.tracker.grant(principal, node);
        self.trace.push(Consumed { principal, context, origin });
        proof {
            assert(self@.trace =~= old(self)@.check(principal).trace);
        }
        Ok(())
    }

    /// The checkpoint as unit code calls it. A principal consents to the
    /// calls that it makes itself: if `principal` is the direct caller of
    /// the call that is running, the check passes and nothing is consumed.
    /// Otherwise this is [`AuthEngine::require_authorization`].
    pub fn require_auth(&mut self, principal: Principal) -> (result: Result<(), AuthError>)
        requires
            old(self).wf(),
        ensures
            final(self).wf(),
            result == old(self)@.auth_verdict(principal),
            final(self)@ == old(self)@.auth_check(principal),
    {
        match self.tracker.caller() {
            Some(caller) => {
                if caller == principal {
                    return Ok(());
                }
            },
            None => {},
        }
        self.require_authorization(principal)
    }
}

} // verus!
