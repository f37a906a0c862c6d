//! Pending declarations: the per-principal pool of root trees and the scan
//! that finds and consumes the entry for one call.
//!
//! Entries are kept in declaration order. Where several pending entries
//! answer the same call, the one that was declared first is consumed.

use crate::context::{ContextView, InvocationContext, Principal};
use crate::error::AuthError;
use crate::node::{views_of, AuthorizationNode, NodeView};
use vstd::prelude::*;

verus! {

/// The mathematical value of a [`Pending`] entry.
pub struct PendingView {
    pub principal: Principal,
    pub node: NodeView,
}

/// A tree that `principal` declared and that has not been consumed yet.
#[derive(Debug)]
pub struct Pending {
    pub principal: Principal,
    pub node: AuthorizationNode,
}

impl View for Pending {
    type V = PendingView;

    open spec fn view(&self) -> PendingView {
        PendingView { principal: self.principal, node: self.node@ }
    }
}

/// The values of a sequence of pending entries, in order.
pub open spec fn pending_views(entries: Seq<Pending>) -> Seq<PendingView> {
    Seq::new(entries.len(), |i: int| entries[i]@)
}

/// The children of a consumed node as entries of `principal`, in order.
pub open spec fn granted(principal: Principal, children: Seq<NodeView>) -> Seq<PendingView> {
    Seq::new(children.len(), |i: int| PendingView { principal, node: children[i] })
}

/// Whether `entry` answers a call with `context` on behalf of `principal`:
/// it was declared by that principal and the context at its root is equal
/// to the call's. What is declared below the root plays no part.
pub open spec fn answers(entry: PendingView, principal: Principal, context: ContextView) -> bool {
    entry.principal == principal && entry.node.context == context
}

/// The position at or after `start` of the first entry that answers
/// `(principal, context)`.
pub open spec fn first_match_from(
    entries: Seq<PendingView>,
    principal: Principal,
    context: ContextView,
    start: int,
) -> Option<int>
    decreases entries.len() - start,
{
    if start < 0 || start >= entries.len() {
        None
    } else if answers(entries[start], principal, context) {
        Some(start)
    } else {
        first_match_from(entries, principal, context, start + 1)
    }
}

/// The position of the entry that a call with `context` on behalf of
/// `principal` consumes: the first one in declaration order that answers it.
pub open spec fn first_match(
    entries: Seq<PendingView>,
    principal: Principal,
    context: ContextView,
) -> Option<int> {
    first_match_from(entries, principal, context, 0)
}

/// How many of `entries` answer `(principal, context)`.
pub open spec fn count_matches(
    entries: Seq<PendingView>,
    principal: Principal,
    context: ContextView,
) -> nat
    decreases entries.len(),
{
    if entries.len() == 0 {
        0
    } else {
        count_matches(entries.drop_last(), principal, context) + if answers(
            entries.last(),
            principal,
            context,
        ) {
            1nat
        } else {
            0nat
        }
    }
}

/// Whether every tree of `nodes` is well formed.
pub open spec fn all_nodes_well_formed(nodes: Seq<NodeView>) -> bool {
    forall|i: int| 0 <= i < nodes.len() ==> (#[trigger] nodes[i]).well_formed()
}

/// Whether every tree among `entries` is well formed.
pub open spec fn all_well_formed(entries: Seq<PendingView>) -> bool {
    forall|i: int| 0 <= i < entries.len() ==> (#[trigger] entries[i]).node.well_formed()
}

/// What a scan from `start` finds is an entry that answers, and nothing
/// between `start` and it does; it finds nothing only if nothing from
/// `start` on answers.
pub proof fn lemma_first_match_from(
    entries: Seq<PendingView>,
    principal: Principal,
    context: ContextView,
    start: int,
)
    requires
        0 <= start,
    ensures
        match first_match_from(entries, principal, context, start) {
            Some(i) => {
                &&& start <= i < entries.len()
                &&& answers(entries[i], principal, context)
                &&& forall|j: int|
                    start <= j < i ==> !answers(#[trigger] entries[j], principal, context)
            },
            None => forall|j: int|
                start <= j < entries.len() ==> !answers(#[trigger] entries[j], principal, context),
        },
    decreases entries.len() - start,
{
    if start < entries.len() && !answers(entries[start], principal, context) {
        lemma_first_match_from(entries, principal, context, start + 1);
    }
}

/// A scan finds an entry exactly when at least one entry answers.
pub proof fn lemma_first_match_counts(
    entries: Seq<PendingView>,
    principal: Principal,
    context: ContextView,
)
    ensures
        first_match(entries, principal, context) is Some <==> count_matches(
            entries,
            principal,
            context,
        ) > 0,
{
    lemma_first_match_from(entries, principal, context, 0);
    if count_matches(entries, principal, context) > 0 {
        lemma_count_witness(entries, principal, context);
    } else {
        lemma_count_zero(entries, principal, context);
    }
}

/// Where the count is positive, some entry answers.
pub proof fn lemma_count_witness(
    entries: Seq<PendingView>,
    principal: Principal,
    context: ContextView,
) -> (i: int)
    requires
        count_matches(entries, principal, context) > 0,
    ensures
        0 <= i < entries.len(),
        answers(entries[i], principal, context),
    decreases entries.len(),
{
    if answers(entries.last(), principal, context) {
        entries.len() - 1
    } else {
        lemma_count_witness(entries.drop_last(), principal, context)
    }
}

/// Where the count is zero, no entry answers.
pub proof fn lemma_count_zero(
    entries: Seq<PendingView>,
    principal: Principal,
    context: ContextView,
)
    requires
        count_matches(entries, principal, context) == 0,
    ensures
        forall|i: int|
            0 <= i < entries.len() ==> !answers(#[trigger] entries[i], principal, context),
    decreases entries.len(),
{
    if entries.len() > 0 {
        lemma_count_zero(entries.drop_last(), principal, context);
        assert forall|i: int| 0 <= i < entries.len() implies !answers(
            #[trigger] entries[i],
            principal,
            context,
        ) by {
            if i < entries.len() - 1 {
                assert(entries.drop_last()[i] == entries[i]);
            }
        }
    }
}

/// Where some entry answers, the count is positive.
pub proof fn lemma_count_positive(
    entries: Seq<PendingView>,
    i: int,
    principal: Principal,
    context: ContextView,
)
    requires
        0 <= i < entries.len(),
        answers(entries[i], principal, context),
    ensures
        count_matches(entries, principal, context) > 0,
{
    if count_matches(entries, principal, context) == 0 {
        lemma_count_zero(entries, principal, context);
    }
}

/// The one position that answers with nothing before it answering is the
/// position that a scan finds.
pub proof fn lemma_first_match_is(
    entries: Seq<PendingView>,
    i: int,
    principal: Principal,
    context: ContextView,
)
    requires
        0 <= i < entries.len(),
        answers(entries[i], principal, context),
        forall|j: int| 0 <= j < i ==> !answers(#[trigger] entries[j], principal, context),
    ensures
        first_match(entries, principal, context) == Some(i),
{
    lemma_first_match_from(entries, principal, context, 0);
}

/// An entry that does not answer plays no part in a scan: with it taken
/// out, the scan finds the same entry, one position lower if it lay behind
/// the one taken out.
pub proof fn lemma_first_match_skips(
    entries: Seq<PendingView>,
    i: int,
    principal: Principal,
    context: ContextView,
)
    requires
        0 <= i < entries.len(),
        !answers(entries[i], principal, context),
    ensures
        match first_match(entries.remove(i), principal, context) {
            Some(j) => first_match(entries, principal, context) == Some(
                if j < i {
                    j
                } else {
                    j + 1
                },
            ),
            None => first_match(entries, principal, context) is None,
        },
{
    let rest = entries.remove(i);
    lemma_first_match_from(rest, principal, context, 0);
    lemma_first_match_from(entries, principal, context, 0);
    match first_match(rest, principal, context) {
        Some(j) => {
            let at = if j < i {
                j
            } else {
                j + 1
            };
            assert(entries[at] == rest[j]);
            assert forall|k: int| 0 <= k < at implies !answers(
                #[trigger] entries[k],
                principal,
                context,
            ) by {
                if k < i {
                    assert(entries[k] == rest[k]);
                } else if k > i {
                    assert(entries[k] == rest[k - 1]);
                }
            }
            lemma_first_match_is(entries, at, principal, context);
        },
        None => {
            assert forall|k: int| 0 <= k < entries.len() implies !answers(
                #[trigger] entries[k],
                principal,
                context,
            ) by {
                if k < i {
                    assert(entries[k] == rest[k]);
                } else if k > i {
                    assert(entries[k] == rest[k - 1]);
                }
            }
        },
    }
}

/// One more entry adds one to the count exactly when it answers.
pub proof fn lemma_count_push(
    entries: Seq<PendingView>,
    entry: PendingView,
    principal: Principal,
    context: ContextView,
)
    ensures
        count_matches(entries.push(entry), principal, context) == count_matches(
            entries,
            principal,
            context,
        ) + if answers(entry, principal, context) {
            1nat
        } else {
            0nat
        },
{
    assert(entries.push(entry).drop_last() =~= entries);
}

/// The count over two collections in a row is the sum of their counts.
pub proof fn lemma_count_add(
    left: Seq<PendingView>,
    right: Seq<PendingView>,
    principal: Principal,
    context: ContextView,
)
    ensures
        count_matches(left + right, principal, context) == count_matches(left, principal, context)
            + count_matches(right, principal, context),
    decreases right.len(),
{
    if right.len() == 0 {
        assert(left + right =~= left);
    } else {
        lemma_count_add(left, right.drop_last(), principal, context);
        assert((left + right).drop_last() =~= left + right.drop_last());
    }
}

/// Taking an entry out takes one from the count exactly when it answers.
pub proof fn lemma_count_remove(
    entries: Seq<PendingView>,
    i: int,
    principal: Principal,
    context: ContextView,
)
    requires
        0 <= i < entries.len(),
    ensures
        count_matches(entries, principal, context) == count_matches(
            entries.remove(i),
            principal,
            context,
        ) + if answers(entries[i], principal, context) {
            1nat
        } else {
            0nat
        },
    decreases entries.len(),
{
    if i == entries.len() - 1 {
        assert(entries.remove(i) =~= entries.drop_last());
    } else {
        lemma_count_remove(entries.drop_last(), i, principal, context);
        assert(entries.remove(i).drop_last() =~= entries.drop_last().remove(i));
        assert(entries.remove(i).last() == entries.last());
    }
}

/// Taking an entry out leaves the others well formed.
pub proof fn lemma_remove_well_formed(entries: Seq<PendingView>, i: int)
    requires
        all_well_formed(entries),
        0 <= i < entries.len(),
    ensures
        all_well_formed(entries.remove(i)),
        entries[i].node.well_formed(),
{
    assert forall|j: int| 0 <= j < entries.remove(i).len() implies (#[trigger] entries.remove(
        i,
    )[j]).node.well_formed() by {
        if j < i {
            assert(entries.remove(i)[j] == entries[j]);
        } else {
            assert(entries.remove(i)[j] == entries[j + 1]);
        }
    }
}

/// The children of a well-formed node, as entries, are well formed, and
/// stay so behind entries that are.
pub proof fn lemma_granted_well_formed(
    entries: Seq<PendingView>,
    principal: Principal,
    node: NodeView,
)
    requires
        all_well_formed(entries),
        node.well_formed(),
    ensures
        all_well_formed(granted(principal, node.children)),
        all_well_formed(entries + granted(principal, node.children)),
{
    let added = granted(principal, node.children);
    assert forall|j: int| 0 <= j < added.len() implies (#[trigger] added[j]).node.well_formed() by {
        assert(node.children[j].well_formed());
    }
    assert forall|j: int| 0 <= j < (entries + added).len() implies (#[trigger] (entries
        + added)[j]).node.well_formed() by {
        if j < entries.len() {
            assert((entries + added)[j] == entries[j]);
        } else {
            assert((entries + added)[j] == added[j - entries.len()]);
        }
    }
}

/// Scans `pending_children` for the first entry that `principal` declared
/// for `context`; removes and returns its tree when there is one, and leaves
/// the collection as it was when there is none.
pub fn take_scoped_match(
    pending_children: &mut Vec<Pending>,
    principal: Principal,
    context: &InvocationContext,
) -> (taken: Option<AuthorizationNode>)
    ensures
        match first_match(pending_views(old(pending_children)@), principal, context@) {
            Some(i) => {
                &&& taken is Some
                &&& taken.unwrap()@ == pending_views(old(pending_children)@)[i].node
                &&& pending_views(final(pending_children)@) == pending_views(
                    old(pending_children)@,
                ).remove(i)
            },
            None => {
                &&& taken is None
                &&& pending_views(final(pending_children)@) == pending_views(
                    old(pending_children)@,
                )
            },
        },
{
    let ghost before = pending_views(pending_children@);
    let mut i: usize = 0;
    while i < pending_children.len()
        invariant
            i <= pending_children.len(),
            pending_children@ == old(pending_children)@,
            before == pending_views(pending_children@),
            first_match(before, principal, context@) == first_match_from(
                before,
                principal,
                context@,
                i as int,
            ),
        decreases pending_children.len() - i,
    {
        if pending_children[i].principal == principal && pending_children[i].node.context.same_as(
            context,
        ) {
            proof {
                pending_children[i as int].node.lemma_view();
            }
            let entry = pending_children.remove(i);
            assert(pending_views(pending_children@) =~= before.remove(i as int));
            return Some(entry.node);
        }
        proof {
            pending_children[i as int].node.lemma_view();
        }
        i += 1;
    }
    None
}

/// Turns the children of a consumed node into entries of `principal`, in
/// the order in which they were declared.
pub fn pending_from(principal: Principal, children: Vec<AuthorizationNode>) -> (entries: Vec<
    Pending,
>)
    ensures
        pending_views(entries@) == granted(principal, views_of(children@)),
{
    let ghost all = granted(principal, views_of(children@));
    let ghost n = children@.len();
    let mut children = children;
    let mut reversed: Vec<AuthorizationNode> = Vec::new();
    while children.len() > 0
        invariant
            children@.len() + reversed@.len() == n,
            n == all.len(),
            forall|j: int| 0 <= j < children@.len() ==> (#[trigger] children@[j])@ == all[j].node,
            forall|j: int|
                0 <= j < reversed@.len() ==> (#[trigger] reversed@[j])@ == all[n - 1 - j].node,
        decreases children.len(),
    {
        let node = children.pop().unwrap();
        reversed.push(node);
    }
    let mut entries: Vec<Pending> = Vec::new();
    while reversed.len() > 0
        invariant
            entries@.len() + reversed@.len() == n,
            n == all.len(),
            forall|j: int| 0 <= j < all.len() ==> (#[trigger] all[j]).principal == principal,
            forall|j: int|
                0 <= j < reversed@.len() ==> (#[trigger] reversed@[j])@ == all[n - 1 - j].node,
            forall|j: int| 0 <= j < entries@.len() ==> (#[trigger] entries@[j])@ == all[j],
        decreases reversed.len(),
    {
        let node = reversed.pop().unwrap();
        entries.push(Pending { principal, node });
    }
    assert(pending_views(entries@) =~= all);
    entries
}

/// The pending root trees of every principal, in declaration order.
#[derive(Debug)]
pub struct AuthorizationPool {
    roots: Vec<Pending>,
}

impl View for AuthorizationPool {
    type V = Seq<PendingView>;

    closed spec fn view(&self) -> Seq<PendingView> {
        pending_views(self.roots@)
    }
}

impl AuthorizationPool {
    /// Every pending tree is well formed.
    pub open spec fn wf(&self) -> bool {
        all_well_formed(self@)
    }

    /// A pool with nothing pending.
    pub fn new() -> (pool: Self)
        ensures
            pool@ == Seq::<PendingView>::empty(),
            pool.wf(),
    {
        let pool = AuthorizationPool { roots: Vec::new() };
        assert(pool@ =~= Seq::<PendingView>::empty());
        pool
    }

    /// The number of pending root trees, over all principals.
    pub fn len(&self) -> (n: usize)
        ensures
            n == self@.len(),
    {
        self.roots.len()
    }

    /// Inserts `node` as a new pending root of `principal`. A tree that is
    /// not well formed is refused, and the pool stays as it was.
    pub fn declare(&mut self, principal: Principal, node: AuthorizationNode) -> (result: Result<
        (),
        AuthError,
    >)
        requires
            old(self).wf(),
        ensures
            final(self).wf(),
            node@.well_formed() ==> result == Ok::<(), AuthError>(()) && final(self)@ == old(
                self,
            )@.push(PendingView { principal, node: node@ }),
            !node@.well_formed() ==> result == Err::<(), AuthError>(
                AuthError::MalformedDeclaration,
            ) && final(self)@ == old(self)@,
    {
        if !node.is_well_formed() {
            return Err(AuthError::MalformedDeclaration);
        }
        let ghost entry = PendingView { principal, node: node@ };
        self.roots.push(Pending { principal, node });
        assert(self@ =~= old(self)@.push(entry));
        Ok(())
    }

    /// Inserts every tree of `nodes`, in order, as a pending root of
    /// `principal`. If one of them is not well formed, none is inserted.
    pub fn declare_all(&mut self, principal: Principal, nodes: Vec<AuthorizationNode>) -> (result:
        Result<(), AuthError>)
        requires
            old(self).wf(),
        ensures
            final(self).wf(),
            all_nodes_well_formed(views_of(nodes@)) ==> result == Ok::<(), AuthError>(())
                && final(self)@ == old(self)@ + granted(principal, views_of(nodes@)),
            !all_nodes_well_formed(views_of(nodes@)) ==> result == Err::<(), AuthError>(
                AuthError::MalformedDeclaration,
            ) && final(self)@ == old(self)@,
    {
        let mut i: usize = 0;
        while i < nodes.len()
            invariant
                i <= nodes.len(),
                *self == *old(self),
                self.wf(),
                forall|j: int| 0 <= j < i ==> (#[trigger] views_of(nodes@)[j]).well_formed(),
            decreases nodes.len() - i,
        {
            if !nodes[i].is_well_formed() {
                assert(!views_of(nodes@)[i as int].well_formed());
                return Err(AuthError::MalformedDeclaration);
            }
            i += 1;
        }
        let mut entries = pending_from(principal, nodes);
        self.roots.append(&mut entries);
        proof {
            let added = granted(principal, views_of(nodes@));
            assert(self@ =~= old(self)@ + added);
            assert forall|j: int| 0 <= j < self@.len() implies (
            #[trigger] self@[j]).node.well_formed() by {
                if j < old(self)@.len() {
                    assert(self@[j] == old(self)@[j]);
                } else {
                    assert(self@[j] == added[j - old(self)@.len()]);
                    assert(views_of(nodes@)[j - old(self)@.len()].well_formed());
                }
            }
        }
        Ok(())
    }

    /// Scans the pending roots for the first one that `principal` declared
    /// for `context`; removes and returns it when there is one.
    pub fn take_root_match(&mut self, principal: Principal, context: &InvocationContext) -> (taken:
        Option<AuthorizationNode>)
        requires
            old(self).wf(),
        ensures
            final(self).wf(),
            match first_match(old(self)@, principal, context@) {
                Some(i) => {
                    &&& taken is Some
                    &&& taken.unwrap()@ == old(self)@[i].node
                    &&& final(self)@ == old(self)@.remove(i)
                },
                None => taken is None && final(self)@ == old(self)@,
            },
    {
        proof {
            lemma_first_match_from(self@, principal, context@, 0);
        }
        take_scoped_match(&mut self.roots, principal, context)
    }

    /// How many pending roots `principal` has declared for `context`.
    pub fn pending_for(&self, principal: Principal, context: &InvocationContext) -> (n: usize)
        ensures
            n == count_matches(self@, principal, context@),
    {
        let mut n: usize = 0;
        let mut i: usize = 0;
        while i < self.roots.len()
            invariant
                i <= self.roots.len(),
                n <= i,
                n == count_matches(self@.subrange(0, i as int), principal, context@),
            decreases self.roots.len() - i,
        {
            proof {
                self.roots[i as int].node.lemma_view();
                assert(self@.subrange(0, i + 1).drop_last() =~= self@.subrange(0, i as int));
            }
            if self.roots[i].principal == principal && self.roots[i].node.context.same_as(context) {
                n += 1;
            }
            i += 1;
        }
        assert(self@.subrange(0, i as int) =~= self@);
        n
    }
}

} // verus!
