//! The order in which an app builds and finishes its plugins. Building or
//! finishing a plugin may add more plugins; the app runs each step this
//! module hands it and reports back which plugins were added meanwhile.
use vstd::prelude::*;

verus! {

/// Where the plugin rounds stand.
#[derive(Debug, Clone, Copy, PartialEq, Eq, Structural)]
pub enum PluginPhase {
    /// The pending plugins were just built.
    Built,
    /// The pending plugins were just finished.
    FinishedPending,
    /// The queued plugins were just finished.
    FinishedQueued,
}

/// The plugins waiting to be built or finished, by id.
pub struct PluginRound {
    /// The plugins of the latest round.
    pub pending: Vec<usize>,
    /// Plugins built in earlier rounds that wait to be finished last.
    pub queued: Vec<usize>,
    pub phase: PluginPhase,
}

/// What the app is to do next.
pub enum PluginAction {
    /// Build these plugins, in order.
    Build(Vec<usize>),
    /// Finish these plugins, in order.
    Finish(Vec<usize>),
    /// Every plugin is built and finished.
    Done,
}

/// Whether `next` and `action` follow from `state` once `added` were added
/// during the step just run: after a build that added nothing, the
/// pending plugins are finished; after a build that added some, the
/// pending ones are queued and the added ones built; after finishing the
/// pending plugins, the queued ones are finished if nothing was added, else
/// the added ones are built; after finishing the queued ones, the added
/// ones are built, and when there are none all is done.
pub open spec fn plugin_transition(state: PluginRound, added: Seq<usize>, next: PluginRound, action: PluginAction) -> bool {
    match state.phase {
        PluginPhase::Built => if added.len() == 0 {
            &&& next.phase == PluginPhase::FinishedPending
            &&& next.pending@ == Seq::<usize>::empty()
            &&& next.queued@ == state.queued@
            &&& action matches PluginAction::Finish(ids) && ids@ == state.pending@
        } else {
            &&& next.phase == PluginPhase::Built
            &&& next.pending@ == added
            &&& next.queued@ == state.queued@ + state.pending@
            &&& action matches PluginAction::Build(ids) && ids@ == added
        },
        PluginPhase::FinishedPending => if added.len() == 0 {
            &&& next.phase == PluginPhase::FinishedQueued
            &&& next.pending@ == Seq::<usize>::empty()
            &&& next.queued@ == Seq::<usize>::empty()
            &&& action matches PluginAction::Finish(ids) && ids@ == state.queued@
        } else {
            &&& next.phase == PluginPhase::Built
            &&& next.pending@ == added
            &&& next.queued@ == state.queued@
            &&& action matches PluginAction::Build(ids) && ids@ == added
        },
        PluginPhase::FinishedQueued => if added.len() == 0 {
            &&& next.phase == PluginPhase::FinishedQueued
            &&& next.pending@ == Seq::<usize>::empty()
            &&& next.queued@ == state.queued@
            &&& action is Done
        } else {
            &&& next.phase == PluginPhase::Built
            &&& next.pending@ == added
            &&& next.queued@ == state.queued@
            &&& action matches PluginAction::Build(ids) && ids@ == added
        },
    }
}

/// Plugins added during a step are built next, whatever the phase: a step
/// that is given added plugins hands out exactly those to be built, and
/// never ends the rounds.
pub proof fn law_added_plugins_are_built(
    state: PluginRound,
    added: Seq<usize>,
    next: PluginRound,
    action: PluginAction,
)
    requires
        plugin_transition(state, added, next, action),
        added.len() > 0,
    ensures
        action matches PluginAction::Build(ids) && ids@ == added,
        next.pending@ == added,
        !(action is Done),
{
}

/// Plugins handed out to be built are handed out to be finished at the
/// next step that adds nothing, and the plugins built before them at the
/// step after; the rounds end only after a step that adds nothing has
/// finished everything queued.
pub proof fn law_built_plugins_are_finished(
    s0: PluginRound,
    added: Seq<usize>,
    s1: PluginRound,
    a1: PluginAction,
    s2: PluginRound,
    a2: PluginAction,
    s3: PluginRound,
    a3: PluginAction,
)
    requires
        plugin_transition(s0, added, s1, a1),
        a1 is Build,
        plugin_transition(s1, Seq::empty(), s2, a2),
        plugin_transition(s2, Seq::empty(), s3, a3),
    ensures
        a2 matches PluginAction::Finish(ids) && ids@ == added,
        a3 matches PluginAction::Finish(ids) && ids@ == s1.queued@,
        s1.queued@ == (if s0.phase == PluginPhase::Built {
            s0.queued@ + s0.pending@
        } else {
            s0.queued@
        }),
{
}

/// The first step for the plugins added before the app is built: build
/// them all, or nothing is left to do when there are none.
pub fn plugin_start(plugins: Vec<usize>) -> (r: (PluginRound, PluginAction))
    ensures
        r.0.queued@ == Seq::<usize>::empty(),
        plugins@.len() == 0 ==> r.0.phase == PluginPhase::FinishedQueued && r.0.pending@ == Seq::<
            usize,
        >::empty() && r.1 is Done,
        plugins@.len() > 0 ==> r.0.phase == PluginPhase::Built && r.0.pending@ == plugins@ && (r.1 matches PluginAction::Build(ids) && ids@ == plugins@),
{
    if plugins.len() == 0 {
        (PluginRound { pending: Vec::new(), queued: Vec::new(), phase: PluginPhase::FinishedQueued }, PluginAction::Done)
    } else {
        let ids = clone_ids(&plugins);
        (PluginRound { pending: plugins, queued: Vec::new(), phase: PluginPhase::Built }, PluginAction::Build(ids))
    }
}

/// The step after the app ran `state`'s last action, during which the
/// plugins `added` were added.
pub fn plugin_step(state: PluginRound, added: Vec<usize>) -> (r: (PluginRound, PluginAction))
    ensures
        plugin_transition(state, added@, r.0, r.1),
{
    let PluginRound { pending, queued, phase } = state;
    match phase {
        PluginPhase::Built => {
            if added.len() == 0 {
                (PluginRound { pending: Vec::new(), queued, phase: PluginPhase::FinishedPending }, PluginAction::Finish(pending))
            } else {
                let mut queued = queued;
                let mut pending = pending;
                queued.append(&mut pending);
                let ids = clone_ids(&added);
                (PluginRound { pending: added, queued, phase: PluginPhase::Built }, PluginAction::Build(ids))
            }
        },
        PluginPhase::FinishedPending => {
            if added.len() == 0 {
                (PluginRound { pending: Vec::new(), queued: Vec::new(), phase: PluginPhase::FinishedQueued }, PluginAction::Finish(queued))
            } else {
                let ids = clone_ids(&added);
                (PluginRound { pending: added, queued, phase: PluginPhase::Built }, PluginAction::Build(ids))
            }
        },
        PluginPhase::FinishedQueued => {
            if added.len() == 0 {
                (PluginRound { pending: Vec::new(), queued, phase: PluginPhase::FinishedQueued }, PluginAction::Done)
            } else {
                let ids = clone_ids(&added);
                (PluginRound { pending: added, queued, phase: PluginPhase::Built }, PluginAction::Build(ids))
            }
        },
    }
}

/// A copy of `ids`.
fn clone_ids(ids: &Vec<usize>) -> (r: Vec<usize>)
    ensures
        r@ == ids@,
{
    let mut r: Vec<usize> = Vec::new();
    let mut i: usize = 0;
    while i < ids.len()
        invariant
            i <= ids@.len(),
            r@ == ids@.take(i as int),
        decreases ids@.len() - i,
    {
        r.push(ids[i]);
        i = i + 1;
        proof {
            assert(ids@.take(i as int) == ids@.take(i - 1).push(ids@[i - 1]));
        }
    }
    proof {
        assert(ids@.take(i as int) =~= ids@);
    }
    r
}

} // verus!
