use vstd::prelude::*;

verus! {

/// Where the creation of one link stands.
#[derive(Debug, Clone, Copy, PartialEq, Eq, Structural)]
pub enum LinkState {
    /// Not looked at yet.
    Pending,
    /// An entry is in the way and is to be removed (force mode).
    Removing,
    /// The symlink is to be created.
    Creating,
    /// The symlink was created.
    Applied,
    /// An entry was in the way and force mode is off: left alone.
    SkippedExisting,
    /// The entry in the way could not be removed: the whole run stops.
    FailedRemoval,
    /// The symlink could not be created: the run goes on with the next link.
    FailedCreate,
    /// The link does not apply and is not touched.
    NotApplied,
}

/// What the file system reported for the last action.
#[derive(Debug, Clone, Copy, PartialEq, Eq, Structural)]
pub enum Event {
    Checked { exists: bool },
    Removed { ok: bool },
    Created { ok: bool },
}

/// What is to be done next for a link.
#[derive(Debug, Clone, Copy, PartialEq, Eq, Structural)]
pub enum Action {
    /// Look whether something exists at the link path.
    CheckExists,
    /// Remove what exists at the link path.
    Remove,
    /// Create the symlink.
    Create,
    /// Nothing more for this link; go on with the next.
    Done,
    /// Stop the whole run.
    Abort,
}

pub open spec fn start_spec(apply: bool) -> LinkState {
    if apply {
        LinkState::Pending
    } else {
        LinkState::NotApplied
    }
}

pub open spec fn next_spec(s: LinkState, e: Event, force: bool) -> LinkState {
    match (s, e) {
        (LinkState::Pending, Event::Checked { exists }) => if !exists {
            LinkState::Creating
        } else if force {
            LinkState::Removing
        } else {
            LinkState::SkippedExisting
        },
        (LinkState::Removing, Event::Removed { ok }) => if ok {
            LinkState::Creating
        } else {
            LinkState::FailedRemoval
        },
        (LinkState::Creating, Event::Created { ok }) => if ok {
            LinkState::Applied
        } else {
            LinkState::FailedCreate
        },
        _ => s,
    }
}

pub open spec fn action_spec(s: LinkState) -> Action {
    match s {
        LinkState::Pending => Action::CheckExists,
        LinkState::Removing => Action::Remove,
        LinkState::Creating => Action::Create,
        LinkState::FailedRemoval => Action::Abort,
        _ => Action::Done,
    }
}

impl LinkState {
    /// The first state of a link: pending when it applies.
    pub fn start(apply: bool) -> (r: LinkState)
        ensures
            r == start_spec(apply),
    {
        if apply {
            LinkState::Pending
        } else {
            LinkState::NotApplied
        }
    }

    /// The state after `event`, under the overwrite policy `force`. An event
    /// that does not answer the state's action leaves it as it is.
    pub fn next(self, event: Event, force: bool) -> (r: LinkState)
        ensures
            r == next_spec(self, event, force),
    {
        match (self, event) {
            (LinkState::Pending, Event::Checked { exists }) => if !exists {
                LinkState::Creating
            } else if force {
                LinkState::Removing
            } else {
                LinkState::SkippedExisting
            },
            (LinkState::Removing, Event::Removed { ok }) => if ok {
                LinkState::Creating
            } else {
                LinkState::FailedRemoval
            },
            (LinkState::Creating, Event::Created { ok }) => if ok {
                LinkState::Applied
            } else {
                LinkState::FailedCreate
            },
            _ => self,
        }
    }

    /// What is to be done in this state.
    pub fn action(self) -> (r: Action)
        ensures
            r == action_spec(self),
    {
        match self {
            LinkState::Pending => Action::CheckExists,
            LinkState::Removing => Action::Remove,
            LinkState::Creating => Action::Create,
            LinkState::FailedRemoval => Action::Abort,
            _ => Action::Done,
        }
    }
}

/// Without force mode nothing is ever removed: no event leads to removal.
pub proof fn lemma_no_removal_without_force(s: LinkState, e: Event)
    requires
        s != LinkState::Removing,
    ensures
        next_spec(s, e, false) != LinkState::Removing,
{
}

/// Only a failed removal stops the run; every other outcome lets it go on.
pub proof fn lemma_only_failed_removal_aborts(s: LinkState)
    ensures
        (action_spec(s) == Action::Abort) <==> (s == LinkState::FailedRemoval),
{
}

} // verus!
