//! The operation wrapper: the state machine an annotated operation follows.
//!
//! An annotated operation asks the controller for a permit, waits for the
//! reply, runs the wrapped work, and reports completion.  The embedding
//! polls the wrapped future and moves this machine along; the machine says
//! which message to send at each transition, and its ghost history shows
//! that a controlled operation sends exactly one permit request and, when
//! it runs to completion, exactly one completion report.

use vstd::prelude::*;

use crate::ParcheckLock;

verus! {

/// Identifies an annotated operation site: a name and the source position
/// of the annotation.
#[derive(Debug)]
pub struct OperationMetadata {
    pub name: String,
    pub file: String,
    pub line: u32,
}

impl Clone for OperationMetadata {
    fn clone(&self) -> (res: Self)
        ensures
            res == *self,
    {
        OperationMetadata {
            name: self.name.clone(),
            file: self.file.clone(),
            line: self.line,
        }
    }
}

/// The description of an operation site: `'name' (at file:line)`.
pub open spec fn spec_site_text(m: OperationMetadata) -> Seq<char> {
    seq!['\''] + m.name@ + seq!['\''] + " (at "@ + m.file@ + seq![':'] + crate::trace::spec_digits(
        m.line as nat,
    ) + seq![')']
}

impl OperationMetadata {
    /// The operation site as text, for diagnostics: `'name' (at
    /// file:line)`.
    pub fn describe(&self) -> (r: String)
        ensures
            r@ == spec_site_text(*self),
    {
        let mut v: Vec<char> = Vec::new();
        v.push('\'');
        crate::trace::push_str_chars(&mut v, self.name.as_str());
        v.push('\'');
        proof {
            assert(v@ =~= seq!['\''] + self.name@ + seq!['\'']);
        }
        crate::trace::push_str_chars(&mut v, " (at ");
        crate::trace::push_str_chars(&mut v, self.file.as_str());
        v.push(':');
        proof {
            assert(v@ =~= seq!['\''] + self.name@ + seq!['\''] + " (at "@ + self.file@ + seq![
                ':',
            ]);
        }
        crate::trace::push_digits(&mut v, self.line as usize);
        v.push(')');
        proof {
            assert((self.line as usize) as nat == self.line as nat);
            assert(v@ =~= spec_site_text(*self));
        }
        crate::trace::chars_to_string(&v)
    }
}

/// Where an annotated operation stands.
pub enum OperationState {
    /// Created; not yet polled.
    Initial { metadata: OperationMetadata, locks: Vec<ParcheckLock> },
    /// The surrounding task is not under the controller: the annotation is
    /// transparent and no message is ever sent.
    Uncontrolled,
    /// The permit request went out; the operation waits for the reply.
    WaitingForPermit,
    /// The permit arrived (or the controller went away); the wrapped work
    /// is running.
    Executing,
    /// The wrapped work finished.
    Done,
    /// The controller reported another operation already in progress on
    /// the same task; the run is aborted.
    Aborted,
}

/// The state machine of one annotated operation, with a ghost account of
/// the messages it has sent.
pub struct OperationFuture {
    state: OperationState,
    controlled: Ghost<bool>,
    requests_sent: Ghost<nat>,
    finish_reports_sent: Ghost<nat>,
}

impl OperationFuture {
    /// Where the operation stands.
    pub closed spec fn spec_state(&self) -> OperationState {
        self.state
    }

    /// Whether the operation belongs to a controlled task.
    pub closed spec fn spec_controlled(&self) -> bool {
        self.controlled@
    }

    /// How many `OperationPermitRequested` messages have been sent.
    pub closed spec fn spec_requests_sent(&self) -> nat {
        self.requests_sent@
    }

    /// How many `OperationFinished` messages have been sent.
    pub closed spec fn spec_finish_reports_sent(&self) -> nat {
        self.finish_reports_sent@
    }

    /// The message account fits the state: one permit request is sent on
    /// entering the wait, one completion report on finishing a controlled
    /// operation, and nothing else, ever.
    pub open spec fn wf(&self) -> bool {
        match self.spec_state() {
            OperationState::Initial { .. } => self.spec_requests_sent() == 0
                && self.spec_finish_reports_sent() == 0,
            OperationState::Uncontrolled => !self.spec_controlled() && self.spec_requests_sent()
                == 0 && self.spec_finish_reports_sent() == 0,
            OperationState::WaitingForPermit => self.spec_controlled() && self.spec_requests_sent()
                == 1 && self.spec_finish_reports_sent() == 0,
            OperationState::Executing => self.spec_controlled() && self.spec_requests_sent() == 1
                && self.spec_finish_reports_sent() == 0,
            OperationState::Done => (self.spec_controlled() ==> self.spec_requests_sent() == 1
                && self.spec_finish_reports_sent() == 1) && (!self.spec_controlled()
                ==> self.spec_requests_sent() == 0 && self.spec_finish_reports_sent() == 0),
            OperationState::Aborted => self.spec_controlled() && self.spec_requests_sent() == 1
                && self.spec_finish_reports_sent() == 0,
        }
    }

    /// First poll.  Inside a controlled task the permit request to send is
    /// handed back and the operation suspends; outside, the annotation is
    /// transparent and the wrapped work runs uncontrolled.
    pub fn on_first_poll(&mut self, controlled: bool) -> (r: Option<
        (OperationMetadata, Vec<ParcheckLock>),
    >)
        requires
            old(self).wf(),
            old(self).spec_state() is Initial,
        ensures
            final(self).wf(),
            final(self).spec_controlled() == controlled,
            final(self).spec_finish_reports_sent() == 0,
            controlled ==> (r matches Some((m, l)) && m == old(self).spec_state()->Initial_metadata
                && l == old(self).spec_state()->Initial_locks
                && final(self).spec_state() is WaitingForPermit
                && final(self).spec_requests_sent() == 1),
            !controlled ==> r is None && final(self).spec_state() is Uncontrolled
                && final(self).spec_requests_sent() == 0,
    {
        let mut prev = if controlled {
            OperationState::WaitingForPermit
        } else {
            OperationState::Uncontrolled
        };
        core::mem::swap(&mut self.state, &mut prev);
        match prev {
            OperationState::Initial { metadata, locks } => {
                if controlled {
                    self.controlled = Ghost(true);
                    self.requests_sent = Ghost(1);
                    Some((metadata, locks))
                } else {
                    self.controlled = Ghost(false);
                    None
                }
            },
            _ => {
                // unreachable: the precondition pins the initial state
                proof {
                    assert(false);
                }
                None
            },
        }
    }

    /// The permit reply arrived.  `None` stands for a closed reply channel
    /// and is treated as a grant, so a clean shutdown still lets the work
    /// run; an in-progress report aborts, returning the other operation's
    /// metadata for the diagnostic.
    pub fn on_permit(&mut self, permit: Option<crate::controller::OperationPermit>) -> (r: Result<
        (),
        OperationMetadata,
    >)
        requires
            old(self).wf(),
            old(self).spec_state() is WaitingForPermit,
        ensures
            final(self).wf(),
            final(self).spec_controlled() == old(self).spec_controlled(),
            final(self).spec_requests_sent() == old(self).spec_requests_sent(),
            final(self).spec_finish_reports_sent() == old(self).spec_finish_reports_sent(),
            match permit {
                Some(crate::controller::OperationPermit::OperationAlreadyInProgress { other }) => r
                    == Err::<(), OperationMetadata>(other) && final(self).spec_state() is Aborted,
                _ => r is Ok && final(self).spec_state() is Executing,
            },
    {
        match permit {
            Some(crate::controller::OperationPermit::OperationAlreadyInProgress { other }) => {
                self.state = OperationState::Aborted;
                Err(other)
            },
            _ => {
                self.state = OperationState::Executing;
                Ok(())
            },
        }
    }

    /// The wrapped work completed.  A controlled operation reports
    /// `OperationFinished` exactly now, an uncontrolled one stays silent.
    pub fn on_inner_ready(&mut self) -> (report_finished: bool)
        requires
            old(self).wf(),
            old(self).spec_state() is Executing || old(self).spec_state() is Uncontrolled,
        ensures
            final(self).wf(),
            final(self).spec_state() is Done,
            final(self).spec_controlled() == old(self).spec_controlled(),
            final(self).spec_requests_sent() == old(self).spec_requests_sent(),
            report_finished == (old(self).spec_state() is Executing),
            report_finished ==> final(self).spec_finish_reports_sent() == 1,
            !report_finished ==> final(self).spec_finish_reports_sent() == old(self).spec_finish_reports_sent(),
    {
        let was_executing = matches!(self.state, OperationState::Executing);
        self.state = OperationState::Done;
        if was_executing {
            self.finish_reports_sent = Ghost(1);
        }
        was_executing
    }
}

impl OperationFuture {
    /// Where the operation stands, for observation.
    pub fn current_state(&self) -> (r: &OperationState)
        ensures
            *r == self.spec_state(),
    {
        &self.state
    }
}

/// Wrap an annotated operation: the machine starts `Initial`, holding the
/// operation's site metadata and its lock annotations.
pub fn operation(metadata: OperationMetadata, locks: Vec<ParcheckLock>) -> (f: OperationFuture)
    ensures
        f.wf(),
        (f.spec_state() matches OperationState::Initial { metadata: m, locks: l } && m == metadata
            && l == locks),
        f.spec_requests_sent() == 0,
        f.spec_finish_reports_sent() == 0,
{
    OperationFuture {
        state: OperationState::Initial { metadata, locks },
        controlled: Ghost(false),
        requests_sent: Ghost(0),
        finish_reports_sent: Ghost(0),
    }
}

/// Every permit request is matched: a controlled operation sends exactly
/// one `OperationPermitRequested`; if it runs to completion it sends
/// exactly one `OperationFinished`, and if it aborts on an in-progress
/// reply it sends none, the abort diagnostic standing in its place.  An
/// uncontrolled operation sends nothing.  A dropped operation stops where
/// it stands and sends nothing further.
pub proof fn lemma_permit_protocol(f: &OperationFuture)
    requires
        f.wf(),
    ensures
        f.spec_requests_sent() <= 1,
        f.spec_finish_reports_sent() <= f.spec_requests_sent(),
        f.spec_state() is Done && f.spec_controlled() ==> f.spec_requests_sent() == 1
            && f.spec_finish_reports_sent() == 1,
        f.spec_state() is Aborted ==> f.spec_requests_sent() == 1 && f.spec_finish_reports_sent()
            == 0,
        !f.spec_controlled() ==> f.spec_requests_sent() == 0 && f.spec_finish_reports_sent() == 0,
{
}

} // verus!
