//! Errors, cancellation and progress.

use vstd::prelude::*;

use crate::types::{
    ErrorView, ProgressView, SemError, SemErrorKind, SemProgressEvent, SemResult,
};

verus! {

/// The words for a kind of error.
pub open spec fn kind_label(kind: SemErrorKind) -> Seq<char> {
    match kind {
        SemErrorKind::Cancelled => "cancelled"@,
        SemErrorKind::InvalidInput => "invalid input"@,
        SemErrorKind::Io => "io"@,
        SemErrorKind::NotFound => "not found"@,
        SemErrorKind::AmbiguousTarget => "ambiguous target"@,
        SemErrorKind::Unsupported => "unsupported"@,
        SemErrorKind::Internal => "internal"@,
    }
}

/// The words for a kind of error.
pub fn sem_error_kind_label(kind: SemErrorKind) -> (label: &'static str)
    ensures
        label@ == kind_label(kind),
{
    match kind {
        SemErrorKind::Cancelled => "cancelled",
        SemErrorKind::InvalidInput => "invalid input",
        SemErrorKind::Io => "io",
        SemErrorKind::NotFound => "not found",
        SemErrorKind::AmbiguousTarget => "ambiguous target",
        SemErrorKind::Unsupported => "unsupported",
        SemErrorKind::Internal => "internal",
    }
}

impl SemError {
    /// An error with what the message converts to.
    pub fn new<M: Into<String>>(kind: SemErrorKind, message: M) -> (error: SemError)
        ensures
            error.kind == kind,
            call_ensures(<M as Into<String>>::into, (message,), error.message),
    {
        SemError { kind, message: message.into() }
    }

    /// The error in words: its kind and its message.
    pub fn to_string(&self) -> (text: String)
        ensures
            text@ == error_text(self.deep_view()),
    {
        let mut text = sem_error_kind_label(self.kind).to_string();
        text.append(": ");
        text.append(self.message.as_str());
        text
    }
}

/// The words for an error: its kind and its message.
pub open spec fn error_text(error: ErrorView) -> Seq<char> {
    kind_label(error.kind) + ": "@ + error.message
}

/// An error with the given message.
pub fn failure(kind: SemErrorKind, message: String) -> (error: SemError)
    ensures
        error.deep_view() == (ErrorView { kind, message: message@ }),
{
    SemError { kind, message }
}

/// Tells whether the work should stop.
pub trait SemCancellationToken: Send + Sync {
    /// Whether the token may give an answer when it is asked. A token that says
    /// nothing of it may give either one, and another one each time.
    open spec fn may_answer(&self, answer: bool) -> bool {
        true
    }

    fn is_cancelled(&self) -> (answer: bool)
        ensures
            self.may_answer(answer),
    ;
}

/// Takes note of how far the work has come.
pub trait SemProgressReporter: Send + Sync {
    /// Whether the reporter is told of an event at some time. When, and how
    /// often, is left open.
    open spec fn is_told(&self, event: ProgressView) -> bool {
        true
    }

    fn report(&self, event: SemProgressEvent)
        ensures
            self.is_told(event.deep_view()),
    ;
}

/// How a piece of work can be stopped, and whom it tells how far it is.
pub struct SemExecutionContext<'a> {
    pub cancellation: Option<&'a dyn SemCancellationToken>,
    pub progress: Option<&'a dyn SemProgressReporter>,
}

impl<'a> Default for SemExecutionContext<'a> {
    fn default() -> (execution: Self)
        ensures
            execution.cancellation is None,
            execution.progress is None,
    {
        SemExecutionContext { cancellation: None, progress: None }
    }
}

/// The error of cancelled work.
pub open spec fn cancelled() -> ErrorView {
    ErrorView { kind: SemErrorKind::Cancelled, message: "operation cancelled"@ }
}

/// Whether work goes on, given what its token said.
pub fn unless_cancelled(is_cancelled: bool) -> (outcome: SemResult<()>)
    ensures
        outcome is Ok <==> !is_cancelled,
        outcome matches Err(error) ==> error.deep_view() == cancelled(),
{
    if is_cancelled {
        Err(failure(SemErrorKind::Cancelled, "operation cancelled".to_string()))
    } else {
        Ok(())
    }
}

/// Whether the token, where there is one, may give an answer. Without a token
/// work is not cancelled. A token may answer differently each time, and to which
/// of several questions it gave an answer is left open.
pub open spec fn may_be_told(execution: &SemExecutionContext<'_>, is_cancelled: bool) -> bool {
    match execution.cancellation {
        Some(token) => token.may_answer(is_cancelled),
        None => !is_cancelled,
    }
}

/// Asks the token, where there is one, whether the work is cancelled.
pub fn is_cancelled(execution: &SemExecutionContext<'_>) -> (answer: bool)
    ensures
        may_be_told(execution, answer),
{
    match execution.cancellation {
        Some(token) => token.is_cancelled(),
        None => false,
    }
}

/// Fails just if the token, where there is one, says that the work is cancelled.
pub fn ensure_not_cancelled(execution: &SemExecutionContext<'_>) -> (outcome: SemResult<()>)
    ensures
        may_be_told(execution, outcome is Err),
        outcome matches Err(error) ==> error.deep_view() == cancelled(),
{
    unless_cancelled(is_cancelled(execution))
}

/// Puts together what is reported.
pub fn progress_event(
    stage: &str,
    message: &str,
    completed: Option<usize>,
    total: Option<usize>,
) -> (event: SemProgressEvent)
    ensures
        event.deep_view() == (ProgressView { stage: stage@, message: message@, completed, total }),
{
    SemProgressEvent { stage: stage.to_string(), message: message.to_string(), completed, total }
}

/// Whether the reporter, where there is one, is told of an event.
pub open spec fn is_reported(execution: &SemExecutionContext<'_>, event: ProgressView) -> bool {
    match execution.progress {
        Some(reporter) => reporter.is_told(event),
        None => true,
    }
}

/// Reports an event to the reporter, where there is one.
pub fn report_progress(execution: &SemExecutionContext<'_>, event: SemProgressEvent)
    ensures
        is_reported(execution, event.deep_view()),
{
    match execution.progress {
        Some(reporter) => reporter.report(event),
        None => {},
    }
}

} // verus!
