//! The BPMN element kinds that a node can represent.
use vstd::prelude::*;
use crate::ids::{SdeId, TokenCoordinate};
use crate::lexer;
use crate::pebpmd::PeBpmdProtection;

verus! {

/// Diagnostics: one message per location.
pub type ParseError = Vec<(String, TokenCoordinate)>;

/// A diagnostic with exactly one message at `tc`.
pub fn single_error(msg: &str, tc: TokenCoordinate) -> (r: ParseError)
    ensures
        r@.len() == 1,
        r@[0].0@ == msg@,
        r@[0].1 == tc,
{
    let mut r: ParseError = Vec::new();
    r.push((msg.to_string(), tc));
    r
}

/// Whether `e` is exactly the single message `msg` at `tc`.
pub open spec fn is_single_error(e: ParseError, msg: Seq<char>, tc: TokenCoordinate) -> bool {
    &&& e@.len() == 1
    &&& e@[0].0@ == msg
    &&& e@[0].1 == tc
}

#[derive(Debug, Clone, Copy, Eq, PartialEq, Structural)]
pub enum DataType {
    Store,
    Object,
}

/// Data attached to data nodes: the semantic data element and the PE-BPMD protections.
#[derive(Debug, Clone)]
pub struct DataAux {
    pub sde_id: SdeId,
    pub pebpmd_protection: Vec<PeBpmdProtection>,
}

#[derive(Debug, Clone)]
pub enum BpmnNode {
    /// Event with its visual (start, catch, throw, end).
    Event(EventType, EventVisual),
    Gateway(GatewayType),
    /// Activity (task, subprocess, ...) with its markers.
    Activity(ActivityType, ActivityMarker),
    /// Data store or data object reference.
    Data(DataType, DataAux),
}

#[derive(Debug, Clone, Copy, Eq, PartialEq, Structural)]
pub enum GatewayType {
    /// X
    Exclusive,
    /// +
    Parallel,
    /// O
    Inclusive,
    /// *
    Event,
}

#[derive(Debug, Clone, Copy, Eq, PartialEq, Structural)]
pub enum EventType {
    Blank,
    Message,
    Timer,
    Conditional,
    Link,
    Signal,
    Error,
    Escalation,
    Termination,
    Compensation,
    Cancel,
    Multiple,
    MultipleParallel,
}

#[derive(Debug, Clone, Copy, Eq, PartialEq, Structural)]
pub struct BoundaryEvent {
    pub event_type: BoundaryEventType,
    pub interrupt_kind: InterruptKind,
    /// Set explicitly so that rendering does not need to recompute it.
    pub x: usize,
    pub y: usize,
}

#[derive(Debug, Clone, Copy, Eq, PartialEq, Structural)]
pub enum BoundaryEventType {
    Error,
    Timer,
    Cancel,
    Signal,
    Message,
    Escalation,
    Conditional,
    Compensation,
    Multiple,
    MultipleParallel,
}

#[derive(Debug, Clone, Copy, Eq, PartialEq, Structural)]
pub enum ActivityType {
    Task(TaskType),
    Subprocess,
    CallActivity,
    EventSubprocess,
    Transaction,
}

#[derive(Debug, Clone, Copy, Eq, PartialEq, Structural)]
pub enum TaskType {
    /// A task without a type marker.
    Plain,
    Send,
    Receive,
    Manual,
    User,
    Script,
    Service,
    Businessrule,
}

impl Default for TaskType {
    fn default() -> (r: TaskType)
        ensures
            r == TaskType::Plain,
    {
        TaskType::Plain
    }
}

#[derive(Debug, Clone, Copy, Eq, PartialEq, Structural)]
pub struct ActivityMarker {
    pub multiple: bool,
    pub repeat: bool,
    pub adhoc: bool,
    pub compensation: bool,
    pub plus_in_a_box: bool,
    /// Only for pools.
    pub is_blackbox: bool,
}

impl Default for ActivityMarker {
    fn default() -> (r: ActivityMarker)
        ensures
            r == (ActivityMarker {
                multiple: false,
                repeat: false,
                adhoc: false,
                compensation: false,
                plus_in_a_box: false,
                is_blackbox: false,
            }),
    {
        ActivityMarker {
            multiple: false,
            repeat: false,
            adhoc: false,
            compensation: false,
            plus_in_a_box: false,
            is_blackbox: false,
        }
    }
}

#[derive(Debug, Clone, Copy, Eq, PartialEq, Structural)]
pub struct ActivityMarkerTokenCoordinates {
    pub multiple: TokenCoordinate,
    pub repeat: TokenCoordinate,
    pub adhoc: TokenCoordinate,
    pub compensation: TokenCoordinate,
    pub plus_in_a_box: TokenCoordinate,
    pub is_blackbox: TokenCoordinate,
}

#[derive(Debug, Clone, Copy, Eq, PartialEq, Structural)]
pub enum EventVisual {
    Start(InterruptKind),
    Catch(InterruptKind),
    Throw,
    End,
}

#[derive(Debug, Clone, Copy, Eq, PartialEq, Structural)]
pub enum InterruptKind {
    NonInterrupting,
    Interrupting,
}

/// The visual of a start event written with marker `lexed`, or `None` where start events may not
/// carry that marker.
pub open spec fn spec_default_start(lexed: lexer::EventVisual) -> Option<EventVisual> {
    match lexed {
        lexer::EventVisual::Unspecified | lexer::EventVisual::Receive | lexer::EventVisual::Catch =>
            Some(EventVisual::Start(InterruptKind::Interrupting)),
        _ => None,
    }
}

/// The visual of an intermediate event of type `event_type` written with marker `lexed`, or
/// `None` where that event type cannot be an intermediate event.
pub open spec fn spec_default_intermediate(lexed: lexer::EventVisual, event_type: EventType) -> Option<EventVisual> {
    match lexed {
        lexer::EventVisual::Receive | lexer::EventVisual::Catch => Some(EventVisual::Catch(InterruptKind::Interrupting)),
        lexer::EventVisual::Send | lexer::EventVisual::Throw => Some(EventVisual::Throw),
        lexer::EventVisual::Unspecified => match event_type {
            EventType::Blank | EventType::Escalation | EventType::Compensation => Some(EventVisual::Throw),
            EventType::Error | EventType::Termination | EventType::Cancel => None,
            _ => Some(EventVisual::Catch(InterruptKind::Interrupting)),
        },
    }
}

/// The visual of an end event written with marker `lexed`, or `None` where end events may not
/// carry that marker.
pub open spec fn spec_default_end(lexed: lexer::EventVisual) -> Option<EventVisual> {
    match lexed {
        lexer::EventVisual::Unspecified | lexer::EventVisual::Send | lexer::EventVisual::Throw => Some(EventVisual::End),
        _ => None,
    }
}

impl EventVisual {
    /// Resolves the marker of a start event.
    pub fn default_start(lexed_tc: (lexer::EventVisual, TokenCoordinate)) -> (r: Result<Self, ParseError>)
        ensures
            spec_default_start(lexed_tc.0) is Some ==> r == Ok::<Self, ParseError>(spec_default_start(lexed_tc.0).unwrap()),
            spec_default_start(lexed_tc.0) is None ==> (r matches Err(e) && is_single_error(e,
                "Start events can only be ~catch or ~receive events (or simply remove this attribute)."@, lexed_tc.1)),
    {
        let (lexed, tc) = lexed_tc;
        match lexed {
            lexer::EventVisual::Unspecified | lexer::EventVisual::Receive | lexer::EventVisual::Catch =>
                Ok(EventVisual::Start(InterruptKind::Interrupting)),
            lexer::EventVisual::Send | lexer::EventVisual::Throw => Err(single_error(
                "Start events can only be ~catch or ~receive events (or simply remove this attribute).", tc)),
        }
    }

    /// Resolves the marker of an intermediate event of type `event_type`.
    pub fn default_intermediate(lexed_tc: (lexer::EventVisual, TokenCoordinate), event_type: EventType) -> (r: Result<Self, ParseError>)
        ensures
            spec_default_intermediate(lexed_tc.0, event_type) is Some
                ==> r == Ok::<Self, ParseError>(spec_default_intermediate(lexed_tc.0, event_type).unwrap()),
            spec_default_intermediate(lexed_tc.0, event_type) is None && event_type == EventType::Error
                ==> (r matches Err(e) && is_single_error(e,
                "Error events cannot be intermediate events, but only end or boundary events."@, lexed_tc.1)),
            spec_default_intermediate(lexed_tc.0, event_type) is None && event_type == EventType::Termination
                ==> (r matches Err(e) && is_single_error(e,
                "Termination events cannot be intermediate events, but only end events."@, lexed_tc.1)),
            spec_default_intermediate(lexed_tc.0, event_type) is None && event_type == EventType::Cancel
                ==> (r matches Err(e) && is_single_error(e,
                "Cancel events cannot be intermediate events, but only end or boundary events."@, lexed_tc.1)),
    {
        let (lexed, tc) = lexed_tc;
        match lexed {
            lexer::EventVisual::Receive | lexer::EventVisual::Catch => Ok(EventVisual::Catch(InterruptKind::Interrupting)),
            lexer::EventVisual::Send | lexer::EventVisual::Throw => Ok(EventVisual::Throw),
            lexer::EventVisual::Unspecified => match event_type {
                EventType::Blank => Ok(EventVisual::Throw),
                EventType::Message => Ok(EventVisual::Catch(InterruptKind::Interrupting)),
                EventType::Timer => Ok(EventVisual::Catch(InterruptKind::Interrupting)),
                EventType::Conditional => Ok(EventVisual::Catch(InterruptKind::Interrupting)),
                EventType::Link => Ok(EventVisual::Catch(InterruptKind::Interrupting)),
                EventType::Signal => Ok(EventVisual::Catch(InterruptKind::Interrupting)),
                EventType::Error => Err(single_error(
                    "Error events cannot be intermediate events, but only end or boundary events.", tc)),
                EventType::Escalation => Ok(EventVisual::Throw),
                EventType::Termination => Err(single_error(
                    "Termination events cannot be intermediate events, but only end events.", tc)),
                EventType::Compensation => Ok(EventVisual::Throw),
                EventType::Cancel => Err(single_error(
                    "Cancel events cannot be intermediate events, but only end or boundary events.", tc)),
                EventType::Multiple => Ok(EventVisual::Catch(InterruptKind::Interrupting)),
                EventType::MultipleParallel => Ok(EventVisual::Catch(InterruptKind::Interrupting)),
            },
        }
    }

    /// Resolves the marker of an end event.
    pub fn default_end(lexed_tc: (lexer::EventVisual, TokenCoordinate)) -> (r: Result<Self, ParseError>)
        ensures
            spec_default_end(lexed_tc.0) is Some ==> r == Ok::<Self, ParseError>(spec_default_end(lexed_tc.0).unwrap()),
            spec_default_end(lexed_tc.0) is None ==> (r matches Err(e) && is_single_error(e,
                "End events can only ~send or ~throw events (or simply remove this attribute)."@, lexed_tc.1)),
    {
        let (lexed, tc) = lexed_tc;
        match lexed {
            lexer::EventVisual::Unspecified | lexer::EventVisual::Send | lexer::EventVisual::Throw => Ok(EventVisual::End),
            lexer::EventVisual::Receive | lexer::EventVisual::Catch => Err(single_error(
                "End events can only ~send or ~throw events (or simply remove this attribute).", tc)),
        }
    }
}

} // verus!
