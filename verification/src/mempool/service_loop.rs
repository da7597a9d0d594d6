//! What the mempool service does next, after each thing that happens to it.

use vstd::prelude::*;

verus! {

/// How many seconds a message waits for one of the handlers to become free.
pub const PERMIT_WAIT_SECS: u64 = 60;

/// How many seconds a message waits once the service is shutting down.
pub const DRAIN_WAIT_SECS: u64 = 10;

/// How many seconds the handlers have to finish.
pub const QUIESCE_WAIT_SECS: u64 = 30;

/// How many seconds the mempool has to be written to disk.
pub const PERSIST_WAIT_SECS: u64 = 10;

/// How an attempt to get a handler ended.
#[derive(Clone, Copy, Debug, PartialEq, Eq, Structural)]
pub enum PermitResult {
    Granted,
    /// None became free, at once or in time.
    Unavailable,
    /// There are no handlers any more.
    Closed,
}

/// What happens to the service.
#[derive(Clone, Copy, Debug, PartialEq, Eq, Structural)]
pub enum ServiceEvent {
    /// A message came.
    Received,
    /// No message can come any more.
    ReceiverClosed,
    /// The chain was reorganised.
    Reorg,
    /// The service is to stop.
    Shutdown,
    /// A handler was asked for without waiting.
    Tried(PermitResult),
    /// A handler was waited for.
    Waited(PermitResult),
    /// The service is shutting down and looked for a message that came before.
    DrainReceived { found: bool },
    /// A handler was waited for while shutting down.
    DrainWaited(PermitResult),
    /// All handlers were waited for.
    Quiesced(PermitResult),
    /// The mempool was written to disk, or could not be.
    Persisted,
}

/// What the service does.
#[derive(Clone, Copy, Debug, PartialEq, Eq, Structural)]
pub enum ServiceStep {
    /// Asks for a handler without waiting.
    TryPermit,
    /// Waits for a handler.
    WaitForPermit { seconds: u64 },
    /// Has the message handled and listens again.
    Handle,
    /// Lets the message go and listens again.
    DropMessage,
    /// Handles a reorganisation and listens again.
    HandleReorg,
    /// Looks for a message that came before.
    Drain,
    /// Waits for a handler while shutting down.
    WaitForDrainPermit { seconds: u64 },
    /// Has the message handled and looks for the next.
    HandleAndDrain,
    /// Waits for all handlers to finish.
    Quiesce { seconds: u64 },
    /// Writes the mempool to disk.
    Persist { seconds: u64 },
    /// Stops.
    Stop,
}

/// What the service does after the event. Whatever becomes of a message does not stop it, other
/// than the loss of all handlers; a shutdown leads through the messages that are left, and only a
/// mempool that no handler works on is written to disk.
pub open spec fn step_after(event: ServiceEvent) -> ServiceStep {
    match event {
        ServiceEvent::Received => ServiceStep::TryPermit,
        ServiceEvent::ReceiverClosed => ServiceStep::Drain,
        ServiceEvent::Reorg => ServiceStep::HandleReorg,
        ServiceEvent::Shutdown => ServiceStep::Drain,
        ServiceEvent::Tried(PermitResult::Granted) => ServiceStep::Handle,
        ServiceEvent::Tried(PermitResult::Unavailable) => ServiceStep::WaitForPermit {
            seconds: PERMIT_WAIT_SECS,
        },
        ServiceEvent::Tried(PermitResult::Closed) => ServiceStep::Drain,
        ServiceEvent::Waited(PermitResult::Granted) => ServiceStep::Handle,
        ServiceEvent::Waited(_) => ServiceStep::DropMessage,
        ServiceEvent::DrainReceived { found: true } => ServiceStep::WaitForDrainPermit {
            seconds: DRAIN_WAIT_SECS,
        },
        ServiceEvent::DrainWaited(PermitResult::Granted) => ServiceStep::HandleAndDrain,
        ServiceEvent::DrainReceived { found: false } => ServiceStep::Quiesce {
            seconds: QUIESCE_WAIT_SECS,
        },
        ServiceEvent::DrainWaited(_) => ServiceStep::Quiesce { seconds: QUIESCE_WAIT_SECS },
        ServiceEvent::Quiesced(PermitResult::Granted) => ServiceStep::Persist {
            seconds: PERSIST_WAIT_SECS,
        },
        ServiceEvent::Quiesced(_) => ServiceStep::Stop,
        ServiceEvent::Persisted => ServiceStep::Stop,
    }
}

/// What the service does after the event.
pub fn next_step(event: ServiceEvent) -> (r: ServiceStep)
    ensures
        r == step_after(event),
{
    match event {
        ServiceEvent::Received => ServiceStep::TryPermit,
        ServiceEvent::Reorg => ServiceStep::HandleReorg,
        ServiceEvent::ReceiverClosed | ServiceEvent::Shutdown => ServiceStep::Drain,
        ServiceEvent::Tried(result) => match result {
            PermitResult::Granted => ServiceStep::Handle,
            PermitResult::Unavailable => ServiceStep::WaitForPermit { seconds: PERMIT_WAIT_SECS },
            PermitResult::Closed => ServiceStep::Drain,
        },
        ServiceEvent::Waited(result) => match result {
            PermitResult::Granted => ServiceStep::Handle,
            PermitResult::Unavailable | PermitResult::Closed => ServiceStep::DropMessage,
        },
        ServiceEvent::DrainReceived { found } => if found {
            ServiceStep::WaitForDrainPermit { seconds: DRAIN_WAIT_SECS }
        } else {
            ServiceStep::Quiesce { seconds: QUIESCE_WAIT_SECS }
        },
        ServiceEvent::DrainWaited(result) => match result {
            PermitResult::Granted => ServiceStep::HandleAndDrain,
            PermitResult::Unavailable | PermitResult::Closed => ServiceStep::Quiesce {
                seconds: QUIESCE_WAIT_SECS,
            },
        },
        ServiceEvent::Quiesced(result) => match result {
            PermitResult::Granted => ServiceStep::Persist { seconds: PERSIST_WAIT_SECS },
            PermitResult::Unavailable | PermitResult::Closed => ServiceStep::Stop,
        },
        ServiceEvent::Persisted => ServiceStep::Stop,
    }
}

/// The mempool is written to disk exactly when all handlers have finished.
pub proof fn law_only_a_quiet_mempool_is_persisted(event: ServiceEvent)
    ensures
        step_after(event) is Persist <==> event == ServiceEvent::Quiesced(PermitResult::Granted),
{
}

/// A message is handled exactly when a handler was granted for it.
pub proof fn law_messages_need_a_handler(event: ServiceEvent)
    ensures
        step_after(event) is Handle || step_after(event) is HandleAndDrain <==> event
            == ServiceEvent::Tried(PermitResult::Granted) || event == ServiceEvent::Waited(
            PermitResult::Granted,
        ) || event == ServiceEvent::DrainWaited(PermitResult::Granted),
{
}

/// A message waits for a handler only where none is free, a minute at most, and is dropped only
/// where none becomes free in time.
pub proof fn law_messages_wait_before_they_are_dropped(event: ServiceEvent)
    ensures
        step_after(event) is TryPermit <==> event is Received,
        step_after(event) is WaitForPermit <==> event == ServiceEvent::Tried(
            PermitResult::Unavailable,
        ),
        step_after(ServiceEvent::Tried(PermitResult::Unavailable)) == (ServiceStep::WaitForPermit {
            seconds: 60,
        }),
        step_after(event) is DropMessage <==> event == ServiceEvent::Waited(
            PermitResult::Unavailable,
        ) || event == ServiceEvent::Waited(PermitResult::Closed),
        step_after(event) is HandleReorg <==> event is Reorg,
{
}

/// A service that is to stop, that gets no messages any more or that has no handlers any more takes
/// up the messages that came before, waits for all handlers, writes the mempool to disk, and stops.
pub proof fn law_shutdown_drains_then_persists_then_stops(event: ServiceEvent)
    ensures
        step_after(event) is Drain <==> event is Shutdown || event is ReceiverClosed || event
            == ServiceEvent::Tried(PermitResult::Closed),
        step_after(ServiceEvent::DrainReceived { found: true })
            == (ServiceStep::WaitForDrainPermit { seconds: 10 }),
        step_after(ServiceEvent::DrainReceived { found: false }) == (ServiceStep::Quiesce {
            seconds: 30,
        }),
        step_after(ServiceEvent::DrainWaited(PermitResult::Granted)) is HandleAndDrain,
        step_after(ServiceEvent::DrainWaited(PermitResult::Unavailable)) == (ServiceStep::Quiesce {
            seconds: 30,
        }),
        step_after(ServiceEvent::Quiesced(PermitResult::Granted)) == (ServiceStep::Persist {
            seconds: 10,
        }),
        step_after(event) is Stop <==> event is Persisted || event == ServiceEvent::Quiesced(
            PermitResult::Unavailable,
        ) || event == ServiceEvent::Quiesced(PermitResult::Closed),
{
}

} // verus!
