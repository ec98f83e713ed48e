//! UDP relay helpers: copying messages between two streams, and the sockets of a stream
//! whose packets say where they go.

use vstd::prelude::*;
use vstd::slice::slice_subrange;

use crate::address::{AddressView, NetLocation, NetLocationView, SocketAddr};
use crate::util;

verus! {

/// Nanoseconds without traffic after which a UDP association ends.
pub const ASSOCIATION_TIMEOUT: u64 = 200_000_000_000;

/// Nanoseconds between two searches for idle destinations.
pub const ROUTE_CLEANUP_INTERVAL: u64 = 10_000_000_000;

/// Seconds between two pings.
pub const PING_INTERVAL_SECS: u64 = 60;

/// Size of the buffer that messages are copied through.
pub const MESSAGE_SIZE: usize = 65535;

// ================== copy_bidirectional_message ==================

/// How far a round of copying has come.
#[derive(Debug, Clone, Copy, PartialEq, Eq, Structural)]
pub enum CopyStage {
    Read,
    Write,
    Ping,
    Decide,
}

/// What is to be done next to copy messages.
#[derive(Debug, Clone, Copy, PartialEq, Eq, Structural)]
pub enum CopyAction {
    /// Read a message.
    Read,
    /// Write the message.
    Write,
    /// Write a ping.
    Ping,
    /// Flush the writer.
    Flush,
    /// Wait for the reader or the writer.
    Wait,
    /// Nothing: the reader has ended, and everything is written.
    Finish,
}

/// Copies messages from one stream to another, one at a time.
pub struct CopyBuffer {
    read_done: bool,
    need_flush: bool,
    need_write_ping: bool,
    cache_length: usize,
    buf: Vec<u8>,
    read_count: usize,
    stage: CopyStage,
    did_read: bool,
    did_write: bool,
    read_pending: bool,
    write_pending: bool,
}

/// What a [`CopyBuffer`] stands for: whether the reader has ended, what is owed to the writer,
/// the message that waits to be written, and how far the round has come.
#[verifier::ext_equal]
pub struct CopyView {
    pub read_done: bool,
    pub need_flush: bool,
    pub need_write_ping: bool,
    pub message: Seq<u8>,
    pub read_count: usize,
    pub stage: CopyStage,
    pub did_read: bool,
    pub did_write: bool,
    pub read_pending: bool,
    pub write_pending: bool,
}

impl View for CopyBuffer {
    type V = CopyView;

    closed spec fn view(&self) -> CopyView {
        CopyView {
            read_done: self.read_done,
            need_flush: self.need_flush,
            need_write_ping: self.need_write_ping,
            message: self.buf@.take(self.cache_length as int),
            read_count: self.read_count,
            stage: self.stage,
            did_read: self.did_read,
            did_write: self.did_write,
            read_pending: self.read_pending,
            write_pending: self.write_pending,
        }
    }
}

/// The start of a round.
pub open spec fn new_round(s: CopyView) -> CopyView {
    CopyView {
        stage: CopyStage::Read,
        did_read: false,
        did_write: false,
        read_pending: false,
        write_pending: false,
        ..s
    }
}

/// The next thing to do at a stage, where the stage asks for anything.
pub open spec fn stage_action(s: CopyView) -> Option<CopyAction> {
    match s.stage {
        CopyStage::Read => if !s.read_done && s.message.len() == 0 {
            Some(CopyAction::Read)
        } else {
            None
        },
        CopyStage::Write => if s.message.len() > 0 {
            Some(CopyAction::Write)
        } else {
            None
        },
        CopyStage::Ping => if !s.write_pending && s.need_write_ping {
            Some(CopyAction::Ping)
        } else {
            None
        },
        CopyStage::Decide => if s.did_read && s.did_write && !s.read_pending && !s.write_pending {
            None
        } else if s.need_flush {
            Some(CopyAction::Flush)
        } else if s.read_done && s.message.len() == 0 {
            Some(CopyAction::Finish)
        } else if s.read_pending || s.write_pending {
            Some(CopyAction::Wait)
        } else {
            None
        },
    }
}

/// The stage behind one that asks for nothing. Behind the last one a new round starts.
pub open spec fn next_stage(s: CopyView) -> CopyView {
    match s.stage {
        CopyStage::Read => CopyView { stage: CopyStage::Write, ..s },
        CopyStage::Write => CopyView { stage: CopyStage::Ping, ..s },
        CopyStage::Ping => CopyView { stage: CopyStage::Decide, ..s },
        CopyStage::Decide => new_round(s),
    }
}

/// The first stage from this one on that asks for something.
pub open spec fn settled(s: CopyView, steps: nat) -> CopyView
    decreases steps,
{
    if steps == 0 || stage_action(s) is Some {
        s
    } else {
        settled(next_stage(s), (steps - 1) as nat)
    }
}

/// Within two rounds there is something to do: copying never spins.
pub proof fn copy_settles(s: CopyView)
    ensures
        stage_action(settled(s, 8)) is Some,
{
    reveal_with_fuel(settled, 9);
}

/// A message is read only where none waits to be written, so that none is lost.
pub proof fn one_message_at_a_time(s: CopyView)
    ensures
        stage_action(s) == Some(CopyAction::Read) ==> s.message.len() == 0,
        stage_action(s) == Some(CopyAction::Finish) ==> s.message.len() == 0 && !s.need_flush
            && s.read_done,
{
}

/// What happens to a copy.
#[verifier::ext_equal]
pub enum CopyEvent {
    /// An attempt to copy begins.
    Begun,
    /// It is asked what to do next.
    Asked,
    /// A message was read. An empty one is the end.
    MessageRead(Seq<u8>),
    /// The reader is not ready.
    ReadBlocked,
    /// The message was written.
    MessageWritten,
    /// The writer is not ready for the message.
    WriteBlocked,
    /// A ping was due, and was written or not.
    Pinged(bool),
    /// The writer is not ready for a ping.
    PingBlocked,
    /// The writer is flushed.
    Flushed,
    /// A ping was asked for, or called off.
    PingSet(bool),
}

/// Whether an event can happen: only what was asked for is done.
pub open spec fn copy_allows(s: CopyView, event: CopyEvent) -> bool {
    match event {
        CopyEvent::MessageRead(_) | CopyEvent::ReadBlocked => stage_action(s) == Some(
            CopyAction::Read,
        ),
        CopyEvent::MessageWritten | CopyEvent::WriteBlocked => stage_action(s) == Some(
            CopyAction::Write,
        ),
        CopyEvent::Pinged(_) | CopyEvent::PingBlocked => stage_action(s) == Some(CopyAction::Ping),
        CopyEvent::Flushed => stage_action(s) == Some(CopyAction::Flush),
        _ => true,
    }
}

/// What an event makes of a copy.
pub open spec fn copy_after(s: CopyView, event: CopyEvent) -> CopyView {
    match event {
        CopyEvent::Begun => new_round(s),
        CopyEvent::Asked => settled(s, 8),
        CopyEvent::MessageRead(message) => CopyView {
            stage: CopyStage::Write,
            read_done: message.len() == 0,
            message,
            did_read: message.len() > 0 || s.did_read,
            read_count: s.read_count.wrapping_add(message.len() as usize),
            ..s
        },
        CopyEvent::ReadBlocked => CopyView { stage: CopyStage::Write, read_pending: true, ..s },
        CopyEvent::MessageWritten => CopyView {
            stage: CopyStage::Ping,
            message: Seq::empty(),
            need_flush: true,
            need_write_ping: false,
            did_write: true,
            ..s
        },
        CopyEvent::WriteBlocked => CopyView { stage: CopyStage::Ping, write_pending: true, ..s },
        CopyEvent::Pinged(written) => CopyView {
            stage: CopyStage::Decide,
            need_write_ping: false,
            need_flush: s.need_flush || written,
            ..s
        },
        CopyEvent::PingBlocked => CopyView { stage: CopyStage::Decide, write_pending: true, ..s },
        CopyEvent::Flushed => new_round(CopyView { need_flush: false, ..s }),
        CopyEvent::PingSet(wanted) => CopyView { need_write_ping: wanted, ..s },
    }
}

/// What some events make of a copy, one after the other.
pub open spec fn copy_run(s: CopyView, events: Seq<CopyEvent>) -> CopyView
    decreases events.len(),
{
    if events.len() == 0 {
        s
    } else {
        copy_after(copy_run(s, events.drop_last()), events.last())
    }
}

/// Whether some events can happen, one after the other.
pub open spec fn copy_can_run(s: CopyView, events: Seq<CopyEvent>) -> bool
    decreases events.len(),
{
    events.len() > 0 ==> copy_can_run(s, events.drop_last()) && copy_allows(
        copy_run(s, events.drop_last()),
        events.last(),
    )
}

/// The message that waits to be written, if any does.
pub open spec fn waiting(s: CopyView) -> Seq<Seq<u8>> {
    if s.message.len() > 0 {
        seq![s.message]
    } else {
        Seq::empty()
    }
}

/// The messages that are read in the course of some events.
pub open spec fn messages_read(events: Seq<CopyEvent>) -> Seq<Seq<u8>>
    decreases events.len(),
{
    if events.len() == 0 {
        Seq::empty()
    } else {
        match events.last() {
            CopyEvent::MessageRead(message) => if message.len() > 0 {
                messages_read(events.drop_last()).push(message)
            } else {
                messages_read(events.drop_last())
            },
            _ => messages_read(events.drop_last()),
        }
    }
}

/// The messages that are written in the course of some events.
pub open spec fn messages_written(s: CopyView, events: Seq<CopyEvent>) -> Seq<Seq<u8>>
    decreases events.len(),
{
    if events.len() == 0 {
        Seq::empty()
    } else {
        match events.last() {
            CopyEvent::MessageWritten => messages_written(s, events.drop_last()).push(
                copy_run(s, events.drop_last()).message,
            ),
            _ => messages_written(s, events.drop_last()),
        }
    }
}

/// Going on to the next thing to do leaves the message as it is.
proof fn lemma_settled_keeps_message(s: CopyView, steps: nat)
    ensures
        settled(s, steps).message == s.message,
    decreases steps,
{
    if steps > 0 && stage_action(s) is None {
        lemma_settled_keeps_message(next_stage(s), (steps - 1) as nat);
    }
}

/// Copying loses no message, makes up none and keeps their order: what was written, and then
/// what still waits, is what waited at first, and then what was read. At the end nothing waits.
pub proof fn copying_keeps_messages(s: CopyView, events: Seq<CopyEvent>)
    requires
        copy_can_run(s, events),
    ensures
        messages_written(s, events) + waiting(copy_run(s, events)) == waiting(s) + messages_read(
            events,
        ),
        stage_action(copy_run(s, events)) == Some(CopyAction::Finish) ==> messages_written(
            s,
            events,
        ) == waiting(s) + messages_read(events),
    decreases events.len(),
{
    if events.len() == 0 {
        assert(messages_written(s, events) + waiting(s) =~= waiting(s) + messages_read(events));
    } else {
        let front = events.drop_last();
        let before = copy_run(s, front);
        copying_keeps_messages(s, front);
        lemma_settled_keeps_message(before, 8);
        assert(messages_written(s, events) + waiting(copy_run(s, events)) =~= waiting(s)
            + messages_read(events)) by {
            match events.last() {
                CopyEvent::MessageRead(message) => {
                    assert(messages_written(s, front) =~= waiting(s) + messages_read(front));
                },
                CopyEvent::MessageWritten => {
                    assert(messages_written(s, events) =~= messages_written(s, front) + waiting(
                        before,
                    ));
                },
                _ => {},
            }
        }
    }
    assert(messages_written(s, events) + Seq::<Seq<u8>>::empty() =~= messages_written(s, events));
}

/// Whether a message was written in the course of some events, and the writer not flushed since.
pub open spec fn written_since_flush(events: Seq<CopyEvent>) -> bool
    decreases events.len(),
{
    if events.len() == 0 {
        false
    } else {
        match events.last() {
            CopyEvent::MessageWritten => true,
            CopyEvent::Flushed => false,
            _ => written_since_flush(events.drop_last()),
        }
    }
}

/// Going on to the next thing to do keeps it in mind that a flush is owed.
proof fn lemma_settled_keeps_flush(s: CopyView, steps: nat)
    ensures
        settled(s, steps).need_flush == s.need_flush,
    decreases steps,
{
    if steps > 0 && stage_action(s) is None {
        lemma_settled_keeps_flush(next_stage(s), (steps - 1) as nat);
    }
}

/// What was written is flushed before copying finishes: a flush stays owed until it is done.
pub proof fn copying_flushes(s: CopyView, events: Seq<CopyEvent>)
    requires
        copy_can_run(s, events),
    ensures
        written_since_flush(events) ==> copy_run(s, events).need_flush,
        stage_action(copy_run(s, events)) == Some(CopyAction::Finish) ==> !written_since_flush(
            events,
        ),
    decreases events.len(),
{
    if events.len() > 0 {
        copying_flushes(s, events.drop_last());
        lemma_settled_keeps_flush(copy_run(s, events.drop_last()), 8);
    }
}

impl CopyBuffer {
    /// The buffer has its size, and the message lies in it.
    pub closed spec fn wf(self) -> bool {
        self.buf@.len() == MESSAGE_SIZE && self.cache_length <= MESSAGE_SIZE
    }

    /// The buffer that messages are read into.
    pub closed spec fn room(self) -> Seq<u8> {
        self.buf@
    }

    /// A buffer without a message, for a writer that has to be flushed at first, or has not.
    pub fn new(need_flush: bool) -> (r: Self)
        ensures
            r.wf(),
            r@ == (CopyView {
                read_done: false,
                need_flush,
                need_write_ping: false,
                message: Seq::empty(),
                read_count: 0,
                stage: CopyStage::Read,
                did_read: false,
                did_write: false,
                read_pending: false,
                write_pending: false,
            }),
    {
        let r = CopyBuffer {
            read_done: false,
            need_flush,
            need_write_ping: false,
            cache_length: 0,
            buf: util::allocate_vec(MESSAGE_SIZE),
            read_count: 0,
            stage: CopyStage::Read,
            did_read: false,
            did_write: false,
            read_pending: false,
            write_pending: false,
        };
        assert(r@.message =~= Seq::<u8>::empty());
        r
    }

    fn restart(&mut self)
        requires
            old(self).wf(),
        ensures
            final(self).wf(),
            final(self)@ == new_round(old(self)@),
    {
        self.stage = CopyStage::Read;
        self.did_read = false;
        self.did_write = false;
        self.read_pending = false;
        self.write_pending = false;
    }

    fn current_action(&self) -> (r: Option<CopyAction>)
        requires
            self.wf(),
        ensures
            r == stage_action(self@),
    {
        match self.stage {
            CopyStage::Read => if !self.read_done && self.cache_length == 0 {
                Some(CopyAction::Read)
            } else {
                None
            },
            CopyStage::Write => if self.cache_length > 0 {
                Some(CopyAction::Write)
            } else {
                None
            },
            CopyStage::Ping => if !self.write_pending && self.need_write_ping {
                Some(CopyAction::Ping)
            } else {
                None
            },
            CopyStage::Decide => if self.did_read && self.did_write && !self.read_pending
                && !self.write_pending {
                None
            } else if self.need_flush {
                Some(CopyAction::Flush)
            } else if self.read_done && self.cache_length == 0 {
                Some(CopyAction::Finish)
            } else if self.read_pending || self.write_pending {
                Some(CopyAction::Wait)
            } else {
                None
            },
        }
    }

    fn skip_stage(&mut self)
        requires
            old(self).wf(),
        ensures
            final(self).wf(),
            final(self)@ == next_stage(old(self)@),
    {
        match self.stage {
            CopyStage::Read => {
                self.stage = CopyStage::Write;
            },
            CopyStage::Write => {
                self.stage = CopyStage::Ping;
            },
            CopyStage::Ping => {
                self.stage = CopyStage::Decide;
            },
            CopyStage::Decide => {
                self.restart();
            },
        }
    }

    /// Goes back to the start of a round, as every attempt to copy does.
    pub fn begin(&mut self)
        requires
            old(self).wf(),
        ensures
            final(self).wf(),
            final(self)@ == copy_after(old(self)@, CopyEvent::Begun),
    {
        self.restart();
    }

    /// What is to be done next.
    pub fn poll_copy(&mut self) -> (r: CopyAction)
        requires
            old(self).wf(),
        ensures
            final(self).wf(),
            final(self)@ == copy_after(old(self)@, CopyEvent::Asked),
            stage_action(final(self)@) == Some(r),
    {
        proof {
            copy_settles(self@);
        }
        let mut steps: u8 = 8;
        while steps > 0
            invariant
                steps <= 8,
                self.wf(),
                settled(self@, steps as nat) == settled(old(self)@, 8),
                stage_action(settled(old(self)@, 8)) is Some,
            decreases steps,
        {
            match self.current_action() {
                Some(action) => {
                    return action;
                },
                None => {},
            }
            self.skip_stage();
            steps = steps - 1;
        }
        match self.current_action() {
            Some(action) => action,
            None => CopyAction::Wait,
        }
    }

    /// The buffer to read a message into.
    pub fn read_space(&mut self) -> (r: &mut [u8])
        requires
            old(self).wf(),
            old(self)@.message.len() == 0,
        ensures
            r@ == old(self).room(),
            final(r)@.len() == r@.len() ==> {
                &&& final(self).wf()
                &&& final(self)@ == old(self)@
                &&& final(self).room() == final(r)@
            },
    {
        assert(self@.message =~= Seq::<u8>::empty());
        self.buf.as_mut_slice()
    }

    /// Takes note that a message of `n` bytes was read. An empty one is the end.
    pub fn message_read(&mut self, n: usize)
        requires
            old(self).wf(),
            n <= old(self).room().len(),
            stage_action(old(self)@) == Some(CopyAction::Read),
        ensures
            final(self).wf(),
            final(self)@ == copy_after(
                old(self)@,
                CopyEvent::MessageRead(old(self).room().take(n as int)),
            ),
    {
        self.stage = CopyStage::Write;
        if n == 0 {
            self.read_done = true;
        } else {
            self.cache_length = n;
            self.did_read = true;
            self.read_count = self.read_count.wrapping_add(n);
        }
        assert(self@.message =~= old(self).room().take(n as int));
    }

    /// Takes note that the reader is not ready.
    pub fn read_blocked(&mut self)
        requires
            old(self).wf(),
            stage_action(old(self)@) == Some(CopyAction::Read),
        ensures
            final(self).wf(),
            final(self)@ == copy_after(old(self)@, CopyEvent::ReadBlocked),
    {
        self.stage = CopyStage::Write;
        self.read_pending = true;
    }

    /// The message to write.
    pub fn message(&self) -> (r: &[u8])
        requires
            self.wf(),
        ensures
            r@ == self@.message,
    {
        let r = slice_subrange(self.buf.as_slice(), 0, self.cache_length);
        assert(r@ =~= self@.message);
        r
    }

    /// Takes note that the message was written. The writer has to be flushed, and needs no
    /// ping.
    pub fn message_written(&mut self)
        requires
            old(self).wf(),
            stage_action(old(self)@) == Some(CopyAction::Write),
        ensures
            final(self).wf(),
            final(self)@ == copy_after(old(self)@, CopyEvent::MessageWritten),
    {
        self.stage = CopyStage::Ping;
        self.cache_length = 0;
        self.need_flush = true;
        self.need_write_ping = false;
        self.did_write = true;
        assert(self@.message =~= Seq::<u8>::empty());
    }

    /// Takes note that the writer is not ready for the message.
    pub fn write_blocked(&mut self)
        requires
            old(self).wf(),
            stage_action(old(self)@) == Some(CopyAction::Write),
        ensures
            final(self).wf(),
            final(self)@ == copy_after(old(self)@, CopyEvent::WriteBlocked),
    {
        self.stage = CopyStage::Ping;
        self.write_pending = true;
    }

    /// Takes note that a ping was due, and whether one was written.
    pub fn pinged(&mut self, written: bool)
        requires
            old(self).wf(),
            stage_action(old(self)@) == Some(CopyAction::Ping),
        ensures
            final(self).wf(),
            final(self)@ == copy_after(old(self)@, CopyEvent::Pinged(written)),
    {
        self.stage = CopyStage::Decide;
        self.need_write_ping = false;
        if written {
            self.need_flush = true;
        }
    }

    /// Takes note that the writer is not ready for a ping.
    pub fn ping_blocked(&mut self)
        requires
            old(self).wf(),
            stage_action(old(self)@) == Some(CopyAction::Ping),
        ensures
            final(self).wf(),
            final(self)@ == copy_after(old(self)@, CopyEvent::PingBlocked),
    {
        self.stage = CopyStage::Decide;
        self.write_pending = true;
    }

    /// Takes note that the writer is flushed. A new round starts.
    pub fn flushed(&mut self)
        requires
            old(self).wf(),
            stage_action(old(self)@) == Some(CopyAction::Flush),
        ensures
            final(self).wf(),
            final(self)@ == copy_after(old(self)@, CopyEvent::Flushed),
    {
        self.need_flush = false;
        self.restart();
    }

    /// Asks for a ping, or calls it off.
    pub fn set_ping(&mut self, wanted: bool)
        requires
            old(self).wf(),
        ensures
            final(self).wf(),
            final(self)@ == copy_after(old(self)@, CopyEvent::PingSet(wanted)),
    {
        self.need_write_ping = wanted;
    }

    /// How many bytes were read, modulo the word size.
    pub fn read_count(&self) -> (r: usize)
        ensures
            r == self@.read_count,
    {
        self.read_count
    }
}

/// How far one direction has come.
#[derive(Debug, Clone, Copy, PartialEq, Eq, Structural)]
pub enum TransferState {
    /// Messages are copied.
    Running,
    /// The writer is shut down.
    ShuttingDown,
    /// All is done.
    Done,
}

/// What follows once the work of a state is done.
pub open spec fn state_after(s: TransferState) -> TransferState {
    match s {
        TransferState::Running => TransferState::ShuttingDown,
        TransferState::ShuttingDown => TransferState::Done,
        TransferState::Done => TransferState::Done,
    }
}

/// What follows once the work of a state is done.
pub fn transfer_one_direction(s: TransferState) -> (r: TransferState)
    ensures
        r == state_after(s),
{
    match s {
        TransferState::Running => TransferState::ShuttingDown,
        TransferState::ShuttingDown => TransferState::Done,
        TransferState::Done => TransferState::Done,
    }
}

/// Whether copying in both directions goes on.
#[derive(Debug, Clone, Copy, PartialEq, Eq, Structural)]
pub enum CopyVerdict {
    /// It goes on.
    Continue,
    /// It ends with what the first direction came to.
    FirstEnded,
    /// It ends with what the second direction came to.
    SecondEnded,
    /// It ends for want of traffic.
    Idle,
}

/// Watches over copying in both directions.
pub struct CopyWatch {
    last_active: u64,
    first_count: usize,
    second_count: usize,
}

/// What a [`CopyWatch`] knows: when there was traffic, and how much in each direction.
#[verifier::ext_equal]
pub struct CopyWatchView {
    pub last_active: u64,
    pub first_count: usize,
    pub second_count: usize,
}

impl View for CopyWatch {
    type V = CopyWatchView;

    closed spec fn view(&self) -> CopyWatchView {
        CopyWatchView {
            last_active: self.last_active,
            first_count: self.first_count,
            second_count: self.second_count,
        }
    }
}

impl CopyWatch {
    /// Starts to watch.
    pub fn new(now: u64) -> (r: Self)
        ensures
            r@ == (CopyWatchView { last_active: now, first_count: 0, second_count: 0 }),
    {
        CopyWatch { last_active: now, first_count: 0, second_count: 0 }
    }

    /// Looks at what both directions have read, and at whether they have ended. Without
    /// traffic for too long, copying ends; or else it ends with the direction that does.
    pub fn observe(
        &mut self,
        first_count: usize,
        second_count: usize,
        first_ended: bool,
        second_ended: bool,
        now: u64,
    ) -> (r: CopyVerdict)
        ensures
            ({
                let traffic = first_count != old(self)@.first_count || second_count != old(
                    self,
                )@.second_count;
                &&& final(self)@ == (CopyWatchView {
                    last_active: if traffic {
                        now
                    } else {
                        old(self)@.last_active
                    },
                    first_count,
                    second_count,
                })
                &&& r == (if !traffic && now - old(self)@.last_active >= ASSOCIATION_TIMEOUT {
                    CopyVerdict::Idle
                } else if first_ended {
                    CopyVerdict::FirstEnded
                } else if second_ended {
                    CopyVerdict::SecondEnded
                } else {
                    CopyVerdict::Continue
                })
            }),
    {
        if first_count != self.first_count || second_count != self.second_count {
            self.first_count = first_count;
            self.second_count = second_count;
            self.last_active = now;
        } else if now.saturating_sub(self.last_active) >= ASSOCIATION_TIMEOUT {
            return CopyVerdict::Idle;
        }
        if first_ended {
            CopyVerdict::FirstEnded
        } else if second_ended {
            CopyVerdict::SecondEnded
        } else {
            CopyVerdict::Continue
        }
    }
}

// ================== run_udp_routing (per-destination) ==================

/// A destination with what serves it, and when it was last used.
pub struct Route<T> {
    destination: NetLocation,
    handle: T,
    last_activity: u64,
}

/// What a [`Route`] stands for.
#[verifier::ext_equal]
pub struct RouteView<T> {
    pub destination: NetLocationView,
    pub handle: T,
    pub last_activity: u64,
}

impl<T> View for Route<T> {
    type V = RouteView<T>;

    closed spec fn view(&self) -> RouteView<T> {
        RouteView {
            destination: self.destination@,
            handle: self.handle,
            last_activity: self.last_activity,
        }
    }
}

/// The place of a destination among routes, or their number where it is none of them.
pub open spec fn route_place<T>(routes: Seq<RouteView<T>>, destination: NetLocationView) -> int
    decreases routes.len(),
{
    if routes.len() == 0 {
        0
    } else if routes[0].destination == destination {
        0
    } else {
        1 + route_place(routes.skip(1), destination)
    }
}

/// Whether a route has been idle for too long.
pub open spec fn route_idle<T>(route: RouteView<T>, now: u64) -> bool {
    now - route.last_activity > ASSOCIATION_TIMEOUT
}

/// The routes that are kept at a time.
pub open spec fn routes_kept<T>(routes: Seq<RouteView<T>>, now: u64) -> Seq<RouteView<T>>
    decreases routes.len(),
{
    if routes.len() == 0 {
        Seq::empty()
    } else if route_idle(routes.last(), now) {
        routes_kept(routes.drop_last(), now)
    } else {
        routes_kept(routes.drop_last(), now).push(routes.last())
    }
}

/// What served the routes that are dropped at a time.
pub open spec fn routes_dropped<T>(routes: Seq<RouteView<T>>, now: u64) -> Seq<T>
    decreases routes.len(),
{
    if routes.len() == 0 {
        Seq::empty()
    } else if route_idle(routes.last(), now) {
        routes_dropped(routes.drop_last(), now).push(routes.last().handle)
    } else {
        routes_dropped(routes.drop_last(), now)
    }
}

/// The destinations that packets have gone to, each once.
pub struct RoutingTable<T> {
    routes: Vec<Route<T>>,
    last_cleanup: u64,
}

impl<T> View for RoutingTable<T> {
    type V = Seq<RouteView<T>>;

    closed spec fn view(&self) -> Seq<RouteView<T>> {
        self.routes@.map_values(|r: Route<T>| r@)
    }
}

/// No two routes go to one destination.
pub open spec fn routes_distinct<T>(routes: Seq<RouteView<T>>) -> bool {
    forall|i: int, j: int|
        0 <= i < j < routes.len() ==> (#[trigger] routes[i]).destination != (
        #[trigger] routes[j]).destination
}

/// Where `route_place` points.
proof fn lemma_route_place<T>(routes: Seq<RouteView<T>>, destination: NetLocationView)
    ensures
        0 <= route_place(routes, destination) <= routes.len(),
        route_place(routes, destination) < routes.len() ==> routes[route_place(
            routes,
            destination,
        )].destination == destination,
        forall|i: int|
            0 <= i < route_place(routes, destination) ==> (#[trigger] routes[i]).destination
                != destination,
    decreases routes.len(),
{
    if routes.len() > 0 && routes[0].destination != destination {
        let rest = routes.skip(1);
        lemma_route_place(rest, destination);
        assert forall|i: int| 0 <= i < route_place(routes, destination) implies (
        #[trigger] routes[i]).destination != destination by {
            if i > 0 {
                assert(rest[i - 1] == routes[i]);
            }
        }
    }
}

/// What is kept was there, in its order; so it stays distinct.
proof fn lemma_kept<T>(routes: Seq<RouteView<T>>, now: u64)
    requires
        routes_distinct(routes),
    ensures
        routes_distinct(routes_kept(routes, now)),
        forall|i: int|
            0 <= i < routes_kept(routes, now).len() ==> exists|j: int|
                0 <= j < routes.len() && #[trigger] routes_kept(routes, now)[i] == #[trigger] routes[j],
    decreases routes.len(),
{
    if routes.len() > 0 {
        let front = routes.drop_last();
        let kept = routes_kept(routes, now);
        let before = routes_kept(front, now);
        assert(routes_distinct(front)) by {
            assert forall|i: int, j: int| 0 <= i < j < front.len() implies (
            #[trigger] front[i]).destination != (#[trigger] front[j]).destination by {
                assert(front[i] == routes[i] && front[j] == routes[j]);
            }
        }
        lemma_kept(front, now);
        assert forall|i: int| 0 <= i < kept.len() implies exists|j: int|
            0 <= j < routes.len() && #[trigger] kept[i] == #[trigger] routes[j] by {
            if i < before.len() {
                assert(kept[i] == before[i]);
                let j = choose|j: int|
                    0 <= j < front.len() && #[trigger] before[i] == #[trigger] front[j];
                assert(routes[j] == kept[i]);
            } else {
                assert(kept[i] == routes[routes.len() - 1]);
            }
        }
        assert forall|i: int, j: int| 0 <= i < j < kept.len() implies (
        #[trigger] kept[i]).destination != (#[trigger] kept[j]).destination by {
            assert(kept[i] == before[i]);
            if j < before.len() {
                assert(kept[j] == before[j]);
            } else {
                let k = choose|k: int|
                    0 <= k < front.len() && #[trigger] before[i] == #[trigger] front[k];
                assert(front[k] == routes[k]);
                assert(kept[j] == routes[routes.len() - 1]);
            }
        }
    }
}

/// What is to be done with a packet.
pub enum RouteStep<'a, T> {
    /// Nothing more is routed: the stream has ended.
    End,
    /// Nothing: its destination did not resolve.
    Skip,
    /// Send it to the address through what serves its destination.
    Known(&'a T, SocketAddr),
    /// Add a route to its destination, and send it to the address through that.
    Open(SocketAddr),
}

/// The location that marks the end of a stream of packets.
pub open spec fn marks_end(destination: NetLocationView) -> bool {
    destination == (NetLocationView { address: AddressView::Ipv4(seq![0u8, 0, 0, 0]), port: 0 })
}

impl<T> RoutingTable<T> {
    /// No two routes go to one destination.
    pub open spec fn wf(self) -> bool {
        routes_distinct(self@)
    }

    /// When idle routes were searched for last.
    pub closed spec fn cleaned_at(self) -> u64 {
        self.last_cleanup
    }

    /// No destinations yet.
    pub fn new(now: u64) -> (r: Self)
        ensures
            r.wf(),
            r@ == Seq::<RouteView<T>>::empty(),
            r.cleaned_at() == now,
    {
        let r = RoutingTable { routes: Vec::new(), last_cleanup: now };
        assert(r@ =~= Seq::<RouteView<T>>::empty());
        r
    }

    /// Whether there are no destinations.
    pub fn is_empty(&self) -> (r: bool)
        ensures
            r == (self@.len() == 0),
    {
        self.routes.len() == 0
    }

    /// Drops the idle destinations, where it is time to search for them, and hands over what
    /// served them.
    pub fn cleanup(&mut self, now: u64) -> (r: Vec<T>)
        requires
            old(self).wf(),
        ensures
            final(self).wf(),
            if now - old(self).cleaned_at() >= ROUTE_CLEANUP_INTERVAL {
                &&& final(self)@ == routes_kept(old(self)@, now)
                &&& r@ == routes_dropped(old(self)@, now)
                &&& final(self).cleaned_at() == now
            } else {
                &&& final(self)@ == old(self)@
                &&& r@ == Seq::<T>::empty()
                &&& final(self).cleaned_at() == old(self).cleaned_at()
            },
    {
        let mut dropped: Vec<T> = Vec::new();
        if now.saturating_sub(self.last_cleanup) < ROUTE_CLEANUP_INTERVAL {
            return dropped;
        }
        proof {
            lemma_kept(self@, now);
        }
        let ghost all = self@;
        let n: usize = self.routes.len();
        let mut done: usize = 0;
        let mut i: usize = 0;
        assert(all.take(0) =~= Seq::<RouteView<T>>::empty());
        assert(all.skip(0) =~= all);
        assert(Seq::<RouteView<T>>::empty() + all =~= all);
        while done < n
            invariant
                i <= done <= n,
                all == old(self)@,
                n == all.len(),
                i == routes_kept(all.take(done as int), now).len(),
                self@ == routes_kept(all.take(done as int), now) + all.skip(done as int),
                self@.len() == self.routes@.len(),
                dropped@ == routes_dropped(all.take(done as int), now),
            decreases n - done,
        {
            let ghost kept = routes_kept(all.take(done as int), now);
            let ghost before = self@;
            assert(before[i as int] == all[done as int]);
            assert(before[i as int] == self.routes@[i as int]@);
            assert(all.take(done + 1).drop_last() =~= all.take(done as int));
            assert(all.take(done + 1).last() == all[done as int]);
            if now.saturating_sub(self.routes[i].last_activity) > ASSOCIATION_TIMEOUT {
                let route = self.routes.remove(i);
                dropped.push(route.handle);
                proof {
                    assert(self@ =~= before.remove(i as int));
                    assert(self@ =~= kept + all.skip(done + 1));
                }
            } else {
                i = i + 1;
                proof {
                    assert(self@ =~= kept.push(all[done as int]) + all.skip(done + 1));
                }
            }
            done = done + 1;
        }
        assert(all.take(n as int) =~= all);
        assert(all.skip(n as int) =~= Seq::<RouteView<T>>::empty());
        assert(self@ =~= routes_kept(all, now));
        self.last_cleanup = now;
        dropped
    }

    fn find(&self, destination: &NetLocation) -> (r: usize)
        ensures
            r == route_place(self@, destination@),
            r <= self.routes@.len(),
    {
        let n: usize = self.routes.len();
        let mut i: usize = 0;
        let ghost all = self@;
        assert(all.skip(0) =~= all);
        while i < n
            invariant
                i <= n,
                n == self.routes@.len(),
                n == all.len(),
                all == self@,
                route_place(all, destination@) == i + route_place(all.skip(i as int), destination@),
            decreases n - i,
        {
            assert(all.skip(i as int)[0] == self.routes@[i as int]@);
            if self.routes[i].destination == *destination {
                return i;
            }
            assert(all.skip(i as int).skip(1) =~= all.skip(i + 1));
            i = i + 1;
        }
        n
    }

    /// What serves a destination, where there is something. It counts as used.
    pub fn touch(&mut self, destination: &NetLocation, now: u64) -> (r: Option<&T>)
        requires
            old(self).wf(),
        ensures
            final(self).wf(),
            final(self).cleaned_at() == old(self).cleaned_at(),
            ({
                let place = route_place(old(self)@, destination@);
                match r {
                    Some(handle) => {
                        &&& 0 <= place < old(self)@.len()
                        &&& *handle == old(self)@[place].handle
                        &&& final(self)@ == old(self)@.update(
                            place,
                            RouteView { last_activity: now, ..old(self)@[place] },
                        )
                    },
                    None => place == old(self)@.len() && final(self)@ == old(self)@,
                }
            }),
            final(self)@.len() == old(self)@.len(),
            forall|i: int|
                0 <= i < old(self)@.len() && old(self)@[i].destination != destination@ ==> (
                #[trigger] final(self)@[i]) == old(self)@[i],
    {
        proof {
            lemma_route_place(self@, destination@);
        }
        let place: usize = self.find(destination);
        if place == self.routes.len() {
            return None;
        }
        self.routes[place].last_activity = now;
        proof {
            assert(self@ =~= old(self)@.update(
                place as int,
                RouteView { last_activity: now, ..old(self)@[place as int] },
            ));
            assert(routes_distinct(self@)) by {
                assert forall|i: int, j: int| 0 <= i < j < self@.len() implies (
                #[trigger] self@[i]).destination != (#[trigger] self@[j]).destination by {
                    assert(self@[i].destination == old(self)@[i].destination);
                    assert(self@[j].destination == old(self)@[j].destination);
                }
            }
        }
        Some(&self.routes[place].handle)
    }

    /// Decides on a packet to a destination, which resolved to an address or did not. A route
    /// that there is counts as used.
    pub fn route_packet(
        &mut self,
        destination: &NetLocation,
        resolved: Option<SocketAddr>,
        now: u64,
    ) -> (r: RouteStep<'_, T>)
        requires
            old(self).wf(),
        ensures
            final(self).wf(),
            final(self).cleaned_at() == old(self).cleaned_at(),
            ({
                let place = route_place(old(self)@, destination@);
                match r {
                    RouteStep::End => marks_end(destination@) && final(self)@ == old(self)@,
                    RouteStep::Skip => {
                        &&& !marks_end(destination@)
                        &&& resolved is None
                        &&& final(self)@ == old(self)@
                    },
                    RouteStep::Known(handle, addr) => {
                        &&& !marks_end(destination@)
                        &&& resolved == Some(addr)
                        &&& 0 <= place < old(self)@.len()
                        &&& *handle == old(self)@[place].handle
                        &&& final(self)@ == old(self)@.update(
                            place,
                            RouteView { last_activity: now, ..old(self)@[place] },
                        )
                    },
                    RouteStep::Open(addr) => {
                        &&& !marks_end(destination@)
                        &&& resolved == Some(addr)
                        &&& place == old(self)@.len()
                        &&& final(self)@ == old(self)@
                    },
                }
            }),
    {
        if destination.is_unspecified() {
            return RouteStep::End;
        }
        let addr = match resolved {
            Some(addr) => addr,
            None => {
                return RouteStep::Skip;
            },
        };
        match self.touch(destination, now) {
            Some(handle) => RouteStep::Known(handle, addr),
            None => RouteStep::Open(addr),
        }
    }

    /// Adds a destination that has none yet, with what serves it.
    pub fn insert(&mut self, destination: NetLocation, handle: T, now: u64)
        requires
            old(self).wf(),
            route_place(old(self)@, destination@) == old(self)@.len(),
        ensures
            final(self).wf(),
            final(self).cleaned_at() == old(self).cleaned_at(),
            final(self)@ == old(self)@.push(
                RouteView { destination: destination@, handle, last_activity: now },
            ),
    {
        proof {
            lemma_route_place(self@, destination@);
        }
        let route = Route { destination, handle, last_activity: now };
        self.routes.push(route);
        proof {
            assert(self@ =~= old(self)@.push(route@));
            assert forall|i: int, j: int| 0 <= i < j < self@.len() implies (
            #[trigger] self@[i]).destination != (#[trigger] self@[j]).destination by {
                assert(self@[i] == old(self)@[i]);
                if j < old(self)@.len() {
                    assert(self@[j] == old(self)@[j]);
                }
            }
        }
    }

    /// Hands over what serves the destinations, of which none is left.
    pub fn drain(&mut self) -> (r: Vec<T>)
        requires
            old(self).wf(),
        ensures
            final(self).wf(),
            final(self)@ == Seq::<RouteView<T>>::empty(),
            final(self).cleaned_at() == old(self).cleaned_at(),
            r@.len() == old(self)@.len(),
            forall|i: int| 0 <= i < r@.len() ==> #[trigger] r@[i] == old(self)@[i].handle,
    {
        let mut handles: Vec<T> = Vec::new();
        let ghost all = self@;
        let n: usize = self.routes.len();
        assert(all.skip(0) =~= all);
        while self.routes.len() > 0
            invariant
                n == all.len(),
                all == old(self)@,
                self.last_cleanup == old(self).last_cleanup,
                handles@.len() + self.routes@.len() == n,
                self@ == all.skip(handles@.len() as int),
                forall|i: int| 0 <= i < handles@.len() ==> #[trigger] handles@[i] == all[i].handle,
            decreases self.routes@.len(),
        {
            let ghost k = handles@.len() as int;
            assert(self@[0] == all[k]);
            assert(self@[0] == self.routes@[0]@);
            let ghost before = self@;
            let route = self.routes.remove(0);
            handles.push(route.handle);
            proof {
                assert(self@ =~= before.remove(0));
                assert(self@ =~= all.skip(k + 1));
            }
        }
        assert(self@ =~= Seq::<RouteView<T>>::empty());
        handles
    }
}

/// What is to be done once a round starts: a message that waits is written; without one, one is
/// read, up to the end of the reader; and after the end a ping that is wanted is written, what
/// was written is flushed, and then copying finishes.
pub proof fn rounds_start_with_the_message(s: CopyView)
    ensures
        ({
            let action = stage_action(copy_after(copy_after(s, CopyEvent::Begun), CopyEvent::Asked));
            &&& s.message.len() > 0 ==> action == Some(CopyAction::Write)
            &&& s.message.len() == 0 && !s.read_done ==> action == Some(CopyAction::Read)
            &&& s.message.len() == 0 && s.read_done && s.need_write_ping ==> action == Some(
                CopyAction::Ping,
            )
            &&& s.message.len() == 0 && s.read_done && !s.need_write_ping && s.need_flush
                ==> action == Some(CopyAction::Flush)
            &&& s.message.len() == 0 && s.read_done && !s.need_write_ping && !s.need_flush
                ==> action == Some(CopyAction::Finish)
        }),
{
    reveal_with_fuel(settled, 9);
}

/// What follows an attempt to read: a message is written next. Without one a ping that is wanted
/// is written and what was written is flushed; then copying waits for the reader, or finishes
/// where it has ended.
pub proof fn reading_goes_on(s: CopyView, message: Seq<u8>)
    requires
        stage_action(s) == Some(CopyAction::Read),
        !s.write_pending,
        !s.read_pending,
        !s.did_write,
    ensures
        ({
            let got = copy_after(s, CopyEvent::MessageRead(message));
            let next = stage_action(copy_after(got, CopyEvent::Asked));
            let blocked = stage_action(
                copy_after(copy_after(s, CopyEvent::ReadBlocked), CopyEvent::Asked),
            );
            &&& got.message == message
            &&& got.read_done == (message.len() == 0)
            &&& s.read_count + message.len() <= usize::MAX ==> got.read_count == s.read_count
                + message.len()
            &&& got.need_flush == s.need_flush
            &&& got.need_write_ping == s.need_write_ping
            &&& message.len() > 0 ==> next == Some(CopyAction::Write)
            &&& s.need_write_ping && message.len() == 0 ==> next == Some(CopyAction::Ping)
            &&& s.need_write_ping ==> blocked == Some(CopyAction::Ping)
            &&& !s.need_write_ping && s.need_flush && message.len() == 0 ==> next == Some(
                CopyAction::Flush,
            )
            &&& !s.need_write_ping && s.need_flush ==> blocked == Some(CopyAction::Flush)
            &&& !s.need_write_ping && !s.need_flush && message.len() == 0 ==> next == Some(
                CopyAction::Finish,
            )
            &&& !s.need_write_ping && !s.need_flush ==> blocked == Some(CopyAction::Wait)
        }),
{
    reveal_with_fuel(settled, 9);
}

/// What follows an attempt to write: once a message is written, no ping is needed, and a flush is.
/// The next message is read first, where one was read in this round and there may be more; else
/// the flush is done at once. Where the writer is not ready, nothing is pinged, and copying waits
/// with its message once nothing is left to flush.
pub proof fn writing_goes_on(s: CopyView)
    requires
        stage_action(s) == Some(CopyAction::Write),
        !s.write_pending,
    ensures
        ({
            let wrote = copy_after(s, CopyEvent::MessageWritten);
            let next = stage_action(copy_after(wrote, CopyEvent::Asked));
            let held = copy_after(s, CopyEvent::WriteBlocked);
            let blocked = stage_action(copy_after(held, CopyEvent::Asked));
            &&& wrote.message.len() == 0
            &&& wrote.need_flush
            &&& !wrote.need_write_ping
            &&& wrote.read_done == s.read_done
            &&& wrote.read_count == s.read_count
            &&& s.did_read && !s.read_pending && !s.read_done ==> next == Some(CopyAction::Read)
            &&& !s.did_read || s.read_pending || s.read_done ==> next == Some(CopyAction::Flush)
            &&& held.message == s.message
            &&& held.need_flush == s.need_flush
            &&& held.need_write_ping == s.need_write_ping
            &&& s.need_flush ==> blocked == Some(CopyAction::Flush)
            &&& !s.need_flush ==> blocked == Some(CopyAction::Wait)
        }),
{
    reveal_with_fuel(settled, 9);
}

/// What follows a ping: it is wanted no more, and flushed where it was written. One that the
/// writer is not ready for stays wanted.
pub proof fn pinging_goes_on(s: CopyView, written: bool)
    requires
        stage_action(s) == Some(CopyAction::Ping),
    ensures
        ({
            let pinged = copy_after(s, CopyEvent::Pinged(written));
            let held = copy_after(s, CopyEvent::PingBlocked);
            &&& !pinged.need_write_ping
            &&& pinged.need_flush == (s.need_flush || written)
            &&& pinged.message == s.message
            &&& pinged.read_done == s.read_done
            &&& written && !s.did_read ==> stage_action(copy_after(pinged, CopyEvent::Asked))
                == Some(CopyAction::Flush)
            &&& held.need_write_ping
            &&& held.need_flush == s.need_flush
            &&& held.message == s.message
            &&& held.read_done == s.read_done
            &&& s.need_flush ==> stage_action(copy_after(held, CopyEvent::Asked)) == Some(
                CopyAction::Flush,
            )
            &&& !s.need_flush && !(s.read_done && s.message.len() == 0) ==> stage_action(
                copy_after(held, CopyEvent::Asked),
            ) == Some(CopyAction::Wait)
        }),
{
    reveal_with_fuel(settled, 9);
}

/// A flush is done once, and a new round starts behind it; asking for a ping changes nothing else.
pub proof fn flushing_goes_on(s: CopyView, wanted: bool)
    ensures
        ({
            let flushed = copy_after(s, CopyEvent::Flushed);
            let begun = copy_after(s, CopyEvent::Begun);
            &&& !flushed.need_flush
            &&& flushed == copy_after(CopyView { need_flush: false, ..s }, CopyEvent::Begun)
            &&& begun.message == s.message
            &&& begun.read_done == s.read_done
            &&& begun.read_count == s.read_count
            &&& begun.need_flush == s.need_flush
            &&& begun.need_write_ping == s.need_write_ping
            &&& copy_after(s, CopyEvent::PingSet(wanted)) == (CopyView {
                need_write_ping: wanted,
                ..s
            })
        }),
{
}

/// A direction copies, then shuts its writer down, and then is done for good.
pub proof fn directions_end_in_order()
    ensures
        state_after(TransferState::Running) == TransferState::ShuttingDown,
        state_after(TransferState::ShuttingDown) == TransferState::Done,
        state_after(TransferState::Done) == TransferState::Done,
{
}

/// A route is found where its destination is the one that is looked for, host and port, and
/// nowhere else.
pub proof fn destinations_are_found<T>(
    routes: Seq<RouteView<T>>,
    destination: NetLocationView,
    i: int,
)
    requires
        0 <= i < routes.len(),
        routes_distinct(routes),
    ensures
        route_place(routes, destination) == i <==> routes[i].destination.address
            == destination.address && routes[i].destination.port == destination.port,
        0 <= route_place(routes, destination) <= routes.len(),
{
    lemma_route_place(routes, destination);
    let place = route_place(routes, destination);
    if routes[i].destination == destination && place < routes.len() {
        if place < i {
            assert(routes[place].destination != routes[i].destination);
        } else if i < place {
            assert(routes[i].destination != routes[place].destination);
        }
    }
}

/// Each route is judged by itself: one that was used within 200 seconds is kept, as it is and in
/// its order, and of any other what served it is handed over.
pub proof fn idle_routes_are_dropped<T>(
    a: Seq<RouteView<T>>,
    route: RouteView<T>,
    b: Seq<RouteView<T>>,
    now: u64,
)
    ensures
        routes_kept(a + b, now) == routes_kept(a, now) + routes_kept(b, now),
        routes_dropped(a + b, now) == routes_dropped(a, now) + routes_dropped(b, now),
        now <= route.last_activity + 200_000_000_000 ==> routes_kept(seq![route], now)
            == seq![route] && routes_dropped(seq![route], now).len() == 0,
        now > route.last_activity + 200_000_000_000 ==> routes_kept(seq![route], now).len() == 0
            && routes_dropped(seq![route], now) == seq![route.handle],
    decreases b.len(),
{
    assert(seq![route].drop_last() =~= Seq::<RouteView<T>>::empty());
    assert(routes_kept(Seq::<RouteView<T>>::empty(), now) =~= Seq::<RouteView<T>>::empty());
    assert(routes_dropped(Seq::<RouteView<T>>::empty(), now) =~= Seq::<T>::empty());
    if b.len() == 0 {
        assert(a + b =~= a);
        assert(routes_kept(a, now) + routes_kept(b, now) =~= routes_kept(a, now));
        assert(routes_dropped(a, now) + routes_dropped(b, now) =~= routes_dropped(a, now));
    } else {
        idle_routes_are_dropped(a, route, b.drop_last(), now);
        assert((a + b).drop_last() =~= a + b.drop_last());
        assert(routes_kept(a + b, now) =~= routes_kept(a, now) + routes_kept(b, now));
        assert(routes_dropped(a + b, now) =~= routes_dropped(a, now) + routes_dropped(b, now));
    }
}

/// The end of a stream of packets is marked by the IPv4 address and the port that are all zeros.
pub proof fn zeros_mark_the_end(ip: Seq<u8>, name: Seq<char>, port: u16)
    ensures
        ip.len() == 4 ==> (marks_end(NetLocationView { address: AddressView::Ipv4(ip), port }) <==>
            ip[0] == 0 && ip[1] == 0 && ip[2] == 0 && ip[3] == 0 && port == 0),
        !marks_end(NetLocationView { address: AddressView::Ipv6(ip), port }),
        !marks_end(NetLocationView { address: AddressView::Hostname(name), port }),
{
    if ip.len() == 4 && ip[0] == 0 && ip[1] == 0 && ip[2] == 0 && ip[3] == 0 {
        assert(ip =~= seq![0u8, 0, 0, 0]);
    }
}

/// An association without traffic ends after 200 seconds; idle destinations are searched for
/// every ten.
pub proof fn associations_time_out()
    ensures
        ASSOCIATION_TIMEOUT == 200_000_000_000,
        ROUTE_CLEANUP_INTERVAL == 10_000_000_000,
{
}

} // verus!
