//! One stream of a session.
//!
//! What the session hands over comes out to the stream's reader in order; what its writer
//! hands over goes to the session in pieces that fit a frame. An empty piece is the end of
//! the stream, in both directions. The channels between the two are the owner's.

use vstd::prelude::*;

use crate::error::Error;
use crate::util;

verus! {

/// Buffer size for bounded channels (number of messages, not bytes).
/// Each message is typically a frame's worth of data (up to 64KB).
pub const STREAM_CHANNEL_BUFFER: usize = 16;

/// Maximum data payload per frame (u16::MAX = 65535)
pub const MAX_FRAME_DATA_SIZE: usize = 65535;

/// What a stream has for its reader.
pub enum ReadStep {
    /// Bytes; none at all are the end of the stream.
    Data(Vec<u8>),
    /// The next piece is needed from the session.
    NeedPiece,
}

/// What shutting a stream down takes.
#[derive(Debug, Clone, Copy, PartialEq, Eq, Structural)]
pub enum ShutdownStep {
    /// Nothing.
    Done,
    /// The end of the stream is to be handed to the session.
    SendFin,
}

/// AnyTlsStream represents a multiplexed stream within an AnyTLS session.
pub struct AnyTlsStream {
    id: u32,
    read_buffer: Vec<u8>,
    read_offset: usize,
    stream_closed: bool,
    shutdown_in_progress: bool,
    eof: bool,
}

/// What an [`AnyTlsStream`] stands for: the bytes that wait for its reader, and how far it is
/// from its end.
#[verifier::ext_equal]
pub struct AnyTlsStreamView {
    pub id: u32,
    pub waiting: Seq<u8>,
    pub closed: bool,
    pub shutting_down: bool,
    pub eof: bool,
}

impl View for AnyTlsStream {
    type V = AnyTlsStreamView;

    closed spec fn view(&self) -> AnyTlsStreamView {
        AnyTlsStreamView {
            id: self.id,
            waiting: self.read_buffer@.skip(self.read_offset as int),
            closed: self.stream_closed,
            shutting_down: self.shutdown_in_progress,
            eof: self.eof,
        }
    }
}

/// The lesser of two lengths.
pub open spec fn lesser(a: nat, b: nat) -> nat {
    if a <= b {
        a
    } else {
        b
    }
}

/// The bytes of a piece from the session, which is none where the session is gone.
pub open spec fn piece_bytes(piece: Option<Vec<u8>>) -> Seq<u8> {
    match piece {
        Some(bytes) => bytes@,
        None => Seq::empty(),
    }
}

/// A read from a stream: of the bytes that wait, or of a piece that came because none did.
#[verifier::ext_equal]
pub struct StreamRead {
    pub piece: Option<Seq<u8>>,
    pub room: nat,
}

/// The bytes that a read is of.
pub open spec fn read_source(waiting: Seq<u8>, read: StreamRead) -> Seq<u8> {
    match read.piece {
        Some(bytes) => bytes,
        None => waiting,
    }
}

/// The bytes that a read hands out: as many as there are and have room.
pub open spec fn read_out(waiting: Seq<u8>, read: StreamRead) -> Seq<u8> {
    let source = read_source(waiting, read);
    source.take(lesser(source.len(), read.room) as int)
}

/// The bytes that wait behind a read.
pub open spec fn read_left(waiting: Seq<u8>, read: StreamRead) -> Seq<u8> {
    read_source(waiting, read).skip(read_out(waiting, read).len() as int)
}

/// The bytes that wait behind some reads.
pub open spec fn left_after(waiting: Seq<u8>, reads: Seq<StreamRead>) -> Seq<u8>
    decreases reads.len(),
{
    if reads.len() == 0 {
        waiting
    } else {
        read_left(left_after(waiting, reads.drop_last()), reads.last())
    }
}

/// Whether a piece comes only where nothing waits.
pub open spec fn pieces_in_turn(waiting: Seq<u8>, reads: Seq<StreamRead>) -> bool
    decreases reads.len(),
{
    reads.len() > 0 ==> {
        &&& pieces_in_turn(waiting, reads.drop_last())
        &&& reads.last().piece is Some ==> left_after(waiting, reads.drop_last()).len() == 0
    }
}

/// All that some reads hand out.
pub open spec fn bytes_out(waiting: Seq<u8>, reads: Seq<StreamRead>) -> Seq<u8>
    decreases reads.len(),
{
    if reads.len() == 0 {
        Seq::empty()
    } else {
        bytes_out(waiting, reads.drop_last()) + read_out(
            left_after(waiting, reads.drop_last()),
            reads.last(),
        )
    }
}

/// All that comes in the course of some reads.
pub open spec fn bytes_in(reads: Seq<StreamRead>) -> Seq<u8>
    decreases reads.len(),
{
    if reads.len() == 0 {
        Seq::empty()
    } else {
        match reads.last().piece {
            Some(bytes) => bytes_in(reads.drop_last()) + bytes,
            None => bytes_in(reads.drop_last()),
        }
    }
}

/// However much room its reader has, a stream loses no byte, makes up none and keeps their
/// order.
pub proof fn streams_keep_bytes(waiting: Seq<u8>, reads: Seq<StreamRead>)
    requires
        pieces_in_turn(waiting, reads),
    ensures
        bytes_out(waiting, reads) + left_after(waiting, reads) == waiting + bytes_in(reads),
    decreases reads.len(),
{
    if reads.len() == 0 {
        assert(bytes_out(waiting, reads) + waiting =~= waiting + bytes_in(reads));
    } else {
        let front = reads.drop_last();
        let before = left_after(waiting, front);
        let read = reads.last();
        streams_keep_bytes(waiting, front);
        assert(read_out(before, read) + read_left(before, read) =~= read_source(before, read));
        assert(bytes_out(waiting, reads) + left_after(waiting, reads) =~= bytes_out(waiting, front)
            + read_source(before, read));
        if read.piece is Some {
            assert(bytes_out(waiting, front) =~= waiting + bytes_in(front));
            assert(waiting + bytes_in(front) + read_source(before, read) =~= waiting + bytes_in(
                reads,
            ));
        }
    }
}

impl AnyTlsStream {
    /// No more is read than there is.
    pub closed spec fn wf(self) -> bool {
        self.read_offset <= self.read_buffer@.len()
    }

    /// A new stream.
    pub fn new(id: u32) -> (r: Self)
        ensures
            r.wf(),
            r@ == (AnyTlsStreamView {
                id,
                waiting: Seq::empty(),
                closed: false,
                shutting_down: false,
                eof: false,
            }),
    {
        let r = AnyTlsStream {
            id,
            read_buffer: Vec::new(),
            read_offset: 0,
            stream_closed: false,
            shutdown_in_progress: false,
            eof: false,
        };
        assert(r@.waiting =~= Seq::<u8>::empty());
        r
    }

    /// Get the stream ID
    pub fn id(&self) -> (r: u32)
        ensures
            r == self@.id,
    {
        self.id
    }

    /// Reads up to `room` of the bytes that wait.
    pub fn poll_read(&mut self, room: usize) -> (r: Result<ReadStep, Error>)
        requires
            old(self).wf(),
        ensures
            final(self).wf(),
            match r {
                Ok(ReadStep::Data(data)) => {
                    &&& !old(self)@.closed
                    &&& old(self)@.waiting.len() > 0 || old(self)@.eof
                    &&& data@ == read_out(
                        old(self)@.waiting,
                        StreamRead { piece: None, room: room as nat },
                    )
                    &&& final(self)@ == (AnyTlsStreamView {
                        waiting: read_left(
                            old(self)@.waiting,
                            StreamRead { piece: None, room: room as nat },
                        ),
                        ..old(self)@
                    })
                },
                Ok(ReadStep::NeedPiece) => {
                    &&& !old(self)@.closed
                    &&& old(self)@.waiting.len() == 0
                    &&& !old(self)@.eof
                    &&& final(self)@ == old(self)@
                },
                Err(e) => {
                    &&& old(self)@.closed
                    &&& e == Error::StreamClosed
                    &&& final(self)@ == old(self)@
                },
            },
    {
        if self.stream_closed {
            return Err(Error::StreamClosed);
        }
        let remaining_in_buffer: usize = self.read_buffer.len() - self.read_offset;
        if remaining_in_buffer > 0 {
            let n: usize = if remaining_in_buffer <= room {
                remaining_in_buffer
            } else {
                room
            };
            let data = util::copy_range(
                self.read_buffer.as_slice(),
                self.read_offset,
                self.read_offset + n,
            );
            self.read_offset = self.read_offset + n;
            if self.read_offset >= self.read_buffer.len() {
                self.read_buffer = Vec::new();
                self.read_offset = 0;
            }
            proof {
                assert(data@ =~= old(self)@.waiting.take(n as int));
                assert(self@.waiting =~= old(self)@.waiting.skip(n as int));
            }
            return Ok(ReadStep::Data(data));
        }
        if self.eof {
            let data: Vec<u8> = Vec::new();
            assert(data@ =~= self@.waiting.take(0));
            assert(self@.waiting =~= self@.waiting.skip(0));
            return Ok(ReadStep::Data(data));
        }
        Ok(ReadStep::NeedPiece)
    }

    /// Takes in a piece from the session, of which the reader takes up to `room` bytes at
    /// once. An empty piece is the end, and so is a session that is gone (`None`).
    pub fn piece_received(&mut self, piece: Option<Vec<u8>>, room: usize) -> (r: Vec<u8>)
        requires
            old(self).wf(),
            old(self)@.waiting.len() == 0,
        ensures
            final(self).wf(),
            ({
                let bytes = piece_bytes(piece);
                let read = StreamRead { piece: Some(bytes), room: room as nat };
                &&& r@ == read_out(old(self)@.waiting, read)
                &&& final(self)@ == (AnyTlsStreamView {
                    waiting: read_left(old(self)@.waiting, read),
                    eof: old(self)@.eof || bytes.len() == 0,
                    ..old(self)@
                })
            }),
    {
        let ghost bytes = piece_bytes(piece);
        let data = match piece {
            Some(data) => data,
            None => Vec::new(),
        };
        assert(data@ =~= bytes);
        if data.len() == 0 {
            self.eof = true;
            assert(data@ =~= bytes.take(0));
            assert(self@.waiting =~= bytes.skip(0));
            return data;
        }
        let n: usize = if data.len() <= room {
            data.len()
        } else {
            room
        };
        let out = util::copy_range(data.as_slice(), 0, n);
        assert(out@ =~= bytes.take(n as int));
        if n < data.len() {
            self.read_buffer = data;
            self.read_offset = n;
        }
        assert(self@.waiting =~= bytes.skip(n as int));
        out
    }

    /// How much of `len` bytes goes to the session in one piece.
    pub fn poll_write(&self, len: usize, session_closed: bool) -> (r: Result<usize, Error>)
        ensures
            match r {
                Ok(n) => {
                    &&& !self@.closed
                    &&& !self@.shutting_down
                    &&& !session_closed
                    &&& n == lesser(len as nat, MAX_FRAME_DATA_SIZE as nat)
                },
                Err(Error::StreamClosed) => self@.closed,
                Err(Error::StreamShuttingDown) => !self@.closed && self@.shutting_down,
                Err(e) => {
                    &&& !self@.closed
                    &&& !self@.shutting_down
                    &&& session_closed
                    &&& e == Error::SessionClosed
                },
            },
    {
        if self.stream_closed {
            return Err(Error::StreamClosed);
        }
        if self.shutdown_in_progress {
            return Err(Error::StreamShuttingDown);
        }
        if session_closed {
            return Err(Error::SessionClosed);
        }
        if len <= MAX_FRAME_DATA_SIZE {
            Ok(len)
        } else {
            Ok(MAX_FRAME_DATA_SIZE)
        }
    }

    /// Starts to shut the stream down. From then on nothing more is written.
    pub fn poll_shutdown(&mut self, session_closed: bool) -> (r: ShutdownStep)
        requires
            old(self).wf(),
        ensures
            final(self).wf(),
            r == (if old(self)@.closed || session_closed {
                ShutdownStep::Done
            } else {
                ShutdownStep::SendFin
            }),
            final(self)@ == (AnyTlsStreamView {
                closed: old(self)@.closed || session_closed,
                shutting_down: old(self)@.shutting_down || r == ShutdownStep::SendFin,
                ..old(self)@
            }),
    {
        if self.stream_closed {
            return ShutdownStep::Done;
        }
        if session_closed {
            self.stream_closed = true;
            return ShutdownStep::Done;
        }
        self.shutdown_in_progress = true;
        ShutdownStep::SendFin
    }

    /// Takes note of whether the session took the end of the stream. It is closed in any case.
    pub fn fin_sent(&mut self, taken: bool) -> (r: Result<(), Error>)
        requires
            old(self).wf(),
        ensures
            final(self).wf(),
            final(self)@ == (AnyTlsStreamView { closed: true, ..old(self)@ }),
            match r {
                Ok(_) => taken,
                Err(e) => !taken && e == Error::ChannelClosed,
            },
    {
        self.stream_closed = true;
        if taken {
            Ok(())
        } else {
            Err(Error::ChannelClosed)
        }
    }

    /// Gives the stream up. Where it was not closed before, the session is to be told, if that
    /// can be done at once.
    pub fn abandon(&mut self) -> (r: bool)
        requires
            old(self).wf(),
        ensures
            final(self).wf(),
            r == !old(self)@.closed,
            final(self)@ == (AnyTlsStreamView { closed: true, ..old(self)@ }),
    {
        if self.stream_closed {
            return false;
        }
        self.stream_closed = true;
        true
    }
}

/// A read hands out all there is, or as much as there is room for, from the front, and the rest
/// waits. A piece that came is read in place of what waited.
pub proof fn reads_hand_out_what_fits(waiting: Seq<u8>, piece: Seq<u8>, room: nat)
    ensures
        ({
            let read = StreamRead { piece: None, room };
            &&& waiting.len() <= room ==> read_out(waiting, read) == waiting && read_left(
                waiting,
                read,
            ).len() == 0
            &&& waiting.len() > room ==> read_out(waiting, read) == waiting.take(room as int)
                && read_left(waiting, read) == waiting.skip(room as int)
        }),
        ({
            let read = StreamRead { piece: Some(piece), room };
            &&& piece.len() <= room ==> read_out(waiting, read) == piece && read_left(
                waiting,
                read,
            ).len() == 0
            &&& piece.len() > room ==> read_out(waiting, read) == piece.take(room as int)
                && read_left(waiting, read) == piece.skip(room as int)
        }),
{
    assert(waiting.take(waiting.len() as int) =~= waiting);
    assert(piece.take(piece.len() as int) =~= piece);
}

/// No more goes into one frame than its length can say. The lesser of two lengths is one of them,
/// and no more than either.
pub proof fn pieces_fit_a_frame(a: nat, b: nat)
    ensures
        MAX_FRAME_DATA_SIZE == 65535,
        lesser(a, b) <= a,
        lesser(a, b) <= b,
        lesser(a, b) == a || lesser(a, b) == b,
{
}

} // verus!
