//! A session: many streams over one connection.
//!
//! The session decides what each frame means, which frames are sent in answer, and what its
//! streams have to be told. Reading from and writing to the connection, and running the
//! streams, is left to its owner.

use std::collections::HashSet;
use std::sync::Arc;

use vstd::prelude::*;
use vstd::slice::slice_subrange;
use vstd::string::*;
use vstd::utf8::*;

use crate::address;
use crate::address::{Address, AddressView, NetLocation, NetLocationView};
use crate::anytls::padding;
use crate::anytls::padding::PaddingFactory;
use crate::anytls::types;
use crate::anytls::types::{Command, Frame, FrameCodec, FrameView, StringMap};
use crate::anytls::writer::{FrameWriter, FrameWriterView};
use crate::error::Error;
use crate::message_stream;
use crate::text;
use crate::util;

verus! {

/// Magic addresses used to signal UDP-over-TCP modes.
pub const UOT_V1_MAGIC_ADDRESS: &'static str = "sp.udp-over-tcp.arpa";

pub const UOT_V2_MAGIC_ADDRESS: &'static str = "sp.v2.udp-over-tcp.arpa";

/// Seconds within which a control frame has to be written.
pub const CONTROL_FRAME_TIMEOUT_SECS: u64 = 5;

/// Seconds within which a destination has to be connected.
pub const CONNECT_TIMEOUT_SECS: u64 = 30;

// ============================== session ==============================

/// What the owner of a session has to do with a frame.
pub enum StreamEvent {
    /// Nothing.
    Nothing,
    /// Run a new stream.
    Open(u32),
    /// Hand data to a stream.
    Data(u32, Vec<u8>),
    /// Tell a stream that its peer is done.
    End(u32),
    /// Report what the peer complained of.
    Alert(Vec<u8>),
}

/// What a [`StreamEvent`] stands for.
#[verifier::ext_equal]
pub enum StreamEventView {
    Nothing,
    Open(u32),
    Data(u32, Seq<u8>),
    End(u32),
    Alert(Seq<u8>),
}

impl View for StreamEvent {
    type V = StreamEventView;

    open spec fn view(&self) -> StreamEventView {
        match self {
            StreamEvent::Nothing => StreamEventView::Nothing,
            StreamEvent::Open(id) => StreamEventView::Open(*id),
            StreamEvent::Data(id, data) => StreamEventView::Data(*id, data@),
            StreamEvent::End(id) => StreamEventView::End(*id),
            StreamEvent::Alert(message) => StreamEventView::Alert(message@),
        }
    }
}

/// What comes of a frame: the frames to send in answer, in order; what is to be done; and
/// whether the session goes on.
pub struct Handled {
    pub frames: Vec<Frame>,
    pub event: StreamEvent,
    pub result: Result<(), Error>,
}

/// What a [`Handled`] stands for.
#[verifier::ext_equal]
pub struct HandledView {
    pub frames: Seq<FrameView>,
    pub event: StreamEventView,
    pub result: Result<(), Error>,
}

impl View for Handled {
    type V = HandledView;

    open spec fn view(&self) -> HandledView {
        HandledView {
            frames: self.frames@.map_values(|f: Frame| f@),
            event: self.event@,
            result: self.result,
        }
    }
}

/// What a session knows.
#[verifier::ext_equal]
pub struct SessionView {
    pub streams: Set<u32>,
    pub closed: bool,
    pub scheme: Seq<u8>,
    pub peer_version: u8,
    pub received_client_settings: bool,
    pub input: Seq<u8>,
}

/// An answer that is nothing but an event.
pub open spec fn only(event: StreamEventView) -> HandledView {
    HandledView { frames: Seq::empty(), event, result: Ok(()) }
}

/// The protocol version that settings ask for, where it is one that the server has to confirm.
pub open spec fn wanted_version(settings: Map<Seq<u8>, Seq<u8>>) -> Option<u8> {
    let key = encode_utf8("v"@);
    if settings.contains_key(key) {
        match text::parse_unsigned(settings[key], 255) {
            Some(v) => if v >= 2 {
                Some(v as u8)
            } else {
                None
            },
            None => None,
        }
    } else {
        None
    }
}

/// Whether settings name another padding scheme than the server's.
pub open spec fn other_scheme(settings: Map<Seq<u8>, Seq<u8>>, scheme: Seq<u8>) -> bool {
    let key = encode_utf8("padding-md5"@);
    settings.contains_key(key) && settings[key] != text::hex_bytes(padding::md5_of(scheme))
}

/// The frame that tells a client the padding scheme.
pub open spec fn scheme_frame(scheme: Seq<u8>) -> FrameView {
    FrameView { cmd: Command::UpdatePaddingScheme, stream_id: 0, data: scheme }
}

/// The frame that tells a client the server's settings.
pub open spec fn server_settings_frame() -> FrameView {
    FrameView {
        cmd: Command::ServerSettings,
        stream_id: 0,
        data: types::settings_text(seq![(encode_utf8("v"@), encode_utf8("2"@))]),
    }
}

/// What a session answers to settings.
pub open spec fn settings_answer(settings: Map<Seq<u8>, Seq<u8>>, scheme: Seq<u8>) -> Seq<FrameView> {
    (if other_scheme(settings, scheme) {
        seq![scheme_frame(scheme)]
    } else {
        Seq::empty()
    }) + (if wanted_version(settings) is Some {
        seq![server_settings_frame()]
    } else {
        Seq::empty()
    })
}

/// The frame that tells a client that it forgot its settings.
pub open spec fn missing_settings_alert() -> FrameView {
    FrameView {
        cmd: Command::Alert,
        stream_id: 0,
        data: encode_utf8("client did not send its settings"@),
    }
}

/// What a frame does to a session, and what comes of it.
pub open spec fn handle(s: SessionView, f: FrameView) -> (SessionView, HandledView) {
    match f.cmd {
        Command::Psh => if f.data.len() > 0 && s.streams.contains(f.stream_id) {
            (s, only(StreamEventView::Data(f.stream_id, f.data)))
        } else {
            (s, only(StreamEventView::Nothing))
        },
        Command::Syn => if !s.received_client_settings {
            (
                s,
                HandledView {
                    frames: seq![missing_settings_alert()],
                    event: StreamEventView::Nothing,
                    result: Err(Error::MissingClientSettings),
                },
            )
        } else if s.streams.contains(f.stream_id) {
            (s, only(StreamEventView::Nothing))
        } else {
            (
                SessionView { streams: s.streams.insert(f.stream_id), ..s },
                only(StreamEventView::Open(f.stream_id)),
            )
        },
        Command::Fin => (
            SessionView { streams: s.streams.remove(f.stream_id), ..s },
            only(
                if s.streams.contains(f.stream_id) {
                    StreamEventView::End(f.stream_id)
                } else {
                    StreamEventView::Nothing
                },
            ),
        ),
        Command::Settings => {
            let settings = types::settings_in(types::lines(f.data));
            (
                SessionView {
                    received_client_settings: true,
                    peer_version: match wanted_version(settings) {
                        Some(v) => v,
                        None => s.peer_version,
                    },
                    ..s
                },
                HandledView {
                    frames: settings_answer(settings, s.scheme),
                    event: StreamEventView::Nothing,
                    result: Ok(()),
                },
            )
        },
        Command::HeartRequest => (
            s,
            HandledView {
                frames: seq![
                    FrameView {
                        cmd: Command::HeartResponse,
                        stream_id: f.stream_id,
                        data: Seq::empty(),
                    },
                ],
                event: StreamEventView::Nothing,
                result: Ok(()),
            },
        ),
        Command::Alert => (
            s,
            HandledView {
                frames: Seq::empty(),
                event: StreamEventView::Alert(f.data),
                result: Err(Error::AlertReceived),
            },
        ),
        _ => (s, only(StreamEventView::Nothing)),
    }
}

/// Streams open only after the client's settings, and each only while it is not open.
pub proof fn streams_open_in_order(s: SessionView, f: FrameView)
    ensures
        handle(s, f).1.event matches StreamEventView::Open(id) ==> {
            &&& s.received_client_settings
            &&& !s.streams.contains(id)
            &&& handle(s, f).0.streams == s.streams.insert(id)
        },
{
}

/// Data reaches none but open streams, and never comes empty.
pub proof fn data_reaches_open_streams(s: SessionView, f: FrameView)
    ensures
        handle(s, f).1.event matches StreamEventView::Data(id, data) ==> {
            &&& s.streams.contains(id)
            &&& data.len() > 0
            &&& f == (FrameView { cmd: Command::Psh, stream_id: id, data })
        },
{
}

/// A session that has its client's settings keeps them, and what no frame may change stays.
pub proof fn handle_keeps(s: SessionView, f: FrameView)
    ensures
        s.received_client_settings ==> handle(s, f).0.received_client_settings,
        handle(s, f).0.scheme == s.scheme,
        handle(s, f).0.closed == s.closed,
        handle(s, f).0.input == s.input,
{
}

/// A frame of padding changes nothing and is answered with nothing.
pub proof fn waste_is_ignored(s: SessionView, stream_id: u32, data: Seq<u8>)
    ensures
        handle(s, FrameView { cmd: Command::Waste, stream_id, data }) == (
            s,
            only(StreamEventView::Nothing),
        ),
{
}

/// No frame changes another stream than its own, and none but the opening and the ending frame
/// changes even that one.
pub proof fn frames_touch_their_own_stream(s: SessionView, f: FrameView, id: u32)
    ensures
        id != f.stream_id ==> handle(s, f).0.streams.contains(id) == s.streams.contains(id),
        !(f.cmd is Syn) && !(f.cmd is Fin) ==> handle(s, f).0.streams == s.streams,
        f.cmd is Fin ==> !handle(s, f).0.streams.contains(f.stream_id),
        f.cmd is Syn ==> (handle(s, f).0.streams.contains(f.stream_id) <==> s.streams.contains(
            f.stream_id,
        ) || s.received_client_settings),
{
}

/// Only the client's settings change anything of a session but its streams.
pub proof fn frames_keep_the_rest(s: SessionView, f: FrameView)
    requires
        !(f.cmd is Settings),
    ensures
        handle(s, f).0.closed == s.closed,
        handle(s, f).0.scheme == s.scheme,
        handle(s, f).0.peer_version == s.peer_version,
        handle(s, f).0.received_client_settings == s.received_client_settings,
        handle(s, f).0.input == s.input,
{
}

/// Data for an open stream is handed to it, as it came; other data is dropped.
pub proof fn data_is_handed_over(s: SessionView, id: u32, data: Seq<u8>)
    ensures
        ({
            let r = handle(s, FrameView { cmd: Command::Psh, stream_id: id, data });
            &&& r.0 == s
            &&& r.1.frames.len() == 0
            &&& r.1.result is Ok
            &&& s.streams.contains(id) && data.len() > 0 ==> r.1.event == StreamEventView::Data(
                id,
                data,
            )
            &&& !s.streams.contains(id) || data.len() == 0 ==> r.1.event
                == StreamEventView::Nothing
        }),
{
}

/// A client that has sent its settings can open any stream that is not open, and nothing comes
/// of opening one that is.
pub proof fn streams_can_be_opened(s: SessionView, id: u32, data: Seq<u8>)
    requires
        s.received_client_settings,
    ensures
        ({
            let r = handle(s, FrameView { cmd: Command::Syn, stream_id: id, data });
            &&& r.0.streams.contains(id)
            &&& r.1.frames.len() == 0
            &&& r.1.result is Ok
            &&& !s.streams.contains(id) ==> r.1.event == StreamEventView::Open(id)
            &&& s.streams.contains(id) ==> r.1.event == StreamEventView::Nothing && r.0 == s
        }),
{
}

/// A client that has not sent its settings can open nothing: it is told why, and the session
/// ends.
pub proof fn settings_come_first(s: SessionView, id: u32, data: Seq<u8>)
    requires
        !s.received_client_settings,
    ensures
        ({
            let r = handle(s, FrameView { cmd: Command::Syn, stream_id: id, data });
            &&& r.0 == s
            &&& r.1.event == StreamEventView::Nothing
            &&& r.1.result == Err::<(), Error>(Error::MissingClientSettings)
            &&& r.1.frames.len() == 1
            &&& r.1.frames[0].cmd == Command::Alert
            &&& r.1.frames[0].stream_id == 0
            &&& r.1.frames[0].data == encode_utf8("client did not send its settings"@)
        }),
{
}

/// The end of an open stream is handed on and the stream forgotten; other ends are ignored.
pub proof fn streams_can_be_ended(s: SessionView, id: u32, data: Seq<u8>)
    ensures
        ({
            let r = handle(s, FrameView { cmd: Command::Fin, stream_id: id, data });
            &&& !r.0.streams.contains(id)
            &&& r.1.frames.len() == 0
            &&& r.1.result is Ok
            &&& s.streams.contains(id) ==> r.1.event == StreamEventView::End(id)
            &&& !s.streams.contains(id) ==> r.1.event == StreamEventView::Nothing && r.0 == s
        }),
{
    let r = handle(s, FrameView { cmd: Command::Fin, stream_id: id, data });
    if !s.streams.contains(id) {
        assert(r.0.streams =~= s.streams);
    }
}

/// A sign of life that a client asks for is given under the number that it was asked for with.
pub proof fn heartbeats_are_answered(s: SessionView, id: u32, data: Seq<u8>)
    ensures
        ({
            let r = handle(s, FrameView { cmd: Command::HeartRequest, stream_id: id, data });
            &&& r.0 == s
            &&& r.1.event == StreamEventView::Nothing
            &&& r.1.result is Ok
            &&& r.1.frames.len() == 1
            &&& r.1.frames[0].cmd == Command::HeartResponse
            &&& r.1.frames[0].stream_id == id
            &&& r.1.frames[0].data.len() == 0
        }),
{
}

/// A complaint is reported word for word, and ends the session.
pub proof fn complaints_end_the_session(s: SessionView, id: u32, data: Seq<u8>)
    ensures
        ({
            let r = handle(s, FrameView { cmd: Command::Alert, stream_id: id, data });
            &&& r.0 == s
            &&& r.1.event == StreamEventView::Alert(data)
            &&& r.1.result == Err::<(), Error>(Error::AlertReceived)
            &&& r.1.frames.len() == 0
        }),
{
}

/// What only a server sends, and what is padding, changes nothing and is answered with nothing.
pub proof fn other_frames_are_ignored(s: SessionView, f: FrameView)
    requires
        f.cmd is Waste || f.cmd is SynAck || f.cmd is UpdatePaddingScheme || f.cmd is HeartResponse
            || f.cmd is ServerSettings,
    ensures
        handle(s, f).0 == s,
        handle(s, f).1.frames.len() == 0,
        handle(s, f).1.event == StreamEventView::Nothing,
        handle(s, f).1.result is Ok,
{
}

/// Settings are taken in: a version of two or more becomes the client's and is confirmed as
/// `v=2`, and a client that names another padding scheme is sent the server's, first of all.
pub proof fn settings_are_answered(s: SessionView, f: FrameView, version: nat)
    requires
        f.cmd is Settings,
    ensures
        ({
            let settings = types::settings_in(types::lines(f.data));
            let v = seq![118u8];
            let md5 = seq![112u8, 97, 100, 100, 105, 110, 103, 45, 109, 100, 53];
            let (after, r) = handle(s, f);
            let sent = settings.contains_key(md5) && settings[md5] != text::hex_bytes(
                padding::md5_of(s.scheme),
            );
            let confirmed = after.peer_version != s.peer_version || r.frames.len() > (if sent {
                1int
            } else {
                0
            });
            &&& after.received_client_settings
            &&& after.streams == s.streams
            &&& after.closed == s.closed
            &&& after.scheme == s.scheme
            &&& after.input == s.input
            &&& r.event == StreamEventView::Nothing
            &&& r.result is Ok
            &&& sent ==> r.frames.len() > 0 && r.frames[0] == (FrameView {
                cmd: Command::UpdatePaddingScheme,
                stream_id: 0,
                data: s.scheme,
            })
            &&& !settings.contains_key(v) ==> !confirmed
            &&& settings.contains_key(v) && text::parse_unsigned(settings[v], 255) is None
                ==> !confirmed
            &&& settings.contains_key(v) && text::parse_unsigned(settings[v], 255) == Some(version)
                && version >= 2 ==> after.peer_version == version
            &&& settings.contains_key(v) && settings[v] == text::decimal_text(version) && !(2
                <= version <= 255) ==> !confirmed
            &&& settings.contains_key(v) && settings[v] == text::decimal_text(version) && 2
                <= version <= 255 ==> {
                &&& after.peer_version == version
                &&& r.frames.len() == (if sent {
                    2int
                } else {
                    1
                })
                &&& r.frames.last() == (FrameView {
                    cmd: Command::ServerSettings,
                    stream_id: 0,
                    data: seq![118u8, 61, 50],
                })
            }
        }),
{
    let settings = types::settings_in(types::lines(f.data));
    let v = seq![118u8];
    let md5 = seq![112u8, 97, 100, 100, 105, 110, 103, 45, 109, 100, 53];
    reveal_strlit("v");
    reveal_strlit("2");
    reveal_strlit("padding-md5");
    is_ascii_chars_encode_utf8("v"@);
    is_ascii_chars_encode_utf8("2"@);
    is_ascii_chars_encode_utf8("padding-md5"@);
    assert(encode_utf8("v"@) =~= v);
    assert(encode_utf8("2"@) =~= seq![50u8]);
    assert(encode_utf8("padding-md5"@) =~= md5);
    text::parse_unsigned_reads_decimals(version, 255);
    let listed = seq![(v, seq![50u8])];
    assert(types::settings_text(listed) == types::setting_line(listed.last()));
    assert(types::setting_line(listed.last()) =~= seq![118u8, 61, 50]);
}

/// What a session has become of by some frames.
pub open spec fn session_after(s: SessionView, frames: Seq<FrameView>) -> SessionView
    decreases frames.len(),
{
    if frames.len() == 0 {
        s
    } else {
        handle(session_after(s, frames.drop_last()), frames.last()).0
    }
}

/// What a stream is handed while some frames come in, in order.
pub open spec fn handed_over(s: SessionView, frames: Seq<FrameView>, id: u32) -> Seq<Seq<u8>>
    decreases frames.len(),
{
    if frames.len() == 0 {
        Seq::empty()
    } else {
        let front = frames.drop_last();
        match handle(session_after(s, front), frames.last()).1.event {
            StreamEventView::Data(to, data) => if to == id {
                handed_over(s, front, id).push(data)
            } else {
                handed_over(s, front, id)
            },
            _ => handed_over(s, front, id),
        }
    }
}

/// The frames of one stream.
pub open spec fn own_frames(frames: Seq<FrameView>, id: u32) -> Seq<FrameView>
    decreases frames.len(),
{
    if frames.len() == 0 {
        Seq::empty()
    } else if frames.last().stream_id == id {
        own_frames(frames.drop_last(), id).push(frames.last())
    } else {
        own_frames(frames.drop_last(), id)
    }
}

/// Streams do not mix: whatever other streams do in between, a stream is open exactly where its
/// own frames leave it open, and is handed exactly what its own frames hand it.
pub proof fn streams_do_not_mix(s: SessionView, frames: Seq<FrameView>, id: u32)
    requires
        s.received_client_settings,
    ensures
        session_after(s, frames).received_client_settings,
        session_after(s, frames).streams.contains(id) == session_after(
            s,
            own_frames(frames, id),
        ).streams.contains(id),
        handed_over(s, frames, id) == handed_over(s, own_frames(frames, id), id),
    decreases frames.len(),
{
    if frames.len() > 0 {
        let front = frames.drop_last();
        let own = own_frames(front, id);
        streams_do_not_mix(s, front, id);
        lemma_settings_stay(s, own);
        if frames.last().stream_id == id {
            assert(own.push(frames.last()).drop_last() =~= own);
            assert(own.push(frames.last()).last() == frames.last());
        }
    }
}

/// A session that has its client's settings keeps them.
proof fn lemma_settings_stay(s: SessionView, frames: Seq<FrameView>)
    requires
        s.received_client_settings,
    ensures
        session_after(s, frames).received_client_settings,
    decreases frames.len(),
{
    if frames.len() > 0 {
        lemma_settings_stay(s, frames.drop_last());
    }
}

/// A stream that is open is handed all data that is sent to it, in order, until its end comes.
pub proof fn open_streams_lose_nothing(s: SessionView, frames: Seq<FrameView>, id: u32)
    requires
        s.streams.contains(id),
        forall|i: int|
            0 <= i < frames.len() ==> {
                &&& (#[trigger] frames[i]).cmd == Command::Psh
                &&& frames[i].stream_id == id
                &&& frames[i].data.len() > 0
            },
    ensures
        session_after(s, frames) == s,
        handed_over(s, frames, id) == frames.map_values(|f: FrameView| f.data),
    decreases frames.len(),
{
    let data_of = |f: FrameView| f.data;
    if frames.len() > 0 {
        let front = frames.drop_last();
        assert forall|i: int| 0 <= i < front.len() implies {
            &&& (#[trigger] front[i]).cmd == Command::Psh
            &&& front[i].stream_id == id
            &&& front[i].data.len() > 0
        } by {
            assert(front[i] == frames[i]);
        }
        open_streams_lose_nothing(s, front, id);
        assert(frames[frames.len() - 1].cmd == Command::Psh);
        assert(front.map_values(data_of).push(frames.last().data) =~= frames.map_values(data_of));
    } else {
        assert(frames.map_values(data_of) =~= Seq::<Seq<u8>>::empty());
    }
}

/// AnyTLS Session manages multiplexed streams over a connection.
pub struct AnyTlsSession {
    streams: HashSet<u32>,
    is_closed: bool,
    padding: Arc<PaddingFactory>,
    writer: FrameWriter,
    peer_version: u8,
    received_client_settings: bool,
    udp_enabled: bool,
    user_name: String,
    input: Vec<u8>,
}

impl View for AnyTlsSession {
    type V = SessionView;

    closed spec fn view(&self) -> SessionView {
        SessionView {
            streams: self.streams@,
            closed: self.is_closed,
            scheme: self.padding.raw(),
            peer_version: self.peer_version,
            received_client_settings: self.received_client_settings,
            input: self.input@,
        }
    }
}

fn no_frames() -> (r: Vec<Frame>)
    ensures
        r@ == Seq::<Frame>::empty(),
{
    Vec::new()
}

fn only_event(event: StreamEvent) -> (r: Handled)
    ensures
        r@ == only(event@),
{
    let r = Handled { frames: no_frames(), event, result: Ok(()) };
    assert(r@.frames =~= Seq::<FrameView>::empty());
    r
}

impl AnyTlsSession {
    /// The padding is well-formed; a server does not pad, nor keep frames back.
    pub closed spec fn wf(self) -> bool {
        &&& self.padding.wf()
        &&& self.writer@ == (FrameWriterView {
            send_padding: false,
            pkt_counter: 0,
            buffering: false,
            buffer: Seq::empty(),
        })
    }

    /// Whether UDP over TCP is served.
    pub closed spec fn udp(self) -> bool {
        self.udp_enabled
    }

    /// The client's name.
    pub closed spec fn user(self) -> Seq<char> {
        self.user_name@
    }

    /// Creates a new server session with optional initial data that was
    /// buffered during auth.
    pub fn new_server_with_initial_data(
        padding: Arc<PaddingFactory>,
        udp_enabled: bool,
        user_name: String,
        initial_data: Option<Vec<u8>>,
    ) -> (r: Self)
        requires
            padding.wf(),
        ensures
            r.wf(),
            r.udp() == udp_enabled,
            r.user() == user_name@,
            r@ == (SessionView {
                streams: Set::empty(),
                closed: false,
                scheme: padding.raw(),
                peer_version: 0,
                received_client_settings: false,
                input: match initial_data {
                    Some(data) => data@,
                    None => Seq::empty(),
                },
            }),
    {
        let input: Vec<u8> = match initial_data {
            Some(data) => data,
            None => Vec::new(),
        };
        AnyTlsSession {
            streams: HashSet::new(),
            is_closed: false,
            padding,
            writer: FrameWriter::new(false, false),
            peer_version: 0,
            received_client_settings: false,
            udp_enabled,
            user_name,
            input,
        }
    }

    /// Check if the session is closed
    pub fn is_closed(&self) -> (r: bool)
        ensures
            r == self@.closed,
    {
        self.is_closed
    }

    /// Closes the session, which forgets its streams. A session is closed but once.
    pub fn close(&mut self) -> (r: bool)
        requires
            old(self).wf(),
        ensures
            final(self).wf(),
            final(self).udp() == old(self).udp(),
            final(self).user() == old(self).user(),
            r == !old(self)@.closed,
            final(self)@ == (if old(self)@.closed {
                old(self)@
            } else {
                SessionView { closed: true, streams: Set::empty(), ..old(self)@ }
            }),
    {
        broadcast use vstd::std_specs::hash::group_hash_axioms;

        if self.is_closed {
            return false;
        }
        self.is_closed = true;
        self.streams = HashSet::new();
        true
    }

    /// Get the peer protocol version
    pub fn peer_version(&self) -> (r: u8)
        ensures
            r == self@.peer_version,
    {
        self.peer_version
    }

    /// The client's name.
    pub fn user_name(&self) -> (r: &str)
        ensures
            r@ == self.user(),
    {
        self.user_name.as_str()
    }

    /// Takes in bytes of the connection.
    pub fn receive(&mut self, data: &[u8])
        requires
            old(self).wf(),
        ensures
            final(self).wf(),
            final(self).udp() == old(self).udp(),
            final(self).user() == old(self).user(),
            final(self)@ == (SessionView { input: old(self)@.input + data@, ..old(self)@ }),
    {
        util::push_bytes(&mut self.input, data);
    }

    /// Takes the next frame out of the bytes that came in. `None`: more are needed.
    pub fn next_frame(&mut self) -> (r: Result<Option<Frame>, Error>)
        requires
            old(self).wf(),
        ensures
            final(self).wf(),
            final(self).udp() == old(self).udp(),
            final(self).user() == old(self).user(),
            match r {
                Ok(Some(frame)) => {
                    &&& types::first_frame(old(self)@.input) matches Ok(Some((f, total)))
                    &&& frame@ == f
                    &&& final(self)@ == (SessionView {
                        input: old(self)@.input.skip(total),
                        ..old(self)@
                    })
                },
                Ok(None) => {
                    &&& types::first_frame(old(self)@.input) == Ok::<
                        Option<(FrameView, int)>,
                        Error,
                    >(None)
                    &&& final(self)@ == old(self)@
                },
                Err(e) => {
                    &&& types::first_frame(old(self)@.input) == Err::<
                        Option<(FrameView, int)>,
                        Error,
                    >(e)
                    &&& final(self)@ == old(self)@
                },
            },
    {
        FrameCodec::decode(&mut self.input)
    }

    fn handle_settings(&mut self, data: &Vec<u8>) -> (r: Vec<Frame>)
        requires
            old(self).wf(),
        ensures
            final(self).wf(),
            final(self).udp() == old(self).udp(),
            final(self).user() == old(self).user(),
            ({
                let settings = types::settings_in(types::lines(data@));
                &&& r@.map_values(|f: Frame| f@) == settings_answer(settings, old(self)@.scheme)
                &&& final(self)@ == (SessionView {
                    received_client_settings: true,
                    peer_version: match wanted_version(settings) {
                        Some(v) => v,
                        None => old(self)@.peer_version,
                    },
                    ..old(self)@
                })
            }),
    {
        self.received_client_settings = true;
        let settings = StringMap::from_bytes(data.as_slice());
        let mut frames: Vec<Frame> = Vec::new();
        let ghost wanted = settings_answer(settings@, self@.scheme);
        let differs: bool = match settings.get("padding-md5".as_bytes()) {
            Some(client_md5) => !text::same_bytes(client_md5, self.padding.md5().as_bytes()),
            None => false,
        };
        if differs {
            frames.push(
                Frame::with_data(
                    Command::UpdatePaddingScheme,
                    0,
                    util::to_vec(self.padding.raw_scheme()),
                ),
            );
        }
        let version: Option<u64> = match settings.get("v".as_bytes()) {
            Some(v) => text::read_unsigned(v, 255),
            None => None,
        };
        match version {
            Some(v) => {
                if v >= 2 {
                    self.peer_version = v as u8;
                    let mut server_settings = StringMap::new();
                    server_settings.insert("v".as_bytes(), "2".as_bytes());
                    assert(server_settings.listed() =~= seq![
                        (encode_utf8("v"@), encode_utf8("2"@)),
                    ]);
                    frames.push(
                        Frame::with_data(Command::ServerSettings, 0, server_settings.to_bytes()),
                    );
                }
            },
            None => {},
        }
        assert(frames@.map_values(|f: Frame| f@) =~= wanted);
        frames
    }

    /// Handles a received frame.
    pub fn handle_frame(&mut self, frame: Frame) -> (r: Handled)
        requires
            old(self).wf(),
        ensures
            final(self).wf(),
            final(self).udp() == old(self).udp(),
            final(self).user() == old(self).user(),
            final(self)@ == handle(old(self)@, frame@).0,
            r@ == handle(old(self)@, frame@).1,
    {
        broadcast use vstd::std_specs::hash::group_hash_axioms;

        match frame.cmd {
            Command::Psh => {
                if frame.data.len() > 0 && self.streams.contains(&frame.stream_id) {
                    only_event(StreamEvent::Data(frame.stream_id, frame.data))
                } else {
                    only_event(StreamEvent::Nothing)
                }
            },
            Command::Syn => {
                if !self.received_client_settings {
                    let mut frames = no_frames();
                    frames.push(
                        Frame::with_data(
                            Command::Alert,
                            0,
                            util::to_vec("client did not send its settings".as_bytes()),
                        ),
                    );
                    assert(frames@.map_values(|f: Frame| f@) =~= seq![missing_settings_alert()]);
                    return Handled {
                        frames,
                        event: StreamEvent::Nothing,
                        result: Err(Error::MissingClientSettings),
                    };
                }
                if self.streams.contains(&frame.stream_id) {
                    only_event(StreamEvent::Nothing)
                } else {
                    self.streams.insert(frame.stream_id);
                    only_event(StreamEvent::Open(frame.stream_id))
                }
            },
            Command::Fin => {
                if self.streams.remove(&frame.stream_id) {
                    only_event(StreamEvent::End(frame.stream_id))
                } else {
                    only_event(StreamEvent::Nothing)
                }
            },
            Command::Settings => {
                let frames = self.handle_settings(&frame.data);
                Handled { frames, event: StreamEvent::Nothing, result: Ok(()) }
            },
            Command::HeartRequest => {
                let mut frames = no_frames();
                frames.push(Frame::control(Command::HeartResponse, frame.stream_id));
                assert(frames@.map_values(|f: Frame| f@) =~= seq![
                    FrameView {
                        cmd: Command::HeartResponse,
                        stream_id: frame.stream_id,
                        data: Seq::empty(),
                    },
                ]);
                Handled { frames, event: StreamEvent::Nothing, result: Ok(()) }
            },
            Command::Alert => {
                let r = Handled {
                    frames: no_frames(),
                    event: StreamEvent::Alert(frame.data),
                    result: Err(Error::AlertReceived),
                };
                assert(r@.frames =~= Seq::<FrameView>::empty());
                r
            },
            _ => only_event(StreamEvent::Nothing),
        }
    }

    /// The writes that a frame leads to, one after the other, with a flush behind them.
    pub fn write_frame(&mut self, frame: &Frame) -> (r: Vec<Vec<u8>>)
        requires
            old(self).wf(),
        ensures
            final(self).wf(),
            final(self).udp() == old(self).udp(),
            final(self).user() == old(self).user(),
            final(self)@ == old(self)@,
            text::views(r@) == seq![types::frame_bytes(frame@)],
    {
        let writes = self.writer.write_frame(frame, &self.padding);
        proof {
            assert(Seq::<u8>::empty() + types::frame_bytes(frame@) =~= types::frame_bytes(frame@));
        }
        match writes {
            Some(writes) => writes,
            None => Vec::new(),
        }
    }

    /// The frame for what a stream hands over: its data, or its end where it hands over
    /// nothing. A closed session sends no more.
    pub fn outgoing_frame(&self, stream_id: u32, data: Vec<u8>) -> (r: Option<Frame>)
        ensures
            match r {
                Some(frame) => {
                    &&& !self@.closed
                    &&& frame@ == (FrameView {
                        cmd: if data@.len() == 0 {
                            Command::Fin
                        } else {
                            Command::Psh
                        },
                        stream_id,
                        data: data@,
                    })
                },
                None => self@.closed,
            },
    {
        if self.is_closed {
            return None;
        }
        if data.len() == 0 {
            assert(data@ =~= Seq::<u8>::empty());
            Some(Frame::control(Command::Fin, stream_id))
        } else {
            Some(Frame::data(stream_id, data))
        }
    }

    /// Forgets a stream that has handed over its end.
    pub fn finish_stream(&mut self, stream_id: u32)
        requires
            old(self).wf(),
        ensures
            final(self).wf(),
            final(self).udp() == old(self).udp(),
            final(self).user() == old(self).user(),
            final(self)@ == (SessionView {
                streams: old(self)@.streams.remove(stream_id),
                ..old(self)@
            }),
            forall|id: u32| #[trigger]
                final(self)@.streams.contains(id) == (id != stream_id && old(
                    self,
                )@.streams.contains(id)),
    {
        broadcast use vstd::std_specs::hash::group_hash_axioms;

        self.streams.remove(&stream_id);
    }

    /// The frame that tells whether a stream was opened, for clients that know of it (protocol
    /// v2).
    pub fn send_synack(&self, stream_id: u32, error: Option<&str>) -> (r: Option<Frame>)
        ensures
            match r {
                Some(frame) => {
                    &&& self@.peer_version >= 2
                    &&& frame@ == (FrameView {
                        cmd: Command::SynAck,
                        stream_id,
                        data: match error {
                            Some(message) => encode_utf8(message@),
                            None => Seq::empty(),
                        },
                    })
                },
                None => self@.peer_version < 2,
            },
    {
        if self.peer_version < 2 {
            return None;
        }
        match error {
            Some(message) => Some(
                Frame::with_data(Command::SynAck, stream_id, util::to_vec(message.as_bytes())),
            ),
            None => Some(Frame::control(Command::SynAck, stream_id)),
        }
    }

    /// How a stream to a destination is served.
    pub fn handle_new_stream(&self, destination: &NetLocation) -> (r: Result<StreamRoute, Error>)
        ensures
            r == route_of(destination@, self.udp()),
    {
        match destination.address() {
            Address::Hostname(host) => {
                if text::same_text(host.as_str(), UOT_V2_MAGIC_ADDRESS) {
                    return if self.udp_enabled {
                        Ok(StreamRoute::UotV2)
                    } else {
                        Err(Error::UdpDisabled)
                    };
                } else if text::same_text(host.as_str(), UOT_V1_MAGIC_ADDRESS) {
                    return if self.udp_enabled {
                        Ok(StreamRoute::UotV1)
                    } else {
                        Err(Error::UdpDisabled)
                    };
                }
            },
            _ => {},
        }
        Ok(StreamRoute::TcpForward)
    }
}

/// What a client is told of a destination that could not be connected.
pub fn connect_failed_message(reason: &str) -> (r: String)
    ensures
        encode_utf8(r@) == encode_utf8("connect failed: "@) + encode_utf8(reason@),
{
    text::join_text("connect failed: ", reason)
}

/// What a client is told of a destination that could not be connected in time.
pub fn connect_timeout_message(destination: &NetLocation) -> (r: String)
    ensures
        encode_utf8(r@) == encode_utf8("connect to "@) + address::location_text(destination@)
            + encode_utf8(" timed out after 30s"@),
{
    let destination_text = destination.to_string();
    let front = text::join_text("connect to ", destination_text.as_str());
    text::join_text(front.as_str(), " timed out after 30s")
}

/// What a client is told of a destination that no UDP socket could be made for.
pub fn udp_connect_failed_message(reason: &str) -> (r: String)
    ensures
        encode_utf8(r@) == encode_utf8("UDP connect failed: "@) + encode_utf8(reason@),
{
    text::join_text("UDP connect failed: ", reason)
}

// ============================== routing ==============================

/// How a stream is served.
#[derive(Debug, Clone, Copy, PartialEq, Eq, Structural)]
pub enum StreamRoute {
    /// As a TCP connection to its destination.
    TcpForward,
    /// As UDP over TCP, version 1.
    UotV1,
    /// As UDP over TCP, version 2.
    UotV2,
}

/// How a stream to a destination is served: UDP over TCP where the destination is one of the
/// magic addresses, and only where UDP is switched on.
pub open spec fn route_of(destination: NetLocationView, udp_enabled: bool) -> Result<
    StreamRoute,
    Error,
> {
    let wanted = match destination.address {
        AddressView::Hostname(host) => if host == UOT_V2_MAGIC_ADDRESS@ {
            StreamRoute::UotV2
        } else if host == UOT_V1_MAGIC_ADDRESS@ {
            StreamRoute::UotV1
        } else {
            StreamRoute::TcpForward
        },
        _ => StreamRoute::TcpForward,
    };
    if wanted != StreamRoute::TcpForward && !udp_enabled {
        Err(Error::UdpDisabled)
    } else {
        Ok(wanted)
    }
}

/// How UDP over TCP, version 2, goes on.
#[derive(Debug, Clone, Copy, PartialEq, Eq, Structural)]
pub enum UotV2Mode {
    /// All packets go to one destination.
    Connect,
    /// Each packet says where it goes.
    MultiDestination,
}

/// What the first byte of UDP over TCP, version 2, says.
pub fn handle_uot_v2(is_connect: u8) -> (r: UotV2Mode)
    ensures
        r == (if is_connect == 1 {
            UotV2Mode::Connect
        } else {
            UotV2Mode::MultiDestination
        }),
{
    if is_connect == 1 {
        UotV2Mode::Connect
    } else {
        UotV2Mode::MultiDestination
    }
}

pub const ADDR_TYPE_IPV4: u8 = 0x01;

pub const ADDR_TYPE_IPV6: u8 = 0x04;

pub const ADDR_TYPE_DOMAIN_NAME: u8 = 0x03;

/// What is known of a destination, given the first bytes of it.
pub enum LocationStep {
    /// So many bytes more are needed, and no byte beyond them belongs to it as far as is known.
    Need(usize),
    /// The destination.
    Done(NetLocation),
}

/// What a [`LocationStep`] stands for.
#[verifier::ext_equal]
pub enum LocationStepView {
    Need(nat),
    Done(NetLocationView),
}

impl View for LocationStep {
    type V = LocationStepView;

    open spec fn view(&self) -> LocationStepView {
        match self {
            LocationStep::Need(n) => LocationStepView::Need(*n as nat),
            LocationStep::Done(location) => LocationStepView::Done(location@),
        }
    }
}

/// The destination in SOCKS5 format that bytes hold: its type, its address, for a name behind
/// the length of it, and its port.
pub open spec fn direct_location(d: Seq<u8>) -> Result<LocationStepView, Error> {
    if d.len() == 0 {
        Ok(LocationStepView::Need(1))
    } else if d[0] == ADDR_TYPE_IPV4 {
        if d.len() < 7 {
            Ok(LocationStepView::Need((7 - d.len()) as nat))
        } else {
            Ok(
                LocationStepView::Done(
                    NetLocationView {
                        address: AddressView::Ipv4(d.subrange(1, 5)),
                        port: util::be16(d[5], d[6]),
                    },
                ),
            )
        }
    } else if d[0] == ADDR_TYPE_IPV6 {
        if d.len() < 19 {
            Ok(LocationStepView::Need((19 - d.len()) as nat))
        } else {
            Ok(
                LocationStepView::Done(
                    NetLocationView {
                        address: AddressView::Ipv6(d.subrange(1, 17)),
                        port: util::be16(d[17], d[18]),
                    },
                ),
            )
        }
    } else if d[0] == ADDR_TYPE_DOMAIN_NAME {
        if d.len() < 2 {
            Ok(LocationStepView::Need(1))
        } else if d.len() < 4 + d[1] {
            Ok(LocationStepView::Need((4 + d[1] - d.len()) as nat))
        } else {
            let domain = d.subrange(2, 2 + d[1]);
            if !valid_utf8(domain) {
                Err(Error::InvalidDestinationEncoding)
            } else {
                Ok(
                    LocationStepView::Done(
                        NetLocationView {
                            address: address::address_of(domain),
                            port: util::be16(d[2 + d[1]], d[3 + d[1]]),
                        },
                    ),
                )
            }
        }
    } else {
        Err(Error::UnknownDestinationType(d[0]))
    }
}

/// Reads a destination in SOCKS5 format, given what has been read of it.
pub fn read_location_direct(data: &[u8]) -> (r: Result<LocationStep, Error>)
    ensures
        match r {
            Ok(step) => direct_location(data@) == Ok::<LocationStepView, Error>(step@),
            Err(e) => direct_location(data@) == Err::<LocationStepView, Error>(e),
        },
{
    let n: usize = data.len();
    if n == 0 {
        return Ok(LocationStep::Need(1));
    }
    let addr_type: u8 = data[0];
    if addr_type == ADDR_TYPE_IPV4 {
        if n < 7 {
            return Ok(LocationStep::Need(7 - n));
        }
        let ip = message_stream::four_at(data, 1);
        let port: u16 = util::get_be16(data, 5);
        Ok(LocationStep::Done(NetLocation::new(Address::Ipv4(ip), port)))
    } else if addr_type == ADDR_TYPE_IPV6 {
        if n < 19 {
            return Ok(LocationStep::Need(19 - n));
        }
        let ip = message_stream::sixteen_at(data, 1);
        let port: u16 = util::get_be16(data, 17);
        Ok(LocationStep::Done(NetLocation::new(Address::Ipv6(ip), port)))
    } else if addr_type == ADDR_TYPE_DOMAIN_NAME {
        if n < 2 {
            return Ok(LocationStep::Need(1));
        }
        let domain_len: usize = data[1] as usize;
        if n < 4 + domain_len {
            return Ok(LocationStep::Need(4 + domain_len - n));
        }
        let bytes = slice_subrange(data, 2, 2 + domain_len);
        let domain = match text::utf8_str(bytes) {
            Some(domain) => domain,
            None => {
                return Err(Error::InvalidDestinationEncoding);
            },
        };
        proof {
            decode_utf8_encode_utf8(bytes@);
        }
        let port: u16 = util::get_be16(data, 2 + domain_len);
        match Address::from(domain) {
            Ok(address) => Ok(LocationStep::Done(NetLocation::new(address, port))),
            Err(e) => Err(e),
        }
    } else {
        Err(Error::UnknownDestinationType(addr_type))
    }
}

/// A destination is never read beyond its end: bytes are asked for until exactly so many have
/// come.
pub proof fn location_is_not_overread(d: Seq<u8>, more: Seq<u8>)
    requires
        direct_location(d) matches Ok(LocationStepView::Need(n)) && more.len() < n,
    ensures
        direct_location(d) matches Ok(LocationStepView::Need(n)) && direct_location(d + more) == Ok::<
            LocationStepView,
            Error,
        >(LocationStepView::Need((n - more.len()) as nat)),
{
    if d.len() == 0 {
        assert(d + more =~= d);
    }
}

/// A name of up to 255 bytes is read back with its port, whichever they are.
pub proof fn name_destinations_are_read(name: Seq<u8>, port: u16)
    requires
        valid_utf8(name),
        name.len() <= 255,
    ensures
        direct_location(seq![3u8, name.len() as u8] + name + util::be16_bytes(port)) == Ok::<
            LocationStepView,
            Error,
        >(LocationStepView::Done(NetLocationView { address: address::address_of(name), port })),
{
    let d = seq![3u8, name.len() as u8] + name + util::be16_bytes(port);
    let n = name.len() as int;
    util::big_endian_order(d[n + 2], d[n + 3], 0, 0, port, 0);
    assert(d[n + 2] == util::be16_bytes(port)[0]);
    assert(d[n + 3] == util::be16_bytes(port)[1]);
    assert(d[1] == n);
    assert(d.subrange(2, 2 + d[1]) =~= name);
}

/// An IPv4 address is read back with its port.
pub proof fn ipv4_destinations_are_read(ip: Seq<u8>, port: u16)
    requires
        ip.len() == 4,
    ensures
        direct_location(seq![1u8] + ip + util::be16_bytes(port)) == Ok::<LocationStepView, Error>(
            LocationStepView::Done(NetLocationView { address: AddressView::Ipv4(ip), port }),
        ),
{
    let d = seq![1u8] + ip + util::be16_bytes(port);
    util::big_endian_order(d[5], d[6], 0, 0, port, 0);
    assert(d[5] == util::be16_bytes(port)[0]);
    assert(d[6] == util::be16_bytes(port)[1]);
    assert(d.subrange(1, 5) =~= ip);
}

/// An IPv6 address is read back with its port.
pub proof fn ipv6_destinations_are_read(ip: Seq<u8>, port: u16)
    requires
        ip.len() == 16,
    ensures
        direct_location(seq![4u8] + ip + util::be16_bytes(port)) == Ok::<LocationStepView, Error>(
            LocationStepView::Done(NetLocationView { address: AddressView::Ipv6(ip), port }),
        ),
{
    let d = seq![4u8] + ip + util::be16_bytes(port);
    util::big_endian_order(d[17], d[18], 0, 0, port, 0);
    assert(d[17] == util::be16_bytes(port)[0]);
    assert(d[18] == util::be16_bytes(port)[1]);
    assert(d.subrange(1, 17) =~= ip);
}

/// How many bytes a destination takes is known from its first byte, for a name from its first
/// two. Until so many are there the missing ones are asked for, no more and no less; and with
/// them the destination is done, whatever follows.
pub proof fn destinations_are_asked_for_in_full(d: Seq<u8>, more: Seq<u8>)
    ensures
        d.len() == 0 ==> direct_location(d) == Ok::<LocationStepView, Error>(
            LocationStepView::Need(1),
        ),
        d.len() == 1 && d[0] == 3 ==> direct_location(d) == Ok::<LocationStepView, Error>(
            LocationStepView::Need(1),
        ),
        d.len() >= 1 && (d[0] == 1 || d[0] == 4 || d[0] == 3 && d.len() >= 2) ==> {
            let total = if d[0] == 1 {
                7int
            } else if d[0] == 4 {
                19
            } else {
                4 + d[1]
            };
            &&& d.len() < total ==> direct_location(d) == Ok::<LocationStepView, Error>(
                LocationStepView::Need((total - d.len()) as nat),
            )
            &&& d.len() >= total ==> {
                &&& !(direct_location(d) matches Ok(LocationStepView::Need(_)))
                &&& direct_location(d + more) == direct_location(d)
            }
        },
{
    if d.len() >= 7 && d[0] == 1 {
        assert((d + more).subrange(1, 5) =~= d.subrange(1, 5));
    }
    if d.len() >= 19 && d[0] == 4 {
        assert((d + more).subrange(1, 17) =~= d.subrange(1, 17));
    }
    if d.len() >= 2 && d[0] == 3 && d.len() >= 4 + d[1] {
        assert((d + more).subrange(2, 2 + d[1]) =~= d.subrange(2, 2 + d[1]));
    }
}

/// What is refused: a kind of address that does not exist, at once, and a name that is no text.
/// Nothing else is.
pub proof fn destinations_are_refused(d: Seq<u8>)
    requires
        d.len() > 0,
    ensures
        d[0] != 1 && d[0] != 3 && d[0] != 4 ==> direct_location(d) == Err::<LocationStepView, Error>(
            Error::UnknownDestinationType(d[0]),
        ),
        d[0] == 3 && d.len() >= 2 && d.len() >= 4 + d[1] && !valid_utf8(d.subrange(2, 2 + d[1]))
            ==> direct_location(d) == Err::<LocationStepView, Error>(
            Error::InvalidDestinationEncoding,
        ),
        direct_location(d) is Err ==> {
            ||| d[0] != 1 && d[0] != 3 && d[0] != 4
            ||| d[0] == 3 && d.len() >= 2 && d.len() >= 4 + d[1] && !valid_utf8(
                d.subrange(2, 2 + d[1]),
            )
        },
{
}

/// UDP over TCP is served to the two names that stand for it and to nothing else, whatever the
/// port, and only where UDP is switched on.
pub proof fn magic_names_are_routed(destination: NetLocationView, udp_enabled: bool)
    ensures
        ({
            let v1 = destination.address == AddressView::Hostname("sp.udp-over-tcp.arpa"@);
            let v2 = destination.address == AddressView::Hostname("sp.v2.udp-over-tcp.arpa"@);
            let route = route_of(destination, udp_enabled);
            &&& !v1 && !v2 ==> route == Ok::<StreamRoute, Error>(StreamRoute::TcpForward)
            &&& v1 && udp_enabled ==> route == Ok::<StreamRoute, Error>(StreamRoute::UotV1)
            &&& v2 && udp_enabled ==> route == Ok::<StreamRoute, Error>(StreamRoute::UotV2)
            &&& (v1 || v2) && !udp_enabled ==> route == Err::<StreamRoute, Error>(
                Error::UdpDisabled,
            )
        }),
{
    reveal_strlit("sp.udp-over-tcp.arpa");
    reveal_strlit("sp.v2.udp-over-tcp.arpa");
    assert("sp.udp-over-tcp.arpa"@.len() != "sp.v2.udp-over-tcp.arpa"@.len());
}

} // verus!
