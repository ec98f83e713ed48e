//! Frames and settings.

use vstd::prelude::*;
use vstd::slice::slice_subrange;

use crate::error::Error;
use crate::text;
use crate::util;

verus! {

// ============================== frames ===============================

/// What a frame is for.
#[derive(Debug, Clone, Copy, PartialEq, Eq, Structural)]
pub enum Command {
    /// Padding.
    Waste,
    /// Opens a stream.
    Syn,
    /// Carries data of a stream.
    Psh,
    /// Ends a stream.
    Fin,
    /// The client's settings.
    Settings,
    /// A fatal condition.
    Alert,
    /// A padding scheme for the client.
    UpdatePaddingScheme,
    /// Tells whether a stream was opened.
    SynAck,
    /// Asks for a sign of life.
    HeartRequest,
    /// A sign of life.
    HeartResponse,
    /// The server's settings.
    ServerSettings,
}

/// The byte that stands for a command.
pub open spec fn command_code(c: Command) -> u8 {
    match c {
        Command::Waste => 0,
        Command::Syn => 1,
        Command::Psh => 2,
        Command::Fin => 3,
        Command::Settings => 4,
        Command::Alert => 5,
        Command::UpdatePaddingScheme => 6,
        Command::SynAck => 7,
        Command::HeartRequest => 8,
        Command::HeartResponse => 9,
        Command::ServerSettings => 10,
    }
}

/// The command that a byte stands for.
pub open spec fn command_of(b: u8) -> Option<Command> {
    if b == 0 {
        Some(Command::Waste)
    } else if b == 1 {
        Some(Command::Syn)
    } else if b == 2 {
        Some(Command::Psh)
    } else if b == 3 {
        Some(Command::Fin)
    } else if b == 4 {
        Some(Command::Settings)
    } else if b == 5 {
        Some(Command::Alert)
    } else if b == 6 {
        Some(Command::UpdatePaddingScheme)
    } else if b == 7 {
        Some(Command::SynAck)
    } else if b == 8 {
        Some(Command::HeartRequest)
    } else if b == 9 {
        Some(Command::HeartResponse)
    } else if b == 10 {
        Some(Command::ServerSettings)
    } else {
        None
    }
}

impl Command {
    /// The byte that stands for the command.
    pub fn code(self) -> (r: u8)
        ensures
            r == command_code(self),
    {
        match self {
            Command::Waste => 0,
            Command::Syn => 1,
            Command::Psh => 2,
            Command::Fin => 3,
            Command::Settings => 4,
            Command::Alert => 5,
            Command::UpdatePaddingScheme => 6,
            Command::SynAck => 7,
            Command::HeartRequest => 8,
            Command::HeartResponse => 9,
            Command::ServerSettings => 10,
        }
    }

    /// The command that a byte stands for.
    pub fn from_code(b: u8) -> (r: Option<Self>)
        ensures
            r == command_of(b),
    {
        match b {
            0 => Some(Command::Waste),
            1 => Some(Command::Syn),
            2 => Some(Command::Psh),
            3 => Some(Command::Fin),
            4 => Some(Command::Settings),
            5 => Some(Command::Alert),
            6 => Some(Command::UpdatePaddingScheme),
            7 => Some(Command::SynAck),
            8 => Some(Command::HeartRequest),
            9 => Some(Command::HeartResponse),
            10 => Some(Command::ServerSettings),
            _ => None,
        }
    }
}

/// A frame starts with its command, its stream and the length of its data.
pub const FRAME_HEADER_SIZE: usize = 7;

/// One unit of what goes over a connection.
pub struct Frame {
    pub cmd: Command,
    pub stream_id: u32,
    pub data: Vec<u8>,
}

/// What a [`Frame`] stands for.
#[verifier::ext_equal]
pub struct FrameView {
    pub cmd: Command,
    pub stream_id: u32,
    pub data: Seq<u8>,
}

impl View for Frame {
    type V = FrameView;

    open spec fn view(&self) -> FrameView {
        FrameView { cmd: self.cmd, stream_id: self.stream_id, data: self.data@ }
    }
}

/// The bytes of a frame. The length has two bytes: of one that needs more, the lowest two are
/// sent.
pub open spec fn frame_bytes(f: FrameView) -> Seq<u8> {
    seq![command_code(f.cmd)] + util::be32_bytes(f.stream_id) + util::be16_bytes(
        (f.data.len() % 65536) as u16,
    ) + f.data
}

/// The frame at the start of some bytes, with its length. `None` where the bytes end within
/// it.
pub open spec fn first_frame(d: Seq<u8>) -> Result<Option<(FrameView, int)>, Error> {
    let total = 7 + util::be16(d[5], d[6]);
    if d.len() < 7 || d.len() < total {
        Ok(None)
    } else {
        match command_of(d[0]) {
            Some(cmd) => Ok(
                Some(
                    (
                        FrameView {
                            cmd,
                            stream_id: util::be32(d.subrange(1, 5)),
                            data: d.subrange(7, total),
                        },
                        total,
                    ),
                ),
            ),
            None => Err(Error::UnknownCommand(d[0])),
        }
    }
}

impl Frame {
    /// A frame without data.
    pub fn control(cmd: Command, stream_id: u32) -> (r: Self)
        ensures
            r@ == (FrameView { cmd, stream_id, data: Seq::empty() }),
    {
        Frame { cmd, stream_id, data: Vec::new() }
    }

    /// A frame with data.
    pub fn with_data(cmd: Command, stream_id: u32, data: Vec<u8>) -> (r: Self)
        ensures
            r@ == (FrameView { cmd, stream_id, data: data@ }),
    {
        Frame { cmd, stream_id, data }
    }

    /// A frame that carries data of a stream.
    pub fn data(stream_id: u32, data: Vec<u8>) -> (r: Self)
        ensures
            r@ == (FrameView { cmd: Command::Psh, stream_id, data: data@ }),
    {
        Frame { cmd: Command::Psh, stream_id, data }
    }

    /// Appends the bytes of the frame.
    pub fn encode_into(&self, out: &mut Vec<u8>)
        ensures
            final(out)@ == old(out)@ + frame_bytes(self@),
    {
        out.push(self.cmd.code());
        util::push_be32(out, self.stream_id);
        util::push_be16(out, (self.data.len() % 65536) as u16);
        util::push_bytes(out, self.data.as_slice());
        assert(out@ =~= old(out)@ + frame_bytes(self@));
    }
}

/// Takes frames out of a buffer.
pub struct FrameCodec;

impl FrameCodec {
    /// Takes the first frame out of a buffer. `None`: more bytes are needed.
    pub fn decode(buffer: &mut Vec<u8>) -> (r: Result<Option<Frame>, Error>)
        ensures
            match r {
                Ok(Some(frame)) => {
                    &&& first_frame(old(buffer)@) matches Ok(Some((f, total)))
                    &&& frame@ == f
                    &&& final(buffer)@ == old(buffer)@.skip(total)
                },
                Ok(None) => {
                    &&& first_frame(old(buffer)@) == Ok::<Option<(FrameView, int)>, Error>(None)
                    &&& final(buffer)@ == old(buffer)@
                },
                Err(e) => {
                    &&& first_frame(old(buffer)@) == Err::<Option<(FrameView, int)>, Error>(e)
                    &&& final(buffer)@ == old(buffer)@
                },
            },
    {
        let n: usize = buffer.len();
        if n < FRAME_HEADER_SIZE {
            return Ok(None);
        }
        let total: usize = FRAME_HEADER_SIZE + util::get_be16(buffer.as_slice(), 5) as usize;
        if n < total {
            return Ok(None);
        }
        let cmd = match Command::from_code(buffer[0]) {
            Some(cmd) => cmd,
            None => {
                return Err(Error::UnknownCommand(buffer[0]));
            },
        };
        let stream_id: u32 = util::get_be32(buffer.as_slice(), 1);
        let data = util::copy_range(buffer.as_slice(), FRAME_HEADER_SIZE, total);
        let rest = buffer.split_off(total);
        *buffer = rest;
        assert(buffer@ =~= old(buffer)@.skip(total as int));
        Ok(Some(Frame { cmd, stream_id, data }))
    }
}

/// Reading a written frame gives it back, whatever follows it.
pub proof fn frame_round_trip(f: FrameView, rest: Seq<u8>)
    requires
        f.data.len() <= 65535,
    ensures
        first_frame(frame_bytes(f) + rest) == Ok::<Option<(FrameView, int)>, Error>(
            Some((f, frame_bytes(f).len() as int)),
        ),
        (frame_bytes(f) + rest).skip(frame_bytes(f).len() as int) == rest,
{
    let d = frame_bytes(f) + rest;
    let total = frame_bytes(f).len() as int;
    util::be32_round_trip(f.stream_id);
    util::be16_round_trip(f.data.len() as u16);
    assert(d[5] == util::be16_bytes(f.data.len() as u16)[0]);
    assert(d[6] == util::be16_bytes(f.data.len() as u16)[1]);
    assert(d.subrange(1, 5) =~= util::be32_bytes(f.stream_id));
    assert(d.subrange(7, total) =~= f.data);
    assert(d.skip(total) =~= rest);
}

/// A frame that is settled stays settled: however its bytes are cut into pieces on their way,
/// the same frame or the same error comes out.
pub proof fn frame_prefix(d: Seq<u8>, rest: Seq<u8>)
    requires
        first_frame(d) != Ok::<Option<(FrameView, int)>, Error>(None),
    ensures
        first_frame(d + rest) == first_frame(d),
{
    let total = 7 + util::be16(d[5], d[6]);
    assert((d + rest).subrange(1, 5) =~= d.subrange(1, 5));
    assert((d + rest).subrange(7, total) =~= d.subrange(7, total));
}

/// Each command has its byte, and each other byte has none.
pub proof fn commands_have_bytes(c: Command, b: u8)
    ensures
        command_of(command_code(c)) == Some(c),
        command_of(b) is None <==> b > 10,
        command_of(b) matches Some(x) ==> command_code(x) == b,
        command_code(Command::Waste) == 0,
        command_code(Command::Syn) == 1,
        command_code(Command::Psh) == 2,
        command_code(Command::Fin) == 3,
        command_code(Command::Settings) == 4,
        command_code(Command::Alert) == 5,
        command_code(Command::UpdatePaddingScheme) == 6,
        command_code(Command::SynAck) == 7,
        command_code(Command::HeartRequest) == 8,
        command_code(Command::HeartResponse) == 9,
        command_code(Command::ServerSettings) == 10,
{
}

/// The bytes of a frame: its command, four bytes of its stream and two of its length, the ones of
/// the highest weight first, and its data.
pub proof fn frame_layout(f: FrameView)
    ensures
        ({
            let b = frame_bytes(f);
            &&& b.len() == 7 + f.data.len()
            &&& b[0] == command_code(f.cmd)
            &&& b[1] * 16777216 + b[2] * 65536 + b[3] * 256 + b[4] == f.stream_id
            &&& f.data.len() <= 65535 ==> b[5] * 256 + b[6] == f.data.len()
            &&& b.skip(7) == f.data
        }),
{
    let b = frame_bytes(f);
    let id = util::be32_bytes(f.stream_id);
    let len = util::be16_bytes((f.data.len() % 65536) as u16);
    util::big_endian_order(0, 0, 0, 0, (f.data.len() % 65536) as u16, f.stream_id);
    assert(b[1] == id[0] && b[2] == id[1] && b[3] == id[2] && b[4] == id[3]);
    assert(b[5] == len[0] && b[6] == len[1]);
    assert(b.skip(7) =~= f.data);
}

/// A frame is read as soon as its seven bytes and all of its data are there: the stream is the
/// number in four bytes and the data is as long as the number in two bytes says. Only the command
/// can be wrong.
pub proof fn frames_are_read_whole(d: Seq<u8>)
    ensures
        d.len() < 7 ==> first_frame(d) == Ok::<Option<(FrameView, int)>, Error>(None),
        d.len() >= 7 ==> {
            let total = 7 + d[5] * 256 + d[6];
            &&& d.len() < total ==> first_frame(d) == Ok::<Option<(FrameView, int)>, Error>(None)
            &&& d.len() >= total && d[0] > 10 ==> first_frame(d) == Err::<
                Option<(FrameView, int)>,
                Error,
            >(Error::UnknownCommand(d[0]))
            &&& d.len() >= total && d[0] <= 10 ==> {
                &&& first_frame(d) matches Ok(Some((f, n)))
                &&& n == total
                &&& command_code(f.cmd) == d[0]
                &&& f.stream_id == d[1] * 16777216 + d[2] * 65536 + d[3] * 256 + d[4]
                &&& f.data == d.subrange(7, total)
            }
        },
{
    if d.len() >= 7 {
        util::big_endian_order(d[5], d[6], 0, 0, 0, 0);
        util::big_endian_order(d[1], d[2], d[3], d[4], 0, 0);
        assert(d.subrange(1, 5) =~= seq![d[1], d[2], d[3], d[4]]);
    }
}

// ============================= settings ==============================

/// The lines of a text. A carriage return in front of a line feed does not belong to the
/// line.
pub open spec fn lines(s: Seq<u8>) -> Seq<Seq<u8>> {
    let pieces = text::split_on(s, 10);
    Seq::new(
        pieces.len(),
        |i: int|
            if i < pieces.len() - 1 && pieces[i].len() > 0 && pieces[i].last() == 13 {
                pieces[i].drop_last()
            } else {
                pieces[i]
            },
    )
}

/// A setting: the text in front of the first equals sign of a line, and the text behind it.
pub open spec fn setting_of(line: Seq<u8>) -> Option<(Seq<u8>, Seq<u8>)> {
    let i = text::first_place(line, 61);
    if i < line.len() {
        Some((line.take(i), line.skip(i + 1)))
    } else {
        None
    }
}

/// The settings in some lines. A later line overrides an earlier one.
pub open spec fn settings_in(ls: Seq<Seq<u8>>) -> Map<Seq<u8>, Seq<u8>>
    decreases ls.len(),
{
    if ls.len() == 0 {
        Map::empty()
    } else {
        match setting_of(ls.last()) {
            Some((key, value)) => settings_in(ls.drop_last()).insert(key, value),
            None => settings_in(ls.drop_last()),
        }
    }
}

/// A text is as many lines as it has line feeds, and one more: what stands in front of its first
/// line feed, without a carriage return at the end of it, and the lines of what stands behind.
pub proof fn lines_end_at_line_feeds(a: Seq<u8>, b: Seq<u8>)
    requires
        forall|i: int| 0 <= i < a.len() ==> a[i] != 10,
    ensures
        lines(a) == seq![a],
        lines(a + seq![10u8] + b) == seq![
            if a.len() > 0 && a.last() == 13 {
                a.drop_last()
            } else {
                a
            },
        ] + lines(b),
{
    text::lemma_split_single(a, 10);
    text::lemma_split_join(a, 10, b);
    assert(a + seq![10u8] + b =~= a.push(10) + b);
    assert(lines(a) =~= seq![a]);
    let whole = text::split_on(a.push(10) + b, 10);
    let rest = text::split_on(b, 10);
    text::lemma_split_nonempty(b, 10);
    assert(whole =~= seq![a] + rest);
    let cut = if a.len() > 0 && a.last() == 13 {
        a.drop_last()
    } else {
        a
    };
    assert(lines(a.push(10) + b) =~= seq![cut] + lines(b)) by {
        assert forall|i: int| 0 <= i < whole.len() implies lines(a.push(10) + b)[i] == (seq![cut]
            + lines(b))[i] by {
            if i > 0 {
                assert(whole[i] == rest[i - 1]);
            }
        }
    }
}

/// A line is a setting where it holds an equals sign: the key stands in front of the first one,
/// and the value is all that stands behind it.
pub proof fn settings_are_split_at_equals_signs(key: Seq<u8>, value: Seq<u8>)
    requires
        forall|i: int| 0 <= i < key.len() ==> key[i] != 61,
    ensures
        setting_of(key + seq![61u8] + value) == Some((key, value)),
        setting_of(key) is None,
{
    let line = key + seq![61u8] + value;
    let p = key.len() as int;
    assert forall|i: int| 0 <= i < p implies line[i] != 61 by {
        assert(line[i] == key[i]);
    }
    text::lemma_first_place_unique(line, 61, p);
    assert(line.take(p) =~= key);
    assert(line.skip(p + 1) =~= value);
    text::lemma_first_place(key, 61);
}

/// A key has the value of the last line that sets it, and is missing where no line does.
pub proof fn last_setting_counts(ls: Seq<Seq<u8>>, key: Seq<u8>, value: Seq<u8>, last: int)
    requires
        -1 <= last < ls.len(),
        forall|i: int|
            last < i < ls.len() ==> (setting_of(#[trigger] ls[i]) matches Some((k, _)) ==> k != key),
        last >= 0 ==> setting_of(ls[last]) == Some((key, value)),
    ensures
        settings_in(ls).contains_key(key) == (last >= 0),
        last >= 0 ==> settings_in(ls)[key] == value,
    decreases ls.len(),
{
    if ls.len() > 0 && last < ls.len() - 1 {
        let front = ls.drop_last();
        assert forall|i: int| last < i < front.len() implies (setting_of(
            #[trigger] front[i],
        ) matches Some((k, _)) ==> k != key) by {
            assert(front[i] == ls[i]);
        }
        assert(setting_of(ls[ls.len() - 1]) matches Some((k, _)) ==> k != key);
        last_setting_counts(front, key, value, last);
    }
}

/// Settings, each a key and a value.
#[derive(Debug, Clone)]
pub struct StringMap {
    entries: Vec<(Vec<u8>, Vec<u8>)>,
}

/// The settings that entries hold, of which no two have one key.
pub open spec fn entries_map(entries: Seq<(Vec<u8>, Vec<u8>)>) -> Map<Seq<u8>, Seq<u8>>
    decreases entries.len(),
{
    if entries.len() == 0 {
        Map::empty()
    } else {
        entries_map(entries.drop_last()).insert(entries.last().0@, entries.last().1@)
    }
}

impl View for StringMap {
    type V = Map<Seq<u8>, Seq<u8>>;

    closed spec fn view(&self) -> Map<Seq<u8>, Seq<u8>> {
        entries_map(self.entries@)
    }
}

/// Where a key stands among entries.
proof fn lemma_entries_map(entries: Seq<(Vec<u8>, Vec<u8>)>, i: int)
    requires
        0 <= i < entries.len(),
        forall|a: int, b: int|
            0 <= a < b < entries.len() ==> (#[trigger] entries[a]).0@ != (#[trigger] entries[b]).0@,
    ensures
        entries_map(entries).contains_key(entries[i].0@),
        entries_map(entries)[entries[i].0@] == entries[i].1@,
    decreases entries.len(),
{
    if i < entries.len() - 1 {
        let front = entries.drop_last();
        assert(front[i] == entries[i]);
        lemma_entries_map(front, i);
        assert(entries[i].0@ != entries[entries.len() - 1].0@);
    }
}

/// A key that no entry has.
proof fn lemma_no_entry(entries: Seq<(Vec<u8>, Vec<u8>)>, key: Seq<u8>)
    requires
        forall|i: int| 0 <= i < entries.len() ==> (#[trigger] entries[i]).0@ != key,
    ensures
        !entries_map(entries).contains_key(key),
    decreases entries.len(),
{
    if entries.len() > 0 {
        assert(entries[entries.len() - 1].0@ != key);
        lemma_no_entry(entries.drop_last(), key);
    }
}

/// Another value under the key of an entry.
proof fn lemma_entry_update(entries: Seq<(Vec<u8>, Vec<u8>)>, i: int, e: (Vec<u8>, Vec<u8>))
    requires
        0 <= i < entries.len(),
        entries[i].0@ == e.0@,
        forall|a: int, b: int|
            0 <= a < b < entries.len() ==> (#[trigger] entries[a]).0@ != (#[trigger] entries[b]).0@,
    ensures
        entries_map(entries.update(i, e)) == entries_map(entries).insert(e.0@, e.1@),
    decreases entries.len(),
{
    let updated = entries.update(i, e);
    let front = entries.drop_last();
    if i == entries.len() - 1 {
        assert(updated.drop_last() =~= front);
        assert(entries_map(updated) =~= entries_map(entries).insert(e.0@, e.1@));
    } else {
        assert(updated.drop_last() =~= front.update(i, e));
        assert(front[i] == entries[i]);
        lemma_entry_update(front, i, e);
        assert(entries[i].0@ != entries[entries.len() - 1].0@);
        assert(entries_map(updated) =~= entries_map(entries).insert(e.0@, e.1@));
    }
}

/// A setting as a line.
pub open spec fn setting_line(setting: (Seq<u8>, Seq<u8>)) -> Seq<u8> {
    setting.0 + seq![61u8] + setting.1
}

/// Settings as text: one `key=value` on each line.
pub open spec fn settings_text(listed: Seq<(Seq<u8>, Seq<u8>)>) -> Seq<u8>
    decreases listed.len(),
{
    if listed.len() == 0 {
        Seq::empty()
    } else {
        let line = setting_line(listed.last());
        if listed.len() == 1 {
            line
        } else {
            settings_text(listed.drop_last()) + seq![10u8] + line
        }
    }
}

/// Settings are written on a line each: the key, an equals sign and the value, with line feeds
/// between them.
pub proof fn settings_are_written_on_lines(
    front: Seq<(Seq<u8>, Seq<u8>)>,
    key: Seq<u8>,
    value: Seq<u8>,
)
    ensures
        settings_text(Seq::empty()).len() == 0,
        settings_text(seq![(key, value)]) == key + seq![61u8] + value,
        front.len() > 0 ==> settings_text(front.push((key, value))) == settings_text(front)
            + seq![10u8] + (key + seq![61u8] + value),
{
    assert(front.push((key, value)).drop_last() =~= front);
    assert(seq![(key, value)].last() == (key, value));
}

/// The settings of a list. A later one overrides an earlier one.
pub open spec fn listed_map(listed: Seq<(Seq<u8>, Seq<u8>)>) -> Map<Seq<u8>, Seq<u8>>
    decreases listed.len(),
{
    if listed.len() == 0 {
        Map::empty()
    } else {
        listed_map(listed.drop_last()).insert(listed.last().0, listed.last().1)
    }
}

/// A setting that fits on a line: a key without equals signs, and no line feeds.
pub open spec fn fits_on_line(setting: (Seq<u8>, Seq<u8>)) -> bool {
    &&& !setting.0.contains(61)
    &&& !setting.0.contains(10)
    &&& !setting.1.contains(10)
}

/// Settings that can be written and read back: each fits on a line, and none but the last ends
/// in a carriage return.
pub open spec fn can_be_listed(listed: Seq<(Seq<u8>, Seq<u8>)>) -> bool {
    &&& forall|i: int| 0 <= i < listed.len() ==> fits_on_line(#[trigger] listed[i])
    &&& forall|i: int|
        0 <= i < listed.len() - 1 && (#[trigger] listed[i]).1.len() > 0 ==> listed[i].1.last() != 13
}

/// A setting is read back from its line.
proof fn lemma_setting_line(setting: (Seq<u8>, Seq<u8>))
    requires
        fits_on_line(setting),
    ensures
        setting_of(setting_line(setting)) == Some(setting),
        forall|i: int| 0 <= i < setting_line(setting).len() ==> setting_line(setting)[i] != 10,
{
    let line = setting_line(setting);
    let p = setting.0.len() as int;
    assert forall|i: int| 0 <= i < p implies line[i] != 61 by {
        assert(line[i] == setting.0[i]);
    }
    text::lemma_first_place_unique(line, 61, p);
    assert(line.take(p) =~= setting.0);
    assert(line.skip(p + 1) =~= setting.1);
    assert forall|i: int| 0 <= i < line.len() implies line[i] != 10 by {
        if i < p {
            assert(line[i] == setting.0[i]);
        } else if i > p {
            assert(line[i] == setting.1[i - p - 1]);
        }
    }
}

/// The pieces of a text of settings are their lines.
proof fn lemma_settings_pieces(listed: Seq<(Seq<u8>, Seq<u8>)>)
    requires
        listed.len() > 0,
        forall|i: int| 0 <= i < listed.len() ==> fits_on_line(#[trigger] listed[i]),
    ensures
        text::split_on(settings_text(listed), 10) == listed.map_values(
            |s: (Seq<u8>, Seq<u8>)| setting_line(s),
        ),
    decreases listed.len(),
{
    let line_of = |s: (Seq<u8>, Seq<u8>)| setting_line(s);
    let last = setting_line(listed.last());
    assert(fits_on_line(listed[listed.len() - 1]));
    lemma_setting_line(listed.last());
    text::lemma_split_single(last, 10);
    if listed.len() == 1 {
        assert(seq![last] =~= listed.map_values(line_of));
    } else {
        let front = listed.drop_last();
        assert forall|i: int| 0 <= i < front.len() implies fits_on_line(#[trigger] front[i]) by {
            assert(front[i] == listed[i]);
        }
        lemma_settings_pieces(front);
        text::lemma_split_join(settings_text(front), 10, last);
        assert(settings_text(front).push(10) =~= settings_text(front) + seq![10u8]);
        assert(front.map_values(line_of) + seq![last] =~= listed.map_values(line_of));
    }
}

/// The settings on the lines of a list are those of the list.
proof fn lemma_settings_in(listed: Seq<(Seq<u8>, Seq<u8>)>)
    requires
        forall|i: int| 0 <= i < listed.len() ==> fits_on_line(#[trigger] listed[i]),
    ensures
        settings_in(listed.map_values(|s: (Seq<u8>, Seq<u8>)| setting_line(s))) == listed_map(listed),
    decreases listed.len(),
{
    let line_of = |s: (Seq<u8>, Seq<u8>)| setting_line(s);
    if listed.len() > 0 {
        let front = listed.drop_last();
        assert forall|i: int| 0 <= i < front.len() implies fits_on_line(#[trigger] front[i]) by {
            assert(front[i] == listed[i]);
        }
        lemma_settings_in(front);
        assert(fits_on_line(listed[listed.len() - 1]));
        lemma_setting_line(listed.last());
        assert(listed.map_values(line_of).drop_last() =~= front.map_values(line_of));
        assert(listed.map_values(line_of).last() == setting_line(listed.last()));
    }
}

/// The settings that entries hold are those of their list.
proof fn lemma_entries_listed(entries: Seq<(Vec<u8>, Vec<u8>)>)
    ensures
        entries_map(entries) == listed_map(
            entries.map_values(|e: (Vec<u8>, Vec<u8>)| (e.0@, e.1@)),
        ),
    decreases entries.len(),
{
    let listed = entries.map_values(|e: (Vec<u8>, Vec<u8>)| (e.0@, e.1@));
    if entries.len() > 0 {
        lemma_entries_listed(entries.drop_last());
        assert(listed.drop_last() =~= entries.drop_last().map_values(
            |e: (Vec<u8>, Vec<u8>)| (e.0@, e.1@),
        ));
    }
}

/// Settings that are written are read back.
pub proof fn settings_round_trip(settings: StringMap)
    requires
        can_be_listed(settings.listed()),
    ensures
        settings_in(lines(settings_text(settings.listed()))) == settings@,
{
    let listed = settings.listed();
    let text = settings_text(listed);
    lemma_entries_listed(settings.entries@);
    if listed.len() == 0 {
        assert(lines(text) =~= seq![Seq::<u8>::empty()]);
        assert(lines(text).drop_last() =~= Seq::<Seq<u8>>::empty());
        assert(settings_in(lines(text)) =~= Map::<Seq<u8>, Seq<u8>>::empty()) by {
            assert(setting_of(lines(text).last()) is None);
            assert(settings_in(lines(text).drop_last()) =~= Map::<Seq<u8>, Seq<u8>>::empty());
        }
    } else {
        let pieces = listed.map_values(|s: (Seq<u8>, Seq<u8>)| setting_line(s));
        lemma_settings_pieces(listed);
        lemma_settings_in(listed);
        assert(lines(text) =~= pieces) by {
            assert forall|i: int| 0 <= i < pieces.len() - 1 implies (#[trigger] pieces[i]).last()
                != 13 by {
                let setting = listed[i];
                assert(setting_line(setting).last() == if setting.1.len() > 0 {
                    setting.1.last()
                } else {
                    61u8
                });
            }
        }
    }
}

impl StringMap {
    /// The settings in the order in which their keys came.
    pub closed spec fn listed(self) -> Seq<(Seq<u8>, Seq<u8>)> {
        self.entries@.map_values(|e: (Vec<u8>, Vec<u8>)| (e.0@, e.1@))
    }

    /// No two entries have one key.
    pub closed spec fn wf(self) -> bool {
        forall|a: int, b: int|
            0 <= a < b < self.entries@.len() ==> (#[trigger] self.entries@[a]).0@ != (
            #[trigger] self.entries@[b]).0@
    }

    /// No settings.
    pub fn new() -> (r: Self)
        ensures
            r.wf(),
            r@ == Map::<Seq<u8>, Seq<u8>>::empty(),
            r.listed() == Seq::<(Seq<u8>, Seq<u8>)>::empty(),
    {
        let r = StringMap { entries: Vec::new() };
        assert(r.listed() =~= Seq::<(Seq<u8>, Seq<u8>)>::empty());
        r
    }

    fn find(&self, key: &[u8]) -> (r: Option<usize>)
        requires
            self.wf(),
        ensures
            match r {
                Some(i) => i < self.entries@.len() && self.entries@[i as int].0@ == key@,
                None => forall|i: int|
                    0 <= i < self.entries@.len() ==> (#[trigger] self.entries@[i]).0@ != key@,
            },
    {
        let n: usize = self.entries.len();
        let mut i: usize = 0;
        while i < n
            invariant
                i <= n,
                n == self.entries@.len(),
                forall|j: int| 0 <= j < i ==> (#[trigger] self.entries@[j]).0@ != key@,
            decreases n - i,
        {
            if text::same_bytes(self.entries[i].0.as_slice(), key) {
                return Some(i);
            }
            i = i + 1;
        }
        None
    }

    /// The value under a key.
    pub fn get(&self, key: &[u8]) -> (r: Option<&[u8]>)
        requires
            self.wf(),
        ensures
            match r {
                Some(value) => self@.contains_key(key@) && self@[key@] == value@,
                None => !self@.contains_key(key@),
            },
    {
        match self.find(key) {
            Some(i) => {
                proof {
                    lemma_entries_map(self.entries@, i as int);
                }
                Some(self.entries[i].1.as_slice())
            },
            None => {
                proof {
                    lemma_no_entry(self.entries@, key@);
                }
                None
            },
        }
    }

    /// Puts a value under a key.
    pub fn insert(&mut self, key: &[u8], value: &[u8])
        requires
            old(self).wf(),
        ensures
            final(self).wf(),
            final(self)@ == old(self)@.insert(key@, value@),
            !old(self)@.contains_key(key@) ==> final(self).listed() == old(self).listed().push(
                (key@, value@),
            ),
            old(self)@.contains_key(key@) ==> final(self).listed() == old(self).listed().map_values(
                |s: (Seq<u8>, Seq<u8>)|
                    if s.0 == key@ {
                        (key@, value@)
                    } else {
                        s
                    },
            ),
    {
        let entry = (util::to_vec(key), util::to_vec(value));
        match self.find(key) {
            Some(i) => {
                proof {
                    lemma_entries_map(self.entries@, i as int);
                    lemma_entry_update(self.entries@, i as int, entry);
                }
                self.entries[i] = entry;
                proof {
                    assert(self.entries@ == old(self).entries@.update(i as int, entry));
                    assert forall|a: int, b: int| 0 <= a < b < self.entries@.len() implies (
                    #[trigger] self.entries@[a]).0@ != (#[trigger] self.entries@[b]).0@ by {
                        assert(old(self).entries@[a].0@ == self.entries@[a].0@);
                        assert(old(self).entries@[b].0@ == self.entries@[b].0@);
                    }
                    assert(self.listed() =~= old(self).listed().map_values(
                        |s: (Seq<u8>, Seq<u8>)|
                            if s.0 == key@ {
                                (key@, value@)
                            } else {
                                s
                            },
                    ));
                }
            },
            None => {
                self.entries.push(entry);
                proof {
                    lemma_no_entry(old(self).entries@, key@);
                    assert(self.entries@.drop_last() =~= old(self).entries@);
                    assert(self.listed() =~= old(self).listed().push((key@, value@)));
                    assert forall|a: int, b: int| 0 <= a < b < self.entries@.len() implies (
                    #[trigger] self.entries@[a]).0@ != (#[trigger] self.entries@[b]).0@ by {
                        assert(old(self).entries@[a] == self.entries@[a]);
                        if b < old(self).entries@.len() {
                            assert(old(self).entries@[b] == self.entries@[b]);
                        }
                    }
                }
            },
        }
    }

    /// Reads settings: one `key=value` on each line.
    pub fn from_bytes(data: &[u8]) -> (r: Self)
        ensures
            r.wf(),
            r@ == settings_in(lines(data@)),
    {
        let mut map = StringMap::new();
        let pieces = text::split_bytes(data, 10);
        let n: usize = pieces.len();
        let mut i: usize = 0;
        let ghost ls = lines(data@);
        assert(ls.take(0) =~= Seq::<Seq<u8>>::empty());
        while i < n
            invariant
                i <= n,
                n == pieces@.len(),
                n == ls.len(),
                ls == lines(data@),
                text::views(pieces@) == text::split_on(data@, 10),
                map.wf(),
                map@ == settings_in(ls.take(i as int)),
            decreases n - i,
        {
            let piece: &[u8] = pieces[i].as_slice();
            let len: usize = piece.len();
            assert(text::views(pieces@)[i as int] == piece@);
            let line: &[u8] = if i < n - 1 && len > 0 && piece[len - 1] == 13 {
                let cut = slice_subrange(piece, 0, len - 1);
                assert(cut@ =~= piece@.drop_last());
                cut
            } else {
                piece
            };
            assert(line@ == ls[i as int]);
            let p: usize = text::find_first(line, 61);
            proof {
                text::lemma_first_place(line@, 61);
                assert(ls.take(i + 1).drop_last() =~= ls.take(i as int));
                assert(ls.take(i + 1).last() == line@);
            }
            if p < line.len() {
                let key = slice_subrange(line, 0, p);
                let value = slice_subrange(line, p + 1, line.len());
                assert(key@ =~= line@.take(p as int));
                assert(value@ =~= line@.skip(p + 1));
                map.insert(key, value);
            }
            i = i + 1;
        }
        assert(ls.take(n as int) =~= ls);
        map
    }

    /// Writes the settings: one `key=value` on each line.
    pub fn to_bytes(&self) -> (r: Vec<u8>)
        ensures
            r@ == settings_text(self.listed()),
    {
        let mut out: Vec<u8> = Vec::new();
        let n: usize = self.entries.len();
        let mut i: usize = 0;
        let ghost all = self.listed();
        assert(all.take(0) =~= Seq::<(Seq<u8>, Seq<u8>)>::empty());
        while i < n
            invariant
                i <= n,
                n == self.entries@.len(),
                n == all.len(),
                all == self.listed(),
                out@ == settings_text(all.take(i as int)),
            decreases n - i,
        {
            let ghost before = out@;
            if i > 0 {
                out.push(10);
            }
            util::push_bytes(&mut out, self.entries[i].0.as_slice());
            out.push(61);
            util::push_bytes(&mut out, self.entries[i].1.as_slice());
            proof {
                let line = all[i as int].0 + seq![61u8] + all[i as int].1;
                assert(all.take(i + 1).drop_last() =~= all.take(i as int));
                assert(all.take(i + 1).last() == all[i as int]);
                if i > 0 {
                    assert(out@ =~= before + seq![10u8] + line);
                } else {
                    assert(out@ =~= line);
                }
            }
            i = i + 1;
        }
        assert(all.take(n as int) =~= all);
        out
    }
}

} // verus!
