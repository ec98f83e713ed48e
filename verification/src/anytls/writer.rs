//! What goes over a connection for each frame, and how the first packets are padded.

use vstd::prelude::*;

use crate::anytls::padding;
use crate::anytls::padding::{PaddingFactory, CHECK_MARK};
use crate::anytls::types;
use crate::anytls::types::{Command, Frame, FrameView, FRAME_HEADER_SIZE};
use crate::text;
use crate::util;

verus! {

/// The most zeros that are written at once.
pub const ZERO_CHUNK: usize = 1024;

/// The start of a frame of padding.
pub open spec fn waste_header(len: nat) -> Seq<u8> {
    seq![types::command_code(Command::Waste), 0u8, 0, 0, 0] + util::be16_bytes(
        (len % 65536) as u16,
    )
}

/// Padding behind data that has to fill a record: none where there is no room for a frame
/// with something in it.
pub open spec fn filler(len: int) -> Seq<u8> {
    if len > 0 {
        waste_header(len as nat) + util::zeros(len as nat)
    } else {
        Seq::empty()
    }
}

/// Zeros, written a chunk at a time.
pub open spec fn zero_writes(n: nat) -> Seq<Seq<u8>>
    decreases n,
{
    if n == 0 {
        Seq::empty()
    } else if n <= ZERO_CHUNK {
        seq![util::zeros(n)]
    } else {
        seq![util::zeros(ZERO_CHUNK as nat)] + zero_writes((n - ZERO_CHUNK) as nat)
    }
}

/// What is written of some data, one after the other, for records of some sizes. A record is
/// cut from the data; where too little is left it is filled up with padding; where nothing is
/// left it is all padding. A check mark ends it where nothing is left. What the sizes do not
/// cover follows in one piece.
pub open spec fn padded_writes(data: Seq<u8>, sizes: Seq<i32>) -> Seq<Seq<u8>>
    decreases sizes.len(),
{
    if sizes.len() == 0 {
        if data.len() > 0 {
            seq![data]
        } else {
            Seq::empty()
        }
    } else {
        let size = sizes[0];
        let rest = sizes.skip(1);
        if size == CHECK_MARK {
            if data.len() == 0 {
                Seq::empty()
            } else {
                padded_writes(data, rest)
            }
        } else if data.len() > size {
            seq![data.take(size as int)] + padded_writes(data.skip(size as int), rest)
        } else if data.len() > 0 {
            seq![data + filler(size - data.len() - FRAME_HEADER_SIZE)] + padded_writes(
                Seq::empty(),
                rest,
            )
        } else {
            seq![waste_header(size as nat)] + zero_writes(size as nat) + padded_writes(
                Seq::empty(),
                rest,
            )
        }
    }
}

/// Sizes that records can have.
pub open spec fn sizes_ok(sizes: Seq<i32>) -> bool {
    forall|i: int| 0 <= i < sizes.len() ==> #[trigger] sizes[i] >= CHECK_MARK
}

fn push_waste_header(out: &mut Vec<u8>, len: usize)
    ensures
        final(out)@ == old(out)@ + waste_header(len as nat),
{
    out.push(Command::Waste.code());
    out.push(0);
    out.push(0);
    out.push(0);
    out.push(0);
    util::push_be16(out, (len % 65536) as u16);
    assert(out@ =~= old(out)@ + waste_header(len as nat));
}

fn push_zero_writes(writes: &mut Vec<Vec<u8>>, size: usize)
    ensures
        text::views(final(writes)@) == text::views(old(writes)@) + zero_writes(size as nat),
{
    let mut remaining: usize = size;
    assert(text::views(writes@) + zero_writes(size as nat) =~= text::views(old(writes)@)
        + zero_writes(size as nat));
    while remaining > 0
        invariant
            text::views(writes@) + zero_writes(remaining as nat) == text::views(old(writes)@)
                + zero_writes(size as nat),
        decreases remaining,
    {
        let chunk: usize = if remaining < ZERO_CHUNK {
            remaining
        } else {
            ZERO_CHUNK
        };
        let ghost before = text::views(writes@);
        let piece = util::allocate_vec(chunk);
        writes.push(piece);
        proof {
            assert(piece@ =~= util::zeros(chunk as nat));
            assert(text::views(writes@) =~= before.push(piece@));
            if remaining > ZERO_CHUNK {
                assert(before + zero_writes(remaining as nat) =~= before.push(piece@)
                    + zero_writes((remaining - chunk) as nat));
            } else {
                assert(before + zero_writes(remaining as nat) =~= before.push(piece@)
                    + zero_writes(0));
            }
        }
        remaining = remaining - chunk;
    }
    assert(text::views(writes@) + zero_writes(0) =~= text::views(writes@));
}

/// Cuts data into the writes that records of some sizes ask for.
pub fn write_with_padding(payload: Vec<u8>, sizes: &Vec<i32>) -> (r: Vec<Vec<u8>>)
    requires
        sizes_ok(sizes@),
    ensures
        text::views(r@) == padded_writes(payload@, sizes@),
{
    let mut writes: Vec<Vec<u8>> = Vec::new();
    let ghost all = padded_writes(payload@, sizes@);
    let mut data = payload;
    let n: usize = sizes.len();
    let mut i: usize = 0;
    assert(sizes@.skip(0) =~= sizes@);
    assert(text::views(writes@) + padded_writes(data@, sizes@) =~= all);
    while i < n
        invariant
            i <= n,
            n == sizes@.len(),
            sizes_ok(sizes@),
            all == padded_writes(payload@, sizes@),
            text::views(writes@) + padded_writes(data@, sizes@.skip(i as int)) == all,
        decreases n - i,
    {
        let ghost before = text::views(writes@);
        let ghost rest = sizes@.skip(i as int);
        assert(rest.skip(1) =~= sizes@.skip(i + 1));
        assert(rest[0] == sizes@[i as int]);
        let remain_payload_len: usize = data.len();
        assert(sizes@[i as int] >= CHECK_MARK);
        if sizes[i] == CHECK_MARK {
            if remain_payload_len == 0 {
                assert(text::views(writes@) =~= all);
                return writes;
            }
            i = i + 1;
            continue ;
        }
        let size: usize = sizes[i] as usize;
        if remain_payload_len > size {
            let ghost whole = data@;
            let tail = data.split_off(size);
            writes.push(data);
            proof {
                assert(data@ =~= whole.take(size as int));
                assert(tail@ =~= whole.skip(size as int));
                assert(text::views(writes@) =~= before.push(data@));
                assert(text::views(writes@) + padded_writes(tail@, sizes@.skip(i + 1)) =~= before
                    + padded_writes(whole, rest));
            }
            data = tail;
        } else if remain_payload_len > 0 {
            let ghost whole = data@;
            if size - remain_payload_len > FRAME_HEADER_SIZE {
                let padding_len: usize = size - remain_payload_len - FRAME_HEADER_SIZE;
                push_waste_header(&mut data, padding_len);
                let filling = util::allocate_vec(padding_len);
                assert(filling@ =~= util::zeros(padding_len as nat));
                util::push_bytes(&mut data, filling.as_slice());
            }
            proof {
                assert(data@ =~= whole + filler(size - whole.len() - FRAME_HEADER_SIZE));
            }
            let ghost filled = data@;
            writes.push(data);
            data = Vec::new();
            proof {
                assert(data@ =~= Seq::<u8>::empty());
                assert(text::views(writes@) =~= before.push(filled));
                assert(text::views(writes@) + padded_writes(data@, sizes@.skip(i + 1)) =~= before
                    + padded_writes(whole, rest));
            }
        } else {
            let mut header: Vec<u8> = Vec::new();
            push_waste_header(&mut header, size);
            assert(header@ =~= waste_header(size as nat));
            writes.push(header);
            assert(text::views(writes@) =~= before.push(header@));
            push_zero_writes(&mut writes, size);
            proof {
                assert(data@ =~= Seq::<u8>::empty());
                assert(text::views(writes@) + padded_writes(data@, sizes@.skip(i + 1)) =~= before
                    + padded_writes(data@, rest));
            }
        }
        i = i + 1;
    }
    let ghost before = text::views(writes@);
    assert(sizes@.skip(n as int) =~= Seq::<i32>::empty());
    if data.len() > 0 {
        writes.push(data);
        assert(text::views(writes@) =~= before.push(data@));
    }
    assert(text::views(writes@) =~= all);
    writes
}

/// Frames of padding, one behind the other.
pub open spec fn waste_frames(lens: Seq<nat>) -> Seq<u8>
    decreases lens.len(),
{
    if lens.len() == 0 {
        Seq::empty()
    } else {
        waste_frame(lens[0]) + waste_frames(lens.skip(1))
    }
}

/// A frame of padding.
pub open spec fn waste_frame(len: nat) -> Seq<u8> {
    types::frame_bytes(FrameView { cmd: Command::Waste, stream_id: 0, data: util::zeros(len) })
}

proof fn lemma_waste_frame(len: nat)
    ensures
        waste_frame(len) == waste_header(len) + util::zeros(len),
{
    assert(waste_frame(len) =~= waste_header(len) + util::zeros(len));
}

proof fn lemma_zero_writes(n: nat)
    ensures
        util::join(zero_writes(n)) == util::zeros(n),
    decreases n,
{
    if n == 0 {
        assert(util::join(zero_writes(n)) =~= util::zeros(n));
    } else if n <= ZERO_CHUNK {
        util::lemma_join_one(util::zeros(n));
    } else {
        let rest = (n - ZERO_CHUNK) as nat;
        lemma_zero_writes(rest);
        util::lemma_join_add(seq![util::zeros(ZERO_CHUNK as nat)], zero_writes(rest));
        util::lemma_join_one(util::zeros(ZERO_CHUNK as nat));
        assert(util::zeros(ZERO_CHUNK as nat) + util::zeros(rest) =~= util::zeros(n));
    }
}

/// Padding leaves the data as it is and adds nothing but frames of padding behind it: `lens`
/// are their lengths.
pub proof fn padding_is_waste(data: Seq<u8>, sizes: Seq<i32>) -> (lens: Seq<nat>)
    requires
        sizes_ok(sizes),
        forall|i: int| 0 <= i < sizes.len() ==> #[trigger] sizes[i] <= 65535,
    ensures
        util::join(padded_writes(data, sizes)) == data + waste_frames(lens),
        forall|i: int| 0 <= i < lens.len() ==> #[trigger] lens[i] <= 65535,
    decreases sizes.len(),
{
    let none = Seq::<nat>::empty();
    if sizes.len() == 0 {
        if data.len() > 0 {
            util::lemma_join_one(data);
        }
        assert(util::join(padded_writes(data, sizes)) =~= data + waste_frames(none));
        none
    } else {
        let size = sizes[0];
        let rest = sizes.skip(1);
        assert forall|i: int| 0 <= i < rest.len() implies #[trigger] rest[i] >= CHECK_MARK
            && rest[i] <= 65535 by {
            assert(rest[i] == sizes[i + 1]);
        }
        if size == CHECK_MARK {
            if data.len() == 0 {
                assert(util::join(padded_writes(data, sizes)) =~= data + waste_frames(none));
                none
            } else {
                padding_is_waste(data, rest)
            }
        } else if data.len() > size {
            let front = data.take(size as int);
            let back = data.skip(size as int);
            let lens = padding_is_waste(back, rest);
            util::lemma_join_add(seq![front], padded_writes(back, rest));
            util::lemma_join_one(front);
            assert(front + (back + waste_frames(lens)) =~= data + waste_frames(lens));
            lens
        } else if data.len() > 0 {
            let pad = size - data.len() - FRAME_HEADER_SIZE;
            let record = data + filler(pad);
            let more = padding_is_waste(Seq::empty(), rest);
            util::lemma_join_add(seq![record], padded_writes(Seq::empty(), rest));
            util::lemma_join_one(record);
            if pad > 0 {
                lemma_waste_frame(pad as nat);
                let lens = seq![pad as nat] + more;
                assert(lens.skip(1) =~= more);
                assert(record + (Seq::<u8>::empty() + waste_frames(more)) =~= data + waste_frames(
                    lens,
                ));
                lens
            } else {
                assert(record + (Seq::<u8>::empty() + waste_frames(more)) =~= data + waste_frames(
                    more,
                ));
                more
            }
        } else {
            let more = padding_is_waste(Seq::empty(), rest);
            let lens = seq![size as nat] + more;
            let header = seq![waste_header(size as nat)];
            lemma_waste_frame(size as nat);
            lemma_zero_writes(size as nat);
            util::lemma_join_one(waste_header(size as nat));
            util::lemma_join_add(header, zero_writes(size as nat));
            util::lemma_join_add(
                header + zero_writes(size as nat),
                padded_writes(Seq::empty(), rest),
            );
            assert(lens.skip(1) =~= more);
            assert(util::join(padded_writes(data, sizes)) =~= data + waste_frames(lens));
            lens
        }
    }
}

/// What a frame leads to.
pub enum Prepared {
    /// It is kept back.
    Held,
    /// Bytes are to be written as they are.
    Plain(Vec<u8>),
    /// Bytes are to be written with the padding of a packet.
    Padded(Vec<u8>, u32),
}

/// Turns frames into what is written, with padding for the first packets and with frames kept
/// back where they shall go together.
pub struct FrameWriter {
    send_padding: bool,
    pkt_counter: u32,
    buffering: bool,
    buffer: Vec<u8>,
}

/// What a [`FrameWriter`] stands for.
#[verifier::ext_equal]
pub struct FrameWriterView {
    pub send_padding: bool,
    pub pkt_counter: u32,
    pub buffering: bool,
    pub buffer: Seq<u8>,
}

impl View for FrameWriter {
    type V = FrameWriterView;

    closed spec fn view(&self) -> FrameWriterView {
        FrameWriterView {
            send_padding: self.send_padding,
            pkt_counter: self.pkt_counter,
            buffering: self.buffering,
            buffer: self.buffer@,
        }
    }
}

impl FrameWriterView {
    /// Packets are counted up to the one that ends the padding.
    pub open spec fn wf(self, stop: u32) -> bool {
        self.send_padding ==> self.pkt_counter == 0 || self.pkt_counter < stop
    }

    /// Whether the next packet is padded.
    pub open spec fn pads(self, stop: u32) -> bool {
        !self.buffering && self.send_padding && self.pkt_counter + 1 < stop
    }

    /// The writer after a frame.
    pub open spec fn after(self, frame: FrameView, stop: u32) -> FrameWriterView {
        if self.buffering {
            FrameWriterView { buffer: self.buffer + types::frame_bytes(frame), ..self }
        } else {
            FrameWriterView {
                buffer: Seq::empty(),
                pkt_counter: if self.send_padding {
                    (self.pkt_counter + 1) as u32
                } else {
                    self.pkt_counter
                },
                send_padding: self.pads(stop),
                ..self
            }
        }
    }
}

/// A rule of which nothing but sizes of records and check marks comes, whatever is drawn.
pub open spec fn rule_fits(rule: padding::PaddingRule) -> bool {
    rule matches padding::PaddingRule::Size(low, high) ==> forall|n: i64|
        low <= n <= high ==> #[trigger] padding::as_size(n) >= CHECK_MARK
}

/// Rules of which nothing but sizes of records and check marks comes.
pub open spec fn rules_fit(rules: Seq<padding::PaddingRule>) -> bool {
    forall|i: int| 0 <= i < rules.len() ==> rule_fits(#[trigger] rules[i])
}

proof fn lemma_fitting_sizes(sizes: Seq<i32>, rules: Seq<padding::PaddingRule>)
    requires
        sizes.len() == rules.len(),
        rules_fit(rules),
        forall|i: int| 0 <= i < sizes.len() ==> padding::size_follows(#[trigger] sizes[i], rules[i]),
    ensures
        sizes_ok(sizes),
{
    assert forall|i: int| 0 <= i < sizes.len() implies #[trigger] sizes[i] >= CHECK_MARK by {
        assert(padding::size_follows(sizes[i], rules[i]));
        assert(rule_fits(rules[i]));
    }
}

impl FrameWriter {
    /// A writer that pads, or does not, and that keeps frames back, or does not.
    pub fn new(send_padding: bool, buffering: bool) -> (r: Self)
        ensures
            r@ == (FrameWriterView {
                send_padding,
                pkt_counter: 0,
                buffering,
                buffer: Seq::empty(),
            }),
    {
        FrameWriter { send_padding, pkt_counter: 0, buffering, buffer: Vec::new() }
    }

    /// Takes in a frame. What was kept back goes in front of it.
    pub fn prepare(&mut self, frame: &Frame, stop: u32) -> (r: Prepared)
        requires
            old(self)@.wf(stop),
        ensures
            final(self)@ == old(self)@.after(frame@, stop),
            final(self)@.wf(stop),
            match r {
                Prepared::Held => old(self)@.buffering,
                Prepared::Plain(bytes) => {
                    &&& !old(self)@.buffering
                    &&& !old(self)@.pads(stop)
                    &&& bytes@ == old(self)@.buffer + types::frame_bytes(frame@)
                },
                Prepared::Padded(bytes, pkt) => {
                    &&& old(self)@.pads(stop)
                    &&& pkt == old(self)@.pkt_counter + 1
                    &&& bytes@ == old(self)@.buffer + types::frame_bytes(frame@)
                },
            },
    {
        frame.encode_into(&mut self.buffer);
        if self.buffering {
            return Prepared::Held;
        }
        let bytes = self.buffer.split_off(0);
        assert(bytes@ =~= old(self)@.buffer + types::frame_bytes(frame@));
        assert(self.buffer@ =~= Seq::<u8>::empty());
        if self.send_padding {
            let pkt: u32 = self.pkt_counter + 1;
            self.pkt_counter = pkt;
            if pkt < stop {
                return Prepared::Padded(bytes, pkt);
            } else {
                self.send_padding = false;
            }
        }
        Prepared::Plain(bytes)
    }

    /// The writes that a frame leads to, one after the other, with a flush behind them;
    /// nothing where it is kept back.
    pub fn write_frame(&mut self, frame: &Frame, factory: &PaddingFactory) -> (r: Option<
        Vec<Vec<u8>>,
    >)
        requires
            factory.wf(),
            old(self)@.wf(factory.stop_value()),
            old(self)@.pads(factory.stop_value()) ==> rules_fit(
                padding::packet_rules(factory.raw(), (old(self)@.pkt_counter + 1) as u32),
            ),
        ensures
            final(self)@ == old(self)@.after(frame@, factory.stop_value()),
            final(self)@.wf(factory.stop_value()),
            match r {
                None => old(self)@.buffering,
                Some(writes) => {
                    let bytes = old(self)@.buffer + types::frame_bytes(frame@);
                    &&& !old(self)@.buffering
                    &&& !old(self)@.pads(factory.stop_value()) ==> text::views(writes@) == seq![bytes]
                    &&& old(self)@.pads(factory.stop_value()) ==> exists|sizes: Seq<i32>|
                        {
                            &&& text::views(writes@) == #[trigger] padded_writes(bytes, sizes)
                            &&& sizes_of(
                                sizes,
                                padding::packet_rules(
                                    factory.raw(),
                                    (old(self)@.pkt_counter + 1) as u32,
                                ),
                            )
                        }
                },
            },
    {
        let mut writes: Vec<Vec<u8>> = Vec::new();
        match self.prepare(frame, factory.stop()) {
            Prepared::Held => None,
            Prepared::Plain(bytes) => {
                writes.push(bytes);
                assert(text::views(writes@) =~= seq![bytes@]);
                Some(writes)
            },
            Prepared::Padded(bytes, pkt) => {
                let sizes = factory.generate_record_payload_sizes(pkt);
                proof {
                    let rules = padding::packet_rules(factory.raw(), pkt);
                    lemma_fitting_sizes(sizes@, rules);
                    assert(sizes_of(sizes@, rules));
                }
                let ghost whole = bytes@;
                let writes = write_with_padding(bytes, &sizes);
                assert(text::views(writes@) == padded_writes(whole, sizes@));
                Some(writes)
            },
        }
    }
}

/// Sizes drawn by rules.
pub open spec fn sizes_of(sizes: Seq<i32>, rules: Seq<padding::PaddingRule>) -> bool {
    &&& sizes.len() == rules.len()
    &&& forall|i: int| 0 <= i < sizes.len() ==> padding::size_follows(#[trigger] sizes[i], rules[i])
}

/// The start of a frame of padding is seven bytes: the command, the stream zero, and the length.
pub proof fn waste_header_layout(len: nat)
    requires
        len <= 65535,
    ensures
        waste_header(len).len() == 7,
        waste_header(len)[0] == 0,
        waste_header(len)[1] == 0,
        waste_header(len)[2] == 0,
        waste_header(len)[3] == 0,
        waste_header(len)[4] == 0,
        waste_header(len)[5] * 256 + waste_header(len)[6] == len,
{
    util::big_endian_order(0, 0, 0, 0, len as u16, 0);
    assert(waste_header(len)[5] == util::be16_bytes(len as u16)[0]);
    assert(waste_header(len)[6] == util::be16_bytes(len as u16)[1]);
}

/// A record has the size that it is asked for: it is cut from the data where that is long enough,
/// and filled up with padding where it is too short, if a frame of padding fits in. What the
/// record leaves of the data goes into the records behind it.
pub proof fn records_have_their_sizes(data: Seq<u8>, size: i32, rest: Seq<i32>)
    requires
        size >= 0,
        data.len() > 0,
    ensures
        ({
            let writes = padded_writes(data, seq![size] + rest);
            &&& writes.len() > 0
            &&& data.len() >= size ==> writes[0] == data.take(size as int)
            &&& data.len() < size <= data.len() + 7 ==> writes[0] == data
            &&& data.len() + 7 < size ==> {
                &&& writes[0].len() == size
                &&& writes[0].take(data.len() as int) == data
                &&& writes[0].subrange(data.len() as int, data.len() as int + 7) == waste_header(
                    (size - data.len() - 7) as nat,
                )
                &&& forall|i: int| data.len() + 7 <= i < size ==> #[trigger] writes[0][i] == 0
            }
            &&& writes.skip(1) == padded_writes(
                if data.len() > size {
                    data.skip(size as int)
                } else {
                    Seq::empty()
                },
                rest,
            )
        }),
{
    let sizes = seq![size] + rest;
    let writes = padded_writes(data, sizes);
    assert(sizes.skip(1) =~= rest);
    assert(sizes[0] == size);
    if data.len() > size {
        assert(writes.skip(1) =~= padded_writes(data.skip(size as int), rest));
    } else {
        let pad = size - data.len() - 7;
        assert(writes[0] == data + filler(pad));
        assert(writes.skip(1) =~= padded_writes(Seq::empty(), rest));
        if pad > 0 {
            assert(writes[0].take(data.len() as int) =~= data);
            assert(writes[0].subrange(data.len() as int, data.len() as int + 7) =~= waste_header(
                pad as nat,
            ));
        } else {
            assert(writes[0] =~= data);
            assert(data.len() >= size ==> data =~= data.take(size as int));
        }
    }
}

/// A record for which no data is left is all padding: the start of a frame, and as many zeros as
/// the size says.
pub proof fn empty_records_are_padding(size: i32, rest: Seq<i32>)
    requires
        size >= 0,
    ensures
        ({
            let writes = padded_writes(Seq::empty(), seq![size] + rest);
            let zeros = zero_writes(size as nat);
            &&& writes.len() > 0
            &&& writes[0] == waste_header(size as nat)
            &&& writes == seq![writes[0]] + zeros + padded_writes(Seq::empty(), rest)
            &&& util::join(zeros).len() == size
            &&& forall|i: int| 0 <= i < size ==> #[trigger] util::join(zeros)[i] == 0
            &&& forall|i: int| 0 <= i < zeros.len() ==> 0 < (#[trigger] zeros[i]).len() <= 1024
        }),
{
    assert((seq![size] + rest).skip(1) =~= rest);
    lemma_zero_writes(size as nat);
    lemma_zero_chunks(size as nat);
}

/// Zeros are written at most a chunk at a time.
proof fn lemma_zero_chunks(n: nat)
    ensures
        forall|i: int|
            0 <= i < zero_writes(n).len() ==> 0 < (#[trigger] zero_writes(n)[i]).len() <= 1024,
    decreases n,
{
    if n > ZERO_CHUNK {
        let more = zero_writes((n - ZERO_CHUNK) as nat);
        lemma_zero_chunks((n - ZERO_CHUNK) as nat);
        assert forall|i: int| 0 <= i < zero_writes(n).len() implies 0 < (
        #[trigger] zero_writes(n)[i]).len() <= 1024 by {
            if i > 0 {
                assert(zero_writes(n)[i] == more[i - 1]);
            }
        }
    }
}

/// A check mark ends the padding where no data is left and is passed over where some is; and data
/// that no size covers follows in one piece.
pub proof fn check_marks_end_the_padding(data: Seq<u8>, rest: Seq<i32>)
    ensures
        data.len() == 0 ==> padded_writes(data, seq![-1i32] + rest).len() == 0,
        data.len() > 0 ==> padded_writes(data, seq![-1i32] + rest) == padded_writes(data, rest),
        data.len() == 0 ==> padded_writes(data, Seq::empty()).len() == 0,
        data.len() > 0 ==> padded_writes(data, Seq::empty()) == seq![data],
{
    assert((seq![-1i32] + rest).skip(1) =~= rest);
}

/// A writer after some frames.
pub open spec fn writer_after(w: FrameWriterView, frames: Seq<FrameView>, stop: u32) -> FrameWriterView
    decreases frames.len(),
{
    if frames.len() == 0 {
        w
    } else {
        writer_after(w, frames.drop_last(), stop).after(frames.last(), stop)
    }
}

/// A writer that pads does so for the first packets, counted from one, up to the one that the
/// scheme stops at, which is not padded, nor any behind it. Nothing is kept back.
pub proof fn first_packets_are_padded(frames: Seq<FrameView>, stop: u32)
    ensures
        ({
            let fresh = FrameWriterView {
                send_padding: true,
                pkt_counter: 0,
                buffering: false,
                buffer: Seq::empty(),
            };
            let w = writer_after(fresh, frames, stop);
            let n = frames.len() + 1;
            &&& w.pads(stop) <==> n < stop
            &&& w.pads(stop) ==> w.pkt_counter + 1 == n
            &&& w.buffer.len() == 0
            &&& !w.buffering
        }),
    decreases frames.len(),
{
    if frames.len() > 0 {
        first_packets_are_padded(frames.drop_last(), stop);
    }
}

/// A writer that does not pad never does.
pub proof fn padding_can_be_off(w: FrameWriterView, frames: Seq<FrameView>, stop: u32)
    requires
        !w.send_padding,
    ensures
        !writer_after(w, frames, stop).pads(stop),
        !writer_after(w, frames, stop).send_padding,
        writer_after(w, frames, stop).pkt_counter == w.pkt_counter,
    decreases frames.len(),
{
    if frames.len() > 0 {
        padding_can_be_off(w, frames.drop_last(), stop);
    }
}

/// Frames that are kept back lie one behind the other, behind what was kept back before.
pub proof fn held_frames_stay_in_order(w: FrameWriterView, frames: Seq<FrameView>, stop: u32)
    requires
        w.buffering,
    ensures
        writer_after(w, frames, stop).buffering,
        writer_after(w, frames, stop).send_padding == w.send_padding,
        writer_after(w, frames, stop).pkt_counter == w.pkt_counter,
        writer_after(w, frames, stop).buffer == w.buffer + util::join(
            frames.map_values(|f: FrameView| types::frame_bytes(f)),
        ),
    decreases frames.len(),
{
    let bytes_of = |f: FrameView| types::frame_bytes(f);
    let all = frames.map_values(bytes_of);
    if frames.len() > 0 {
        held_frames_stay_in_order(w, frames.drop_last(), stop);
        assert(all.drop_last() =~= frames.drop_last().map_values(bytes_of));
        assert(all.last() == types::frame_bytes(frames.last()));
        assert(writer_after(w, frames, stop).buffer =~= w.buffer + util::join(all));
    } else {
        assert(w.buffer + util::join(all) =~= w.buffer);
    }
}

/// Sizes drawn by rules are as many as the rules, and each follows its own.
pub proof fn each_size_follows_its_rule(
    sizes: Seq<i32>,
    rules: Seq<padding::PaddingRule>,
    i: int,
)
    requires
        sizes_of(sizes, rules),
    ensures
        sizes.len() == rules.len(),
        0 <= i < sizes.len() ==> padding::size_follows(sizes[i], rules[i]),
{
}

/// Rules can be followed where their sizes fit into 31 bits.
pub proof fn small_rules_can_be_followed(rules: Seq<padding::PaddingRule>)
    requires
        forall|i: int|
            0 <= i < rules.len() ==> (#[trigger] rules[i] matches padding::PaddingRule::Size(
                low,
                high,
            ) ==> 0 < low && high <= 2147483647),
    ensures
        rules_fit(rules),
{
    assert forall|i: int| 0 <= i < rules.len() implies rule_fits(#[trigger] rules[i]) by {
        assert(rules[i] matches padding::PaddingRule::Size(low, high) ==> 0 < low && high
            <= 2147483647);
    }
}

} // verus!
