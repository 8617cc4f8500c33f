//! `.dmxrec` file format: recorded DMX as a flat, gzipped event log.
//!
//! The file is gzip over an 8-byte header (`DMXREC` and a little-endian `u16`
//! version) followed by 9-byte little-endian event records:
//! `u32 t_ms | u16 universe | u16 channel | u8 value`.
//!
//! The log is append-only and written in time order during a recording pass, so a
//! crash loses seconds, not the take. Duration is not stored: it is the largest
//! `t_ms`, computed on load.

use std::io::{ErrorKind, Read, Write};

use flate2::read::GzDecoder;
use flate2::write::GzEncoder;
use vstd::prelude::*;

verus! {

/// Bytes of one event record.
pub const EVENT_LEN: usize = 9;

/// Bytes of the header.
pub const HEADER_LEN: usize = 8;

/// The format version that is written and read.
pub const VERSION: u16 = 1;

/// One channel change at one moment, relative to the recording's start.
#[derive(Debug, Clone, Copy, PartialEq, Eq, Structural)]
pub struct RecEvent {
    pub t_ms: u32,
    pub universe: u16,
    pub channel: u16,
    pub value: u8,
}

/// The record of an event.
pub open spec fn event_bytes(e: RecEvent) -> Seq<u8> {
    seq![
        (e.t_ms % 256) as u8,
        (e.t_ms / 256 % 256) as u8,
        (e.t_ms / 65536 % 256) as u8,
        (e.t_ms / 16777216) as u8,
        (e.universe % 256) as u8,
        (e.universe / 256) as u8,
        (e.channel % 256) as u8,
        (e.channel / 256) as u8,
        e.value,
    ]
}

/// The event of a record.
pub open spec fn event_of(b: Seq<u8>) -> RecEvent {
    RecEvent {
        t_ms: (b[0] + 256 * b[1] + 65536 * b[2] + 16777216 * b[3]) as u32,
        universe: (b[4] + 256 * b[5]) as u16,
        channel: (b[6] + 256 * b[7]) as u16,
        value: b[8],
    }
}

/// Reading a record gives back the event that was written.
pub proof fn law_event_roundtrip(e: RecEvent)
    ensures
        event_bytes(e).len() == EVENT_LEN,
        event_of(event_bytes(e)) == e,
{
}

/// No two records read as the same event: writing what a record reads as gives the
/// record back.
pub proof fn law_record_roundtrip(b: Seq<u8>)
    requires
        b.len() == EVENT_LEN,
    ensures
        event_bytes(event_of(b)) == b,
{
    let e = event_of(b);
    let (b0, b1, b2, b3) = (b[0] as int, b[1] as int, b[2] as int, b[3] as int);
    let t = b0 + 256 * b1 + 65536 * b2 + 16777216 * b3;
    assert(e.t_ms == t);
    assert(t % 256 == b0);
    assert(t / 256 == b1 + 256 * b2 + 65536 * b3);
    assert((t / 256) % 256 == b1);
    assert(t / 65536 == b2 + 256 * b3);
    assert((t / 65536) % 256 == b2);
    assert(t / 16777216 == b3);
    let w = event_bytes(e);
    assert(w[0] == b[0] && w[1] == b[1] && w[2] == b[2] && w[3] == b[3]);
    assert(w[4] == b[4] && w[5] == b[5] && w[6] == b[6] && w[7] == b[7] && w[8] == b[8]);
    assert(w =~= b);
}

impl RecEvent {
    /// The event's record.
    pub fn to_bytes(self) -> (b: [u8; EVENT_LEN])
        ensures
            b@ == event_bytes(self),
    {
        let b: [u8; EVENT_LEN] = [
            (self.t_ms % 256) as u8,
            (self.t_ms / 256 % 256) as u8,
            (self.t_ms / 65536 % 256) as u8,
            (self.t_ms / 16777216) as u8,
            (self.universe % 256) as u8,
            (self.universe / 256) as u8,
            (self.channel % 256) as u8,
            (self.channel / 256) as u8,
            self.value,
        ];
        assert(b@ =~= event_bytes(self));
        b
    }

    /// The event of a record.
    pub fn from_bytes(b: &[u8; EVENT_LEN]) -> (e: RecEvent)
        ensures
            e == event_of(b@),
    {
        RecEvent {
            t_ms: b[0] as u32 + 256 * (b[1] as u32) + 65536 * (b[2] as u32) + 16777216 * (
            b[3] as u32),
            universe: b[4] as u16 + 256 * (b[5] as u16),
            channel: b[6] as u16 + 256 * (b[7] as u16),
            value: b[8],
        }
    }
}

/// `DMXREC` in ASCII.
pub open spec fn magic() -> Seq<u8> {
    seq![0x44u8, 0x4d, 0x58, 0x52, 0x45, 0x43]
}

/// The header: the magic bytes and the version.
pub open spec fn header_bytes() -> Seq<u8> {
    magic() + seq![(VERSION % 256) as u8, (VERSION / 256) as u8]
}

/// A whole log before compression.
pub open spec fn log_bytes(events: Seq<RecEvent>) -> Seq<u8>
    decreases events.len(),
{
    if events.len() == 0 {
        header_bytes()
    } else {
        log_bytes(events.drop_last()) + event_bytes(events.last())
    }
}

/// How the gzip stream of a file ended.
#[derive(Debug, Clone, Copy, PartialEq, Eq, Structural)]
pub enum StreamEnd {
    /// The stream is whole and its checksum holds.
    Complete,
    /// The data stopped before the stream did.
    Truncated,
    /// The data is no gzip stream, or a damaged one.
    Corrupt,
}

/// Why a log could not be read.
#[derive(Debug, Clone, Copy, PartialEq, Eq, Structural)]
pub enum RecError {
    /// The data ends before the header does.
    Truncated,
    /// The data is no gzip stream, or a damaged one.
    Corrupt,
    /// The header is not that of a `.dmxrec` file.
    NotRec,
    /// The version in the header is not supported.
    Version(u16),
}

/// The version field of a header.
pub open spec fn version_of(header: Seq<u8>) -> u16 {
    (header[6] + 256 * header[7]) as u16
}

/// Record `i` of the records behind a header.
pub open spec fn record(body: Seq<u8>, i: int) -> Seq<u8> {
    body.subrange(EVENT_LEN * i, EVENT_LEN * i + EVENT_LEN)
}

/// The events of the whole records behind a header.
pub open spec fn records(body: Seq<u8>) -> Seq<RecEvent> {
    Seq::new(body.len() / EVENT_LEN as nat, |i: int| event_of(record(body, i)))
}

/// What comes out of a file's gzip stream: a header of the length that was asked for, what
/// lies behind it, and how the stream ended. Where the stream ended before the header did,
/// both are empty.
pub type Unpacked = (Seq<u8>, Seq<u8>, StreamEnd);

/// What a decompressed log reads as: the header is looked at first. A stream that ends
/// early behind it still gives the events that came through whole.
pub open spec fn parsed(u: Unpacked) -> Result<Seq<RecEvent>, RecError> {
    if u.0.len() < HEADER_LEN {
        Err(
            if u.2 == StreamEnd::Corrupt {
                RecError::Corrupt
            } else {
                RecError::Truncated
            },
        )
    } else if u.0.take(6) != magic() {
        Err(RecError::NotRec)
    } else if version_of(u.0) != VERSION {
        Err(RecError::Version(version_of(u.0)))
    } else if u.2 == StreamEnd::Corrupt {
        Err(RecError::Corrupt)
    } else {
        Ok(records(u.1))
    }
}

/// What comes out of a stream of those bytes that ends in that way.
pub open spec fn unpacked(bytes: Seq<u8>, header_len: nat, end: StreamEnd) -> Unpacked {
    if bytes.len() < header_len {
        (Seq::empty(), Seq::empty(), StreamEnd::Truncated)
    } else {
        (bytes.take(header_len as int), bytes.skip(header_len as int), end)
    }
}

/// Whether a header starts with the magic bytes.
fn has_magic(header: &Vec<u8>) -> (yes: bool)
    requires
        header@.len() >= HEADER_LEN,
    ensures
        yes == (header@.take(6) == magic()),
{
    let yes = header[0] == 0x44 && header[1] == 0x4d && header[2] == 0x58 && header[3] == 0x52
        && header[4] == 0x45 && header[5] == 0x43;
    proof {
        let head = header@.take(6);
        assert(forall|i: int| 0 <= i < 6 ==> head[i] == header@[i]);
        if yes {
            assert(head =~= magic());
        } else {
            assert(head[0] != magic()[0] || head[1] != magic()[1] || head[2] != magic()[2]
                || head[3] != magic()[3] || head[4] != magic()[4] || head[5] != magic()[5]);
        }
    }
    yes
}

/// Reads a decompressed log, given how its stream ended. A truncated trailing event is
/// dropped.
pub fn parse_rec(header: &Vec<u8>, body: &Vec<u8>, end: StreamEnd) -> (r: Result<
    Vec<RecEvent>,
    RecError,
>)
    ensures
        match (r, parsed((header@, body@, end))) {
            (Ok(events), Ok(expected)) => events@ == expected,
            (Err(error), Err(expected)) => error == expected,
            _ => false,
        },
{
    if header.len() < HEADER_LEN {
        return Err(
            if end == StreamEnd::Corrupt {
                RecError::Corrupt
            } else {
                RecError::Truncated
            },
        );
    }
    if !has_magic(header) {
        return Err(RecError::NotRec);
    }
    let version: u16 = header[6] as u16 + 256 * (header[7] as u16);
    if version != VERSION {
        return Err(RecError::Version(version));
    }
    if end == StreamEnd::Corrupt {
        return Err(RecError::Corrupt);
    }
    let mut events: Vec<RecEvent> = Vec::new();
    let mut at: usize = 0;
    while body.len() - at >= EVENT_LEN
        invariant
            at <= body.len(),
            at == EVENT_LEN * events.len(),
            events@ == records(body@).take(events@.len() as int),
        decreases body.len() - at,
    {
        let b: [u8; EVENT_LEN] = [
            body[at],
            body[at + 1],
            body[at + 2],
            body[at + 3],
            body[at + 4],
            body[at + 5],
            body[at + 6],
            body[at + 7],
            body[at + 8],
        ];
        assert(b@ =~= record(body@, events@.len() as int));
        events.push(RecEvent::from_bytes(&b));
        at = at + EVENT_LEN;
        assert(events@ =~= records(body@).take(events@.len() as int));
    }
    assert(events@ =~= records(body@));
    Ok(events)
}

/// Recording duration: the timestamp of the last event of a time-ordered log.
pub fn rec_duration_ms(events: &[RecEvent]) -> (ms: u32)
    ensures
        ms == duration_of(events@),
{
    if events.len() == 0 {
        0
    } else {
        events[events.len() - 1].t_ms
    }
}

/// The timestamp of the last event, 0 of an empty log.
pub open spec fn duration_of(events: Seq<RecEvent>) -> u32 {
    if events.len() == 0 {
        0
    } else {
        events.last().t_ms
    }
}

/// Whether the events come in time order.
pub open spec fn in_time_order(events: Seq<RecEvent>) -> bool {
    forall|i: int, j: int| 0 <= i <= j < events.len() ==> events[i].t_ms <= events[j].t_ms
}

/// The duration of a time-ordered log is the largest timestamp in it.
pub proof fn law_duration_is_largest(events: Seq<RecEvent>)
    requires
        in_time_order(events),
    ensures
        forall|i: int| 0 <= i < events.len() ==> (#[trigger] events[i]).t_ms <= duration_of(events),
        events.len() > 0 ==> exists|i: int|
            0 <= i < events.len() && (#[trigger] events[i]).t_ms == duration_of(events),
{
    if events.len() > 0 {
        assert(events[events.len() - 1].t_ms == duration_of(events));
    }
}

/// What [`GzDecoder`] gives of a file when a header of that length is read first.
pub uninterp spec fn gunzipped(data: Seq<u8>, header_len: nat) -> Unpacked;

/// `flate2::read::GzDecoder`: `read_exact` for the header, then `read_to_end`. An
/// `UnexpectedEof` error is a stream that stops early, with the bytes read before it; any
/// other error is damage. What the bytes are is left to the name; how many of them come in
/// front of damage behind the header is not stated.
#[verifier::external_body]
fn gunzip(data: &[u8], header_len: usize) -> (r: (Vec<u8>, Vec<u8>, StreamEnd))
    requires
        header_len <= HEADER_LEN,
    ensures
        r.0@ == gunzipped(data@, header_len as nat).0,
        r.2 == gunzipped(data@, header_len as nat).2,
        r.2 != StreamEnd::Corrupt ==> r.1@ == gunzipped(data@, header_len as nat).1,
{
    let mut dec = GzDecoder::new(data);
    let (mut header, mut body) = (vec![0; header_len], Vec::new());
    let read = match dec.read_exact(&mut header) {
        Ok(()) => dec.read_to_end(&mut body),
        Err(e) => {
            header.clear();
            Err(e)
        },
    };
    match read {
        Ok(_) => (header, body, StreamEnd::Complete),
        Err(e) if e.kind() == ErrorKind::UnexpectedEof => (header, body, StreamEnd::Truncated),
        Err(_) => (header, body, StreamEnd::Corrupt),
    }
}

/// Reads the bytes of a `.dmxrec` file into its event list, in file order, which is
/// time order. A file that a crash cut short gives the events that were stored whole.
pub fn read_rec(data: &[u8]) -> (r: Result<Vec<RecEvent>, RecError>)
    ensures
        match (r, parsed(gunzipped(data@, HEADER_LEN as nat))) {
            (Ok(events), Ok(expected)) => events@ == expected,
            (Err(error), Err(expected)) => error == expected,
            _ => false,
        },
{
    let (header, body, end) = gunzip(data, HEADER_LEN);
    parse_rec(&header, &body, end)
}

/// `std::io::Error`: why a write failed. It is carried through and never looked into.
#[verifier::external_type_specification]
#[verifier::external_body]
pub struct ExIoError(std::io::Error);

/// How many bytes a gzip encoder is given at most between two flushes.
pub const FLUSH_LEN: usize = 8192;

/// A gzip encoder that compresses into memory.
#[verifier::external_body]
pub struct GzLog {
    enc: GzEncoder<Vec<u8>>,
}

/// The bytes that a gzip encoder was given so far.
pub uninterp spec fn gz_input(enc: GzLog) -> Seq<u8>;

/// How many of them it was given since it was made or last flushed.
pub uninterp spec fn gz_open(enc: GzLog) -> nat;

/// The compressed bytes in a gzip encoder's sink.
pub uninterp spec fn gz_sink(enc: GzLog) -> Seq<u8>;

/// The compressed bytes that were taken out of a gzip encoder's sink so far.
pub uninterp spec fn gz_taken(enc: GzLog) -> Seq<u8>;

/// `GzEncoder::new` on an empty sink, at the default compression level: nothing was
/// given to it, and nothing is in its sink or was taken out.
#[verifier::external_body]
fn gz_new() -> (enc: GzLog)
    ensures
        gz_input(enc) == Seq::<u8>::empty(),
        gz_open(enc) == 0,
        gz_sink(enc) == Seq::<u8>::empty(),
        gz_taken(enc) == Seq::<u8>::empty(),
{
    GzLog { enc: GzEncoder::new(Vec::new(), flate2::Compression::default()) }
}

/// `write_all` on a `GzEncoder`: all the bytes are taken as input. It succeeds: a `Vec`
/// takes whatever is put into it, and the compressor, which puts out no block before 31 KiB
/// came, only notes down what little it is given here. So the first bytes bring the gzip
/// header into the sink, and later ones bring nothing. What the header is, is not stated.
#[verifier::external_body]
fn gz_write_all(enc: &mut GzLog, bytes: &[u8]) -> (r: Result<(), std::io::Error>)
    requires
        gz_open(*old(enc)) + bytes@.len() <= FLUSH_LEN,
    ensures
        r is Ok,
        gz_input(*final(enc)) == gz_input(*old(enc)) + bytes@,
        gz_open(*final(enc)) == gz_open(*old(enc)) + bytes@.len(),
        gz_sink(*old(enc)).is_prefix_of(gz_sink(*final(enc))),
        gz_input(*old(enc)).len() > 0 ==> gz_sink(*final(enc)) == gz_sink(*old(enc)),
        gz_taken(*final(enc)) == gz_taken(*old(enc)),
{
    enc.enc.write_all(bytes)
}

/// `flush` on a `GzEncoder`: all input so far can be decoded from the bytes in the sink,
/// behind those that were taken out of it. The stream is still open, and the sink only
/// grows. That holds of an encoder that was given little since it was last flushed: the
/// one block that is due is at most twice as long as what it holds, with some 300 bytes
/// for its tables, so that it fits into the encoder's own buffer of 32 KiB, which is empty
/// then, and comes out whole. For the same reason it succeeds.
#[verifier::external_body]
fn gz_flush(enc: &mut GzLog) -> (r: Result<(), std::io::Error>)
    requires
        gz_open(*old(enc)) <= FLUSH_LEN,
    ensures
        r is Ok,
        gz_input(*final(enc)) == gz_input(*old(enc)),
        gz_open(*final(enc)) == 0,
        gz_sink(*old(enc)).is_prefix_of(gz_sink(*final(enc))),
        gz_taken(*final(enc)) == gz_taken(*old(enc)),
        forall|n: nat| #[trigger]
            gunzipped(gz_taken(*final(enc)) + gz_sink(*final(enc)), n) == unpacked(
                gz_input(*final(enc)),
                n,
                StreamEnd::Truncated,
            ),
{
    enc.enc.flush()
}

/// `GzEncoder::get_mut`: the sink, out of which `std::mem::take` takes the bytes. The
/// stream goes on behind them.
#[verifier::external_body]
fn gz_take(enc: &mut GzLog) -> (bytes: Vec<u8>)
    ensures
        bytes@ == gz_sink(*old(enc)),
        gz_input(*final(enc)) == gz_input(*old(enc)),
        gz_open(*final(enc)) == gz_open(*old(enc)),
        gz_sink(*final(enc)) == Seq::<u8>::empty(),
        gz_taken(*final(enc)) == gz_taken(*old(enc)) + gz_sink(*old(enc)),
{
    std::mem::take(enc.enc.get_mut())
}

/// `GzEncoder::finish`: the sink, behind the bytes that were taken out of it, ends a whole
/// stream that decodes to the input. It only ever adds to the sink. It succeeds as a flush
/// does.
#[verifier::external_body]
fn gz_finish(enc: GzLog) -> (r: Result<Vec<u8>, std::io::Error>)
    requires
        gz_open(enc) <= FLUSH_LEN,
    ensures
        r is Ok,
        r matches Ok(sink) ==> gz_sink(enc).is_prefix_of(sink@) && forall|n: nat| #[trigger]
            gunzipped(gz_taken(enc) + sink@, n) == unpacked(
                gz_input(enc),
                n,
                StreamEnd::Complete,
            ),
{
    enc.enc.finish()
}

/// Streaming `.dmxrec` writer. Events are appended in time order; the compressed bytes
/// are drawn off as they come and stored one behind the other. [`RecWriter::finish`]
/// ends the gzip stream: without it the file is cut short.
///
/// The encoder is flushed every [`FLUSH_LEN`] bytes, so that it never holds back more of
/// the log than one flush brings out.
pub struct RecWriter {
    enc: GzLog,
    /// How many bytes the encoder was given since it was last flushed.
    open: usize,
}

impl RecWriter {
    /// The log so far, before compression.
    pub closed spec fn written(&self) -> Seq<u8> {
        gz_input(self.enc)
    }

    /// The compressed bytes that the encoder gave out so far.
    pub closed spec fn compressed(&self) -> Seq<u8> {
        gz_taken(self.enc) + gz_sink(self.enc)
    }

    /// Those of them that were drawn off.
    pub closed spec fn stored(&self) -> Seq<u8> {
        gz_taken(self.enc)
    }

    /// One flush brings out what the encoder holds, and what came before it can be read from
    /// what the encoder gave out.
    pub closed spec fn wf(&self) -> bool {
        &&& gz_open(self.enc) == self.open
        &&& self.open <= FLUSH_LEN
        &&& HEADER_LEN <= self.written().len()
        &&& self.open == self.written().len() || {
            &&& HEADER_LEN + self.open <= self.written().len()
            &&& gunzipped(self.compressed(), HEADER_LEN as nat) == unpacked(
                self.written().take(self.written().len() - self.open),
                HEADER_LEN as nat,
                StreamEnd::Truncated,
            )
        }
    }

    /// Starts a log: the header is its first content.
    pub fn create() -> (r: Result<RecWriter, std::io::Error>)
        ensures
            r is Ok,
            r matches Ok(w) ==> w.wf() && w.written() == header_bytes() && w.stored() == Seq::<
                u8,
            >::empty(),
    {
        let mut enc = gz_new();
        let header: [u8; HEADER_LEN] = [0x44, 0x4d, 0x58, 0x52, 0x45, 0x43, 1, 0];
        assert(header@ =~= header_bytes());
        match gz_write_all(&mut enc, header.as_slice()) {
            Ok(_) => {
                assert(gz_input(enc) =~= header_bytes());
                Ok(RecWriter { enc, open: HEADER_LEN })
            },
            Err(e) => Err(e),
        }
    }

    /// Appends one event.
    pub fn write(&mut self, event: RecEvent) -> (r: Result<(), std::io::Error>)
        requires
            old(self).wf(),
        ensures
            r is Ok,
            final(self).wf(),
            final(self).written() == old(self).written() + event_bytes(event),
            final(self).stored() == old(self).stored(),
            old(self).compressed().is_prefix_of(final(self).compressed()),
    {
        let ghost log = self.written();
        if FLUSH_LEN - self.open < EVENT_LEN {
            match gz_flush(&mut self.enc) {
                Ok(_) => {
                    self.open = 0;
                    assert(log.take(log.len() as int) =~= log);
                },
                Err(e) => {
                    return Err(e);
                },
            }
        }
        let b = event.to_bytes();
        let r = gz_write_all(&mut self.enc, b.as_slice());
        self.open = self.open + EVENT_LEN;
        assert(self.written().take(self.written().len() - self.open) =~= log.take(
            self.written().len() - self.open,
        ));
        r
    }

    /// The compressed bytes that came since the last call.
    pub fn draw(&mut self) -> (bytes: Vec<u8>)
        requires
            old(self).wf(),
        ensures
            final(self).wf(),
            final(self).written() == old(self).written(),
            final(self).compressed() == old(self).compressed(),
            final(self).stored() == final(self).compressed(),
            final(self).stored() == old(self).stored() + bytes@,
    {
        let bytes = gz_take(&mut self.enc);
        assert(self.compressed() =~= old(self).compressed());
        bytes
    }

    /// Makes everything written so far readable from what is stored, and gives the
    /// bytes to store for that: reading them back gives the events so far. The stream stays
    /// open: a crash after this point loses at most what came later.
    pub fn sync(&mut self) -> (r: Result<Vec<u8>, std::io::Error>)
        requires
            old(self).wf(),
        ensures
            r is Ok,
            final(self).wf(),
            final(self).written() == old(self).written(),
            old(self).compressed().is_prefix_of(final(self).compressed()),
            final(self).stored() == final(self).compressed(),
            r matches Ok(bytes) ==> final(self).stored() == old(self).stored() + bytes@,
            gunzipped(final(self).stored(), HEADER_LEN as nat) == unpacked(
                final(self).written(),
                HEADER_LEN as nat,
                StreamEnd::Truncated,
            ),
            forall|events: Seq<RecEvent>|
                final(self).written() == #[trigger] log_bytes(events) ==> parsed(
                    gunzipped(final(self).stored(), HEADER_LEN as nat),
                ) == Ok::<Seq<RecEvent>, RecError>(events),
    {
        match gz_flush(&mut self.enc) {
            Ok(_) => {
                self.open = 0;
                assert(self.written().take(self.written().len() as int) =~= self.written());
                let bytes = self.draw();
                proof {
                    lemma_logs_read_back();
                }
                Ok(bytes)
            },
            Err(e) => Err(e),
        }
    }

    /// Ends the stream and gives the last bytes to store: reading the file back gives the
    /// events that were written.
    pub fn finish(self) -> (r: Result<Vec<u8>, std::io::Error>)
        requires
            self.wf(),
        ensures
            r is Ok,
            r matches Ok(bytes) ==> self.compressed().is_prefix_of(self.stored() + bytes@),
            r matches Ok(bytes) ==> gunzipped(self.stored() + bytes@, HEADER_LEN as nat)
                == unpacked(self.written(), HEADER_LEN as nat, StreamEnd::Complete),
            r matches Ok(bytes) ==> forall|events: Seq<RecEvent>|
                self.written() == #[trigger] log_bytes(events) ==> parsed(
                    gunzipped(self.stored() + bytes@, HEADER_LEN as nat),
                ) == Ok::<Seq<RecEvent>, RecError>(events),
    {
        proof {
            lemma_logs_read_back();
        }
        gz_finish(self.enc)
    }
}

proof fn lemma_log(events: Seq<RecEvent>)
    ensures
        log_bytes(events).len() == HEADER_LEN + EVENT_LEN * events.len(),
        log_bytes(events).take(HEADER_LEN as int) == header_bytes(),
        forall|i: int|
            0 <= i < events.len() ==> #[trigger] record(
                log_bytes(events).skip(HEADER_LEN as int),
                i,
            ) == event_bytes(events[i]),
    decreases events.len(),
{
    let log = log_bytes(events);
    let body = log.skip(HEADER_LEN as int);
    if events.len() == 0 {
        assert(log.take(HEADER_LEN as int) =~= header_bytes());
    } else {
        let before = events.drop_last();
        lemma_log(before);
        law_event_roundtrip(events.last());
        assert(log.take(HEADER_LEN as int) =~= log_bytes(before).take(HEADER_LEN as int));
        assert forall|i: int| 0 <= i < events.len() implies #[trigger] record(body, i)
            == event_bytes(events[i]) by {
            if i < before.len() {
                assert(record(body, i) =~= record(
                    log_bytes(before).skip(HEADER_LEN as int),
                    i,
                ));
            } else {
                assert(record(body, i) =~= event_bytes(events.last()));
            }
        }
    }
}

/// What a log reads as after its stream stopped anywhere past the header: the events
/// whose records came through whole, as they were written. A crash loses the end of a
/// take and nothing before it.
pub proof fn law_cut_log_reads_back(events: Seq<RecEvent>, len: nat, end: StreamEnd)
    requires
        HEADER_LEN <= len <= log_bytes(events).len(),
        end != StreamEnd::Corrupt,
    ensures
        parsed(unpacked(log_bytes(events).take(len as int), HEADER_LEN as nat, end)) == Ok::<
            Seq<RecEvent>,
            RecError,
        >(events.take((len - HEADER_LEN) / EVENT_LEN as int)),
{
    let log = log_bytes(events);
    let cut = log.take(len as int);
    let header = cut.take(HEADER_LEN as int);
    let body = cut.skip(HEADER_LEN as int);
    let n = (len - HEADER_LEN) / EVENT_LEN as int;
    lemma_log(events);
    assert(header =~= log.take(HEADER_LEN as int));
    assert(header.take(6) =~= magic()) by {
        assert(forall|i: int| 0 <= i < 6 ==> header_bytes()[i] == magic()[i]);
    }
    assert forall|i: int| 0 <= i < n implies event_of(record(body, i)) == events[i] by {
        assert(record(body, i) =~= record(log.skip(HEADER_LEN as int), i));
        law_event_roundtrip(events[i]);
    }
    assert(records(body) =~= events.take(n));
}

/// A crash loses little: once a log is longer than what comes between two flushes, what the
/// encoder gave out so far reads back as the events that were written, but for the last few.
pub proof fn law_crash_loses_little(w: RecWriter, events: Seq<RecEvent>)
    requires
        w.wf(),
        w.written() == log_bytes(events),
        FLUSH_LEN < w.written().len(),
    ensures
        exists|n: int|
            0 <= n <= events.len() && (events.len() - n) * EVENT_LEN <= FLUSH_LEN + EVENT_LEN
                && parsed(gunzipped(w.compressed(), HEADER_LEN as nat)) == Ok::<
                Seq<RecEvent>,
                RecError,
            >(#[trigger] events.take(n)),
{
    let log = w.written();
    let len = (log.len() - w.open) as nat;
    let n = (len - HEADER_LEN) / EVENT_LEN as int;
    lemma_log(events);
    law_cut_log_reads_back(events, len, StreamEnd::Truncated);
    assert(parsed(gunzipped(w.compressed(), HEADER_LEN as nat)) == Ok::<Seq<RecEvent>, RecError>(
        events.take(n),
    ));
}

/// One more event written makes the log of one more event.
pub proof fn law_log_grows(events: Seq<RecEvent>, e: RecEvent)
    ensures
        log_bytes(events) + event_bytes(e) == log_bytes(events.push(e)),
{
    assert(events.push(e).drop_last() =~= events);
}

proof fn lemma_logs_read_back()
    ensures
        forall|events: Seq<RecEvent>|
            parsed(
                unpacked(#[trigger] log_bytes(events), HEADER_LEN as nat, StreamEnd::Complete),
            ) == Ok::<Seq<RecEvent>, RecError>(events),
        forall|events: Seq<RecEvent>|
            parsed(
                unpacked(#[trigger] log_bytes(events), HEADER_LEN as nat, StreamEnd::Truncated),
            ) == Ok::<Seq<RecEvent>, RecError>(events),
{
    assert forall|events: Seq<RecEvent>|
        parsed(unpacked(#[trigger] log_bytes(events), HEADER_LEN as nat, StreamEnd::Complete))
            == Ok::<Seq<RecEvent>, RecError>(events) by {
        law_log_reads_back(events);
    }
    assert forall|events: Seq<RecEvent>|
        parsed(unpacked(#[trigger] log_bytes(events), HEADER_LEN as nat, StreamEnd::Truncated))
            == Ok::<Seq<RecEvent>, RecError>(events) by {
        law_log_reads_back(events);
    }
}

/// Reading a finished log gives back exactly the events that were written, and so does
/// reading one whose stream was flushed behind them and then cut.
pub proof fn law_log_reads_back(events: Seq<RecEvent>)
    ensures
        parsed(unpacked(log_bytes(events), HEADER_LEN as nat, StreamEnd::Complete)) == Ok::<
            Seq<RecEvent>,
            RecError,
        >(events),
        parsed(unpacked(log_bytes(events), HEADER_LEN as nat, StreamEnd::Truncated)) == Ok::<
            Seq<RecEvent>,
            RecError,
        >(events),
{
    lemma_log(events);
    let len = log_bytes(events).len();
    assert((len - HEADER_LEN) / EVENT_LEN as int == events.len());
    assert(log_bytes(events).take(len as int) =~= log_bytes(events));
    assert(events.take(events.len() as int) =~= events);
    law_cut_log_reads_back(events, len, StreamEnd::Complete);
    law_cut_log_reads_back(events, len, StreamEnd::Truncated);
}

/// A record is nine bytes: four of the time, two of the universe and two of the channel,
/// each with the lowest byte first, and the value.
pub proof fn law_record_layout(e: RecEvent)
    ensures
        ({
            let b = event_bytes(e);
            &&& b.len() == 9
            &&& e.t_ms == b[0] + 0x100 * b[1] + 0x10000 * b[2] + 0x1000000 * b[3]
            &&& e.universe == b[4] + 0x100 * b[5]
            &&& e.channel == b[6] + 0x100 * b[7]
            &&& e.value == b[8]
        }),
{
}

/// A log starts with the eight bytes `DMXREC`, one and zero; behind them event `i` is the
/// nine bytes from place `8 + 9 * i` on.
pub proof fn law_log_layout(events: Seq<RecEvent>, i: int)
    ensures
        log_bytes(events).len() == 8 + 9 * events.len(),
        log_bytes(events)[0] == 'D' as u8 && log_bytes(events)[1] == 'M' as u8,
        log_bytes(events)[2] == 'X' as u8 && log_bytes(events)[3] == 'R' as u8,
        log_bytes(events)[4] == 'E' as u8 && log_bytes(events)[5] == 'C' as u8,
        log_bytes(events)[6] == 1 && log_bytes(events)[7] == 0,
        0 <= i < events.len() ==> log_bytes(events).subrange(8 + 9 * i, 8 + 9 * i + 9)
            == event_bytes(events[i]),
    decreases events.len(),
{
    if events.len() > 0 {
        let less = log_bytes(events.drop_last());
        law_log_layout(events.drop_last(), i);
        if 0 <= i < events.len() - 1 {
            assert(log_bytes(events).subrange(8 + 9 * i, 8 + 9 * i + 9) =~= less.subrange(
                8 + 9 * i,
                8 + 9 * i + 9,
            ));
            assert(events.drop_last()[i] == events[i]);
        } else if i == events.len() - 1 {
            assert(log_bytes(events).subrange(8 + 9 * i, 8 + 9 * i + 9) =~= event_bytes(
                events.last(),
            ));
        }
    }
}

/// What lies behind the header is read nine bytes at a time; a rest of fewer is dropped.
pub proof fn law_records_are_read_in_order(body: Seq<u8>, i: int)
    ensures
        9 * records(body).len() <= body.len() < 9 * records(body).len() + 9,
        0 <= i < records(body).len() ==> ({
            let e = records(body)[i];
            &&& e.t_ms == body[9 * i] + 0x100 * body[9 * i + 1] + 0x10000 * body[9 * i + 2]
                + 0x1000000 * body[9 * i + 3]
            &&& e.universe == body[9 * i + 4] + 0x100 * body[9 * i + 5]
            &&& e.channel == body[9 * i + 6] + 0x100 * body[9 * i + 7]
            &&& e.value == body[9 * i + 8]
        }),
{
    assert(body.len() / 9 * 9 <= body.len());
    if 0 <= i < records(body).len() {
        assert(9 * i + 9 <= body.len());
        let r = record(body, i);
        assert(r[0] == body[9 * i] && r[1] == body[9 * i + 1] && r[2] == body[9 * i + 2] && r[3]
            == body[9 * i + 3] && r[4] == body[9 * i + 4] && r[5] == body[9 * i + 5] && r[6]
            == body[9 * i + 6] && r[7] == body[9 * i + 7] && r[8] == body[9 * i + 8]);
    }
}

/// What a log is refused for: first a header that did not come through, then one that is
/// not that of a log, then one of another version, and last damage behind it. Every other
/// log is read, one that stops early too.
pub proof fn law_refused_logs(u: Unpacked)
    ensures
        ({
            let short = u.0.len() < 8;
            let named = u.0[0] == 0x44 && u.0[1] == 0x4d && u.0[2] == 0x58 && u.0[3] == 0x52
                && u.0[4] == 0x45 && u.0[5] == 0x43;
            let version = u.0[6] + 0x100 * u.0[7];
            let damaged = u.2 == StreamEnd::Corrupt;
            match parsed(u) {
                Err(RecError::Truncated) => short && !damaged,
                Err(RecError::Corrupt) => damaged && (short || (named && version == 1)),
                Err(RecError::NotRec) => !short && !named,
                Err(RecError::Version(v)) => !short && named && version != 1 && v == version,
                Ok(events) => !short && named && version == 1 && !damaged && events == records(
                    u.1,
                ),
            }
        }),
{
    if u.0.len() >= 8 {
        let six = u.0.take(6);
        assert(six[0] == u.0[0] && six[1] == u.0[1] && six[2] == u.0[2] && six[3] == u.0[3]
            && six[4] == u.0[4] && six[5] == u.0[5]);
        if u.0[0] == 0x44 && u.0[1] == 0x4d && u.0[2] == 0x58 && u.0[3] == 0x52 && u.0[4] == 0x45
            && u.0[5] == 0x43 {
            assert(six =~= magic());
        }
    }
}

} // verus!
