//! The datagram that carries one event: an OSC message at `/midi` whose one
//! argument is the event as a MIDI value. Encoding and decoding are done by
//! the `rosc` crate; what is accepted from the network is decided here.

use crate::event::MidiEvent;
use vstd::prelude::*;

verus! {

/// Declares the error type of the OSC codec so that its results can be carried.
#[verifier::external_type_specification]
#[verifier::external_body]
pub struct ExOscError(rosc::OscError);

/// One argument of an OSC message, as far as the bridge reads it.
#[derive(Clone, Copy, Debug, PartialEq, Eq, Structural)]
pub enum WireArg {
    Midi(MidiEvent),
    Other,
}

/// A decoded OSC packet, as far as the bridge reads it: a message with its
/// address bytes and arguments, or a bundle.
#[derive(Debug)]
pub enum WirePacket {
    Message { addr: Vec<u8>, args: Option<Vec<WireArg>> },
    Bundle,
}

pub enum WirePacketView {
    Message { addr: Seq<u8>, args: Option<Seq<WireArg>> },
    Bundle,
}

impl View for WirePacket {
    type V = WirePacketView;

    open spec fn view(&self) -> WirePacketView {
        match self {
            WirePacket::Message { addr, args } => WirePacketView::Message {
                addr: addr@,
                args: match args {
                    Some(v) => Some(v@),
                    None => None,
                },
            },
            WirePacket::Bundle => WirePacketView::Bundle,
        }
    }
}

/// Why a datagram yields no event.
#[derive(Clone, Copy, Debug, PartialEq, Eq, Structural)]
pub enum DecodeError {
    /// Fewer bytes than a header and one payload.
    Truncated,
    /// The leading bytes are not the bridge's address and type tags.
    NotMidi,
    /// The payload is no channel message: its status byte has the high bit
    /// clear, or a data byte has it set.
    InvalidEvent,
    /// The OSC codec refused the datagram or decoded another shape.
    Rejected,
}

/// Why an event yields no datagram.
#[derive(Clone, Copy, Debug, PartialEq, Eq, Structural)]
pub enum EncodeError {
    /// The OSC codec refused the message.
    Rejected,
}

/// Bytes of every frame before the payload.
pub const HEADER_LEN: usize = 12;

/// Bytes of a whole frame.
pub const FRAME_LEN: usize = 16;

/// The address `/midi` that every message of the bridge is sent to.
pub open spec fn midi_address() -> Seq<u8> {
    seq![0x2fu8, 0x6du8, 0x69u8, 0x64u8, 0x69u8]
}

/// The type tag string `,m`: one MIDI argument.
pub open spec fn midi_type_tags() -> Seq<u8> {
    seq![0x2cu8, 0x6du8]
}

/// An OSC string: the bytes, a terminating zero, and zeros up to the next
/// multiple of four.
pub open spec fn osc_padded(s: Seq<u8>) -> Seq<u8> {
    s + Seq::new((4 - s.len() % 4) as nat, |i: int| 0u8)
}

/// The OSC message at `addr` whose one argument is the event.
pub open spec fn message_bytes(addr: Seq<u8>, m: MidiEvent) -> Seq<u8> {
    osc_padded(addr) + osc_padded(midi_type_tags()) + m.payload_spec()
}

/// What every frame begins with: the padded address and the padded type tags.
pub open spec fn frame_header() -> Seq<u8> {
    osc_padded(midi_address()) + osc_padded(midi_type_tags())
}

/// The datagram that carries an event.
pub open spec fn datagram_spec(m: MidiEvent) -> Seq<u8> {
    message_bytes(midi_address(), m)
}

/// A datagram that begins with the header and holds a whole payload.
pub open spec fn has_midi_frame(data: Seq<u8>) -> bool {
    data.len() >= FRAME_LEN && data.subrange(0, HEADER_LEN as int) == frame_header()
}

/// The event in the payload bytes of a framed datagram.
pub open spec fn payload_event(data: Seq<u8>) -> MidiEvent
    recommends
        data.len() >= FRAME_LEN,
{
    MidiEvent { port: data[12], status: data[13], data1: data[14], data2: data[15] }
}

/// What decoding a datagram gives.
pub open spec fn decode_spec(data: Seq<u8>) -> Result<MidiEvent, DecodeError> {
    if data.len() < FRAME_LEN {
        Err(DecodeError::Truncated)
    } else if data.subrange(0, HEADER_LEN as int) != frame_header() {
        Err(DecodeError::NotMidi)
    } else if !payload_event(data).is_valid_spec() {
        Err(DecodeError::InvalidEvent)
    } else {
        Ok(payload_event(data))
    }
}

/// The MIDI arguments of a message at `addr`, in order; nothing for a bundle,
/// a message at another address, or a message without arguments.
pub open spec fn midi_arguments_spec(packet: WirePacketView, addr: Seq<u8>) -> Seq<MidiEvent> {
    match packet {
        WirePacketView::Message { addr: a, args: Some(list) } => if a == addr {
            midi_of(list)
        } else {
            Seq::empty()
        },
        _ => Seq::empty(),
    }
}

/// Whether an argument is a MIDI value.
pub open spec fn is_midi() -> spec_fn(WireArg) -> bool {
    |a: WireArg| a is Midi
}

/// The events of the MIDI arguments in a list, in order.
pub open spec fn midi_of(list: Seq<WireArg>) -> Seq<MidiEvent> {
    list.filter(is_midi()).map_values(|a: WireArg| a->Midi_0)
}

/// Calls `rosc::encoder::encode` on a message at `addr` with one MIDI
/// argument. For such a message the encoder cannot fail; it writes the
/// address as an OSC string, the type tags `,m` as an OSC string, and the
/// four bytes port, status, data1, data2.
#[verifier::external_body]
fn osc_encode(addr: &[u8], m: &MidiEvent) -> (r: Result<Vec<u8>, rosc::OscError>)
    requires
        forall|i: int| 0 <= i < addr@.len() ==> addr@[i] < 0x80,
    ensures
        r is Ok,
        r is Ok ==> r->Ok_0@ == message_bytes(addr@, *m),
{
    let midi = rosc::OscMidiMessage { port: m.port, status: m.status, data1: m.data1, data2: m.data2 };
    let addr = String::from_utf8_lossy(addr).into_owned();
    let msg = rosc::OscMessage { addr, args: Some(vec![rosc::OscType::Midi(midi)]) };
    rosc::encoder::encode(&rosc::OscPacket::Message(msg))
}

/// Calls `rosc::decoder::decode`. The decoder indexes past the end of a
/// MIDI argument that is cut short, so only framed datagrams are admitted.
/// On those it reads the address up to the first zero, skips to the type
/// tags `,m`, and reads the four bytes after them as one MIDI argument;
/// bytes after the payload are not read.
#[verifier::external_body]
fn osc_decode(data: &[u8]) -> (r: Result<WirePacket, rosc::OscError>)
    requires
        has_midi_frame(data@),
    ensures
        r is Ok,
        r is Ok ==> r->Ok_0@ == (WirePacketView::Message {
            addr: midi_address(),
            args: Some(seq![WireArg::Midi(payload_event(data@))]),
        }),
{
    Ok(match rosc::decoder::decode(data)? {
        rosc::OscPacket::Bundle(_) => WirePacket::Bundle,
        rosc::OscPacket::Message(msg) => WirePacket::Message {
            addr: msg.addr.into_bytes(),
            args: msg.args.map(|list| list.into_iter().map(|arg| match arg {
                rosc::OscType::Midi(x) => WireArg::Midi(MidiEvent::new(x.port, x.status, x.data1, x.data2)),
                _ => WireArg::Other,
            }).collect()),
        },
    })
}

/// The address bytes.
pub fn address() -> (r: Vec<u8>)
    ensures
        r@ == midi_address(),
{
    let mut r: Vec<u8> = Vec::new();
    r.push(0x2f);
    r.push(0x6d);
    r.push(0x69);
    r.push(0x64);
    r.push(0x69);
    assert(r@ =~= midi_address());
    r
}

/// Whether two byte strings are equal.
pub fn bytes_equal(a: &[u8], b: &[u8]) -> (r: bool)
    ensures
        r == (a@ == b@),
{
    if a.len() != b.len() {
        return false;
    }
    let mut i: usize = 0;
    while i < a.len()
        invariant
            a@.len() == b@.len(),
            i <= a@.len(),
            forall|j: int| 0 <= j < i ==> a@[j] == b@[j],
        decreases a@.len() - i,
    {
        if a[i] != b[i] {
            return false;
        }
        i += 1;
    }
    assert(a@ =~= b@);
    true
}

/// Appends a byte string as an OSC string.
pub fn push_padded(out: &mut Vec<u8>, s: &[u8])
    ensures
        final(out)@ == old(out)@ + osc_padded(s@),
{
    let ghost before = out@;
    let mut i: usize = 0;
    while i < s.len()
        invariant
            i <= s@.len(),
            out@ == before + s@.subrange(0, i as int),
        decreases s@.len() - i,
    {
        out.push(s[i]);
        i += 1;
        assert(out@ =~= before + s@.subrange(0, i as int));
    }
    assert(s@.subrange(0, s@.len() as int) =~= s@);
    let pad: usize = 4 - s.len() % 4;
    let mut k: usize = 0;
    while k < pad
        invariant
            k <= pad,
            out@ == before + s@ + Seq::new(k as nat, |i: int| 0u8),
        decreases pad - k,
    {
        out.push(0);
        k += 1;
        assert(out@ =~= before + s@ + Seq::new(k as nat, |i: int| 0u8));
    }
    assert(out@ =~= before + osc_padded(s@));
}

/// Whether a datagram begins with the frame header and holds a whole payload.
pub fn is_framed(data: &[u8]) -> (r: bool)
    ensures
        r == has_midi_frame(data@),
{
    if data.len() < FRAME_LEN {
        return false;
    }
    let mut header: Vec<u8> = Vec::new();
    let addr = address();
    push_padded(&mut header, addr.as_slice());
    let mut tags: Vec<u8> = Vec::new();
    tags.push(0x2c);
    tags.push(0x6d);
    assert(tags@ =~= midi_type_tags());
    push_padded(&mut header, tags.as_slice());
    assert(header@ =~= frame_header());
    proof {
        lemma_header_layout();
    }
    let mut i: usize = 0;
    while i < HEADER_LEN
        invariant
            i <= HEADER_LEN,
            header@ == frame_header(),
            header@.len() == HEADER_LEN,
            data@.len() >= FRAME_LEN,
            forall|j: int| 0 <= j < i ==> data@[j] == header@[j],
        decreases HEADER_LEN - i,
    {
        if data[i] != header[i] {
            assert(data@.subrange(0, HEADER_LEN as int)[i as int] != frame_header()[i as int]);
            return false;
        }
        i += 1;
    }
    assert(data@.subrange(0, HEADER_LEN as int) =~= frame_header());
    true
}

/// The MIDI arguments of a decoded message at `addr`, in order.
pub fn midi_arguments(packet: &WirePacket, addr: &[u8]) -> (r: Vec<MidiEvent>)
    ensures
        r@ == midi_arguments_spec(packet@, addr@),
{
    let mut found: Vec<MidiEvent> = Vec::new();
    match packet {
        WirePacket::Message { addr: a, args: Some(list) } => {
            if bytes_equal(a.as_slice(), addr) {
                let mut i: usize = 0;
                proof {
                    assert(list@.subrange(0, 0) =~= Seq::<WireArg>::empty());
                    lemma_midi_of_empty();
                }
                while i < list.len()
                    invariant
                        i <= list@.len(),
                        found@ == midi_of(list@.subrange(0, i as int)),
                    decreases list@.len() - i,
                {
                    proof {
                        let done = list@.subrange(0, i as int);
                        assert(list@.subrange(0, i + 1) =~= done.push(list@[i as int]));
                        lemma_midi_of_push(done, list@[i as int]);
                    }
                    match list[i] {
                        WireArg::Midi(m) => {
                            found.push(m);
                        },
                        WireArg::Other => {},
                    }
                    i += 1;
                }
                assert(list@.subrange(0, list@.len() as int) =~= list@);
            }
        },
        _ => {},
    }
    found
}

/// Encodes an event as the datagram that carries it. Every event has one.
pub fn encode(m: &MidiEvent) -> (r: Result<Vec<u8>, EncodeError>)
    ensures
        r matches Ok(b) && b@ == datagram_spec(*m),
{
    let addr = address();
    match osc_encode(addr.as_slice(), m) {
        Ok(b) => Ok(b),
        Err(_) => Err(EncodeError::Rejected),
    }
}

/// Decodes a datagram. A datagram that is too short, does not begin with
/// the frame header, or carries bytes that are no channel message is
/// refused; any other yields the event in its payload.
pub fn decode(data: &[u8]) -> (r: Result<MidiEvent, DecodeError>)
    ensures
        r == decode_spec(data@),
{
    if data.len() < FRAME_LEN {
        return Err(DecodeError::Truncated);
    }
    if !is_framed(data) {
        return Err(DecodeError::NotMidi);
    }
    match osc_decode(data) {
        Ok(packet) => {
            let addr = address();
            let events = midi_arguments(&packet, addr.as_slice());
            proof {
                let arg = WireArg::Midi(payload_event(data@));
                assert(seq![arg] =~= Seq::<WireArg>::empty().push(arg));
                lemma_midi_of_empty();
                lemma_midi_of_push(Seq::empty(), arg);
            }
            if events.len() == 1 {
                let m = events[0];
                if m.is_valid() {
                    Ok(m)
                } else {
                    Err(DecodeError::InvalidEvent)
                }
            } else {
                Err(DecodeError::Rejected)
            }
        },
        Err(_) => Err(DecodeError::Rejected),
    }
}

/// A list without arguments holds no event.
pub proof fn lemma_midi_of_empty()
    ensures
        midi_of(Seq::<WireArg>::empty()) == Seq::<MidiEvent>::empty(),
{
    reveal(Seq::filter);
    assert(midi_of(Seq::<WireArg>::empty()) =~= Seq::<MidiEvent>::empty());
}

/// One more argument at the end is one more event at the end if it is a
/// MIDI value, and none if it is not.
pub proof fn lemma_midi_of_push(list: Seq<WireArg>, arg: WireArg)
    ensures
        midi_of(list.push(arg)) == (match arg {
            WireArg::Midi(m) => midi_of(list).push(m),
            WireArg::Other => midi_of(list),
        }),
{
    list.lemma_filter_push(arg, is_midi());
    match arg {
        WireArg::Midi(m) => {
            assert(midi_of(list.push(arg)) =~= midi_of(list).push(m));
        },
        WireArg::Other => {},
    }
}

/// The header is the twelve bytes `/midi`, three zeros, `,m`, two zeros.
pub proof fn lemma_header_layout()
    ensures
        frame_header() == seq![
            0x2fu8, 0x6du8, 0x69u8, 0x64u8, 0x69u8, 0u8, 0u8, 0u8, 0x2cu8, 0x6du8, 0u8, 0u8,
        ],
        frame_header().len() == HEADER_LEN,
{
    assert(frame_header() =~= seq![
        0x2fu8, 0x6du8, 0x69u8, 0x64u8, 0x69u8, 0u8, 0u8, 0u8, 0x2cu8, 0x6du8, 0u8, 0u8,
    ]);
}

/// A datagram is the header followed by port, status and the two data bytes.
pub proof fn lemma_datagram_layout(m: MidiEvent)
    ensures
        datagram_spec(m) == frame_header() + m.payload_spec(),
        datagram_spec(m).len() == FRAME_LEN,
        has_midi_frame(datagram_spec(m)),
        payload_event(datagram_spec(m)) == m,
{
    lemma_header_layout();
    assert(datagram_spec(m).subrange(0, HEADER_LEN as int) =~= frame_header());
}

/// Decoding the datagram of a valid event gives that event back; the
/// datagram of any other event is refused.
pub proof fn lemma_decode_encode(m: MidiEvent)
    ensures
        m.is_valid_spec() ==> decode_spec(datagram_spec(m)) == Ok::<MidiEvent, DecodeError>(m),
        !m.is_valid_spec() ==> decode_spec(datagram_spec(m)) == Err::<MidiEvent, DecodeError>(
            DecodeError::InvalidEvent,
        ),
{
    lemma_datagram_layout(m);
}

/// Decoding reads its datagram and nothing else: equal datagrams decode to
/// equal results, however often they are decoded.
pub proof fn lemma_decode_replay(first: Seq<u8>, again: Seq<u8>)
    requires
        first == again,
    ensures
        decode_spec(first) == decode_spec(again),
{
}

/// A datagram that decodes holds a valid event and begins with the
/// datagram of that event.
pub proof fn lemma_encode_decode(data: Seq<u8>, m: MidiEvent)
    requires
        decode_spec(data) == Ok::<MidiEvent, DecodeError>(m),
    ensures
        m.is_valid_spec(),
        data.subrange(0, FRAME_LEN as int) == datagram_spec(m),
{
    lemma_header_layout();
    assert(data.subrange(0, HEADER_LEN as int) == frame_header());
    assert forall|i: int| 0 <= i < 12 implies data[i] == frame_header()[i] by {
        assert(data.subrange(0, HEADER_LEN as int)[i] == data[i]);
    }
    assert(data.subrange(0, FRAME_LEN as int) =~= datagram_spec(m));
}

} // verus!
