//! Raw three-byte channel messages and their port-tagged form.

use vstd::prelude::*;

verus! {

/// A raw three-byte channel message as the device layer delivers and accepts it.
#[derive(Clone, Copy, Debug, PartialEq, Eq, Structural)]
pub struct RawEvent {
    pub status: u8,
    pub data1: u8,
    pub data2: u8,
}

/// A three-byte channel message tagged with the index of the port it came
/// from or is meant for.
#[derive(Clone, Copy, Debug, PartialEq, Eq, Structural)]
pub struct MidiEvent {
    pub port: u8,
    pub status: u8,
    pub data1: u8,
    pub data2: u8,
}

impl RawEvent {
    /// The three bytes in device order.
    pub open spec fn bytes_spec(self) -> Seq<u8> {
        seq![self.status, self.data1, self.data2]
    }

    /// The event tagged with a port index.
    pub open spec fn tagged_spec(self, port: u8) -> MidiEvent {
        MidiEvent { port, status: self.status, data1: self.data1, data2: self.data2 }
    }

    /// A status byte has its high bit set; both data bytes have it clear.
    pub open spec fn is_valid_spec(self) -> bool {
        self.status >= 0x80 && self.data1 < 0x80 && self.data2 < 0x80
    }

    pub fn new(status: u8, data1: u8, data2: u8) -> (r: RawEvent)
        ensures
            r == (RawEvent { status, data1, data2 }),
    {
        RawEvent { status, data1, data2 }
    }

    /// Reads a raw event from the first three bytes of a device buffer.
    /// Buffers shorter than three bytes hold no channel message.
    pub fn from_bytes(bytes: &[u8]) -> (r: Option<RawEvent>)
        ensures
            bytes@.len() < 3 ==> r is None,
            bytes@.len() >= 3 ==> r == Some(
                RawEvent { status: bytes@[0], data1: bytes@[1], data2: bytes@[2] },
            ),
    {
        if bytes.len() < 3 {
            None
        } else {
            Some(RawEvent { status: bytes[0], data1: bytes[1], data2: bytes[2] })
        }
    }

    pub fn bytes(&self) -> (r: [u8; 3])
        ensures
            r@ == self.bytes_spec(),
    {
        let r: [u8; 3] = [self.status, self.data1, self.data2];
        assert(r@ =~= self.bytes_spec());
        r
    }

    pub fn tagged(&self, port: u8) -> (r: MidiEvent)
        ensures
            r == self.tagged_spec(port),
    {
        MidiEvent { port, status: self.status, data1: self.data1, data2: self.data2 }
    }

    pub fn is_valid(&self) -> (r: bool)
        ensures
            r == self.is_valid_spec(),
    {
        self.status >= 0x80 && self.data1 < 0x80 && self.data2 < 0x80
    }
}

impl MidiEvent {
    /// The message without its port tag.
    pub open spec fn raw_spec(self) -> RawEvent {
        RawEvent { status: self.status, data1: self.data1, data2: self.data2 }
    }

    /// The four payload bytes in wire order: port, status, first and second data byte.
    pub open spec fn payload_spec(self) -> Seq<u8> {
        seq![self.port, self.status, self.data1, self.data2]
    }

    pub open spec fn is_valid_spec(self) -> bool {
        self.raw_spec().is_valid_spec()
    }

    pub fn new(port: u8, status: u8, data1: u8, data2: u8) -> (r: MidiEvent)
        ensures
            r == (MidiEvent { port, status, data1, data2 }),
    {
        MidiEvent { port, status, data1, data2 }
    }

    pub fn raw(&self) -> (r: RawEvent)
        ensures
            r == self.raw_spec(),
    {
        RawEvent { status: self.status, data1: self.data1, data2: self.data2 }
    }

    pub fn is_valid(&self) -> (r: bool)
        ensures
            r == self.is_valid_spec(),
    {
        self.status >= 0x80 && self.data1 < 0x80 && self.data2 < 0x80
    }
}

/// Tagging an event with a port and stripping the tag again gives the event
/// back, and the tag is the port that was given.
pub proof fn lemma_tag_then_raw(e: RawEvent, port: u8)
    ensures
        e.tagged_spec(port).raw_spec() == e,
        e.tagged_spec(port).port == port,
        e.tagged_spec(port).is_valid_spec() == e.is_valid_spec(),
{
}

} // verus!
