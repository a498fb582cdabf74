//! Operating mode, port counts, port names and transport addresses: what is
//! fixed at startup.

use vstd::prelude::*;

verus! {

/// Largest number of ports that one direction may register.
pub const MAX_PORTS: usize = 255;

/// Which transports run.
#[derive(Clone, Copy, Debug, PartialEq, Eq, Structural)]
pub enum Mode {
    /// Device to network only.
    Send,
    /// Network to device only.
    Receive,
    /// Both directions.
    Both,
}

/// How many ports each direction has. Ports are numbered from zero in the
/// order in which they are registered, each direction on its own.
#[derive(Clone, Copy, Debug, PartialEq, Eq, Structural)]
pub struct PortTable {
    pub inputs: u8,
    pub outputs: u8,
}

/// One of the two directions in which ports are registered.
#[derive(Clone, Copy, Debug, PartialEq, Eq, Structural)]
pub enum Direction {
    /// From the device into the bridge.
    Input,
    /// From the bridge to the device.
    Output,
}

/// Where events are sent when send mode names no destination.
pub const DEFAULT_SEND_ADDRESS: &'static str = "localhost:8953";

/// Where datagrams are awaited when receive mode names no address.
pub const DEFAULT_RECEIVE_ADDRESS: &'static str = "localhost:8953";

/// The local address that the sending socket is bound to.
pub const DEFAULT_BIND_ADDRESS: &'static str = "localhost:0";

/// The decimal digits of a number, most significant first, as ASCII.
pub open spec fn decimal(n: nat) -> Seq<u8>
    decreases n,
{
    if n < 10 {
        seq![(0x30 + n) as u8]
    } else {
        decimal(n / 10).push((0x30 + n % 10) as u8)
    }
}

/// `input_` or `output_`, in ASCII.
pub open spec fn name_prefix(direction: Direction) -> Seq<u8> {
    match direction {
        Direction::Input => seq![0x69u8, 0x6eu8, 0x70u8, 0x75u8, 0x74u8, 0x5fu8],
        Direction::Output => seq![0x6fu8, 0x75u8, 0x74u8, 0x70u8, 0x75u8, 0x74u8, 0x5fu8],
    }
}

/// The name under which a port is registered: the direction's prefix and
/// the port's index in decimal.
pub open spec fn port_name_spec(direction: Direction, index: u8) -> Seq<u8> {
    name_prefix(direction) + decimal(index as nat)
}

/// The address a transport uses: the one given, else the fallback where the
/// transport is enabled, else none.
pub open spec fn transport_address_spec<'a>(
    enabled: bool,
    given: Option<&'a str>,
    fallback: &'a str,
) -> Option<&'a str> {
    match given {
        Some(a) => Some(a),
        None => if enabled {
            Some(fallback)
        } else {
            None
        },
    }
}

pub fn transport_address<'a>(enabled: bool, given: Option<&'a str>, fallback: &'a str) -> (r:
    Option<&'a str>)
    ensures
        r == transport_address_spec(enabled, given, fallback),
{
    match given {
        Some(a) => Some(a),
        None => if enabled {
            Some(fallback)
        } else {
            None
        },
    }
}

/// Appends the decimal digits of a number.
pub fn push_decimal(out: &mut Vec<u8>, n: u8)
    ensures
        final(out)@ == old(out)@ + decimal(n as nat),
{
    proof {
        lemma_decimal_digits(n);
    }
    let ghost before = out@;
    if n >= 100 {
        out.push(0x30 + n / 100);
    }
    if n >= 10 {
        out.push(0x30 + (n / 10) % 10);
    }
    out.push(0x30 + n % 10);
    assert(out@ =~= before + decimal(n as nat));
}

/// The name under which a port is registered.
pub fn port_name(direction: Direction, index: u8) -> (r: Vec<u8>)
    ensures
        r@ == port_name_spec(direction, index),
{
    let mut name: Vec<u8> = Vec::new();
    match direction {
        Direction::Input => {
            name.push(0x69);
            name.push(0x6e);
        },
        Direction::Output => {
            name.push(0x6f);
            name.push(0x75);
            name.push(0x74);
        },
    }
    name.push(0x70);
    name.push(0x75);
    name.push(0x74);
    name.push(0x5f);
    assert(name@ =~= name_prefix(direction));
    push_decimal(&mut name, index);
    name
}

/// A number below 256 has one, two or three digits, which are its
/// hundreds, tens and ones.
pub proof fn lemma_decimal_digits(n: u8)
    ensures
        n < 10 ==> decimal(n as nat) == seq![(0x30 + n) as u8],
        10 <= n < 100 ==> decimal(n as nat) == seq![(0x30 + n / 10) as u8, (0x30 + n % 10) as u8],
        100 <= n ==> decimal(n as nat) == seq![
            (0x30 + n / 100) as u8,
            (0x30 + (n / 10) % 10) as u8,
            (0x30 + n % 10) as u8,
        ],
{
    reveal_with_fuel(decimal, 4);
    if n < 10 {
    } else if n < 100 {
        assert(decimal(n as nat) =~= seq![(0x30 + n / 10) as u8, (0x30 + n % 10) as u8]);
    } else {
        assert((n as nat) / 10 / 10 == n / 100);
        assert(decimal(n as nat) =~= seq![
            (0x30 + n / 100) as u8,
            (0x30 + (n / 10) % 10) as u8,
            (0x30 + n % 10) as u8,
        ]);
    }
}

/// Every byte of a port name is ASCII.
pub proof fn lemma_port_name_ascii(direction: Direction, index: u8)
    ensures
        forall|i: int|
            0 <= i < port_name_spec(direction, index).len() ==> port_name_spec(direction, index)[i]
                < 0x80,
{
    lemma_decimal_digits(index);
}

/// Two ports have the same name only if they are the same port: the same
/// direction and the same index.
pub proof fn lemma_port_names_differ(d1: Direction, i1: u8, d2: Direction, i2: u8)
    requires
        port_name_spec(d1, i1) == port_name_spec(d2, i2),
    ensures
        d1 == d2,
        i1 == i2,
{
    lemma_decimal_digits(i1);
    lemma_decimal_digits(i2);
    let a = port_name_spec(d1, i1);
    let b = port_name_spec(d2, i2);
    assert(a[0] == b[0]);
    assert(d1 == d2);
    let k = name_prefix(d1).len() as int;
    assert(a.len() == b.len());
    assert(decimal(i1 as nat).len() == decimal(i2 as nat).len());
    assert(a[k] == b[k]);
    if i1 >= 10 {
        assert(a[k + 1] == b[k + 1]);
    }
    if i1 >= 100 {
        assert(a[k + 2] == b[k + 2]);
    }
}

impl Mode {
    pub open spec fn sends_spec(self) -> bool {
        self == Mode::Send || self == Mode::Both
    }

    pub open spec fn receives_spec(self) -> bool {
        self == Mode::Receive || self == Mode::Both
    }

    /// The mode for the transports that were asked for; none where neither was.
    pub fn from_flags(send: bool, receive: bool) -> (r: Option<Mode>)
        ensures
            r is None <==> !send && !receive,
            r matches Some(m) ==> m.sends_spec() == send && m.receives_spec() == receive,
    {
        if send && receive {
            Some(Mode::Both)
        } else if send {
            Some(Mode::Send)
        } else if receive {
            Some(Mode::Receive)
        } else {
            None
        }
    }

    /// Whether device events go out to the network.
    pub fn sends(&self) -> (r: bool)
        ensures
            r == self.sends_spec(),
    {
        match self {
            Mode::Send => true,
            Mode::Receive => false,
            Mode::Both => true,
        }
    }

    /// Whether network messages come in to the device.
    pub fn receives(&self) -> (r: bool)
        ensures
            r == self.receives_spec(),
    {
        match self {
            Mode::Send => false,
            Mode::Receive => true,
            Mode::Both => true,
        }
    }
}

impl PortTable {
    /// The table for `count` ports in each direction that the mode runs.
    pub fn new(count: u8, mode: Mode) -> (r: PortTable)
        ensures
            r.inputs == (if mode.sends_spec() { count } else { 0u8 }),
            r.outputs == (if mode.receives_spec() { count } else { 0u8 }),
    {
        PortTable {
            inputs: if mode.sends() { count } else { 0 },
            outputs: if mode.receives() { count } else { 0 },
        }
    }
}

} // verus!
