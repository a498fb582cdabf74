//! The realtime side: what one processing period hands to the outbound
//! queue and what it writes on each output port.
//!
//! Both queues are taken to be unbounded. Enqueueing therefore never fails
//! and no input event is dropped here: where the network side is slow the
//! outbound queue grows. The only messages dropped are inbound ones that
//! name a port outside the output set; they are counted.

use crate::event::{MidiEvent, RawEvent};
use crate::ports::{PortTable, MAX_PORTS};
use vstd::prelude::*;

verus! {

/// The events of one input port, each tagged with that port.
pub open spec fn tag_all(events: Seq<RawEvent>, port: u8) -> Seq<MidiEvent> {
    events.map_values(|e: RawEvent| e.tagged_spec(port))
}

/// For each input port, its events tagged with its index.
pub open spec fn tagged_by_port(inputs: Seq<Seq<RawEvent>>) -> Seq<Seq<MidiEvent>> {
    Seq::new(inputs.len(), |p: int| tag_all(inputs[p], p as u8))
}

/// What one period's input gives the outbound queue: port by port in
/// registration order, each port's events in the order the device gave them.
pub open spec fn outbound_spec(inputs: Seq<Seq<RawEvent>>) -> Seq<MidiEvent> {
    tagged_by_port(inputs).flatten()
}

/// Whether a message names the given port.
pub open spec fn names_port(port: int) -> spec_fn(MidiEvent) -> bool {
    |m: MidiEvent| m.port == port
}

/// Whether a message names one of the first `outputs` ports.
pub open spec fn names_output(outputs: int) -> spec_fn(MidiEvent) -> bool {
    |m: MidiEvent| m.port < outputs
}

/// Whether a message names none of the first `outputs` ports.
pub open spec fn names_no_output(outputs: int) -> spec_fn(MidiEvent) -> bool {
    |m: MidiEvent| m.port >= outputs
}

/// The messages meant for one port, without their tag, in queue order.
pub open spec fn for_port(messages: Seq<MidiEvent>, port: int) -> Seq<RawEvent> {
    messages.filter(names_port(port)).map_values(|m: MidiEvent| m.raw_spec())
}

/// The messages whose port is one of the first `outputs`, in queue order.
pub open spec fn in_range(messages: Seq<MidiEvent>, outputs: int) -> Seq<MidiEvent> {
    messages.filter(names_output(outputs))
}

/// How many messages name a port that is not one of the first `outputs`.
pub open spec fn dropped_count(messages: Seq<MidiEvent>, outputs: int) -> nat {
    messages.filter(names_no_output(outputs)).len()
}

/// The event lists of a period, port by port.
pub open spec fn views(lists: Seq<Vec<RawEvent>>) -> Seq<Seq<RawEvent>> {
    Seq::new(lists.len(), |i: int| lists[i]@)
}

/// The counter after `more` further drops: it stops at its largest value.
pub open spec fn counted(before: u64, more: nat) -> u64 {
    if before + more > u64::MAX {
        u64::MAX
    } else {
        (before + more) as u64
    }
}

/// What the bridge hands over at the end of a period.
pub struct Period {
    /// Events for the outbound queue, in the order to enqueue them.
    pub outbound: Vec<MidiEvent>,
    /// For each output port, the events to write on it, in order.
    pub writes: Vec<Vec<RawEvent>>,
}

/// Inbound messages grouped for writing.
pub struct Routed {
    /// For each output port, the events to write on it, in order.
    pub writes: Vec<Vec<RawEvent>>,
    /// How many messages named no output port and were dropped.
    pub dropped: usize,
}

/// The realtime side of the bridge: its ports and its count of dropped
/// messages.
pub struct Bridge {
    pub ports: PortTable,
    pub dropped: u64,
}

/// Tags one port's events and appends them to the outbound events.
pub fn tag_events(out: &mut Vec<MidiEvent>, events: &Vec<RawEvent>, port: u8)
    ensures
        final(out)@ == old(out)@ + tag_all(events@, port),
{
    let ghost before = out@;
    let mut i: usize = 0;
    while i < events.len()
        invariant
            i <= events@.len(),
            out@ == before + tag_all(events@.subrange(0, i as int), port),
        decreases events@.len() - i,
    {
        out.push(events[i].tagged(port));
        i += 1;
        assert(out@ =~= before + tag_all(events@.subrange(0, i as int), port));
    }
    assert(events@.subrange(0, events@.len() as int) =~= events@);
}

/// Gathers one period's input for the outbound queue: every event of every
/// input port, tagged with the index of its port. The events tagged with a
/// port are that port's events, in the order the device gave them.
pub fn collect_outbound(inputs: &Vec<Vec<RawEvent>>) -> (r: Vec<MidiEvent>)
    requires
        inputs@.len() <= MAX_PORTS,
    ensures
        r@ == outbound_spec(views(inputs@)),
        forall|p: int| 0 <= p < inputs@.len() ==> for_port(r@, p) == (#[trigger] inputs@[p])@,
{
    let mut out: Vec<MidiEvent> = Vec::new();
    let mut p: usize = 0;
    assert(tagged_by_port(views(inputs@).subrange(0, 0)) =~= Seq::<Seq<MidiEvent>>::empty());
    while p < inputs.len()
        invariant
            p <= inputs@.len(),
            inputs@.len() <= MAX_PORTS,
            out@ == outbound_spec(views(inputs@).subrange(0, p as int)),
        decreases inputs@.len() - p,
    {
        proof {
            let done = views(inputs@).subrange(0, p as int);
            assert(views(inputs@).subrange(0, p + 1) =~= done.push(inputs@[p as int]@));
            lemma_outbound_push(done, inputs@[p as int]@);
        }
        let port: u8 = p as u8;
        tag_events(&mut out, &inputs[p], port);
        p += 1;
    }
    assert(views(inputs@).subrange(0, inputs@.len() as int) =~= views(inputs@));
    assert forall|q: int| 0 <= q < inputs@.len() implies for_port(out@, q) == (
    #[trigger] inputs@[q])@ by {
        lemma_outbound_keeps_port_order(views(inputs@), q);
    }
    out
}

/// Groups the messages taken from the inbound queue by output port, in one
/// pass over the queue. A message that names no output port is written
/// nowhere and counted.
pub fn route_inbound(messages: &Vec<MidiEvent>, outputs: usize) -> (r: Routed)
    ensures
        r.writes@.len() == outputs,
        forall|p: int| 0 <= p < outputs ==> (#[trigger] r.writes@[p])@ == for_port(messages@, p),
        r.dropped == dropped_count(messages@, outputs as int),
{
    let mut writes: Vec<Vec<RawEvent>> = Vec::new();
    let mut p: usize = 0;
    while p < outputs
        invariant
            p <= outputs,
            writes@.len() == p,
            forall|q: int| 0 <= q < p ==> (#[trigger] writes@[q])@ == Seq::<RawEvent>::empty(),
        decreases outputs - p,
    {
        writes.push(Vec::new());
        p += 1;
    }
    let mut dropped: usize = 0;
    let mut i: usize = 0;
    proof {
        assert(messages@.subrange(0, 0) =~= Seq::<MidiEvent>::empty());
        lemma_range_empty(outputs as int);
        assert forall|q: int| 0 <= q < outputs implies (#[trigger] writes@[q])@ == for_port(
            messages@.subrange(0, 0),
            q,
        ) by {
            lemma_for_port_empty(q);
        }
    }
    while i < messages.len()
        invariant
            i <= messages@.len(),
            dropped <= i,
            writes@.len() == outputs,
            forall|q: int|
                0 <= q < outputs ==> (#[trigger] writes@[q])@ == for_port(
                    messages@.subrange(0, i as int),
                    q,
                ),
            dropped == dropped_count(messages@.subrange(0, i as int), outputs as int),
        decreases messages@.len() - i,
    {
        let m = messages[i];
        let port: usize = m.port as usize;
        let ghost before = writes@;
        if port < outputs {
            writes[port].push(m.raw());
        } else {
            dropped += 1;
        }
        proof {
            let done = messages@.subrange(0, i as int);
            assert(messages@.subrange(0, i + 1) =~= done.push(m));
            lemma_range_push(done, m, outputs as int);
            assert forall|q: int| 0 <= q < outputs implies (#[trigger] writes@[q])@ == for_port(
                done.push(m),
                q,
            ) by {
                lemma_for_port_push(done, m, q);
                assert(before[q]@ == for_port(done, q));
            }
        }
        i += 1;
    }
    assert(messages@.subrange(0, messages@.len() as int) =~= messages@);
    Routed { writes, dropped }
}

impl Bridge {
    /// A bridge over the given ports that has dropped nothing yet.
    pub fn new(ports: PortTable) -> (r: Bridge)
        ensures
            r.ports == ports,
            r.dropped == 0,
    {
        Bridge { ports, dropped: 0 }
    }

    /// One processing period. The device's input becomes the outbound
    /// events; the messages taken from the inbound queue are grouped by
    /// output port; those that name no output port are dropped and counted.
    pub fn process(&mut self, inputs: &Vec<Vec<RawEvent>>, inbound: &Vec<MidiEvent>) -> (r: Period)
        requires
            inputs@.len() == old(self).ports.inputs,
        ensures
            final(self).ports == old(self).ports,
            final(self).dropped == counted(
                old(self).dropped,
                dropped_count(inbound@, old(self).ports.outputs as int),
            ),
            r.outbound@ == outbound_spec(views(inputs@)),
            forall|p: int|
                0 <= p < inputs@.len() ==> for_port(r.outbound@, p) == (#[trigger] inputs@[p])@,
            r.writes@.len() == old(self).ports.outputs,
            forall|p: int|
                0 <= p < old(self).ports.outputs ==> (#[trigger] r.writes@[p])@ == for_port(
                    inbound@,
                    p,
                ),
    {
        let outbound = collect_outbound(inputs);
        let outputs: usize = self.ports.outputs as usize;
        let routed = route_inbound(inbound, outputs);
        let more: u64 = routed.dropped as u64;
        self.dropped = self.dropped.saturating_add(more);
        Period { outbound, writes: routed.writes }
    }
}

/// No messages, nothing for any port.
pub proof fn lemma_for_port_empty(port: int)
    ensures
        for_port(Seq::<MidiEvent>::empty(), port) == Seq::<RawEvent>::empty(),
{
    reveal(Seq::filter);
    assert(for_port(Seq::<MidiEvent>::empty(), port) =~= Seq::<RawEvent>::empty());
}

/// One more message at the end of the queue is one more event at the end of
/// the port it names, and changes nothing for any other port.
pub proof fn lemma_for_port_push(messages: Seq<MidiEvent>, m: MidiEvent, port: int)
    ensures
        m.port == port ==> for_port(messages.push(m), port) == for_port(messages, port).push(
            m.raw_spec(),
        ),
        m.port != port ==> for_port(messages.push(m), port) == for_port(messages, port),
{
    messages.lemma_filter_push(m, names_port(port));
    if m.port == port {
        assert(for_port(messages.push(m), port) =~= for_port(messages, port).push(m.raw_spec()));
    }
}

/// Of no messages none is in range and none is dropped.
pub proof fn lemma_range_empty(outputs: int)
    ensures
        in_range(Seq::<MidiEvent>::empty(), outputs) == Seq::<MidiEvent>::empty(),
        dropped_count(Seq::<MidiEvent>::empty(), outputs) == 0,
{
    reveal(Seq::filter);
}

/// One more message at the end of the queue is kept if it names an output
/// port and counted as dropped if it does not.
pub proof fn lemma_range_push(messages: Seq<MidiEvent>, m: MidiEvent, outputs: int)
    ensures
        m.port < outputs ==> in_range(messages.push(m), outputs) == in_range(
            messages,
            outputs,
        ).push(m) && dropped_count(messages.push(m), outputs) == dropped_count(messages, outputs),
        m.port >= outputs ==> in_range(messages.push(m), outputs) == in_range(messages, outputs)
            && dropped_count(messages.push(m), outputs) == dropped_count(messages, outputs) + 1,
{
    messages.lemma_filter_push(m, names_output(outputs));
    messages.lemma_filter_push(m, names_no_output(outputs));
}

/// One more port at the end adds its tagged events at the end of the
/// outbound events.
pub proof fn lemma_outbound_push(inputs: Seq<Seq<RawEvent>>, events: Seq<RawEvent>)
    ensures
        outbound_spec(inputs.push(events)) == outbound_spec(inputs) + tag_all(
            events,
            inputs.len() as u8,
        ),
{
    let tagged = tag_all(events, inputs.len() as u8);
    assert(tagged_by_port(inputs.push(events)) =~= tagged_by_port(inputs).push(tagged));
    tagged_by_port(inputs).lemma_flatten_push(tagged);
}

/// Splitting a queue in two splits each port's messages the same way.
pub proof fn lemma_for_port_concat(a: Seq<MidiEvent>, b: Seq<MidiEvent>, port: int)
    ensures
        for_port(a + b, port) == for_port(a, port) + for_port(b, port),
{
    Seq::filter_distributes_over_add(a, b, names_port(port));
    assert(for_port(a + b, port) =~= for_port(a, port) + for_port(b, port));
}

/// The events tagged with one port are all meant for that port and for no
/// other, and untagged they are the events that were tagged.
pub proof fn lemma_for_port_of_tagged(events: Seq<RawEvent>, tag: u8, port: int)
    ensures
        tag == port ==> for_port(tag_all(events, tag), port) == events,
        tag != port ==> for_port(tag_all(events, tag), port) == Seq::<RawEvent>::empty(),
    decreases events.len(),
{
    if events.len() == 0 {
        assert(tag_all(events, tag) =~= Seq::<MidiEvent>::empty());
        lemma_for_port_empty(port);
        assert(events =~= Seq::<RawEvent>::empty());
    } else {
        let rest = events.drop_last();
        lemma_for_port_of_tagged(rest, tag, port);
        assert(tag_all(events, tag) =~= tag_all(rest, tag).push(events.last().tagged_spec(tag)));
        lemma_for_port_push(tag_all(rest, tag), events.last().tagged_spec(tag), port);
        if tag == port {
            assert(rest.push(events.last()) =~= events);
        }
    }
}

/// Among the outbound events of a period, those tagged with an input port
/// are that port's events in the order the device gave them, and no event
/// carries the tag of a port that it did not come from.
pub proof fn lemma_outbound_keeps_port_order(inputs: Seq<Seq<RawEvent>>, port: int)
    requires
        inputs.len() <= MAX_PORTS,
    ensures
        0 <= port < inputs.len() ==> for_port(outbound_spec(inputs), port) == inputs[port],
        !(0 <= port < inputs.len()) ==> for_port(outbound_spec(inputs), port) == Seq::<
            RawEvent,
        >::empty(),
    decreases inputs.len(),
{
    if inputs.len() == 0 {
        assert(tagged_by_port(inputs) =~= Seq::<Seq<MidiEvent>>::empty());
        lemma_for_port_empty(port);
    } else {
        let rest = inputs.drop_last();
        let tag = (inputs.len() - 1) as u8;
        assert(inputs =~= rest.push(inputs.last()));
        lemma_outbound_push(rest, inputs.last());
        lemma_outbound_keeps_port_order(rest, port);
        lemma_for_port_concat(outbound_spec(rest), tag_all(inputs.last(), tag), port);
        lemma_for_port_of_tagged(inputs.last(), tag, port);
        if 0 <= port < rest.len() {
            assert(rest[port] == inputs[port]);
            assert(for_port(outbound_spec(inputs), port) =~= inputs[port]);
        } else if port == inputs.len() - 1 {
            assert(for_port(outbound_spec(inputs), port) =~= inputs[port]);
        } else {
            assert(for_port(outbound_spec(inputs), port) =~= Seq::<RawEvent>::empty());
        }
    }
}

/// How many events the device delivered in a period, over all input ports.
pub open spec fn total_events(inputs: Seq<Seq<RawEvent>>) -> nat
    decreases inputs.len(),
{
    if inputs.len() == 0 {
        0
    } else {
        total_events(inputs.drop_last()) + inputs.last().len()
    }
}

/// As many events are enqueued as the device delivered.
pub proof fn lemma_outbound_length(inputs: Seq<Seq<RawEvent>>)
    ensures
        outbound_spec(inputs).len() == total_events(inputs),
    decreases inputs.len(),
{
    if inputs.len() == 0 {
        assert(tagged_by_port(inputs) =~= Seq::<Seq<MidiEvent>>::empty());
    } else {
        let rest = inputs.drop_last();
        assert(inputs =~= rest.push(inputs.last()));
        lemma_outbound_push(rest, inputs.last());
        lemma_outbound_length(rest);
    }
}

/// Valid events stay valid on their way out: where every event the device
/// gave is a valid channel message, so is every outbound event.
pub proof fn lemma_outbound_valid(inputs: Seq<Seq<RawEvent>>)
    requires
        forall|p: int, i: int|
            0 <= p < inputs.len() && 0 <= i < inputs[p].len() ==> (#[trigger] inputs[p][i])
                .is_valid_spec(),
    ensures
        forall|k: int|
            0 <= k < outbound_spec(inputs).len() ==> (#[trigger] outbound_spec(inputs)[k])
                .is_valid_spec(),
    decreases inputs.len(),
{
    if inputs.len() == 0 {
        assert(tagged_by_port(inputs) =~= Seq::<Seq<MidiEvent>>::empty());
    } else {
        let rest = inputs.drop_last();
        assert(inputs =~= rest.push(inputs.last()));
        lemma_outbound_push(rest, inputs.last());
        assert forall|p: int, i: int| 0 <= p < rest.len() && 0 <= i < rest[p].len() implies (
        #[trigger] rest[p][i]).is_valid_spec() by {
            assert(rest[p] == inputs[p]);
        }
        lemma_outbound_valid(rest);
        let tag = (inputs.len() - 1) as u8;
        let tail = tag_all(inputs.last(), tag);
        assert forall|k: int| 0 <= k < outbound_spec(inputs).len() implies (
        #[trigger] outbound_spec(inputs)[k]).is_valid_spec() by {
            if k >= outbound_spec(rest).len() {
                let i = k - outbound_spec(rest).len();
                assert(outbound_spec(inputs)[k] == tail[i]);
                assert(inputs[inputs.len() - 1][i].is_valid_spec());
            }
        }
    }
}

/// Valid messages stay valid on their way in: where every message taken
/// from the inbound queue is a valid channel message, so is every event
/// written on a port.
pub proof fn lemma_writes_valid(messages: Seq<MidiEvent>, port: int)
    requires
        forall|i: int| 0 <= i < messages.len() ==> (#[trigger] messages[i]).is_valid_spec(),
    ensures
        forall|k: int|
            0 <= k < for_port(messages, port).len() ==> (#[trigger] for_port(messages, port)[k])
                .is_valid_spec(),
    decreases messages.len(),
{
    if messages.len() == 0 {
        lemma_for_port_empty(port);
        assert(messages =~= Seq::<MidiEvent>::empty());
    } else {
        let rest = messages.drop_last();
        assert(messages =~= rest.push(messages.last()));
        lemma_for_port_push(rest, messages.last(), port);
        assert forall|i: int| 0 <= i < rest.len() implies (#[trigger] rest[i]).is_valid_spec() by {
            assert(rest[i] == messages[i]);
        }
        lemma_writes_valid(rest, port);
        assert(messages.last() == messages[messages.len() - 1]);
        assert(messages.last().is_valid_spec());
        assert forall|k: int| 0 <= k < for_port(messages, port).len() implies (#[trigger] for_port(
            messages,
            port,
        )[k]).is_valid_spec() by {
            if k < for_port(rest, port).len() {
                assert(for_port(messages, port)[k] == for_port(rest, port)[k]);
            } else {
                assert(for_port(messages, port)[k] == messages.last().raw_spec());
            }
        }
    }
}

/// Messages that name no output port reach no output: every port is written
/// what it would be written had those messages never been queued. Each
/// message is either in range or counted as dropped.
pub proof fn lemma_out_of_range_dropped(messages: Seq<MidiEvent>, outputs: int, port: int)
    requires
        0 <= port < outputs,
    ensures
        for_port(messages, port) == for_port(in_range(messages, outputs), port),
        in_range(messages, outputs).len() + dropped_count(messages, outputs) == messages.len(),
    decreases messages.len(),
{
    if messages.len() == 0 {
        assert(messages =~= Seq::<MidiEvent>::empty());
        lemma_range_empty(outputs);
    } else {
        let rest = messages.drop_last();
        let m = messages.last();
        assert(messages =~= rest.push(m));
        lemma_out_of_range_dropped(rest, outputs, port);
        lemma_range_push(rest, m, outputs);
        lemma_for_port_push(rest, m, port);
        if m.port < outputs {
            lemma_for_port_push(in_range(rest, outputs), m, port);
        }
    }
}

/// How many events the first `outputs` ports are written in all.
pub open spec fn written_count(messages: Seq<MidiEvent>, outputs: nat) -> nat
    decreases outputs,
{
    if outputs == 0 {
        0
    } else {
        written_count(messages, (outputs - 1) as nat) + for_port(messages, outputs - 1).len()
    }
}

/// One more message in the queue is one more event written if it names an
/// output port, and none if it does not.
pub proof fn lemma_written_count_push(messages: Seq<MidiEvent>, m: MidiEvent, outputs: nat)
    ensures
        written_count(messages.push(m), outputs) == written_count(messages, outputs) + (if (
        m.port as int) < outputs {
            1nat
        } else {
            0nat
        }),
    decreases outputs,
{
    if outputs > 0 {
        lemma_written_count_push(messages, m, (outputs - 1) as nat);
        lemma_for_port_push(messages, m, outputs - 1);
    }
}

/// Every message taken from the inbound queue is either written once, on
/// the port it names, or counted as dropped.
pub proof fn lemma_written_or_dropped(messages: Seq<MidiEvent>, outputs: nat)
    ensures
        written_count(messages, outputs) + dropped_count(messages, outputs as int)
            == messages.len(),
    decreases messages.len(), outputs,
{
    if messages.len() == 0 {
        assert(messages =~= Seq::<MidiEvent>::empty());
        lemma_range_empty(outputs as int);
        if outputs > 0 {
            lemma_for_port_empty(outputs - 1);
            lemma_written_or_dropped(messages, (outputs - 1) as nat);
        }
    } else {
        let rest = messages.drop_last();
        assert(messages =~= rest.push(messages.last()));
        lemma_written_or_dropped(rest, outputs);
        lemma_written_count_push(rest, messages.last(), outputs);
        lemma_range_push(rest, messages.last(), outputs as int);
    }
}

/// A queue of messages that all name no output port leaves every output
/// port without anything to write, and all of them are counted.
pub proof fn lemma_all_out_of_range(messages: Seq<MidiEvent>, outputs: int, port: int)
    requires
        0 <= port < outputs,
        forall|i: int| 0 <= i < messages.len() ==> (#[trigger] messages[i]).port >= outputs,
    ensures
        for_port(messages, port) == Seq::<RawEvent>::empty(),
        dropped_count(messages, outputs) == messages.len(),
    decreases messages.len(),
{
    if messages.len() == 0 {
        assert(messages =~= Seq::<MidiEvent>::empty());
        lemma_range_empty(outputs);
        lemma_for_port_empty(port);
    } else {
        let rest = messages.drop_last();
        assert(messages =~= rest.push(messages.last()));
        assert forall|i: int| 0 <= i < rest.len() implies (#[trigger] rest[i]).port >= outputs by {
            assert(rest[i] == messages[i]);
        }
        lemma_all_out_of_range(rest, outputs, port);
        assert(messages.last() == messages[messages.len() - 1]);
        lemma_range_push(rest, messages.last(), outputs);
        lemma_for_port_push(rest, messages.last(), port);
    }
}

} // verus!
