use midi_osc_bridge::bridge::{collect_outbound, route_inbound, tag_events, Bridge};
use midi_osc_bridge::codec::{decode, encode};
use midi_osc_bridge::event::{MidiEvent, RawEvent};
use midi_osc_bridge::ports::{Mode, PortTable, MAX_PORTS};

#[test]
fn receive_only_two_ports_datagram_for_port_one() {
    let mode = Mode::from_flags(false, true).unwrap();
    let mut bridge = Bridge::new(PortTable::new(2, mode));
    let datagram = encode(&MidiEvent::new(1, 0x90, 60, 100)).unwrap();
    let inbound = vec![decode(&datagram).unwrap()];
    let period = bridge.process(&vec![], &inbound);
    assert_eq!(period.writes.len(), 2);
    assert!(period.writes[0].is_empty());
    assert_eq!(period.writes[1].len(), 1);
    assert_eq!(period.writes[1][0].bytes(), [0x90, 60, 100]);
    assert!(period.outbound.is_empty());
    assert_eq!(bridge.dropped, 0);
}

#[test]
fn send_only_one_port_one_event() {
    let mode = Mode::from_flags(true, false).unwrap();
    let mut bridge = Bridge::new(PortTable::new(1, mode));
    let event = RawEvent::from_bytes(&[0x80, 40, 0]).unwrap();
    let period = bridge.process(&vec![vec![event]], &vec![]);
    assert_eq!(period.outbound.len(), 1);
    assert!(period.writes.is_empty());
    let datagram = encode(&period.outbound[0]).unwrap();
    assert_eq!(
        decode(&datagram),
        Ok(MidiEvent { port: 0, status: 0x80, data1: 40, data2: 0 })
    );
}

#[test]
fn malformed_datagram_reaches_no_queue() {
    let mut inbound: Vec<MidiEvent> = Vec::new();
    let datagrams: Vec<Vec<u8>> = vec![
        b"/midi\0\0\0,m\0".to_vec(),
        b"not osc at all".to_vec(),
        encode(&MidiEvent::new(0, 0x90, 5, 6)).unwrap(),
    ];
    for d in datagrams.iter() {
        if let Ok(m) = decode(d) {
            inbound.push(m);
        }
    }
    assert_eq!(inbound, vec![MidiEvent::new(0, 0x90, 5, 6)]);
}

#[test]
fn both_modes_three_ports_events_on_zero_and_two() {
    let mode = Mode::from_flags(true, true).unwrap();
    let mut bridge = Bridge::new(PortTable::new(3, mode));
    let a = RawEvent::new(0x90, 10, 11);
    let b = RawEvent::new(0x80, 20, 21);
    let period = bridge.process(&vec![vec![a], vec![], vec![b]], &vec![]);
    assert_eq!(
        period.outbound,
        vec![MidiEvent::new(0, 0x90, 10, 11), MidiEvent::new(2, 0x80, 20, 21)]
    );
    assert_eq!(period.writes, vec![vec![], vec![], vec![]]);
    let first = decode(&encode(&period.outbound[0]).unwrap()).unwrap();
    let second = decode(&encode(&period.outbound[1]).unwrap()).unwrap();
    assert_eq!(first.port, 0);
    assert_eq!(first.raw(), a);
    assert_eq!(second.port, 2);
    assert_eq!(second.raw(), b);
}

#[test]
fn outbound_keeps_order_within_each_port() {
    let first = vec![RawEvent::new(0x90, 1, 1), RawEvent::new(0x90, 2, 2), RawEvent::new(0x80, 1, 0)];
    let second = vec![RawEvent::new(0xb0, 7, 7)];
    let third = vec![RawEvent::new(0x90, 3, 3), RawEvent::new(0x80, 3, 0)];
    let inputs = vec![first.clone(), second.clone(), third.clone()];
    let out = collect_outbound(&inputs);
    assert_eq!(out.len(), 6);
    for (p, expected) in [first, second, third].iter().enumerate() {
        let got: Vec<RawEvent> =
            out.iter().filter(|m| m.port as usize == p).map(|m| m.raw()).collect();
        assert_eq!(&got, expected);
    }
    assert_eq!(
        out,
        vec![
            MidiEvent::new(0, 0x90, 1, 1),
            MidiEvent::new(0, 0x90, 2, 2),
            MidiEvent::new(0, 0x80, 1, 0),
            MidiEvent::new(1, 0xb0, 7, 7),
            MidiEvent::new(2, 0x90, 3, 3),
            MidiEvent::new(2, 0x80, 3, 0),
        ]
    );
}

#[test]
fn outbound_of_no_ports_is_empty() {
    assert_eq!(collect_outbound(&vec![]), vec![]);
    assert_eq!(collect_outbound(&vec![vec![], vec![]]), vec![]);
}

#[test]
fn outbound_tags_the_last_port() {
    let mut inputs: Vec<Vec<RawEvent>> = vec![Vec::new(); MAX_PORTS];
    inputs[254].push(RawEvent::new(0x90, 1, 2));
    assert_eq!(collect_outbound(&inputs), vec![MidiEvent::new(254, 0x90, 1, 2)]);
}

#[test]
fn tag_events_appends() {
    let mut out = vec![MidiEvent::new(9, 0x80, 0, 0)];
    tag_events(&mut out, &vec![RawEvent::new(0x90, 1, 2), RawEvent::new(0x91, 3, 4)], 5);
    assert_eq!(
        out,
        vec![
            MidiEvent::new(9, 0x80, 0, 0),
            MidiEvent::new(5, 0x90, 1, 2),
            MidiEvent::new(5, 0x91, 3, 4)
        ]
    );
}

#[test]
fn inbound_is_grouped_by_port_in_queue_order() {
    let messages = vec![
        MidiEvent::new(1, 0x90, 1, 1),
        MidiEvent::new(0, 0x90, 2, 2),
        MidiEvent::new(1, 0x80, 1, 0),
        MidiEvent::new(0, 0x80, 2, 0),
        MidiEvent::new(1, 0xb0, 3, 3),
    ];
    let routed = route_inbound(&messages, 2);
    assert_eq!(routed.dropped, 0);
    assert_eq!(
        routed.writes,
        vec![
            vec![RawEvent::new(0x90, 2, 2), RawEvent::new(0x80, 2, 0)],
            vec![RawEvent::new(0x90, 1, 1), RawEvent::new(0x80, 1, 0), RawEvent::new(0xb0, 3, 3)],
        ]
    );
}

#[test]
fn out_of_range_port_is_dropped_and_counted() {
    let messages = vec![
        MidiEvent::new(2, 0x90, 1, 1),
        MidiEvent::new(0, 0x90, 2, 2),
        MidiEvent::new(255, 0x90, 3, 3),
    ];
    let routed = route_inbound(&messages, 2);
    assert_eq!(routed.writes, vec![vec![RawEvent::new(0x90, 2, 2)], vec![]]);
    assert_eq!(routed.dropped, 2);
    assert_eq!(route_inbound(&messages, 3).dropped, 1);
    assert_eq!(route_inbound(&messages, 256).dropped, 0);
}

#[test]
fn no_outputs_drops_everything() {
    let messages = vec![MidiEvent::new(0, 0x90, 1, 1), MidiEvent::new(1, 0x90, 2, 2)];
    let routed = route_inbound(&messages, 0);
    assert!(routed.writes.is_empty());
    assert_eq!(routed.dropped, 2);
}

#[test]
fn routing_picks_each_port_apart() {
    let messages = vec![
        MidiEvent::new(3, 0x90, 1, 1),
        MidiEvent::new(4, 0x90, 2, 2),
        MidiEvent::new(3, 0x80, 1, 0),
    ];
    let routed = route_inbound(&messages, 5);
    assert_eq!(routed.writes.len(), 5);
    assert_eq!(routed.writes[3], vec![RawEvent::new(0x90, 1, 1), RawEvent::new(0x80, 1, 0)]);
    assert_eq!(routed.writes[4], vec![RawEvent::new(0x90, 2, 2)]);
    assert_eq!(routed.writes[0], vec![]);
    assert_eq!(routed.dropped, 0);
    let more = route_inbound(&messages, 300);
    assert_eq!(more.writes.len(), 300);
    assert_eq!(more.writes[3].len(), 2);
    assert_eq!(more.dropped, 0);
}

#[test]
fn bridge_counts_drops_over_periods() {
    let mut bridge = Bridge::new(PortTable::new(1, Mode::Receive));
    let bad = vec![MidiEvent::new(1, 0x90, 1, 1), MidiEvent::new(9, 0x90, 1, 1)];
    let period = bridge.process(&vec![], &bad);
    assert_eq!(period.writes, vec![vec![]]);
    assert_eq!(bridge.dropped, 2);
    let mixed = vec![MidiEvent::new(0, 0x90, 1, 1), MidiEvent::new(1, 0x90, 1, 1)];
    let period = bridge.process(&vec![], &mixed);
    assert_eq!(period.writes, vec![vec![RawEvent::new(0x90, 1, 1)]]);
    assert_eq!(bridge.dropped, 3);
    assert_eq!(bridge.ports, PortTable::new(1, Mode::Receive));
}

#[test]
fn drop_counter_stops_at_its_largest_value() {
    let mut bridge = Bridge::new(PortTable::new(0, Mode::Receive));
    bridge.dropped = u64::MAX - 1;
    let bad = vec![MidiEvent::new(0, 0x90, 1, 1); 3];
    bridge.process(&vec![], &bad);
    assert_eq!(bridge.dropped, u64::MAX);
}

#[test]
fn every_message_is_written_once_or_dropped() {
    let messages: Vec<MidiEvent> =
        (0..40u8).map(|i| MidiEvent::new(i % 7, 0x90, i, 127 - i)).collect();
    for outputs in 0..10usize {
        let routed = route_inbound(&messages, outputs);
        let written: usize = routed.writes.iter().map(|w| w.len()).sum();
        assert_eq!(written + routed.dropped, messages.len());
        for (p, events) in routed.writes.iter().enumerate() {
            let expected: Vec<RawEvent> =
                messages.iter().filter(|m| m.port as usize == p).map(|m| m.raw()).collect();
            assert_eq!(events, &expected);
        }
    }
}

#[test]
fn dropping_changes_no_port() {
    let kept = vec![MidiEvent::new(0, 0x90, 1, 1), MidiEvent::new(1, 0x90, 2, 2)];
    let with_strays = vec![
        MidiEvent::new(5, 0x90, 9, 9),
        MidiEvent::new(0, 0x90, 1, 1),
        MidiEvent::new(2, 0x80, 9, 9),
        MidiEvent::new(1, 0x90, 2, 2),
        MidiEvent::new(200, 0x80, 9, 9),
    ];
    let a = route_inbound(&kept, 2);
    let b = route_inbound(&with_strays, 2);
    assert_eq!(a.writes, b.writes);
    assert_eq!(a.dropped, 0);
    assert_eq!(b.dropped, 3);
}

#[test]
fn valid_events_stay_valid_through_the_bridge() {
    let inputs = vec![
        vec![RawEvent::new(0x90, 1, 2), RawEvent::new(0x80, 1, 0)],
        vec![RawEvent::new(0xe0, 0, 64)],
    ];
    let inbound = vec![MidiEvent::new(0, 0x90, 5, 6), MidiEvent::new(1, 0xb0, 7, 8)];
    let mut bridge = Bridge::new(PortTable::new(2, Mode::Both));
    let period = bridge.process(&inputs, &inbound);
    assert_eq!(period.outbound.len(), 3);
    assert!(period.outbound.iter().all(|m| m.is_valid()));
    assert!(period.writes.iter().all(|w| w.iter().all(|e| e.is_valid())));
    assert_eq!(period.writes, vec![vec![RawEvent::new(0x90, 5, 6)], vec![RawEvent::new(0xb0, 7, 8)]]);
}
