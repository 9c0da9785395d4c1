use rusty_simulator::circuit::{Circuit, LogicElements};
use rusty_simulator::led::Led;
use rusty_simulator::logic_gates::LogicGate;
use rusty_simulator::source::Source;
use rusty_simulator::structure::{CircuitError, Hitbox, HitboxType, PinValue, Point, Rect, Signal, WireSegment, INPUT, OUTPUT};

fn horizontal_wire(x1: i64, x2: i64, y: i64) -> WireSegment {
    WireSegment {
        start: Point { x: x1, y },
        end: Point { x: x2, y },
        hitbox: Hitbox { rect: Rect { x: x1, y: y - 5, w: x2 - x1, h: 10 }, kind: HitboxType::Wire },
    }
}

fn led_value(c: &Circuit, index: usize) -> PinValue {
    c.components[index].get_pin(1, INPUT).unwrap().value.clone()
}

fn add_led_at(c: &mut Circuit, x: i64) -> usize {
    let id = c.add_element(LogicElements::Leds(Led::new())).unwrap();
    let index = c.components.len() - 1;
    c.components[index].update_postion(Point { x, y: 5 }).unwrap();
    assert_eq!(c.components[index].get_pin(1, INPUT).unwrap().hitbox.rect.y, 32);
    id
}

/// A source at the origin whose pin touches a wire along y = 36, and three lamps on the wire.
fn source_and_three_lamps(value: usize) -> Circuit {
    let mut c = Circuit::new();
    c.add_element(LogicElements::Source(Source::new(value).unwrap())).unwrap();
    c.segments.push(horizontal_wire(72, 300, 36));
    for x in [100, 150, 200] {
        add_led_at(&mut c, x);
    }
    c
}

#[test]
fn one_source_drives_three_sinks() {
    let mut c = source_and_three_lamps(1);
    assert_eq!(c.simulate(), Ok(()));
    for i in 1..4 {
        assert_eq!(led_value(&c, i), PinValue::Single(Signal::On));
    }
    c.remove_element(1).unwrap();
    let id = c.add_element(LogicElements::Source(Source::new(0).unwrap())).unwrap();
    assert_eq!(id, 5);
    assert_eq!(c.simulate(), Ok(()));
    for i in 0..3 {
        assert_eq!(led_value(&c, i), PinValue::Single(Signal::Off));
    }
}

#[test]
fn two_sources_on_one_net_short_circuit() {
    let mut c = source_and_three_lamps(1);
    c.add_element(LogicElements::Source(Source::new(0).unwrap())).unwrap();
    let before: Vec<PinValue> = c.display_outputs();
    match c.simulate() {
        Err(CircuitError::ShortCircuit(a, b)) => {
            assert_eq!((a, b), (0, 4));
        },
        other => panic!("expected a short circuit, got {:?}", other),
    }
    assert_eq!(c.display_outputs(), before);
    for i in 1..4 {
        assert_eq!(led_value(&c, i), PinValue::Single(Signal::Undefined));
    }
}

#[test]
fn floating_net_becomes_undefined() {
    let mut c = Circuit::new();
    c.segments.push(horizontal_wire(72, 300, 36));
    add_led_at(&mut c, 100);
    add_led_at(&mut c, 150);
    for i in 0..2 {
        if let LogicElements::Leds(l) = &mut c.components[i] {
            l.input.value = PinValue::Single(Signal::On);
        }
    }
    let mut g = LogicGate::new_gate(0, 2, false, 1).unwrap();
    g.set_input(vec![Signal::On, Signal::On]).unwrap();
    c.add_element(LogicElements::Gates(g)).unwrap();
    c.components[2].update_postion(Point { x: 1000, y: 1000 }).unwrap();
    assert_eq!(c.simulate(), Ok(()));
    assert_eq!(led_value(&c, 0), PinValue::Single(Signal::Undefined));
    assert_eq!(led_value(&c, 1), PinValue::Single(Signal::Undefined));
    let gate_in = c.components[2].get_pin(1, INPUT).unwrap().value.clone();
    assert_eq!(gate_in, PinValue::Single(Signal::Undefined));
    let gate_out = c.components[2].get_pin(1, OUTPUT).unwrap().value.clone();
    assert_eq!(gate_out, PinValue::Single(Signal::Undefined));
}

#[test]
fn simulate_twice_gives_the_same_values() {
    let mut c = source_and_three_lamps(1);
    c.simulate().unwrap();
    let first: Vec<PinValue> = (1..4).map(|i| led_value(&c, i)).collect();
    c.simulate().unwrap();
    let second: Vec<PinValue> = (1..4).map(|i| led_value(&c, i)).collect();
    assert_eq!(first, second);
    assert_eq!(c.display_outputs(), vec![
        PinValue::Single(Signal::On),
        PinValue::Single(Signal::On),
        PinValue::Single(Signal::On),
        PinValue::Single(Signal::On),
    ]);
}

#[test]
fn cascade_settles_over_two_steps() {
    let mut c = Circuit::new();
    c.add_element(LogicElements::Source(Source::new(1).unwrap())).unwrap();
    let not_gate = LogicGate::new_gate(2, 1, false, 1).unwrap();
    c.add_element(LogicElements::Gates(not_gate)).unwrap();
    // The source pin spans (70, 34)-(75, 39); the Not gate's input pin sits at (4, 33) from
    // its position, so placing the logic gate at (68, 2) makes the two pins overlap.
    c.components[1].update_postion(Point { x: 68, y: 2 }).unwrap();
    // The logic gate's output pin is now at (141, 35); a lamp at (120, 8) has its pin at (142, 35).
    add_led_at(&mut c, 120);
    c.components[2].update_postion(Point { x: 120, y: 8 }).unwrap();
    c.simulate().unwrap();
    assert_eq!(c.components[1].get_pin(1, INPUT).unwrap().value, PinValue::Single(Signal::On));
    assert_eq!(c.components[1].get_pin(1, OUTPUT).unwrap().value, PinValue::Single(Signal::Off));
    assert_eq!(led_value(&c, 2), PinValue::Single(Signal::Undefined));
    c.simulate().unwrap();
    assert_eq!(led_value(&c, 2), PinValue::Single(Signal::Off));
}

#[test]
fn ids_count_from_one() {
    let mut c = Circuit::new();
    let a = c.add_element(LogicElements::Gates(LogicGate::new_gate(0, 2, false, 1).unwrap())).unwrap();
    let b = c.add_element(LogicElements::Source(Source::new(1).unwrap())).unwrap();
    let d = c.add_element(LogicElements::Leds(Led::new())).unwrap();
    assert_eq!((a, b, d), (1, 2, 3));
    assert_eq!(c.components[0].get_pin(2, INPUT).unwrap().cid, 1);
    assert_eq!(c.components[1].get_pin(1, OUTPUT).unwrap().hitbox.kind, HitboxType::Pin(2, 1, OUTPUT));
    assert_eq!(c.components[2].get_pin(1, INPUT).unwrap().cid, 3);
}

#[test]
fn ids_are_never_given_twice() {
    let mut c = Circuit::new();
    c.add_element(LogicElements::Leds(Led::new())).unwrap();
    c.add_element(LogicElements::Leds(Led::new())).unwrap();
    assert_eq!(c.remove_element(2), Ok(()));
    assert_eq!(c.remove_element(2), Err(CircuitError::NoSuchElement));
    assert_eq!(c.add_element(LogicElements::Leds(Led::new())), Ok(3));
    assert_eq!(c.components[0].id(), 1);
    assert_eq!(c.components[1].id(), 3);
}

#[test]
fn unsupported_elements_are_refused() {
    let mut c = Circuit::new();
    assert_eq!(c.add_element(LogicElements::Clock), Err(CircuitError::Unsupported));
    assert_eq!(c.add_element(LogicElements::FlipFlops), Err(CircuitError::Unsupported));
    assert!(c.components.is_empty());
    assert_eq!(c.component_id, 1);
    let mut latch = LogicElements::LatchRegisters;
    assert_eq!(latch.set_input(vec![Signal::On]), Err(CircuitError::Unsupported));
    assert_eq!(latch.get_output(), Err(CircuitError::Unsupported));
    assert_eq!(latch.get_position(), Err(CircuitError::Unsupported));
    assert_eq!(latch.load_image(), Err(CircuitError::Unsupported));
    let mut src = LogicElements::Source(Source::new(1).unwrap());
    assert_eq!(src.set_input(vec![Signal::On]), Err(CircuitError::Unsupported));
    assert_eq!(src.get_output(), Ok(()));
}

#[test]
fn bus_on_a_gate_input_is_unsupported_and_changes_nothing() {
    let mut c = Circuit::new();
    c.add_element(LogicElements::Gates(LogicGate::new_gate(0, 2, true, 4).unwrap())).unwrap();
    c.add_element(LogicElements::Gates(LogicGate::new_gate(2, 1, false, 1).unwrap())).unwrap();
    // The bus gate's output pin spans (73, 32)-(78, 37); the Not gate's input lands on it.
    c.components[1].update_postion(Point { x: 69, y: -1 }).unwrap();
    let before = c.display_outputs();
    assert_eq!(c.simulate(), Err(CircuitError::Unsupported));
    assert_eq!(c.display_outputs(), before);
    assert_eq!(c.components[1].get_pin(1, INPUT).unwrap().value, PinValue::Single(Signal::Undefined));
}

#[test]
fn source_values_and_errors() {
    assert_eq!(Source::new(2).unwrap_err(), CircuitError::InvalidSourceValue(2));
    let on = Source::new(1).unwrap();
    assert_eq!(on.output.value, PinValue::Single(Signal::On));
    assert_eq!(on.load_source_image(), "/sources/normal/source_high.png");
    let off = Source::new(0).unwrap();
    assert_eq!(off.output.value, PinValue::Single(Signal::Off));
    assert_eq!(off.load_source_image(), "/sources/normal/source_low.png");
    assert_eq!(off.get_pin(1, INPUT).unwrap_err(), CircuitError::NoSuchPin);
}

#[test]
fn lamp_images_follow_the_signal() {
    let mut led = Led::new();
    assert_eq!(led.update_led_image(), Some("/leds/normal/led_undefined.png"));
    led.input.value = PinValue::Single(Signal::On);
    assert_eq!(led.update_led_image(), Some("/leds/normal/led_high_green.png"));
    led.input.value = PinValue::Single(Signal::Off);
    assert_eq!(led.update_led_image(), Some("/leds/normal/led_low.png"));
    led.input.value = PinValue::Multiple(vec![Signal::On]);
    assert_eq!(led.update_led_image(), None);
}

#[test]
fn moving_keeps_identity() {
    let mut c = Circuit::new();
    c.add_element(LogicElements::Source(Source::new(1).unwrap())).unwrap();
    c.components[0].update_postion(Point { x: 10, y: 20 }).unwrap();
    assert_eq!(c.components[0].get_position(), Ok(Point { x: 10, y: 20 }));
    assert_eq!(c.components[0].get_refpin_pos(), Ok(Point { x: 83, y: 57 }));
    assert_eq!(c.components[0].get_hitbox(), Ok(Rect { x: 56, y: 47, w: 20, h: 20 }));
    assert_eq!(c.components[0].get_pins_hitbox()[0].rect, Rect { x: 80, y: 54, w: 5, h: 5 });
    assert_eq!(c.components[0].id(), 1);
}

#[test]
fn empty_circuit_simulates() {
    let mut c = Circuit::new();
    assert_eq!(c.simulate(), Ok(()));
    assert!(c.display_outputs().is_empty());
}

#[test]
fn source_pin_position_is_recorded() {
    let mut map = multimap::MultiMap::new();
    let mut s = Source::new(1).unwrap();
    s.set_id(4);
    s.store_pin_pos(&mut map);
    assert_eq!(map.get_vec(&(73, 37)), Some(&vec![(4, 1, OUTPUT)]));
    s.update_source_position(Point { x: 10, y: 0 });
    s.store_pin_pos(&mut map);
    s.update_source_position(Point { x: 0, y: 0 });
    s.store_pin_pos(&mut map);
    assert_eq!(map.get_vec(&(73, 37)), Some(&vec![(4, 1, OUTPUT), (4, 1, OUTPUT)]));
    assert_eq!(map.get_vec(&(83, 37)), Some(&vec![(4, 1, OUTPUT)]));
}

#[test]
fn segments_of_a_wire_connect_too() {
    let mut c = Circuit::new();
    c.add_element(LogicElements::Source(Source::new(1).unwrap())).unwrap();
    add_led_at(&mut c, 100);
    c.wires.push(rusty_simulator::structure::Wire { pins: vec![], segments: vec![horizontal_wire(72, 300, 36)] });
    assert_eq!(c.simulate(), Ok(()));
    assert_eq!(led_value(&c, 1), PinValue::Single(Signal::On));
}
