use rusty_simulator::logic_gates::{evaluate, LogicGate};
use rusty_simulator::structure::{CircuitError, LogicGates, PinValue, Signal, INPUT, OUTPUT};

fn output_of(kind: u32, inputs: Vec<Signal>) -> Signal {
    let mut gate = LogicGate::new_gate(kind, inputs.len(), false, 1).unwrap();
    gate.set_input(inputs).unwrap();
    gate.get_output().unwrap();
    match gate.output.value {
        PinValue::Single(s) => s,
        PinValue::Multiple(_) => panic!("a single-signal gate gave a bus"),
    }
}

fn not(s: Signal) -> Signal {
    match s {
        Signal::On => Signal::Off,
        Signal::Off => Signal::On,
        Signal::Undefined => Signal::Undefined,
    }
}

#[test]
fn complementary_pairs_on_all_on_and_all_off() {
    for n in 1..6 {
        for value in [Signal::On, Signal::Off] {
            let v = vec![value; n];
            assert_eq!(output_of(3, v.clone()), not(output_of(0, v.clone())));
            assert_eq!(output_of(4, v.clone()), not(output_of(1, v.clone())));
            assert_eq!(output_of(6, v.clone()), not(output_of(5, v.clone())));
        }
        assert_eq!(output_of(0, vec![Signal::On; n]), Signal::On);
        assert_eq!(output_of(3, vec![Signal::On; n]), Signal::Off);
        assert_eq!(output_of(1, vec![Signal::Off; n]), Signal::Off);
        assert_eq!(output_of(4, vec![Signal::Off; n]), Signal::On);
        assert_eq!(output_of(0, vec![Signal::Off; n]), Signal::Off);
        assert_eq!(output_of(4, vec![Signal::On; n]), Signal::Off);
    }
}

#[test]
fn xor_cases() {
    assert_eq!(output_of(5, vec![Signal::On, Signal::On]), Signal::Off);
    assert_eq!(output_of(5, vec![Signal::On, Signal::Off]), Signal::On);
    assert_eq!(output_of(5, vec![Signal::On, Signal::Undefined]), Signal::Undefined);
    assert_eq!(output_of(6, vec![Signal::On, Signal::On]), Signal::On);
    assert_eq!(output_of(5, vec![Signal::On, Signal::On, Signal::On]), Signal::On);
}

#[test]
fn not_cases() {
    assert_eq!(output_of(2, vec![Signal::On]), Signal::Off);
    assert_eq!(output_of(2, vec![Signal::Off]), Signal::On);
    assert_eq!(output_of(2, vec![Signal::Undefined]), Signal::Undefined);
    assert_eq!(LogicGate::new_gate(2, 2, false, 1).unwrap_err(), CircuitError::NotGateArity(2));
}

#[test]
fn and_or_with_undefined() {
    assert_eq!(output_of(0, vec![Signal::On, Signal::Undefined]), Signal::Undefined);
    assert_eq!(output_of(0, vec![Signal::Off, Signal::Undefined]), Signal::Undefined);
    assert_eq!(output_of(1, vec![Signal::On, Signal::Undefined]), Signal::On);
    assert_eq!(output_of(1, vec![Signal::Off, Signal::Undefined]), Signal::Undefined);
    assert_eq!(output_of(3, vec![Signal::Off, Signal::Undefined]), Signal::Undefined);
    assert_eq!(output_of(4, vec![Signal::Off, Signal::Undefined]), Signal::Undefined);
    assert_eq!(output_of(4, vec![Signal::Off, Signal::Off]), Signal::On);
}

#[test]
fn evaluate_directly() {
    assert_eq!(evaluate(LogicGates::And, &vec![]), Signal::On);
    assert_eq!(evaluate(LogicGates::Or, &vec![]), Signal::Off);
    assert_eq!(evaluate(LogicGates::Xnor, &vec![Signal::Off, Signal::On]), Signal::Off);
}

#[test]
fn invalid_gate_kind() {
    assert_eq!(LogicGate::new_gate(7, 2, false, 1).unwrap_err(), CircuitError::InvalidGateKind(7));
}

#[test]
fn new_gate_layout() {
    let g = LogicGate::new_gate(0, 3, false, 1).unwrap();
    assert_eq!(g.kind, LogicGates::And);
    assert_eq!(g.input.len(), 3);
    for (i, p) in g.input.iter().enumerate() {
        assert_eq!(p.pid, i + 1);
        assert_eq!(p.ioc, INPUT);
        assert_eq!(p.value, PinValue::Single(Signal::Undefined));
        assert_eq!(p.hitbox.rect.y, 23 + 20 * i as i64);
    }
    assert_eq!(g.output.pid, 1);
    assert_eq!(g.output.ioc, OUTPUT);
    let not_gate = LogicGate::new_gate(2, 1, false, 1).unwrap();
    assert_eq!(not_gate.input[0].hitbox.rect.y, 33);
}

#[test]
fn bus_gate_pins_and_evaluation() {
    let mut g = LogicGate::new_gate(0, 2, true, 4).unwrap();
    assert_eq!(g.input[0].value, PinValue::Multiple(vec![Signal::Undefined; 4]));
    assert_eq!(g.output.value, PinValue::Multiple(vec![Signal::Undefined; 4]));
    g.set_bus_input(vec![vec![Signal::On; 4]], 4).unwrap();
    assert_eq!(g.input[0].value, PinValue::Multiple(vec![Signal::On; 4]));
    assert_eq!(g.input[1].value, PinValue::Multiple(vec![Signal::Undefined; 4]));
    let before = g.clone();
    assert_eq!(g.get_output(), Err(CircuitError::Unsupported));
    assert_eq!(g, before);
    assert_eq!(g.set_bus_input(vec![vec![]; 3], 4), Err(CircuitError::TooManySignals));
}

#[test]
fn set_input_pads_and_rejects() {
    let mut g = LogicGate::new_gate(1, 3, false, 1).unwrap();
    g.set_input(vec![Signal::On]).unwrap();
    assert_eq!(g.input[0].value, PinValue::Single(Signal::On));
    assert_eq!(g.input[1].value, PinValue::Single(Signal::Undefined));
    assert_eq!(g.input[2].value, PinValue::Single(Signal::Undefined));
    let before = g.clone();
    assert_eq!(g.set_input(vec![Signal::On; 4]), Err(CircuitError::TooManySignals));
    assert_eq!(g, before);
}

#[test]
fn gate_ids_and_pins() {
    let mut g = LogicGate::new_gate(0, 2, false, 1).unwrap();
    g.set_gate_id(9);
    assert_eq!(g.id, 9);
    assert_eq!(g.get_pin(2, INPUT).unwrap().cid, 9);
    assert_eq!(g.get_pin(1, OUTPUT).unwrap().hitbox.kind, rusty_simulator::structure::HitboxType::Pin(9, 1, OUTPUT));
    assert_eq!(g.get_pin(3, INPUT).unwrap_err(), CircuitError::NoSuchPin);
    assert_eq!(g.get_pin(2, OUTPUT).unwrap_err(), CircuitError::NoSuchPin);
}

#[test]
fn gate_moves_with_its_pins() {
    let mut g = LogicGate::new_gate(0, 2, false, 1).unwrap();
    g.update_gate_position(rusty_simulator::structure::Point { x: 100, y: -40 });
    assert_eq!(g.input[0].hitbox.rect.x, 104);
    assert_eq!(g.input[0].hitbox.rect.y, -17);
    assert_eq!(g.output.hitbox.rect.x, 173);
    assert_eq!(g.hitbox.rect.x, 100);
    assert_eq!(g.ref_pin_pos.x, 106);
    assert_eq!(g.gate_pins_hitbox().len(), 3);
    assert_eq!(g.gate_pins_hitbox()[2].rect.x, 173);
}

#[test]
fn gate_image_paths() {
    let g = LogicGate::new_gate(5, 2, false, 1).unwrap();
    assert_eq!(g.load_gate_image(), "/gates/normal/input2/xor.png");
    let b = LogicGate::new_gate(3, 2, true, 8).unwrap();
    assert_eq!(b.load_gate_image(), "/path/to/nand_multiple.png");
}

#[test]
fn values_as_text() {
    assert_eq!(Signal::On.name(), "ON");
    assert_eq!(Signal::Off.name(), "OFF");
    assert_eq!(Signal::Undefined.name(), "UNDEFINED");
    assert_eq!(PinValue::Single(Signal::On).to_text(), "ON");
    assert_eq!(PinValue::Multiple(vec![Signal::On, Signal::Off, Signal::Undefined]).to_text(), "[ON, OFF, UNDEFINED]");
    assert_eq!(PinValue::Multiple(vec![]).to_text(), "[]");
}
