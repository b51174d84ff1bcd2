use hd44780_bus::{DataBus, EightBitBus, Pin, Step, ENABLE_PULSE_MS};

const RS: Pin = Pin(20);
const EN: Pin = Pin(21);
const D: [Pin; 8] = [Pin(0), Pin(1), Pin(2), Pin(3), Pin(4), Pin(5), Pin(6), Pin(7)];

fn eight_bit_bus() -> EightBitBus {
    EightBitBus::from_pins(RS, EN, D[0], D[1], D[2], D[3], D[4], D[5], D[6], D[7])
}

fn drive(pin: Pin, high: bool) -> Step {
    Step::Drive { pin, high }
}

fn hold() -> Step {
    Step::Delay { ms: 2 }
}

/// Does the steps on wires that remember their level, and reports the levels
/// of all wires at each moment at which enable is raised.
fn replay_eight(wires: &mut [bool; 256], steps: &[Step]) -> Vec<[bool; 256]> {
    let mut at_pulse = Vec::new();
    for step in steps {
        if let Step::Drive { pin, high } = *step {
            if pin == EN && high {
                at_pulse.push(*wires);
            }
            wires[pin.0 as usize] = high;
        }
    }
    at_pulse
}

#[test]
fn pulse_width_is_two_milliseconds() {
    assert_eq!(ENABLE_PULSE_MS, 2);
}

#[test]
fn eight_bit_data_write_of_a5() {
    let mut bus = eight_bit_bus();
    let steps = bus.write(0b1010_0101, true);
    assert_eq!(
        steps,
        vec![
            drive(RS, true),
            drive(D[0], true),
            drive(D[1], false),
            drive(D[2], true),
            drive(D[3], false),
            drive(D[4], false),
            drive(D[5], true),
            drive(D[6], false),
            drive(D[7], true),
            drive(EN, true),
            hold(),
            drive(EN, false),
            drive(RS, false),
        ]
    );

    let mut wires = [false; 256];
    let at_pulse = replay_eight(&mut wires, &steps);
    assert_eq!(at_pulse.len(), 1);
    let seen = at_pulse[0];
    for k in [0, 2, 5, 7] {
        assert!(seen[D[k].0 as usize], "d{} is high during the pulse", k);
    }
    for k in [1, 3, 4, 6] {
        assert!(!seen[D[k].0 as usize], "d{} is low during the pulse", k);
    }
    assert!(seen[RS.0 as usize]);
    assert!(!wires[RS.0 as usize]);
    assert!(!wires[EN.0 as usize]);
}

#[test]
fn eight_bit_command_write_of_38() {
    let mut bus = eight_bit_bus();
    let steps = bus.write(0x38, false);
    assert_eq!(
        steps,
        vec![
            drive(RS, false),
            drive(D[0], false),
            drive(D[1], false),
            drive(D[2], false),
            drive(D[3], true),
            drive(D[4], true),
            drive(D[5], true),
            drive(D[6], false),
            drive(D[7], false),
            drive(EN, true),
            hold(),
            drive(EN, false),
        ]
    );
}

#[test]
fn eight_bit_all_zeros_and_all_ones() {
    let mut bus = eight_bit_bus();
    let zeros = bus.write(0x00, true);
    let ones = bus.write(0xFF, true);
    for k in 0..8 {
        assert_eq!(zeros[1 + k], drive(D[k], false));
        assert_eq!(ones[1 + k], drive(D[k], true));
    }
}

#[test]
fn eight_bit_step_counts() {
    let mut bus = eight_bit_bus();
    assert_eq!(bus.write(0x41, false).len(), 12);
    assert_eq!(bus.write(0x41, true).len(), 13);
}

#[test]
fn eight_bit_every_byte_is_shown_to_the_single_pulse() {
    let mut bus = eight_bit_bus();
    for byte in 0..=255u8 {
        for is_data in [false, true] {
            let steps = bus.write(byte, is_data);
            // Whatever the other lines were at, enable being low.
            for others in [false, true] {
                let mut wires = [others; 256];
                wires[EN.0 as usize] = false;
                let at_pulse = replay_eight(&mut wires, &steps);
                assert_eq!(at_pulse.len(), 1);
                for k in 0..8 {
                    assert_eq!(at_pulse[0][D[k].0 as usize], byte & (1 << k) != 0);
                }
                assert_eq!(at_pulse[0][RS.0 as usize], is_data);
                assert!(!at_pulse[0][EN.0 as usize]);
            }
        }
    }
}

#[test]
fn eight_bit_register_select_and_enable_rest_low() {
    let mut bus = eight_bit_bus();
    for byte in 0..=255u8 {
        for is_data in [false, true] {
            let steps = bus.write(byte, is_data);
            for before in [false, true] {
                let mut wires = [before; 256];
                replay_eight(&mut wires, &steps);
                assert!(!wires[RS.0 as usize]);
                assert!(!wires[EN.0 as usize]);
            }
        }
    }
}

#[test]
fn eight_bit_enable_moves_in_one_whole_pulse() {
    let mut bus = eight_bit_bus();
    for byte in 0..=255u8 {
        for is_data in [false, true] {
            let steps = bus.write(byte, is_data);
            let rises: Vec<usize> =
                (0..steps.len()).filter(|&i| steps[i] == drive(EN, true)).collect();
            let falls: Vec<usize> =
                (0..steps.len()).filter(|&i| steps[i] == drive(EN, false)).collect();
            let holds: Vec<usize> =
                (0..steps.len()).filter(|&i| matches!(steps[i], Step::Delay { .. })).collect();
            assert_eq!(rises, vec![9]);
            assert_eq!(holds, vec![10]);
            assert_eq!(falls, vec![11]);
            assert_eq!(steps[10], Step::Delay { ms: 2 });
        }
    }
}

#[test]
fn eight_bit_drives_its_own_lines_only() {
    let mut bus = eight_bit_bus();
    for byte in [0x00u8, 0x5A, 0xA5, 0xFF] {
        for step in bus.write(byte, true) {
            if let Step::Drive { pin, .. } = step {
                assert!(pin == RS || pin == EN || D.contains(&pin));
            }
        }
    }
}

#[test]
fn eight_bit_transmits_do_not_change_the_bus() {
    let mut bus = eight_bit_bus();
    let first = bus.write(0x48, true);
    bus.write(0x01, false);
    let again = bus.write(0x48, true);
    assert_eq!(first, again);
}

#[test]
fn eight_bit_one_transmit_after_another() {
    let mut bus = eight_bit_bus();
    let mut steps = bus.write(0x0C, false);
    steps.extend(bus.write(0x48, true));
    steps.extend(bus.write(0x69, true));
    let mut wires = [false; 256];
    let at_pulse = replay_eight(&mut wires, &steps);
    assert_eq!(at_pulse.len(), 3);
    let expected = [(0x0Cu8, false), (0x48, true), (0x69, true)];
    for (seen, (byte, is_data)) in at_pulse.iter().zip(expected) {
        let mut shown = 0u8;
        for k in 0..8 {
            if seen[D[k].0 as usize] {
                shown |= 1 << k;
            }
        }
        assert_eq!(shown, byte);
        assert_eq!(seen[RS.0 as usize], is_data);
        assert!(!seen[EN.0 as usize]);
    }
    assert!(!wires[RS.0 as usize]);
    assert!(!wires[EN.0 as usize]);
}

#[test]
fn eight_bit_follows_the_wiring_it_was_given() {
    let mut bus = EightBitBus::from_pins(
        Pin(9),
        Pin(8),
        Pin(7),
        Pin(6),
        Pin(5),
        Pin(4),
        Pin(3),
        Pin(2),
        Pin(1),
        Pin(0),
    );
    let steps = bus.write(0x01, false);
    assert_eq!(steps[0], drive(Pin(9), false));
    assert_eq!(steps[1], drive(Pin(7), true));
    assert_eq!(steps[8], drive(Pin(0), false));
    assert_eq!(steps[9], drive(Pin(8), true));
    assert_eq!(steps[11], drive(Pin(8), false));
}
