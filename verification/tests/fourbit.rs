use hd44780_bus::{DataBus, FourBitBus, Pin, Step};

const RS: Pin = Pin(30);
const EN: Pin = Pin(31);
const D: [Pin; 4] = [Pin(4), Pin(5), Pin(6), Pin(7)];

fn four_bit_bus() -> FourBitBus {
    FourBitBus::from_pins(RS, EN, D[0], D[1], D[2], D[3])
}

fn set(pin: Pin, high: bool) -> Step {
    Step::Drive { pin, high }
}

fn wait() -> Step {
    Step::Delay { ms: 2 }
}

/// Does the steps on wires that remember their level, and reports the levels
/// of all wires at each moment at which enable is raised.
fn replay_four(wires: &mut [bool; 256], steps: &[Step]) -> Vec<[bool; 256]> {
    let mut at_pulse = Vec::new();
    for step in steps {
        if let Step::Drive { pin, high } = *step {
            if pin == EN && high {
                at_pulse.push(*wires);
            }
            wires[pin.0 as usize] = high;
        }
    }
    at_pulse
}

fn nibble_on(wires: &[bool; 256]) -> u8 {
    let mut shown = 0u8;
    for k in 0..4 {
        if wires[D[k].0 as usize] {
            shown |= 1 << k;
        }
    }
    shown
}

#[test]
fn four_bit_command_write_of_a5() {
    let mut bus = four_bit_bus();
    let steps = bus.write(0xA5, false);
    assert_eq!(
        steps,
        vec![
            set(RS, false),
            set(D[0], false),
            set(D[1], true),
            set(D[2], false),
            set(D[3], true),
            set(EN, true),
            wait(),
            set(EN, false),
            set(D[0], true),
            set(D[1], false),
            set(D[2], true),
            set(D[3], false),
            set(EN, true),
            wait(),
            set(EN, false),
        ]
    );

    let mut wires = [false; 256];
    let at_pulse = replay_four(&mut wires, &steps);
    assert_eq!(at_pulse.len(), 2);
    assert_eq!(nibble_on(&at_pulse[0]), 0xA);
    assert_eq!(nibble_on(&at_pulse[1]), 0x5);
    // Register select stays low throughout.
    assert!(steps.iter().all(|step| *step != set(RS, true)));
    assert!(!at_pulse[0][RS.0 as usize]);
    assert!(!at_pulse[1][RS.0 as usize]);
    assert!(!wires[RS.0 as usize]);
}

#[test]
fn four_bit_data_write_of_48() {
    let mut bus = four_bit_bus();
    let steps = bus.write(0x48, true);
    assert_eq!(
        steps,
        vec![
            set(RS, true),
            set(D[0], false),
            set(D[1], false),
            set(D[2], true),
            set(D[3], false),
            set(EN, true),
            wait(),
            set(EN, false),
            set(D[0], false),
            set(D[1], false),
            set(D[2], false),
            set(D[3], true),
            set(EN, true),
            wait(),
            set(EN, false),
            set(RS, false),
        ]
    );
}

#[test]
fn four_bit_step_counts() {
    let mut bus = four_bit_bus();
    assert_eq!(bus.write(0x41, false).len(), 15);
    assert_eq!(bus.write(0x41, true).len(), 16);
}

#[test]
fn four_bit_all_zeros_and_all_ones() {
    let mut bus = four_bit_bus();
    let zeros = bus.write(0x00, false);
    let ones = bus.write(0xFF, false);
    for k in 0..4 {
        assert_eq!(zeros[1 + k], set(D[k], false));
        assert_eq!(zeros[8 + k], set(D[k], false));
        assert_eq!(ones[1 + k], set(D[k], true));
        assert_eq!(ones[8 + k], set(D[k], true));
    }
}

#[test]
fn four_bit_every_byte_goes_upper_nibble_first() {
    let mut bus = four_bit_bus();
    for byte in 0..=255u8 {
        for is_data in [false, true] {
            let steps = bus.write(byte, is_data);
            for others in [false, true] {
                let mut wires = [others; 256];
                wires[EN.0 as usize] = false;
                let at_pulse = replay_four(&mut wires, &steps);
                assert_eq!(at_pulse.len(), 2);
                assert_eq!(nibble_on(&at_pulse[0]), byte >> 4);
                assert_eq!(nibble_on(&at_pulse[1]), byte & 0x0F);
                assert_eq!(16 * nibble_on(&at_pulse[0]) + nibble_on(&at_pulse[1]), byte);
                for seen in &at_pulse {
                    assert_eq!(seen[RS.0 as usize], is_data);
                    assert!(!seen[EN.0 as usize]);
                }
            }
        }
    }
}

#[test]
fn four_bit_register_select_is_steady_across_both_pulses() {
    let mut bus = four_bit_bus();
    for byte in [0x00u8, 0x3C, 0xC3, 0xFF] {
        for is_data in [false, true] {
            let steps = bus.write(byte, is_data);
            let touched: Vec<usize> = (0..steps.len())
                .filter(|&i| matches!(steps[i], Step::Drive { pin, .. } if pin == RS))
                .collect();
            if is_data {
                assert_eq!(touched, vec![0, steps.len() - 1]);
            } else {
                assert_eq!(touched, vec![0]);
            }
        }
    }
}

#[test]
fn four_bit_register_select_and_enable_rest_low() {
    let mut bus = four_bit_bus();
    for byte in 0..=255u8 {
        for is_data in [false, true] {
            let steps = bus.write(byte, is_data);
            for before in [false, true] {
                let mut wires = [before; 256];
                replay_four(&mut wires, &steps);
                assert!(!wires[RS.0 as usize]);
                assert!(!wires[EN.0 as usize]);
            }
        }
    }
}

#[test]
fn four_bit_enable_moves_in_two_whole_pulses() {
    let mut bus = four_bit_bus();
    for byte in 0..=255u8 {
        for is_data in [false, true] {
            let steps = bus.write(byte, is_data);
            let rises: Vec<usize> =
                (0..steps.len()).filter(|&i| steps[i] == set(EN, true)).collect();
            let falls: Vec<usize> =
                (0..steps.len()).filter(|&i| steps[i] == set(EN, false)).collect();
            let holds: Vec<usize> =
                (0..steps.len()).filter(|&i| matches!(steps[i], Step::Delay { .. })).collect();
            assert_eq!(rises, vec![5, 12]);
            assert_eq!(holds, vec![6, 13]);
            assert_eq!(falls, vec![7, 14]);
            assert_eq!(steps[6], Step::Delay { ms: 2 });
            assert_eq!(steps[13], Step::Delay { ms: 2 });
        }
    }
}

#[test]
fn four_bit_drives_its_own_lines_only() {
    let mut bus = four_bit_bus();
    for byte in [0x00u8, 0x5A, 0xA5, 0xFF] {
        for step in bus.write(byte, true) {
            if let Step::Drive { pin, .. } = step {
                assert!(pin == RS || pin == EN || D.contains(&pin));
            }
        }
    }
}

#[test]
fn four_bit_transmits_do_not_change_the_bus() {
    let mut bus = four_bit_bus();
    let first = bus.write(0x48, true);
    bus.write(0x01, false);
    let again = bus.write(0x48, true);
    assert_eq!(first, again);
}

#[test]
fn four_bit_one_transmit_after_another() {
    let mut bus = four_bit_bus();
    let mut steps = bus.write(0x28, false);
    steps.extend(bus.write(0x4F, true));
    let mut wires = [false; 256];
    let at_pulse = replay_four(&mut wires, &steps);
    let shown: Vec<(u8, bool)> =
        at_pulse.iter().map(|seen| (nibble_on(seen), seen[RS.0 as usize])).collect();
    assert_eq!(shown, vec![(0x2, false), (0x8, false), (0x4, true), (0xF, true)]);
    assert!(!wires[RS.0 as usize]);
    assert!(!wires[EN.0 as usize]);
}
