use little_man::vm::{decode, LittleManVirtualMachine, LmvmError, Operation, Step};

const ON: Step = Step { halted: false, output: None };
const HALT: Step = Step { halted: true, output: None };

fn machine_with(program: &[i16]) -> LittleManVirtualMachine {
    LittleManVirtualMachine::new().with_program(program, 0).unwrap()
}

/// A machine whose accumulator holds `acc` after two steps: the value is
/// stored by the loader in mailbox 50 and loaded from there.
fn machine_holding(acc: i16, then: &[i16]) -> LittleManVirtualMachine {
    let mut program = vec![550i16];
    program.extend_from_slice(then);
    let mut machine = LittleManVirtualMachine::new()
        .with_program(&program, 0)
        .unwrap()
        .with_program(&[acc], 50)
        .unwrap();
    assert_eq!(machine.execute_one(), Ok(ON));
    assert_eq!(machine.accumulator(), acc);
    machine
}

#[test]
fn a_new_machine_is_empty() {
    let machine = LittleManVirtualMachine::new();
    assert_eq!(machine.accumulator(), 0);
    assert_eq!(machine.instruction_counter(), 0);
    assert!(machine.zero_flag());
    assert!(machine.positive_flag());
    assert_eq!(machine.pending(), 0);
    assert_eq!(machine.mailboxes(), &[0i16; 100]);
}

#[test]
fn new_machine_halts_on_empty_memory() {
    let mut machine = LittleManVirtualMachine::new();
    assert_eq!(machine.execute_one(), Ok(HALT));
    assert_eq!(machine.instruction_counter(), 1);
}

#[test]
fn a_program_is_copied_to_the_mailboxes() {
    let machine = LittleManVirtualMachine::new().with_program(&[1, 2, 3], 10).unwrap();
    let mut expected = [0i16; 100];
    expected[10] = 1;
    expected[11] = 2;
    expected[12] = 3;
    assert_eq!(machine.mailboxes(), &expected);
    let machine = machine.with_program(&[7, 8], 11).unwrap();
    expected[11] = 7;
    expected[12] = 8;
    assert_eq!(machine.mailboxes(), &expected);
    assert_eq!(machine.instruction_counter(), 0);
    assert_eq!(machine.accumulator(), 0);
}

#[test]
fn program_that_reaches_mailbox_99_does_not_fit() {
    let program = vec![0i16; 99];
    assert!(LittleManVirtualMachine::new().with_program(&program, 0).is_ok());
    let result = LittleManVirtualMachine::new().with_program(&program, 1);
    assert!(matches!(result, Err(LmvmError::ProgramDoesNotFit)));
    assert!(LittleManVirtualMachine::new().with_program(&[5], 98).is_ok());
    assert!(matches!(
        LittleManVirtualMachine::new().with_program(&[5], 99),
        Err(LmvmError::ProgramDoesNotFit)
    ));
    assert!(LittleManVirtualMachine::new().with_program(&[], 99).is_ok());
    assert!(matches!(
        LittleManVirtualMachine::new().with_program(&[], 100),
        Err(LmvmError::ProgramDoesNotFit)
    ));
    assert!(matches!(
        LittleManVirtualMachine::new().with_program(&[1, 2], usize::MAX),
        Err(LmvmError::ProgramDoesNotFit)
    ));
    assert!(matches!(
        LittleManVirtualMachine::new().with_program(&vec![0i16; 100], 0),
        Err(LmvmError::ProgramDoesNotFit)
    ));
}

#[test]
fn words_are_decoded_by_their_band() {
    assert_eq!(decode(0), Some(Operation::Stop));
    assert_eq!(decode(100), Some(Operation::Add(0)));
    assert_eq!(decode(199), Some(Operation::Add(99)));
    assert_eq!(decode(200), Some(Operation::Sub(0)));
    assert_eq!(decode(299), Some(Operation::Sub(99)));
    assert_eq!(decode(342), Some(Operation::Store(42)));
    assert_eq!(decode(400), Some(Operation::StoreAddress(0)));
    assert_eq!(decode(499), Some(Operation::StoreAddress(99)));
    assert_eq!(decode(507), Some(Operation::Load(7)));
    assert_eq!(decode(600), Some(Operation::Branch(0)));
    assert_eq!(decode(699), Some(Operation::Branch(99)));
    assert_eq!(decode(750), Some(Operation::BranchIfZero(50)));
    assert_eq!(decode(800), Some(Operation::BranchIfPositive(0)));
    assert_eq!(decode(899), Some(Operation::BranchIfPositive(99)));
    assert_eq!(decode(901), Some(Operation::Read));
    assert_eq!(decode(902), Some(Operation::Print));
}

#[test]
fn words_outside_the_bands_are_no_instruction() {
    for word in [1, 50, 99, 900, 903, 999, 1000, -1, -100, -901, i16::MAX, i16::MIN] {
        assert_eq!(decode(word), None, "{word}");
        let mut machine = machine_with(&[word]);
        assert_eq!(machine.execute_one(), Err(LmvmError::InvalidInstruction(word)));
        assert_eq!(machine.instruction_counter(), 1);
    }
}

#[test]
fn every_word_decodes_as_its_band_says() {
    for word in i16::MIN..=i16::MAX {
        let expected = match word {
            0 => Some(Operation::Stop),
            100..=199 => Some(Operation::Add((word - 100) as u8)),
            200..=299 => Some(Operation::Sub((word - 200) as u8)),
            300..=399 => Some(Operation::Store((word - 300) as u8)),
            400..=499 => Some(Operation::StoreAddress((word - 400) as u8)),
            500..=599 => Some(Operation::Load((word - 500) as u8)),
            600..=699 => Some(Operation::Branch((word - 600) as u8)),
            700..=799 => Some(Operation::BranchIfZero((word - 700) as u8)),
            800..=899 => Some(Operation::BranchIfPositive((word - 800) as u8)),
            901 => Some(Operation::Read),
            902 => Some(Operation::Print),
            _ => None,
        };
        assert_eq!(decode(word), expected, "{word}");
    }
}

#[test]
fn load_add_and_sub_work_on_the_accumulator() {
    let mut machine = LittleManVirtualMachine::new()
        .with_program(&[510, 111, 212, 212, 0], 0)
        .unwrap()
        .with_program(&[40, 2, 30], 10)
        .unwrap();
    assert_eq!(machine.execute_one(), Ok(ON));
    assert_eq!(machine.accumulator(), 40);
    assert_eq!(machine.execute_one(), Ok(ON));
    assert_eq!(machine.accumulator(), 42);
    assert_eq!(machine.execute_one(), Ok(ON));
    assert_eq!(machine.accumulator(), 12);
    assert!(machine.positive_flag());
    assert!(!machine.zero_flag());
    assert_eq!(machine.execute_one(), Ok(ON));
    assert_eq!(machine.accumulator(), -18);
    assert!(!machine.positive_flag());
    assert!(!machine.zero_flag());
    assert_eq!(machine.execute_one(), Ok(HALT));
    assert_eq!(machine.accumulator(), -18);
    assert_eq!(machine.instruction_counter(), 5);
}

#[test]
fn a_sum_of_499_succeeds_and_sets_the_positive_flag() {
    let mut machine = LittleManVirtualMachine::new()
        .with_program(&[510, 111], 0)
        .unwrap()
        .with_program(&[250, 249], 10)
        .unwrap();
    assert_eq!(machine.execute_one(), Ok(ON));
    assert_eq!(machine.execute_one(), Ok(ON));
    assert_eq!(machine.accumulator(), 499);
    assert!(machine.positive_flag());
    assert!(!machine.zero_flag());
}

#[test]
fn a_sum_of_500_fails() {
    let mut machine = LittleManVirtualMachine::new()
        .with_program(&[510, 111], 0)
        .unwrap()
        .with_program(&[250, 250], 10)
        .unwrap();
    assert_eq!(machine.execute_one(), Ok(ON));
    assert_eq!(machine.execute_one(), Err(LmvmError::NumberOutOfRange(500)));
}

#[test]
fn a_difference_of_minus_500_succeeds_and_one_of_minus_501_fails() {
    let mut machine = LittleManVirtualMachine::new()
        .with_program(&[510, 211], 0)
        .unwrap()
        .with_program(&[-250, 250], 10)
        .unwrap();
    assert_eq!(machine.execute_one(), Ok(ON));
    assert_eq!(machine.execute_one(), Ok(ON));
    assert_eq!(machine.accumulator(), -500);
    assert!(!machine.positive_flag());
    assert!(!machine.zero_flag());
    let mut machine = LittleManVirtualMachine::new()
        .with_program(&[510, 211], 0)
        .unwrap()
        .with_program(&[-250, 251], 10)
        .unwrap();
    assert_eq!(machine.execute_one(), Ok(ON));
    assert_eq!(machine.execute_one(), Err(LmvmError::NumberOutOfRange(-501)));
    assert_eq!(machine.accumulator(), -501);
}

#[test]
fn loading_a_value_out_of_range_fails() {
    let mut machine = LittleManVirtualMachine::new()
        .with_program(&[510], 0)
        .unwrap()
        .with_program(&[500], 10)
        .unwrap();
    assert_eq!(machine.execute_one(), Err(LmvmError::NumberOutOfRange(500)));
    let mut machine = LittleManVirtualMachine::new()
        .with_program(&[510], 0)
        .unwrap()
        .with_program(&[-501], 10)
        .unwrap();
    assert_eq!(machine.execute_one(), Err(LmvmError::NumberOutOfRange(-501)));
}

#[test]
fn a_failed_write_keeps_the_flags_and_the_counter_moves_on() {
    let mut machine = LittleManVirtualMachine::new()
        .with_program(&[510], 0)
        .unwrap()
        .with_program(&[-700], 10)
        .unwrap();
    assert_eq!(machine.execute_one(), Err(LmvmError::NumberOutOfRange(-700)));
    assert_eq!(machine.accumulator(), -700);
    assert!(machine.positive_flag());
    assert!(machine.zero_flag());
    assert_eq!(machine.instruction_counter(), 1);
}

#[test]
fn sums_beyond_a_word_do_not_wrap() {
    let mut machine = LittleManVirtualMachine::new()
        .with_program(&[510, 111], 0)
        .unwrap()
        .with_program(&[499, i16::MAX], 10)
        .unwrap();
    assert_eq!(machine.execute_one(), Ok(ON));
    assert_eq!(machine.execute_one(), Err(LmvmError::NumberOutOfRange(i16::MAX)));
    let mut machine = LittleManVirtualMachine::new()
        .with_program(&[510, 211], 0)
        .unwrap()
        .with_program(&[-500, i16::MAX], 10)
        .unwrap();
    assert_eq!(machine.execute_one(), Ok(ON));
    assert_eq!(machine.execute_one(), Err(LmvmError::NumberOutOfRange(i16::MIN)));
    let mut machine = LittleManVirtualMachine::new()
        .with_program(&[510, 211], 0)
        .unwrap()
        .with_program(&[499, i16::MIN], 10)
        .unwrap();
    assert_eq!(machine.execute_one(), Ok(ON));
    assert_eq!(machine.execute_one(), Err(LmvmError::NumberOutOfRange(i16::MAX)));
}

#[test]
fn the_flags_follow_the_accumulator() {
    let mut machine = machine_holding(5, &[250, 250]);
    assert!(machine.positive_flag() && !machine.zero_flag());
    assert_eq!(machine.execute_one(), Ok(ON));
    assert_eq!(machine.accumulator(), 0);
    assert!(machine.positive_flag() && machine.zero_flag());
    assert_eq!(machine.execute_one(), Ok(ON));
    assert_eq!(machine.accumulator(), -5);
    assert!(!machine.positive_flag() && !machine.zero_flag());
}

#[test]
fn store_writes_the_accumulator() {
    let mut machine = machine_holding(-321, &[360]);
    assert_eq!(machine.execute_one(), Ok(ON));
    assert_eq!(machine.mailboxes()[60], -321);
    assert_eq!(machine.accumulator(), -321);
}

#[test]
fn store_address_writes_the_two_low_digits() {
    let mut machine = machine_holding(199, &[460]);
    assert_eq!(machine.execute_one(), Ok(ON));
    assert_eq!(machine.mailboxes()[60], 99);
    assert_eq!(machine.accumulator(), 199);
    let mut machine = machine_holding(42, &[460]);
    assert_eq!(machine.execute_one(), Ok(ON));
    assert_eq!(machine.mailboxes()[60], 42);
    let mut machine = machine_holding(300, &[460]);
    assert_eq!(machine.execute_one(), Ok(ON));
    assert_eq!(machine.mailboxes()[60], 0);
}

#[test]
fn store_address_keeps_the_sign() {
    let mut machine = machine_holding(-199, &[460]);
    assert_eq!(machine.execute_one(), Ok(ON));
    assert_eq!(machine.mailboxes()[60], -99);
    let mut machine = machine_holding(-500, &[460]);
    assert_eq!(machine.execute_one(), Ok(ON));
    assert_eq!(machine.mailboxes()[60], 0);
}

#[test]
fn store_address_can_rewrite_a_branch() {
    // The branch in mailbox 3 is given its target at run time.
    let mut machine = LittleManVirtualMachine::new()
        .with_program(&[550, 403, 0, 600], 0)
        .unwrap()
        .with_program(&[607], 50)
        .unwrap();
    assert_eq!(machine.execute_one(), Err(LmvmError::NumberOutOfRange(607)));
    assert_eq!(machine.execute_one(), Ok(ON));
    assert_eq!(machine.mailboxes()[3], 7);
}

#[test]
fn branch_replaces_the_counter() {
    let mut machine = machine_with(&[605, 0, 0, 0, 0, 600]);
    assert_eq!(machine.execute_one(), Ok(ON));
    assert_eq!(machine.instruction_counter(), 5);
    assert_eq!(machine.execute_one(), Ok(ON));
    assert_eq!(machine.instruction_counter(), 0);
}

#[test]
fn branch_if_zero_looks_at_the_zero_flag() {
    let mut machine = machine_with(&[710]);
    assert_eq!(machine.execute_one(), Ok(ON));
    assert_eq!(machine.instruction_counter(), 10);
    let mut machine = machine_holding(3, &[710]);
    assert_eq!(machine.execute_one(), Ok(ON));
    assert_eq!(machine.instruction_counter(), 2);
}

#[test]
fn branch_if_positive_looks_at_the_positive_flag() {
    let mut machine = machine_holding(0, &[820]);
    assert_eq!(machine.execute_one(), Ok(ON));
    assert_eq!(machine.instruction_counter(), 20);
    let mut machine = machine_holding(9, &[820]);
    assert_eq!(machine.execute_one(), Ok(ON));
    assert_eq!(machine.instruction_counter(), 20);
    let mut machine = machine_holding(-9, &[820]);
    assert_eq!(machine.execute_one(), Ok(ON));
    assert_eq!(machine.instruction_counter(), 2);
}

#[test]
fn print_emits_the_accumulator() {
    let mut machine = machine_holding(-77, &[902, 902]);
    assert_eq!(machine.execute_one(), Ok(Step { halted: false, output: Some(-77) }));
    assert_eq!(machine.execute_one(), Ok(Step { halted: false, output: Some(-77) }));
    assert_eq!(machine.accumulator(), -77);
}

#[test]
fn input_is_read_in_the_order_given_and_a_zero_follows() {
    let mut machine = machine_with(&[901, 901, 901, 901, 901]).with_input(&[7, -3, 11]);
    assert_eq!(machine.pending(), 4);
    let mut read = Vec::new();
    for _ in 0..4 {
        assert_eq!(machine.execute_one(), Ok(ON));
        read.push(machine.accumulator());
    }
    assert_eq!(read, vec![7, -3, 11, 0]);
    assert_eq!(machine.pending(), 0);
    assert!(machine.zero_flag());
}

#[test]
fn read_does_nothing_when_no_input_is_left() {
    let mut machine = machine_holding(5, &[901, 901]);
    assert_eq!(machine.execute_one(), Ok(ON));
    assert_eq!(machine.accumulator(), 5);
    assert_eq!(machine.instruction_counter(), 2);
    assert!(!machine.zero_flag());
    let mut machine = machine_holding(5, &[901, 901]).with_input(&[]);
    assert_eq!(machine.execute_one(), Ok(ON));
    assert_eq!(machine.accumulator(), 0);
    assert_eq!(machine.execute_one(), Ok(ON));
    assert_eq!(machine.accumulator(), 0);
}

#[test]
fn input_given_twice_is_read_batch_by_batch() {
    let mut machine = machine_with(&[901, 901, 901, 901, 901, 901])
        .with_input(&[1, 2])
        .with_input(&[3]);
    let mut read = Vec::new();
    for _ in 0..6 {
        assert_eq!(machine.execute_one(), Ok(ON));
        read.push(machine.accumulator());
    }
    assert_eq!(read, vec![1, 2, 0, 3, 0, 0]);
}

#[test]
fn input_out_of_range_fails_when_it_is_read() {
    let mut machine = machine_with(&[901, 901]).with_input(&[500, 4]);
    assert_eq!(machine.execute_one(), Err(LmvmError::NumberOutOfRange(500)));
    assert_eq!(machine.pending(), 2);
    assert_eq!(machine.execute_one(), Ok(ON));
    assert_eq!(machine.accumulator(), 4);
}

#[test]
fn the_counter_stops_behind_the_last_mailbox() {
    let mut machine = machine_with(&[698]).with_program(&[901], 98).unwrap();
    assert_eq!(machine.execute_one(), Ok(ON));
    assert_eq!(machine.instruction_counter(), 98);
    assert_eq!(machine.execute_one(), Ok(ON));
    assert_eq!(machine.instruction_counter(), 99);
    assert_eq!(machine.execute_one(), Ok(HALT));
    assert_eq!(machine.instruction_counter(), 100);
    assert_eq!(machine.execute_one(), Err(LmvmError::InstructionCounterOutOfBounds));
    assert_eq!(machine.execute_one(), Err(LmvmError::InstructionCounterOutOfBounds));
    assert_eq!(machine.instruction_counter(), 100);
}

#[test]
fn the_difference_of_two_inputs_is_printed() {
    // read; sto 20; read; sub 20; sta 21; print; stop
    let program = [901, 320, 901, 220, 421, 902, 0];
    let mut machine = machine_with(&program).with_input(&[7, -3]);
    let mut printed = Vec::new();
    loop {
        let step = machine.execute_one().unwrap();
        if let Some(value) = step.output {
            printed.push(value);
        }
        if step.halted {
            break;
        }
    }
    // The first value given is read first: -3 - 7, and not 7 - (-3).
    assert_eq!(printed, vec![-10]);
    assert_eq!(machine.mailboxes()[20], 7);
    assert_eq!(machine.mailboxes()[21], -10);
    assert_eq!(machine.pending(), 1);
}
