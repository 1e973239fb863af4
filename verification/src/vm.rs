//! The little man computer: one hundred mailboxes, an accumulator, an
//! instruction counter and two condition flags, driven one instruction at a
//! time.

use std::collections::VecDeque;
use vstd::prelude::*;

verus! {

/// Why the machine refused to go on.
#[derive(Debug, Clone, Copy, PartialEq, Eq)]
pub enum LmvmError {
    /// The program would reach past the last mailbox a program may occupy.
    ProgramDoesNotFit,
    /// The instruction counter has run past mailbox 99.
    InstructionCounterOutOfBounds,
    /// The accumulator was given a value outside -500..=499.
    NumberOutOfRange(i16),
    /// The fetched word belongs to no instruction.
    InvalidInstruction(i16),
}

/// A fetched word, classified. The payload is the mailbox or the address
/// named by the word's two low decimal digits.
#[derive(Debug, Clone, Copy, PartialEq, Eq)]
pub enum Operation {
    Stop,
    Add(u8),
    Sub(u8),
    Store(u8),
    StoreAddress(u8),
    Load(u8),
    Branch(u8),
    BranchIfZero(u8),
    BranchIfPositive(u8),
    Read,
    Print,
}

/// What one executed instruction reports to the caller.
#[derive(Debug, Clone, Copy, PartialEq, Eq)]
pub struct Step {
    /// The instruction was `Stop`.
    pub halted: bool,
    /// The value a `Print` instruction emitted, if the instruction was one.
    pub output: Option<i16>,
}

/// The mathematical state of a machine.
pub struct MachineState {
    /// Pending input values; `input[0]` is the next one `Read` consumes.
    pub input: Seq<i16>,
    /// The hundred mailboxes.
    pub mailboxes: Seq<i16>,
    /// Address of the next instruction to fetch.
    pub ic: nat,
    pub acc: i16,
    pub zero: bool,
    pub positive: bool,
}

/// The operation a word stands for: `0`, `901` and `902` are fixed, and the
/// words from 100 to 899 fall into bands of one hundred, one per family.
pub open spec fn decoded(word: i16) -> Option<Operation> {
    let slot = (word % 100) as u8;
    if word == 0 {
        Some(Operation::Stop)
    } else if word == 901 {
        Some(Operation::Read)
    } else if word == 902 {
        Some(Operation::Print)
    } else if word < 100 || word > 899 {
        None
    } else if word / 100 == 1 {
        Some(Operation::Add(slot))
    } else if word / 100 == 2 {
        Some(Operation::Sub(slot))
    } else if word / 100 == 3 {
        Some(Operation::Store(slot))
    } else if word / 100 == 4 {
        Some(Operation::StoreAddress(slot))
    } else if word / 100 == 5 {
        Some(Operation::Load(slot))
    } else if word / 100 == 6 {
        Some(Operation::Branch(slot))
    } else if word / 100 == 7 {
        Some(Operation::BranchIfZero(slot))
    } else {
        Some(Operation::BranchIfPositive(slot))
    }
}

/// The accumulator's legal values.
pub open spec fn in_range(value: int) -> bool {
    -500 <= value <= 499
}

/// `value` brought to the nearest number a word can hold.
pub open spec fn saturated(value: int) -> i16 {
    if value > i16::MAX {
        i16::MAX
    } else if value < i16::MIN {
        i16::MIN
    } else {
        value as i16
    }
}

/// The two low decimal digits of `value`, keeping its sign.
pub open spec fn low_digits(value: i16) -> i16 {
    if value >= 0 {
        (value % 100) as i16
    } else {
        (-((-value) % 100)) as i16
    }
}

/// The report of an instruction that neither halts nor prints.
pub open spec fn carried_on() -> Step {
    Step { halted: false, output: None }
}

impl MachineState {
    /// The state that a machine keeps while no step has failed: the counter
    /// is at most one past the last mailbox, the accumulator is in range and
    /// the flags say what it holds.
    pub open spec fn valid(self) -> bool {
        &&& self.mailboxes.len() == 100
        &&& self.ic <= 100
        &&& in_range(self.acc as int)
        &&& self.zero == (self.acc == 0)
        &&& self.positive == (self.acc >= 0)
    }

    /// The accumulator is given `value`. Outside the words' range the value
    /// saturates; outside -500..=499 the write stands, the flags keep their
    /// old values, and the step fails.
    pub open spec fn write_accumulator(self, value: int) -> (MachineState, Result<Step, LmvmError>) {
        let acc = saturated(value);
        if in_range(acc as int) {
            (MachineState { acc, zero: acc == 0, positive: acc >= 0, ..self }, Ok(carried_on()))
        } else {
            (MachineState { acc, ..self }, Err(LmvmError::NumberOutOfRange(acc)))
        }
    }

    /// The effect of `op` on a state whose counter already points past it.
    pub open spec fn execute(self, op: Operation) -> (MachineState, Result<Step, LmvmError>) {
        match op {
            Operation::Stop => (self, Ok(Step { halted: true, output: None })),
            Operation::Add(slot) => self.write_accumulator(self.acc + self.mailboxes[slot as int]),
            Operation::Sub(slot) => self.write_accumulator(self.acc - self.mailboxes[slot as int]),
            Operation::Store(slot) => (
                MachineState { mailboxes: self.mailboxes.update(slot as int, self.acc), ..self },
                Ok(carried_on()),
            ),
            Operation::StoreAddress(slot) => (
                MachineState {
                    mailboxes: self.mailboxes.update(slot as int, low_digits(self.acc)),
                    ..self
                },
                Ok(carried_on()),
            ),
            Operation::Load(slot) => self.write_accumulator(self.mailboxes[slot as int] as int),
            Operation::Branch(target) => (
                MachineState { ic: target as nat, ..self },
                Ok(carried_on()),
            ),
            Operation::BranchIfZero(target) => (
                if self.zero {
                    MachineState { ic: target as nat, ..self }
                } else {
                    self
                },
                Ok(carried_on()),
            ),
            Operation::BranchIfPositive(target) => (
                if self.positive {
                    MachineState { ic: target as nat, ..self }
                } else {
                    self
                },
                Ok(carried_on()),
            ),
            Operation::Read => if self.input.len() > 0 {
                MachineState { input: self.input.drop_first(), ..self }.write_accumulator(
                    self.input[0] as int,
                )
            } else {
                (self, Ok(carried_on()))
            },
            Operation::Print => (self, Ok(Step { halted: false, output: Some(self.acc) })),
        }
    }

    /// One fetch-decode-execute cycle: the state afterwards and the report.
    /// The counter advances at the fetch, before the word is decoded, so it
    /// has moved on even when the word is refused.
    pub open spec fn step(self) -> (MachineState, Result<Step, LmvmError>) {
        if self.ic > 99 {
            (self, Err(LmvmError::InstructionCounterOutOfBounds))
        } else {
            let word = self.mailboxes[self.ic as int];
            let fetched = MachineState { ic: self.ic + 1, ..self };
            match decoded(word) {
                Some(op) => fetched.execute(op),
                None => (fetched, Err(LmvmError::InvalidInstruction(word))),
            }
        }
    }

    /// The value that the next step gives the accumulator, if it gives it
    /// one: a sum, a difference, what a mailbox holds, or the next input.
    pub open spec fn written(self) -> Option<int> {
        if self.ic > 99 {
            None
        } else {
            match decoded(self.mailboxes[self.ic as int]) {
                Some(Operation::Add(slot)) => Some(self.acc + self.mailboxes[slot as int]),
                Some(Operation::Sub(slot)) => Some(self.acc - self.mailboxes[slot as int]),
                Some(Operation::Load(slot)) => Some(self.mailboxes[slot as int] as int),
                Some(Operation::Read) => if self.input.len() > 0 {
                    Some(self.input[0] as int)
                } else {
                    None
                },
                _ => None,
            }
        }
    }

    /// The state after `values` were queued behind what was pending, with
    /// the closing zero that every batch of input ends in.
    pub open spec fn queue(self, values: Seq<i16>) -> MachineState {
        MachineState { input: self.input + values + seq![0i16], ..self }
    }

    /// Whether `program`, placed at mailbox `at`, stays below mailbox 99.
    pub open spec fn fits(at: int, program: Seq<i16>) -> bool {
        at + program.len() <= 99
    }

    /// The state after `program` was copied to the mailboxes from `at` on.
    pub open spec fn load(self, program: Seq<i16>, at: int) -> MachineState {
        MachineState {
            mailboxes: Seq::new(
                self.mailboxes.len(),
                |i: int|
                    if at <= i < at + program.len() {
                        program[i - at]
                    } else {
                        self.mailboxes[i]
                    },
            ),
            ..self
        }
    }
}

/// Classifies a fetched word.
pub fn decode(word: i16) -> (op: Option<Operation>)
    ensures
        op == decoded(word),
{
    if word == 0 {
        Some(Operation::Stop)
    } else if word == 901 {
        Some(Operation::Read)
    } else if word == 902 {
        Some(Operation::Print)
    } else if word < 100 || word > 899 {
        None
    } else {
        let slot = (word % 100) as u8;
        let band: i16 = word / 100;
        if band == 1 {
            Some(Operation::Add(slot))
        } else if band == 2 {
            Some(Operation::Sub(slot))
        } else if band == 3 {
            Some(Operation::Store(slot))
        } else if band == 4 {
            Some(Operation::StoreAddress(slot))
        } else if band == 5 {
            Some(Operation::Load(slot))
        } else if band == 6 {
            Some(Operation::Branch(slot))
        } else if band == 7 {
            Some(Operation::BranchIfZero(slot))
        } else {
            Some(Operation::BranchIfPositive(slot))
        }
    }
}

/// The machine itself.
#[derive(Debug)]
pub struct LittleManVirtualMachine {
    /// Pending input; the value at the back is consumed next.
    input: VecDeque<i16>,
    mailboxes: [i16; 100],
    ic: usize,
    acc: i16,
    zero: bool,
    positive: bool,
}

impl View for LittleManVirtualMachine {
    type V = MachineState;

    closed spec fn view(&self) -> MachineState {
        MachineState {
            input: self.input@.reverse(),
            mailboxes: self.mailboxes@,
            ic: self.ic as nat,
            acc: self.acc,
            zero: self.zero,
            positive: self.positive,
        }
    }
}

impl LittleManVirtualMachine {
    /// A machine with every mailbox at zero, nothing to read, the counter at
    /// mailbox 0 and an accumulator of zero.
    pub fn new() -> (machine: LittleManVirtualMachine)
        ensures
            machine@ == (MachineState {
                input: Seq::empty(),
                mailboxes: Seq::new(100, |i: int| 0i16),
                ic: 0,
                acc: 0,
                zero: true,
                positive: true,
            }),
            machine@.valid(),
    {
        let machine = LittleManVirtualMachine {
            input: VecDeque::new(),
            mailboxes: [0i16;100],
            ic: 0,
            acc: 0,
            positive: true,
            zero: true,
        };
        assert(machine@.mailboxes =~= Seq::new(100, |i: int| 0i16));
        machine
    }

    /// Executes one instruction and reports whether it halted the machine
    /// and what it printed.
    pub fn execute_one(&mut self) -> (report: Result<Step, LmvmError>)
        ensures
            (final(self)@, report) == old(self)@.step(),
            old(self)@.valid() && report is Ok ==> final(self)@.valid(),
    {
        if self.ic > 99 {
            return Err(LmvmError::InstructionCounterOutOfBounds);
        }
        let instruction = self.mailboxes[self.ic];
        self.ic += 1;
        let ghost fetched = self@;
        match decode(instruction) {
            None => Err(LmvmError::InvalidInstruction(instruction)),
            Some(Operation::Stop) => Ok(Step { halted: true, output: None }),
            Some(Operation::Add(slot)) => {
                let value = self.acc as i32 + self.mailboxes[slot as usize] as i32;
                self.write_accumulator(value)
            },
            Some(Operation::Sub(slot)) => {
                let value = self.acc as i32 - self.mailboxes[slot as usize] as i32;
                self.write_accumulator(value)
            },
            Some(Operation::Store(slot)) => {
                self.mailboxes[slot as usize] = self.acc;
                Ok(Step { halted: false, output: None })
            },
            Some(Operation::StoreAddress(slot)) => {
                self.mailboxes[slot as usize] = self.acc % 100;
                Ok(Step { halted: false, output: None })
            },
            Some(Operation::Load(slot)) => {
                let value = self.mailboxes[slot as usize] as i32;
                self.write_accumulator(value)
            },
            Some(Operation::Branch(target)) => {
                self.ic = target as usize;
                Ok(Step { halted: false, output: None })
            },
            Some(Operation::BranchIfZero(target)) => {
                if self.zero {
                    self.ic = target as usize;
                }
                Ok(Step { halted: false, output: None })
            },
            Some(Operation::BranchIfPositive(target)) => {
                if self.positive {
                    self.ic = target as usize;
                }
                Ok(Step { halted: false, output: None })
            },
            Some(Operation::Read) => {
                match self.input.pop_back() {
                    Some(value) => {
                        assert(self@.input =~= fetched.input.drop_first());
                        self.write_accumulator(value as i32)
                    },
                    None => Ok(Step { halted: false, output: None }),
                }
            },
            Some(Operation::Print) => Ok(Step { halted: false, output: Some(self.acc) }),
        }
    }

    /// Queues `input` behind what is already pending, in the order given,
    /// and a zero behind it.
    pub fn with_input(self, input: &[i16]) -> (machine: LittleManVirtualMachine)
        ensures
            machine@ == self@.queue(input@),
            self@.valid() ==> machine@.valid(),
    {
        let ghost before = self@;
        let mut machine = self;
        let mut i: usize = 0;
        while i < input.len()
            invariant
                i <= input.len(),
                machine@ == (MachineState {
                    input: before.input + input@.take(i as int),
                    ..before
                }),
            decreases input.len() - i,
        {
            let ghost queued = machine.input@;
            machine.input.push_front(input[i]);
            assert(machine.input@.reverse() =~= queued.reverse().push(input@[i as int]));
            assert(input@.take(i + 1) =~= input@.take(i as int).push(input@[i as int]));
            i += 1;
        }
        let ghost queued = machine.input@;
        machine.input.push_front(0);
        assert(input@.take(input.len() as int) =~= input@);
        assert(machine.input@.reverse() =~= queued.reverse() + seq![0i16]);
        machine
    }

    /// Copies `program` into the mailboxes from `at` on, unless it would
    /// reach mailbox 99.
    pub fn with_program(self, program: &[i16], at: usize) -> (loaded: Result<
        LittleManVirtualMachine,
        LmvmError,
    >)
        ensures
            match loaded {
                Ok(machine) => {
                    &&& MachineState::fits(at as int, program@)
                    &&& machine@ == self@.load(program@, at as int)
                    &&& self@.valid() ==> machine@.valid()
                },
                Err(error) => {
                    &&& !MachineState::fits(at as int, program@)
                    &&& error == LmvmError::ProgramDoesNotFit
                },
            },
    {
        if at > 99 || program.len() > 99 - at {
            return Err(LmvmError::ProgramDoesNotFit);
        }
        let ghost before = self@;
        let mut machine = self;
        let mut idx: usize = 0;
        assert(before.mailboxes =~= before.load(program@.take(0), at as int).mailboxes);
        while idx < program.len()
            invariant
                idx <= program.len(),
                at + program.len() <= 99,
                machine@ == before.load(program@.take(idx as int), at as int),
            decreases program.len() - idx,
        {
            machine.mailboxes[idx + at] = program[idx];
            assert(machine@.mailboxes =~= before.load(
                program@.take(idx + 1),
                at as int,
            ).mailboxes);
            idx += 1;
        }
        assert(program@.take(program.len() as int) =~= program@);
        Ok(machine)
    }

    /// What the accumulator holds.
    pub fn accumulator(&self) -> (acc: i16)
        ensures
            acc == self@.acc,
    {
        self.acc
    }

    /// The address of the instruction that the next step fetches.
    pub fn instruction_counter(&self) -> (ic: usize)
        ensures
            ic == self@.ic,
    {
        self.ic
    }

    /// Whether the zero flag is set.
    pub fn zero_flag(&self) -> (zero: bool)
        ensures
            zero == self@.zero,
    {
        self.zero
    }

    /// Whether the positive flag is set.
    pub fn positive_flag(&self) -> (positive: bool)
        ensures
            positive == self@.positive,
    {
        self.positive
    }

    /// The hundred mailboxes.
    pub fn mailboxes(&self) -> (mailboxes: &[i16; 100])
        ensures
            mailboxes@ == self@.mailboxes,
    {
        &self.mailboxes
    }

    /// How many input values are waiting to be read.
    pub fn pending(&self) -> (count: usize)
        ensures
            count == self@.input.len(),
    {
        self.input.len()
    }

    /// Every machine has a hundred mailboxes.
    pub proof fn lemma_hundred_mailboxes(&self)
        ensures
            self@.mailboxes.len() == 100,
    {
    }

    /// Refreshes the flags from the accumulator.
    fn set_flags(&mut self)
        ensures
            final(self)@ == (MachineState {
                zero: old(self)@.acc == 0,
                positive: old(self)@.acc >= 0,
                ..old(self)@
            }),
    {
        if self.acc == 0 {
            self.zero = true;
            self.positive = true;
        } else if self.acc < 0 {
            self.zero = false;
            self.positive = false;
        } else {
            self.zero = false;
            self.positive = true;
        }
    }

    /// Fails when the accumulator holds a value outside -500..=499.
    fn check_acc(&self) -> (checked: Result<(), LmvmError>)
        ensures
            in_range(self@.acc as int) ==> checked == Ok::<(), LmvmError>(()),
            !in_range(self@.acc as int) ==> checked == Err::<(), LmvmError>(
                LmvmError::NumberOutOfRange(self@.acc),
            ),
    {
        if self.acc < -500 || self.acc > 499 {
            return Err(LmvmError::NumberOutOfRange(self.acc));
        }
        Ok(())
    }

    /// Gives the accumulator `value`, saturated to a word, then checks its
    /// range and refreshes the flags.
    fn write_accumulator(&mut self, value: i32) -> (report: Result<Step, LmvmError>)
        ensures
            (final(self)@, report) == old(self)@.write_accumulator(value as int),
    {
        self.acc = if value > 32767 {
            32767
        } else if value < -32768 {
            -32768
        } else {
            value as i16
        };
        match self.check_acc() {
            Err(error) => Err(error),
            Ok(()) => {
                self.set_flags();
                Ok(Step { halted: false, output: None })
            },
        }
    }
}

/// Every step that gives the accumulator a value checks the value: the
/// step succeeds exactly if the value is from -500 to 499, and then the
/// accumulator holds it and the flags tell whether it is zero and whether
/// it is at least zero. Otherwise the step fails with the value, which is
/// never wrapped round: outside the range of a word it stops at the
/// nearest word.
pub proof fn lemma_accumulator_is_checked(state: MachineState)
    requires
        state.written() is Some,
    ensures
        state.step().1 is Ok <==> in_range(state.written()->0),
        in_range(state.written()->0) ==> {
            &&& state.step().0.acc == state.written()->0
            &&& state.step().0.zero == (state.written()->0 == 0)
            &&& state.step().0.positive == (state.written()->0 >= 0)
        },
        !in_range(state.written()->0) ==> state.step().1 == Err::<Step, LmvmError>(
            LmvmError::NumberOutOfRange(saturated(state.written()->0)),
        ),
{
}

/// A valid state is still valid after every step that succeeds.
pub proof fn lemma_step_keeps_valid(state: MachineState)
    requires
        state.valid(),
    ensures
        state.step().1 is Ok ==> state.step().0.valid(),
{
}

/// A step that stores the accumulator's address digits writes what is left
/// of the accumulator after division by one hundred, and nothing else.
pub proof fn lemma_store_address_keeps_low_digits(state: MachineState, slot: u8)
    requires
        state.ic <= 99,
        state.mailboxes.len() == 100,
        decoded(state.mailboxes[state.ic as int]) == Some(Operation::StoreAddress(slot)),
    ensures
        state.step().1 == Ok::<Step, LmvmError>(carried_on()),
        state.step().0.mailboxes == state.mailboxes.update(slot as int, low_digits(state.acc)),
        0 <= state.acc ==> 0 <= low_digits(state.acc) < 100 && (state.acc - low_digits(state.acc))
            % 100 == 0,
        state.acc <= 0 ==> -100 < low_digits(state.acc) <= 0 && (state.acc - low_digits(state.acc))
            % 100 == 0,
{
}

} // verus!
