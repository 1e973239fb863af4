//! The assembler: from tokens to the words that the machine runs.

use crate::lexer::{Instruction, InstructionView, Token, TokenView};
use vstd::prelude::*;

verus! {

/// Why a program cannot be assembled.
#[derive(Debug, Clone, PartialEq)]
pub enum AssemblyError {
    /// A mailbox or an address is above 99.
    IndexOutOfRange(usize),
    /// A branch names a label that stands before no instruction.
    LabelDoesNotExist(String),
}

/// An error with its label as plain text.
pub enum AssemblyErrorView {
    IndexOutOfRange(nat),
    LabelDoesNotExist(Seq<char>),
}

impl View for AssemblyError {
    type V = AssemblyErrorView;

    open spec fn view(&self) -> AssemblyErrorView {
        match self {
            AssemblyError::IndexOutOfRange(index) => AssemblyErrorView::IndexOutOfRange(
                *index as nat,
            ),
            AssemblyError::LabelDoesNotExist(label) => AssemblyErrorView::LabelDoesNotExist(
                label@,
            ),
        }
    }
}

/// An instruction in its place in the program, with the label that names
/// the place, if one does.
pub struct Slot {
    pub label: Option<Seq<char>>,
    pub instruction: InstructionView,
}

/// The label that stands right before the token at `at`, if one does.
pub open spec fn label_before(tokens: Seq<TokenView>, at: int) -> Option<Seq<char>> {
    if at > 0 && tokens[at - 1] is Label {
        Some(tokens[at - 1]->Label_0)
    } else {
        None
    }
}

/// The instructions of `tokens` in their order, each with the label that
/// stands right before it. A label that no instruction follows names
/// nothing.
pub open spec fn slots_of(tokens: Seq<TokenView>) -> Seq<Slot>
    decreases tokens.len(),
{
    if tokens.len() == 0 {
        Seq::empty()
    } else {
        let before = slots_of(tokens.drop_last());
        match tokens.last() {
            TokenView::Instruction(instruction) => before.push(
                Slot { label: label_before(tokens, tokens.len() - 1), instruction },
            ),
            TokenView::Label(_) => before,
        }
    }
}

/// The address of each label: the position of the slot that it names.
/// Where a label names several slots, the last one counts.
pub open spec fn symbols_of(slots: Seq<Slot>) -> Map<Seq<char>, nat>
    decreases slots.len(),
{
    if slots.len() == 0 {
        Map::empty()
    } else {
        let before = symbols_of(slots.drop_last());
        match slots.last().label {
            Some(name) => before.insert(name, (slots.len() - 1) as nat),
            None => before,
        }
    }
}

/// The word for an instruction of the family `base` that names the
/// mailbox `index`.
pub open spec fn operand_word(base: int, index: u8) -> Result<i16, AssemblyErrorView> {
    if index > 99 {
        Err(AssemblyErrorView::IndexOutOfRange(index as nat))
    } else {
        Ok((base + index) as i16)
    }
}

/// The word for a branch of the family `base` to `label`.
pub open spec fn label_word(base: int, label: Seq<char>, symbols: Map<Seq<char>, nat>) -> Result<
    i16,
    AssemblyErrorView,
> {
    if !symbols.contains_key(label) {
        Err(AssemblyErrorView::LabelDoesNotExist(label))
    } else if symbols[label] > 99 {
        Err(AssemblyErrorView::IndexOutOfRange(symbols[label]))
    } else {
        Ok((base + symbols[label]) as i16)
    }
}

/// The word that stands for an instruction.
pub open spec fn word_of(instruction: InstructionView, symbols: Map<Seq<char>, nat>) -> Result<
    i16,
    AssemblyErrorView,
> {
    match instruction {
        InstructionView::Stop => Ok(0i16),
        InstructionView::Add(index) => operand_word(100, index),
        InstructionView::Sub(index) => operand_word(200, index),
        InstructionView::Sto(index) => operand_word(300, index),
        InstructionView::Sta(index) => operand_word(400, index),
        InstructionView::Load(index) => operand_word(500, index),
        InstructionView::B(label) => label_word(600, label, symbols),
        InstructionView::Bz(label) => label_word(700, label, symbols),
        InstructionView::Bp(label) => label_word(800, label, symbols),
        InstructionView::Read => Ok(901i16),
        InstructionView::Print => Ok(902i16),
    }
}

/// The words of `slots` in their order, or the error of the first slot
/// that has no word.
pub open spec fn words_of(slots: Seq<Slot>, symbols: Map<Seq<char>, nat>) -> Result<
    Seq<i16>,
    AssemblyErrorView,
>
    decreases slots.len(),
{
    if slots.len() == 0 {
        Ok(Seq::empty())
    } else {
        match words_of(slots.drop_last(), symbols) {
            Err(error) => Err(error),
            Ok(words) => match word_of(slots.last().instruction, symbols) {
                Err(error) => Err(error),
                Ok(word) => Ok(words.push(word)),
            },
        }
    }
}

/// The program that `tokens` assemble to.
pub open spec fn assembled(tokens: Seq<TokenView>) -> Result<Seq<i16>, AssemblyErrorView> {
    let slots = slots_of(tokens);
    words_of(slots, symbols_of(slots))
}

/// The first `count` entries of a list of names and addresses as a map; a
/// later entry replaces an earlier one of the same name.
pub open spec fn entries(listed: Seq<(String, usize)>, count: nat) -> Map<Seq<char>, nat>
    decreases count,
{
    if count == 0 {
        Map::empty()
    } else {
        entries(listed, (count - 1) as nat).insert(
            listed[count - 1].0@,
            listed[count - 1].1 as nat,
        )
    }
}

/// An error of a prefix of the slots is the error of all of them.
pub proof fn lemma_first_error_stands(slots: Seq<Slot>, symbols: Map<Seq<char>, nat>, count: int)
    requires
        0 <= count <= slots.len(),
        words_of(slots.take(count), symbols) is Err,
    ensures
        words_of(slots, symbols) == words_of(slots.take(count), symbols),
    decreases slots.len(),
{
    if count < slots.len() {
        assert(slots.drop_last().take(count) =~= slots.take(count));
        lemma_first_error_stands(slots.drop_last(), symbols, count);
    } else {
        assert(slots.take(count) =~= slots);
    }
}

/// The labels of a program with their addresses.
pub struct SymbolTable {
    listed: Vec<(String, usize)>,
}

impl View for SymbolTable {
    type V = Map<Seq<char>, nat>;

    closed spec fn view(&self) -> Map<Seq<char>, nat> {
        entries(self.listed@, self.listed@.len())
    }
}

impl SymbolTable {
    /// A table without labels.
    pub fn new() -> (table: SymbolTable)
        ensures
            table@ == Map::<Seq<char>, nat>::empty(),
    {
        SymbolTable { listed: Vec::new() }
    }

    /// Gives `name` the address `address`, whatever it had before.
    pub fn insert(&mut self, name: String, address: usize)
        ensures
            final(self)@ == old(self)@.insert(name@, address as nat),
    {
        let ghost before = self.listed@;
        self.listed.push((name, address));
        proof {
            lemma_entries_of_prefix(before, self.listed@, before.len());
        }
    }

    /// The address of `name`, if it has one.
    pub fn get(&self, name: &String) -> (address: Option<usize>)
        ensures
            address is Some <==> self@.contains_key(name@),
            address matches Some(found) ==> self@[name@] == found,
    {
        let mut at = self.listed.len();
        while at > 0
            invariant
                at <= self.listed.len(),
                self@.contains_key(name@) <==> entries(self.listed@, at as nat).contains_key(
                    name@,
                ),
                self@.contains_key(name@) ==> self@[name@] == entries(self.listed@, at as nat)[name@],
            decreases at,
        {
            at -= 1;
            if self.listed[at].0 == *name {
                return Some(self.listed[at].1);
            }
        }
        None
    }
}

/// Entries that two lists share make the same map.
proof fn lemma_entries_of_prefix(
    listed: Seq<(String, usize)>,
    longer: Seq<(String, usize)>,
    count: nat,
)
    requires
        count <= listed.len() <= longer.len(),
        forall|j: int| 0 <= j < count ==> listed[j] == longer[j],
    ensures
        entries(listed, count) == entries(longer, count),
    decreases count,
{
    if count > 0 {
        lemma_entries_of_prefix(listed, longer, (count - 1) as nat);
    }
}

/// The word for a branch of the family `base` to `label`.
fn assemble_label(base: i16, label: &String, labels: &SymbolTable) -> (word: Result<
    i16,
    AssemblyError,
>)
    requires
        base + 99 <= i16::MAX,
    ensures
        match word {
            Ok(word) => label_word(base as int, label@, labels@) == Ok::<i16, AssemblyErrorView>(
                word,
            ),
            Err(error) => label_word(base as int, label@, labels@) == Err::<
                i16,
                AssemblyErrorView,
            >(error@),
        },
{
    match labels.get(label) {
        Some(idx) => {
            if idx > 99 {
                return Err(AssemblyError::IndexOutOfRange(idx));
            }
            Ok(base + (idx as i16))
        },
        None => Err(AssemblyError::LabelDoesNotExist(label.clone())),
    }
}

/// The word for an instruction of the family `base` that names the
/// mailbox `idx`.
fn assemble_code(base: i16, idx: u8) -> (word: Result<i16, AssemblyError>)
    requires
        base + 99 <= i16::MAX,
    ensures
        match word {
            Ok(word) => operand_word(base as int, idx) == Ok::<i16, AssemblyErrorView>(word),
            Err(error) => operand_word(base as int, idx) == Err::<i16, AssemblyErrorView>(
                error@,
            ),
        },
{
    if idx > 99 {
        return Err(AssemblyError::IndexOutOfRange(idx as usize));
    }
    Ok(base + idx as i16)
}

/// The slots that a list of labelled instructions stands for.
pub open spec fn slot_views(listed: Seq<(Option<&String>, &Instruction)>) -> Seq<Slot> {
    Seq::new(
        listed.len(),
        |i: int|
            Slot {
                label: match listed[i].0 {
                    Some(name) => Some(name@),
                    None => None,
                },
                instruction: listed[i].1@,
            },
    )
}

/// Assembles a program: each instruction becomes one word, in order, and
/// each branch carries the address of the instruction that its label
/// names.
pub fn assemble(input: Vec<Token>) -> (program: Result<Vec<i16>, AssemblyError>)
    ensures
        match program {
            Ok(words) => assembled(input.deep_view()) == Ok::<Seq<i16>, AssemblyErrorView>(
                words@,
            ),
            Err(error) => assembled(input.deep_view()) == Err::<Seq<i16>, AssemblyErrorView>(
                error@,
            ),
        },
{
    let ghost tokens = input.deep_view();
    let mut preprocessing: Vec<(Option<&String>, &Instruction)> = Vec::new();
    let mut at: usize = 0;
    while at < input.len()
        invariant
            at <= input.len(),
            tokens == input.deep_view(),
            slot_views(preprocessing@) == slots_of(tokens.take(at as int)),
        decreases input.len() - at,
    {
        assert(tokens.take(at + 1).drop_last() =~= tokens.take(at as int));
        match &input[at] {
            Token::Instruction(instruction) => {
                let label = if at > 0 {
                    match &input[at - 1] {
                        Token::Label(name) => Some(name),
                        Token::Instruction(_) => None,
                    }
                } else {
                    None
                };
                preprocessing.push((label, instruction));
            },
            Token::Label(_) => {},
        }
        at += 1;
    }
    assert(tokens.take(input.len() as int) =~= tokens);
    let ghost slots = slots_of(tokens);

    let mut labels = SymbolTable::new();
    let mut instructions: Vec<&Instruction> = Vec::new();
    let mut index: usize = 0;
    while index < preprocessing.len()
        invariant
            index <= preprocessing.len(),
            slot_views(preprocessing@) == slots,
            labels@ == symbols_of(slots.take(index as int)),
            instructions.len() == index,
            forall|j: int| 0 <= j < index ==> instructions@[j]@ == slots[j].instruction,
        decreases preprocessing.len() - index,
    {
        assert(slots.take(index + 1).drop_last() =~= slots.take(index as int));
        let (label, instruction) = preprocessing[index];
        if let Some(name) = label {
            labels.insert(name.clone(), index);
        }
        instructions.push(instruction);
        index += 1;
    }
    assert(slots.take(preprocessing.len() as int) =~= slots);
    let ghost symbols = symbols_of(slots);

    let mut bincode: Vec<i16> = Vec::new();
    let mut next: usize = 0;
    while next < instructions.len()
        invariant
            next <= instructions.len(),
            instructions.len() == slots.len(),
            forall|j: int| 0 <= j < instructions.len() ==> instructions@[j]@ == slots[j].instruction,
            labels@ == symbols,
            slots == slots_of(input.deep_view()),
            symbols == symbols_of(slots),
            words_of(slots.take(next as int), symbols) == Ok::<Seq<i16>, AssemblyErrorView>(
                bincode@,
            ),
        decreases instructions.len() - next,
    {
        assert(slots.take(next + 1).drop_last() =~= slots.take(next as int));
        let code = match instructions[next] {
            Instruction::Stop => Ok(0),
            Instruction::Add(n) => assemble_code(100, *n),
            Instruction::Sub(n) => assemble_code(200, *n),
            Instruction::Sto(n) => assemble_code(300, *n),
            Instruction::Sta(n) => assemble_code(400, *n),
            Instruction::Load(n) => assemble_code(500, *n),
            Instruction::B(l) => assemble_label(600, l, &labels),
            Instruction::Bz(l) => assemble_label(700, l, &labels),
            Instruction::Bp(l) => assemble_label(800, l, &labels),
            Instruction::Read => Ok(901),
            Instruction::Print => Ok(902),
        };
        match code {
            Ok(word) => bincode.push(word),
            Err(error) => {
                proof {
                    lemma_first_error_stands(slots, symbols, next + 1);
                }
                return Err(error);
            },
        }
        next += 1;
    }
    Ok(bincode)
}

/// The label that a branch goes to.
pub open spec fn target_of(instruction: InstructionView) -> Option<Seq<char>> {
    match instruction {
        InstructionView::B(label) => Some(label),
        InstructionView::Bz(label) => Some(label),
        InstructionView::Bp(label) => Some(label),
        _ => None,
    }
}

/// The position, among the slots, of the instruction that is the token at
/// `at`: the number of instructions before it.
pub open spec fn slot_position(tokens: Seq<TokenView>, at: int) -> nat {
    slots_of(tokens.take(at)).len()
}

/// The slots of the first tokens are the first slots of all tokens.
pub proof fn lemma_slots_of_prefix(tokens: Seq<TokenView>, count: int)
    requires
        0 <= count <= tokens.len(),
    ensures
        slots_of(tokens.take(count)).is_prefix_of(slots_of(tokens)),
    decreases tokens.len(),
{
    if count < tokens.len() {
        assert(tokens.drop_last().take(count) =~= tokens.take(count));
        lemma_slots_of_prefix(tokens.drop_last(), count);
    } else {
        assert(tokens.take(count) =~= tokens);
    }
}

/// Every instruction among the tokens has a slot: it stands at the
/// position that the instructions before it leave, with the label that
/// stands right before it.
pub proof fn lemma_slot_of_instruction(tokens: Seq<TokenView>, at: int)
    requires
        0 <= at < tokens.len(),
        tokens[at] is Instruction,
    ensures
        slot_position(tokens, at) < slots_of(tokens).len(),
        slots_of(tokens)[slot_position(tokens, at) as int] == (Slot {
            label: label_before(tokens, at),
            instruction: tokens[at]->Instruction_0,
        }),
{
    let upto = tokens.take(at + 1);
    let position = slot_position(tokens, at) as int;
    assert(upto.drop_last() =~= tokens.take(at));
    lemma_slots_of_prefix(tokens, at + 1);
    assert(slots_of(tokens)[position] == slots_of(tokens).subrange(
        0,
        slots_of(upto).len() as int,
    )[position]);
}

/// There is one slot for each instruction among the tokens, and none for a
/// label.
pub proof fn lemma_one_slot_for_each_instruction(tokens: Seq<TokenView>)
    ensures
        slots_of(tokens).len() == tokens.filter(|token: TokenView| token is Instruction).len(),
    decreases tokens.len(),
{
    reveal(Seq::filter);
    if tokens.len() > 0 {
        lemma_one_slot_for_each_instruction(tokens.drop_last());
    }
}

/// The labels that have an address are those that name a slot, and the
/// address of each is the position of the last slot that it names.
pub proof fn lemma_symbols_of(slots: Seq<Slot>, name: Seq<char>)
    ensures
        symbols_of(slots).contains_key(name) <==> exists|at: int|
            0 <= at < slots.len() && #[trigger] slots[at].label == Some(name),
        symbols_of(slots).contains_key(name) ==> {
            &&& symbols_of(slots)[name] < slots.len()
            &&& slots[symbols_of(slots)[name] as int].label == Some(name)
            &&& forall|later: int|
                symbols_of(slots)[name] < later < slots.len() ==> #[trigger] slots[later].label
                    != Some(name)
        },
    decreases slots.len(),
{
    if slots.len() > 0 {
        let before = slots.drop_last();
        lemma_symbols_of(before, name);
        if symbols_of(before).contains_key(name) {
            let at = choose|at: int| 0 <= at < before.len() && #[trigger] before[at].label == Some(name);
            assert(slots[at].label == Some(name));
        }
        if symbols_of(slots).contains_key(name) {
            if slots.last().label != Some(name) {
                let found = symbols_of(before)[name] as int;
                assert(slots[found] == before[found]);
                assert forall|later: int|
                    symbols_of(slots)[name] < later < slots.len() implies #[trigger] slots[later].label
                    != Some(name) by {
                    if later < before.len() {
                        assert(slots[later] == before[later]);
                    }
                }
            }
        }
        if exists|at: int| 0 <= at < slots.len() && #[trigger] slots[at].label == Some(name) {
            let at = choose|at: int| 0 <= at < slots.len() && #[trigger] slots[at].label == Some(name);
            if at < before.len() {
                assert(before[at].label == Some(name));
            }
        }
    }
}

/// Whether the slot at `at` is the first one without a word.
pub open spec fn first_without_word(
    slots: Seq<Slot>,
    symbols: Map<Seq<char>, nat>,
    at: int,
) -> bool {
    &&& 0 <= at < slots.len()
    &&& word_of(slots[at].instruction, symbols) is Err
    &&& forall|earlier: int|
        0 <= earlier < at ==> word_of(#[trigger] slots[earlier].instruction, symbols) is Ok
}

/// The words of a program are the words of its slots, one for each; where
/// a slot has no word, the first such slot decides the error.
pub proof fn lemma_words_of(slots: Seq<Slot>, symbols: Map<Seq<char>, nat>)
    ensures
        match words_of(slots, symbols) {
            Ok(words) => {
                &&& words.len() == slots.len()
                &&& forall|at: int|
                    0 <= at < slots.len() ==> word_of(#[trigger] slots[at].instruction, symbols)
                        == Ok::<i16, AssemblyErrorView>(words[at])
            },
            Err(error) => exists|at: int|
                {
                    &&& #[trigger] first_without_word(slots, symbols, at)
                    &&& word_of(slots[at].instruction, symbols) == Err::<i16, AssemblyErrorView>(
                        error,
                    )
                },
        },
    decreases slots.len(),
{
    if slots.len() > 0 {
        let before = slots.drop_last();
        lemma_words_of(before, symbols);
        match words_of(before, symbols) {
            Ok(words) => {
                assert forall|at: int| 0 <= at < before.len() implies word_of(
                    #[trigger] slots[at].instruction,
                    symbols,
                ) == Ok::<i16, AssemblyErrorView>(words[at]) by {
                    assert(slots[at] == before[at]);
                }
                if word_of(slots.last().instruction, symbols) is Err {
                    assert(first_without_word(slots, symbols, slots.len() - 1));
                }
            },
            Err(error) => {
                let at = choose|at: int|
                    {
                        &&& #[trigger] first_without_word(before, symbols, at)
                        &&& word_of(before[at].instruction, symbols) == Err::<
                            i16,
                            AssemblyErrorView,
                        >(error)
                    };
                assert(slots[at] == before[at]);
                assert forall|earlier: int| 0 <= earlier < at implies word_of(
                    #[trigger] slots[earlier].instruction,
                    symbols,
                ) is Ok by {
                    assert(slots[earlier] == before[earlier]);
                }
                assert(first_without_word(slots, symbols, at));
            },
        }
    }
}

/// A program assembles to one word for each of its instructions.
pub proof fn lemma_one_word_for_each_instruction(tokens: Seq<TokenView>)
    requires
        assembled(tokens) is Ok,
    ensures
        assembled(tokens)->Ok_0.len() == tokens.filter(
            |token: TokenView| token is Instruction,
        ).len(),
{
    lemma_one_slot_for_each_instruction(tokens);
    lemma_words_of(slots_of(tokens), symbols_of(slots_of(tokens)));
}

/// A program with a slot that has no word does not assemble, and the error
/// of the first such slot is the program's.
pub proof fn lemma_slot_without_word_fails(
    slots: Seq<Slot>,
    symbols: Map<Seq<char>, nat>,
    at: int,
)
    requires
        0 <= at < slots.len(),
        word_of(slots[at].instruction, symbols) is Err,
    ensures
        words_of(slots, symbols) is Err,
        first_without_word(slots, symbols, at) ==> words_of(slots, symbols) == Err::<
            Seq<i16>,
            AssemblyErrorView,
        >(word_of(slots[at].instruction, symbols)->Err_0),
{
    lemma_words_of(slots, symbols);
    match words_of(slots, symbols) {
        Ok(words) => {
            assert(word_of(slots[at].instruction, symbols) is Ok);
        },
        Err(error) => {
            let first = choose|first: int|
                {
                    &&& #[trigger] first_without_word(slots, symbols, first)
                    &&& word_of(slots[first].instruction, symbols) == Err::<
                        i16,
                        AssemblyErrorView,
                    >(error)
                };
            if first_without_word(slots, symbols, at) {
                if first < at {
                    assert(word_of(slots[first].instruction, symbols) is Ok);
                }
                if at < first {
                    assert(word_of(slots[at].instruction, symbols) is Ok);
                }
            }
        },
    }
}

/// A program with a branch to a label whose address is above 99 does not
/// assemble, however many instructions it has. The error is that the
/// address is out of range, unless an instruction before the branch has
/// no word: then that instruction's error comes first.
pub proof fn lemma_branch_beyond_memory_fails(tokens: Seq<TokenView>, at: int, label: Seq<char>)
    requires
        0 <= at < tokens.len(),
        tokens[at] is Instruction,
        target_of(tokens[at]->Instruction_0) == Some(label),
        symbols_of(slots_of(tokens)).contains_key(label),
        symbols_of(slots_of(tokens))[label] > 99,
    ensures
        assembled(tokens) is Err,
        first_without_word(
            slots_of(tokens),
            symbols_of(slots_of(tokens)),
            slot_position(tokens, at) as int,
        ) ==> assembled(tokens) == Err::<Seq<i16>, AssemblyErrorView>(
            AssemblyErrorView::IndexOutOfRange(symbols_of(slots_of(tokens))[label]),
        ),
{
    lemma_slot_of_instruction(tokens, at);
    lemma_slot_without_word_fails(
        slots_of(tokens),
        symbols_of(slots_of(tokens)),
        slot_position(tokens, at) as int,
    );
}

/// A program with a branch to a label that names no instruction does not
/// assemble: the label never stands for an address of its own. The error
/// is that the label does not exist, unless an instruction before the
/// branch has no word: then that instruction's error comes first.
pub proof fn lemma_branch_to_unknown_label_fails(
    tokens: Seq<TokenView>,
    at: int,
    label: Seq<char>,
)
    requires
        0 <= at < tokens.len(),
        tokens[at] is Instruction,
        target_of(tokens[at]->Instruction_0) == Some(label),
        !symbols_of(slots_of(tokens)).contains_key(label),
    ensures
        assembled(tokens) is Err,
        first_without_word(
            slots_of(tokens),
            symbols_of(slots_of(tokens)),
            slot_position(tokens, at) as int,
        ) ==> assembled(tokens) == Err::<Seq<i16>, AssemblyErrorView>(
            AssemblyErrorView::LabelDoesNotExist(label),
        ),
{
    lemma_slot_of_instruction(tokens, at);
    lemma_slot_without_word_fails(
        slots_of(tokens),
        symbols_of(slots_of(tokens)),
        slot_position(tokens, at) as int,
    );
}

} // verus!
