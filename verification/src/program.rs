//! What the assembler and the machine have in common: the words of a
//! program, written by the one and read by the other, and the bytes that
//! carry them from the one to the other.

use crate::assemble::{assembled, lemma_words_of, slots_of, symbols_of, word_of};
use crate::lexer::{InstructionView, TokenView};
use crate::vm::{decoded, Operation};
use vstd::prelude::*;

verus! {

/// Whether an instruction names a mailbox from 0 to 99, or a label whose
/// address is one; an instruction that names neither always does.
pub open spec fn addressable(instruction: InstructionView, symbols: Map<Seq<char>, nat>) -> bool {
    match instruction {
        InstructionView::Add(index) => index <= 99,
        InstructionView::Sub(index) => index <= 99,
        InstructionView::Sto(index) => index <= 99,
        InstructionView::Sta(index) => index <= 99,
        InstructionView::Load(index) => index <= 99,
        InstructionView::B(label) => symbols.contains_key(label) && symbols[label] <= 99,
        InstructionView::Bz(label) => symbols.contains_key(label) && symbols[label] <= 99,
        InstructionView::Bp(label) => symbols.contains_key(label) && symbols[label] <= 99,
        _ => true,
    }
}

/// What the machine does for an instruction: the operation of the same
/// family on the mailbox that the instruction names, or to the address of
/// its label.
pub open spec fn operation_of(instruction: InstructionView, symbols: Map<Seq<char>, nat>) -> Operation {
    match instruction {
        InstructionView::Stop => Operation::Stop,
        InstructionView::Add(index) => Operation::Add(index),
        InstructionView::Sub(index) => Operation::Sub(index),
        InstructionView::Sto(index) => Operation::Store(index),
        InstructionView::Sta(index) => Operation::StoreAddress(index),
        InstructionView::Load(index) => Operation::Load(index),
        InstructionView::B(label) => Operation::Branch(symbols[label] as u8),
        InstructionView::Bz(label) => Operation::BranchIfZero(symbols[label] as u8),
        InstructionView::Bp(label) => Operation::BranchIfPositive(symbols[label] as u8),
        InstructionView::Read => Operation::Read,
        InstructionView::Print => Operation::Print,
    }
}

/// An instruction has a word exactly if it is addressable, and the machine
/// reads that word as the operation that the instruction stands for:
/// decoding undoes encoding.
pub proof fn lemma_decoding_undoes_encoding(
    instruction: InstructionView,
    symbols: Map<Seq<char>, nat>,
)
    ensures
        word_of(instruction, symbols) is Ok <==> addressable(instruction, symbols),
        addressable(instruction, symbols) ==> decoded(word_of(instruction, symbols)->Ok_0) == Some(
            operation_of(instruction, symbols),
        ),
{
}

/// The machine reads each word of an assembled program as the operation
/// that the instruction in that place stands for.
pub proof fn lemma_program_decodes(tokens: Seq<TokenView>, at: int)
    requires
        assembled(tokens) is Ok,
        0 <= at < slots_of(tokens).len(),
    ensures
        at < assembled(tokens)->Ok_0.len(),
        decoded(assembled(tokens)->Ok_0[at]) == Some(
            operation_of(slots_of(tokens)[at].instruction, symbols_of(slots_of(tokens))),
        ),
{
    let slots = slots_of(tokens);
    lemma_words_of(slots, symbols_of(slots));
    lemma_decoding_undoes_encoding(slots[at].instruction, symbols_of(slots));
}

/// The low byte of a word.
pub open spec fn low_byte(word: i16) -> u8 {
    (word as int % 256) as u8
}

/// The high byte of a word; a negative word has its top bit set.
pub open spec fn high_byte(word: i16) -> u8 {
    if word >= 0 {
        (word / 256) as u8
    } else {
        ((word + 65536) / 256) as u8
    }
}

/// The word that two bytes carry, the low byte first.
pub open spec fn word_from(low: u8, high: u8) -> i16 {
    if high >= 128 {
        (low + 256 * high - 65536) as i16
    } else {
        (low + 256 * high) as i16
    }
}

/// The bytes that carry `words`: two for each word in turn, the low byte
/// before the high one.
pub open spec fn bytes_of(words: Seq<i16>) -> Seq<u8> {
    Seq::new(
        2 * words.len(),
        |i: int|
            if i % 2 == 0 {
                low_byte(words[i / 2])
            } else {
                high_byte(words[i / 2])
            },
    )
}

/// The words that `bytes` carry, pair by pair; a last byte without a
/// partner carries nothing.
pub open spec fn words_in(bytes: Seq<u8>) -> Seq<i16> {
    Seq::new((bytes.len() / 2) as nat, |i: int| word_from(bytes[2 * i], bytes[2 * i + 1]))
}

/// The bytes of a word carry that word.
pub proof fn lemma_word_from_its_bytes(word: i16)
    ensures
        word_from(low_byte(word), high_byte(word)) == word,
{
}

/// The bytes of a program carry that program.
pub proof fn lemma_words_in_their_bytes(words: Seq<i16>)
    ensures
        words_in(bytes_of(words)) == words,
{
    assert forall|i: int| 0 <= i < words.len() implies words_in(bytes_of(words))[i]
        == words[i] by {
        lemma_word_from_its_bytes(words[i]);
    }
}

/// Writes a program as bytes.
pub fn to_bytes(words: &[i16]) -> (bytes: Vec<u8>)
    ensures
        bytes@ == bytes_of(words@),
{
    let mut bytes: Vec<u8> = Vec::new();
    let mut at: usize = 0;
    while at < words.len()
        invariant
            at <= words.len(),
            bytes@ == bytes_of(words@.take(at as int)),
        decreases words.len() - at,
    {
        let word = words[at];
        let unsigned: i32 = if word >= 0 {
            word as i32
        } else {
            word as i32 + 65536
        };
        bytes.push((unsigned % 256) as u8);
        bytes.push((unsigned / 256) as u8);
        at += 1;
    }
    bytes
}

/// Reads a program from bytes.
pub fn from_bytes(bytes: &[u8]) -> (words: Vec<i16>)
    ensures
        words@ == words_in(bytes@),
{
    let mut words: Vec<i16> = Vec::new();
    let count = bytes.len() / 2;
    let mut at: usize = 0;
    while at < count
        invariant
            at <= count,
            count == bytes.len() / 2,
            words.len() == at,
            forall|i: int| 0 <= i < at ==> words@[i] == word_from(bytes@[2 * i], bytes@[2 * i + 1]),
        decreases count - at,
    {
        let low = bytes[2 * at];
        let high = bytes[2 * at + 1];
        let unsigned: i32 = low as i32 + 256 * (high as i32);
        let word = if high >= 128 {
            (unsigned - 65536) as i16
        } else {
            unsigned as i16
        };
        words.push(word);
        at += 1;
    }
    words
}

} // verus!
