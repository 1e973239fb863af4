//! The tokenizer: from source text to instructions and labels.

use crate::text::{
    chars_of, decimal, find_char, find_whitespace, first_whitespace, index_of, is_whitespace,
    lemma_index_of, lemma_index_of_is_first, lemma_split_of_joined, lemma_trim_of_whitespace,
    lines, lowercase_of, parse_u8, parsed_u8, push_decimal, text_of, trim, trimmed,
    IntErrorKind,
};
use vstd::prelude::*;
use vstd::string::{StrSliceExecFns, StringExecFns};

verus! {

/// One instruction of the assembly language. A numeric operand names a
/// mailbox; a branch names the label it goes to.
#[derive(Debug, Clone, PartialEq)]
pub enum Instruction {
    Stop,
    Add(u8),
    Sub(u8),
    Sto(u8),
    Sta(u8),
    Load(u8),
    B(String),
    Bz(String),
    Bp(String),
    Read,
    Print,
}

/// An instruction with its label as plain text.
pub enum InstructionView {
    Stop,
    Add(u8),
    Sub(u8),
    Sto(u8),
    Sta(u8),
    Load(u8),
    B(Seq<char>),
    Bz(Seq<char>),
    Bp(Seq<char>),
    Read,
    Print,
}

impl View for Instruction {
    type V = InstructionView;

    open spec fn view(&self) -> InstructionView {
        match self {
            Instruction::Stop => InstructionView::Stop,
            Instruction::Add(n) => InstructionView::Add(*n),
            Instruction::Sub(n) => InstructionView::Sub(*n),
            Instruction::Sto(n) => InstructionView::Sto(*n),
            Instruction::Sta(n) => InstructionView::Sta(*n),
            Instruction::Load(n) => InstructionView::Load(*n),
            Instruction::B(label) => InstructionView::B(label@),
            Instruction::Bz(label) => InstructionView::Bz(label@),
            Instruction::Bp(label) => InstructionView::Bp(label@),
            Instruction::Read => InstructionView::Read,
            Instruction::Print => InstructionView::Print,
        }
    }
}

impl DeepView for Instruction {
    type V = InstructionView;

    open spec fn deep_view(&self) -> InstructionView {
        self@
    }
}

/// What one line of source text holds: an instruction, or a label that
/// names the instruction after it.
#[derive(Debug, Clone, PartialEq)]
pub enum Token {
    Instruction(Instruction),
    Label(String),
}

/// A token with its texts as plain sequences of characters.
pub enum TokenView {
    Instruction(InstructionView),
    Label(Seq<char>),
}

impl View for Token {
    type V = TokenView;

    open spec fn view(&self) -> TokenView {
        match self {
            Token::Instruction(instruction) => TokenView::Instruction(instruction@),
            Token::Label(name) => TokenView::Label(name@),
        }
    }
}

impl DeepView for Token {
    type V = TokenView;

    open spec fn deep_view(&self) -> TokenView {
        self@
    }
}

/// Why a line is no token.
#[derive(Debug, Clone, Copy, PartialEq, Eq)]
pub enum InstructionError {
    /// The operand of an instruction that takes a mailbox is no number
    /// from 0 to 255.
    ParseIntError(IntErrorKind),
    /// The line is neither an instruction with the operands it takes nor a
    /// label.
    InvalidInstruction,
}

/// The instruction that a mnemonic without operand stands for.
pub open spec fn bare_instruction(mnemonic: Seq<char>) -> Option<InstructionView> {
    if mnemonic == "stop"@ {
        Some(InstructionView::Stop)
    } else if mnemonic == "read"@ {
        Some(InstructionView::Read)
    } else if mnemonic == "print"@ {
        Some(InstructionView::Print)
    } else {
        None
    }
}

/// The instruction that a mnemonic stands for when it takes a mailbox.
pub open spec fn mailbox_instruction(mnemonic: Seq<char>, mailbox: u8) -> Option<InstructionView> {
    if mnemonic == "add"@ {
        Some(InstructionView::Add(mailbox))
    } else if mnemonic == "sub"@ {
        Some(InstructionView::Sub(mailbox))
    } else if mnemonic == "sto"@ {
        Some(InstructionView::Sto(mailbox))
    } else if mnemonic == "sta"@ {
        Some(InstructionView::Sta(mailbox))
    } else if mnemonic == "load"@ {
        Some(InstructionView::Load(mailbox))
    } else {
        None
    }
}

/// The instruction that a mnemonic stands for when it takes a label.
pub open spec fn branch_instruction(mnemonic: Seq<char>, label: Seq<char>) -> Option<
    InstructionView,
> {
    if mnemonic == "b"@ {
        Some(InstructionView::B(label))
    } else if mnemonic == "bz"@ {
        Some(InstructionView::Bz(label))
    } else if mnemonic == "bp"@ {
        Some(InstructionView::Bp(label))
    } else {
        None
    }
}

/// Whether `parts` is a label line: one part that starts with a full stop.
pub open spec fn is_label(parts: Seq<Seq<char>>) -> bool {
    parts.len() == 1 && parts[0].len() > 0 && parts[0][0] == '.'
}

/// The token that the parts of a line stand for: the mnemonic in lower
/// case first, then the operands. Each mnemonic takes a fixed number of
/// operands of a fixed kind. A part that starts with a full stop, alone on
/// its line, is a label, named by what follows the full stop.
pub open spec fn token_of_parts(parts: Seq<Seq<char>>) -> Result<TokenView, InstructionError> {
    if parts.len() == 1 && bare_instruction(parts[0]) is Some {
        Ok(TokenView::Instruction(bare_instruction(parts[0])->0))
    } else if parts.len() == 2 && mailbox_instruction(parts[0], 0) is Some {
        match parsed_u8(parts[1]) {
            Ok(mailbox) => Ok(TokenView::Instruction(mailbox_instruction(parts[0], mailbox)->0)),
            Err(kind) => Err(InstructionError::ParseIntError(kind)),
        }
    } else if parts.len() == 2 && branch_instruction(parts[0], parts[1]) is Some {
        Ok(TokenView::Instruction(branch_instruction(parts[0], parts[1])->0))
    } else if is_label(parts) {
        Ok(TokenView::Label(parts[0].skip(1)))
    } else {
        Err(InstructionError::InvalidInstruction)
    }
}

/// Tells whether `chars` spells `word`.
fn spells(chars: &Vec<char>, word: &str) -> (same: bool)
    ensures
        same == (chars@ == word@),
{
    let n = word.unicode_len();
    if chars.len() != n {
        return false;
    }
    let mut at: usize = 0;
    while at < n
        invariant
            at <= n,
            n == chars.len(),
            n == word@.len(),
            forall|j: int| 0 <= j < at ==> chars@[j] == word@[j],
        decreases n - at,
    {
        if chars[at] != word.get_char(at) {
            return false;
        }
        at += 1;
    }
    assert(chars@ =~= word@);
    true
}

impl Instruction {
    /// Reads a token from the parts of a line: the mnemonic in lower case,
    /// then the operands.
    pub fn from_token_parts(token_parts: &[&str]) -> (token: Result<Token, InstructionError>)
        ensures
            match token {
                Ok(token) => token_of_parts(token_parts.deep_view()) == Ok::<
                    TokenView,
                    InstructionError,
                >(token@),
                Err(why) => token_of_parts(token_parts.deep_view()) == Err::<
                    TokenView,
                    InstructionError,
                >(why),
            },
    {
        if token_parts.len() == 0 || token_parts.len() > 2 {
            return Err(InstructionError::InvalidInstruction);
        }
        let mnemonic = chars_of(token_parts[0]);
        if token_parts.len() == 1 {
            if spells(&mnemonic, "stop") {
                return Ok(Token::Instruction(Instruction::Stop));
            } else if spells(&mnemonic, "read") {
                return Ok(Token::Instruction(Instruction::Read));
            } else if spells(&mnemonic, "print") {
                return Ok(Token::Instruction(Instruction::Print));
            } else if mnemonic.len() > 0 && mnemonic[0] == '.' {
                return Ok(Token::Label(text_of(&mnemonic, 1, mnemonic.len())));
            } else {
                return Err(InstructionError::InvalidInstruction);
            }
        }
        let operand = token_parts[1];
        if spells(&mnemonic, "add") {
            match parse_u8(operand) {
                Ok(mailbox) => Ok(Token::Instruction(Instruction::Add(mailbox))),
                Err(kind) => Err(InstructionError::ParseIntError(kind)),
            }
        } else if spells(&mnemonic, "sub") {
            match parse_u8(operand) {
                Ok(mailbox) => Ok(Token::Instruction(Instruction::Sub(mailbox))),
                Err(kind) => Err(InstructionError::ParseIntError(kind)),
            }
        } else if spells(&mnemonic, "sto") {
            match parse_u8(operand) {
                Ok(mailbox) => Ok(Token::Instruction(Instruction::Sto(mailbox))),
                Err(kind) => Err(InstructionError::ParseIntError(kind)),
            }
        } else if spells(&mnemonic, "sta") {
            match parse_u8(operand) {
                Ok(mailbox) => Ok(Token::Instruction(Instruction::Sta(mailbox))),
                Err(kind) => Err(InstructionError::ParseIntError(kind)),
            }
        } else if spells(&mnemonic, "load") {
            match parse_u8(operand) {
                Ok(mailbox) => Ok(Token::Instruction(Instruction::Load(mailbox))),
                Err(kind) => Err(InstructionError::ParseIntError(kind)),
            }
        } else if spells(&mnemonic, "b") {
            Ok(Token::Instruction(Instruction::B(operand.to_owned())))
        } else if spells(&mnemonic, "bz") {
            Ok(Token::Instruction(Instruction::Bz(operand.to_owned())))
        } else if spells(&mnemonic, "bp") {
            Ok(Token::Instruction(Instruction::Bp(operand.to_owned())))
        } else {
            Err(InstructionError::InvalidInstruction)
        }
    }
}

/// What is left of a line once its comment, which a semicolon starts, and
/// the white space around the rest are gone.
pub open spec fn code_of(line: Seq<char>) -> Seq<char> {
    trimmed(line.take(index_of(line, ';') as int))
}

/// The operands in what follows a mnemonic: the fields between commas,
/// each without the white space around it, the empty ones left out.
pub open spec fn operand_fields(rest: Seq<char>) -> Seq<Seq<char>>
    decreases rest.len(),
{
    let k = index_of(rest, ',');
    let field = trimmed(rest.take(k as int));
    let here = if field.len() > 0 {
        seq![field]
    } else {
        Seq::empty()
    };
    if k < rest.len() {
        here + operand_fields(rest.skip((k + 1) as int))
    } else {
        here
    }
}

/// The parts of a line of code: the mnemonic, which ends at the first
/// white space, in lower case, then the operands.
pub open spec fn parts_of(code: Seq<char>) -> Seq<Seq<char>> {
    let gap = first_whitespace(code);
    let mnemonic = lowercase_of(code.take(gap as int));
    if gap < code.len() {
        seq![mnemonic] + operand_fields(code.skip((gap + 1) as int))
    } else {
        seq![mnemonic]
    }
}

/// What a line contributes: nothing if it holds no code, else its token
/// or the reason why it is none.
pub open spec fn line_token(line: Seq<char>) -> Option<Result<TokenView, InstructionError>> {
    let code = code_of(line);
    if code.len() == 0 {
        None
    } else {
        Some(token_of_parts(parts_of(code)))
    }
}

/// `tokens`, then what `rest` yields, unless `rest` failed.
pub open spec fn followed_by(
    tokens: Seq<TokenView>,
    rest: Result<Seq<TokenView>, (InstructionError, nat)>,
) -> Result<Seq<TokenView>, (InstructionError, nat)> {
    match rest {
        Ok(more) => Ok(tokens + more),
        Err(failure) => Err(failure),
    }
}

/// The tokens of `lines` in their order, or the first line that is no
/// token with the reason. Lines are counted from `first`, and every line
/// counts, whether it holds a token or not.
pub open spec fn tokenize_lines(lines: Seq<Seq<char>>, first: nat) -> Result<
    Seq<TokenView>,
    (InstructionError, nat),
>
    decreases lines.len(),
{
    if lines.len() == 0 {
        Ok(Seq::empty())
    } else {
        match line_token(lines[0]) {
            Some(Err(why)) => Err((why, first)),
            Some(Ok(token)) => followed_by(
                seq![token],
                tokenize_lines(lines.drop_first(), first + 1),
            ),
            None => tokenize_lines(lines.drop_first(), first + 1),
        }
    }
}

/// How an error is named in a message.
pub open spec fn error_text(why: InstructionError) -> Seq<char> {
    match why {
        InstructionError::InvalidInstruction => "InvalidInstruction"@,
        InstructionError::ParseIntError(IntErrorKind::Empty) =>
            "ParseIntError(ParseIntError { kind: Empty })"@,
        InstructionError::ParseIntError(IntErrorKind::InvalidDigit) =>
            "ParseIntError(ParseIntError { kind: InvalidDigit })"@,
        InstructionError::ParseIntError(IntErrorKind::PosOverflow) =>
            "ParseIntError(ParseIntError { kind: PosOverflow })"@,
    }
}

/// The message for an error in the line with the given number, where the
/// first line has number 1.
pub open spec fn error_message(number: nat, why: InstructionError) -> Seq<char> {
    "line "@ + decimal(number) + ": "@ + error_text(why)
}

/// The tokens of a source text, or, for the first line that is no token,
/// the message and the line's position, where the first line has
/// position 0.
pub open spec fn tokenized(source: Seq<char>) -> Result<Seq<TokenView>, (Seq<char>, nat)> {
    match tokenize_lines(lines(source), 0) {
        Ok(tokens) => Ok(tokens),
        Err((why, line)) => Err((error_message(line + 1, why), line)),
    }
}

impl InstructionError {
    /// The name of the error as messages show it.
    pub fn describe(&self) -> (text: &'static str)
        ensures
            text@ == error_text(*self),
    {
        match self {
            InstructionError::InvalidInstruction => "InvalidInstruction",
            InstructionError::ParseIntError(IntErrorKind::Empty) =>
                "ParseIntError(ParseIntError { kind: Empty })",
            InstructionError::ParseIntError(IntErrorKind::InvalidDigit) =>
                "ParseIntError(ParseIntError { kind: InvalidDigit })",
            InstructionError::ParseIntError(IntErrorKind::PosOverflow) =>
                "ParseIntError(ParseIntError { kind: PosOverflow })",
        }
    }
}

/// Writes the message for an error in the line at position `line`.
fn message_for(line: usize, why: InstructionError) -> (message: String)
    requires
        line < usize::MAX,
    ensures
        message@ == error_message(line as nat + 1, why),
{
    let mut message = String::from_str("line ");
    push_decimal(&mut message, line + 1);
    message.append(": ");
    message.append(why.describe());
    message
}

/// Appends to `parts` the operands found in `chars[from..to]`.
fn operand_texts(chars: &Vec<char>, from: usize, to: usize, parts: &mut Vec<String>)
    requires
        from <= to <= chars.len(),
    ensures
        final(parts).deep_view() == old(parts).deep_view() + operand_fields(
            chars@.subrange(from as int, to as int),
        ),
{
    let ghost wanted = old(parts).deep_view() + operand_fields(
        chars@.subrange(from as int, to as int),
    );
    let mut at = from;
    let mut done = false;
    while !done
        invariant
            from <= at <= to <= chars.len(),
            !done ==> parts.deep_view() + operand_fields(chars@.subrange(at as int, to as int))
                == wanted,
            done ==> parts.deep_view() == wanted,
        decreases to - at + (if done { 0int } else { 1int }),
    {
        let ghost rest = chars@.subrange(at as int, to as int);
        let comma = find_char(chars, at, to, ',');
        let (start, end) = trim(chars, at, comma);
        assert(rest.take(comma - at) =~= chars@.subrange(at as int, comma as int));
        if start < end {
            let field = text_of(chars, start, end);
            parts.push(field);
        }
        if comma < to {
            assert(rest.skip(comma - at + 1) =~= chars@.subrange(comma + 1, to as int));
            at = comma + 1;
        } else {
            done = true;
        }
    }
}

/// Reads the token of the line `chars[from..to]`, if the line holds one.
fn tokenize_line(chars: &Vec<char>, from: usize, to: usize) -> (token: Option<
    Result<Token, InstructionError>,
>)
    requires
        from <= to <= chars.len(),
    ensures
        match token {
            None => line_token(chars@.subrange(from as int, to as int)) is None,
            Some(Ok(token)) => line_token(chars@.subrange(from as int, to as int)) == Some(
                Ok::<TokenView, InstructionError>(token@),
            ),
            Some(Err(why)) => line_token(chars@.subrange(from as int, to as int)) == Some(
                Err::<TokenView, InstructionError>(why),
            ),
        },
        token is Some ==> from < to,
{
    let ghost line = chars@.subrange(from as int, to as int);
    let comment = find_char(chars, from, to, ';');
    let (start, end) = trim(chars, from, comment);
    assert(line.take(comment - from) =~= chars@.subrange(from as int, comment as int));
    if start == end {
        return None;
    }
    let ghost code = chars@.subrange(start as int, end as int);
    let gap = find_whitespace(chars, start, end);
    let word = text_of(chars, start, gap);
    assert(code.take(gap - start) =~= chars@.subrange(start as int, gap as int));
    let mut parts: Vec<String> = Vec::new();
    parts.push(word.as_str().to_lowercase());
    if gap < end {
        assert(code.skip(gap - start + 1) =~= chars@.subrange(gap + 1, end as int));
        operand_texts(chars, gap + 1, end, &mut parts);
    }
    let mut borrowed: Vec<&str> = Vec::new();
    let mut at: usize = 0;
    while at < parts.len()
        invariant
            at <= parts.len(),
            borrowed.len() == at,
            forall|j: int| 0 <= j < at ==> borrowed@[j]@ == parts@[j]@,
        decreases parts.len() - at,
    {
        borrowed.push(parts[at].as_str());
        at += 1;
    }
    let token_parts = borrowed.as_slice();
    assert(token_parts.deep_view() =~= parts.deep_view());
    Some(Instruction::from_token_parts(token_parts))
}

/// What can be read as the source text of a program.
pub trait IntoTokens {
    /// The characters of the source text.
    spec fn source(&self) -> Seq<char>;

    /// Reads the tokens of the source text, line by line. The first line
    /// that is no token ends the reading with a message that names the
    /// line, counted from 1, and the reason, and with the line's position,
    /// counted from 0.
    fn into_tokens(&self) -> (tokens: Result<Vec<Token>, (String, usize)>)
        ensures
            match tokens {
                Ok(tokens) => tokenized(self.source()) == Ok::<
                    Seq<TokenView>,
                    (Seq<char>, nat),
                >(tokens.deep_view()),
                Err((message, line)) => tokenized(self.source()) == Err::<
                    Seq<TokenView>,
                    (Seq<char>, nat),
                >((message@, line as nat)),
            },
    ;
}

impl IntoTokens for &str {
    open spec fn source(&self) -> Seq<char> {
        self@
    }

    fn into_tokens(&self) -> (tokens: Result<Vec<Token>, (String, usize)>) {
        let chars = chars_of(self);
        let ghost whole = tokenize_lines(lines(chars@), 0);
        let mut tokens: Vec<Token> = Vec::new();
        let mut line: usize = 0;
        let mut from: usize = 0;
        let mut done = false;
        assert(chars@.skip(0) =~= chars@);
        while !done
            invariant
                line <= from <= chars.len(),
                chars@ == self@,
                whole == tokenize_lines(lines(chars@), 0),
                !done ==> whole == followed_by(
                    tokens.deep_view(),
                    tokenize_lines(lines(chars@.skip(from as int)), line as nat),
                ),
                done ==> whole == Ok::<Seq<TokenView>, (InstructionError, nat)>(
                    tokens.deep_view(),
                ),
            decreases chars.len() - from + (if done { 0int } else { 1int }),
        {
            let ghost rest = chars@.skip(from as int);
            let ghost before = tokens.deep_view();
            let to = find_char(&chars, from, chars.len(), '\n');
            assert(rest.take(to - from) =~= chars@.subrange(from as int, to as int));
            let ghost following = if to < chars.len() {
                lines(chars@.skip(to + 1))
            } else {
                Seq::empty()
            };
            proof {
                if to < chars.len() {
                    assert(rest.skip(to - from + 1) =~= chars@.skip(to + 1));
                }
                assert(lines(rest).drop_first() =~= following);
            }
            match tokenize_line(&chars, from, to) {
                Some(Err(why)) => {
                    return Err((message_for(line, why), line));
                },
                Some(Ok(token)) => {
                    tokens.push(token);
                    proof {
                        let later = tokenize_lines(following, line as nat + 1);
                        if later is Ok {
                            assert(before + (seq![token@] + later->Ok_0) =~= tokens.deep_view()
                                + later->Ok_0);
                        }
                    }
                },
                None => {},
            }
            if to < chars.len() {
                from = to + 1;
                line += 1;
            } else {
                done = true;
            }
        }
        Ok(tokens)
    }
}

/// `outcome` with its error, if it is in the line `from` or a later one,
/// moved one line down.
pub open spec fn moved_down(
    outcome: Result<Seq<TokenView>, (InstructionError, nat)>,
    from: nat,
) -> Result<Seq<TokenView>, (InstructionError, nat)> {
    match outcome {
        Ok(tokens) => Ok(tokens),
        Err((why, line)) => Err(
            (
                why,
                if line >= from {
                    line + 1
                } else {
                    line
                },
            ),
        ),
    }
}

/// A line with nothing but white space before its comment, or before its
/// end, holds no token.
pub proof fn lemma_comment_line_is_blank(line: Seq<char>)
    requires
        forall|j: int| 0 <= j < index_of(line, ';') ==> is_whitespace(line[j]),
    ensures
        line_token(line) is None,
{
    lemma_index_of_is_first(line, ';');
    lemma_trim_of_whitespace(line.take(index_of(line, ';') as int));
}

/// Counting the lines from one further on moves every error one line down,
/// and changes nothing else.
pub proof fn lemma_numbering_follows_first(lines: Seq<Seq<char>>, first: nat)
    ensures
        tokenize_lines(lines, first + 1) == moved_down(tokenize_lines(lines, first), first),
        tokenize_lines(lines, first) matches Err((_, line)) ==> first <= line < first
            + lines.len(),
    decreases lines.len(),
{
    if lines.len() > 0 {
        lemma_numbering_follows_first(lines.drop_first(), first + 1);
        lemma_numbering_follows_first(lines.drop_first(), first);
    }
}

/// A line that holds no token can stand anywhere among the lines of a
/// text: the tokens are what they are without it, and an error in a line
/// after it is reported one line further down, where that line now stands.
pub proof fn lemma_blank_line_adds_nothing(
    before: Seq<Seq<char>>,
    blank: Seq<char>,
    after: Seq<Seq<char>>,
    first: nat,
)
    requires
        line_token(blank) is None,
    ensures
        tokenize_lines(before + seq![blank] + after, first) == moved_down(
            tokenize_lines(before + after, first),
            first + before.len(),
        ),
    decreases before.len(),
{
    let with = before + seq![blank] + after;
    let without = before + after;
    if before.len() == 0 {
        assert(with.drop_first() =~= after);
        lemma_numbering_follows_first(after, first);
    } else {
        assert(with.drop_first() =~= before.drop_first() + seq![blank] + after);
        assert(without.drop_first() =~= before.drop_first() + after);
        lemma_blank_line_adds_nothing(before.drop_first(), blank, after, first + 1);
    }
}

/// A line that holds no token can stand anywhere in a text: with it the
/// text has the tokens that it has without it, and an error in a line
/// after it is reported one line further down.
pub proof fn lemma_blank_line_in_text(before: Seq<char>, blank: Seq<char>, after: Seq<char>)
    requires
        line_token(blank) is None,
        !blank.contains('\n'),
    ensures
        tokenize_lines(lines(before + seq!['\n'] + blank + seq!['\n'] + after), 0) == moved_down(
            tokenize_lines(lines(before + seq!['\n'] + after), 0),
            lines(before).len(),
        ),
{
    let rest = blank + seq!['\n'] + after;
    assert(before + seq!['\n'] + blank + seq!['\n'] + after =~= before + seq!['\n'] + rest);
    lemma_split_of_joined(before, rest, '\n');
    lemma_split_of_joined(blank, after, '\n');
    lemma_split_of_joined(before, after, '\n');
    assert(lines(blank) =~= seq![blank]) by {
        assert forall|j: int| 0 <= j < blank.len() implies blank[j] != '\n' by {
            assert(blank.contains(blank[j]));
        }
        lemma_index_of(blank, '\n', blank.len() as int);
    }
    assert(lines(before) + (seq![blank] + lines(after)) =~= lines(before) + seq![blank] + lines(
        after,
    ));
    lemma_blank_line_adds_nothing(lines(before), blank, lines(after), 0);
}

} // verus!
