//! A program that reads any file as a brainfuck program by interpreting every
//! three bits as an instruction.
//!
//! The library part: reading bits out of bytes, turning every three bits
//! into an instruction, and running the instructions one step at a time.
//! Reading and printing bytes is left to the caller of `BFProgram::step`.
use vstd::prelude::*;

verus! {

/// Bit `i` of a byte stream, where each byte gives up its bits from the
/// least significant one up.
pub open spec fn bit_at(bytes: Seq<u8>, i: int) -> bool {
    ((bytes[i / 8] >> ((i % 8) as u8)) & 1u8) == 1u8
}

/// All the bits of a byte stream, in the order they are read.
pub open spec fn bits_of(bytes: Seq<u8>) -> Seq<bool> {
    Seq::new((bytes.len() * 8) as nat, |i: int| bit_at(bytes, i))
}

/// Reads the bits of a sequence of bytes, the least significant bit of
/// each byte first.
pub struct BitReader {
    current_bit_index: usize,
    current_byte: usize,
    bytes: Vec<u8>,
}

impl View for BitReader {
    /// The bits not read yet.
    type V = Seq<bool>;

    closed spec fn view(&self) -> Seq<bool> {
        bits_of(self.bytes@).skip(self.current_byte * 8 + self.current_bit_index)
    }
}

proof fn lemma_position(byte: int, bit: int)
    requires
        0 <= byte,
        0 <= bit < 8,
    ensures
        (byte * 8 + bit) / 8 == byte,
        (byte * 8 + bit) % 8 == bit,
{
    assert((byte * 8 + bit) / 8 == byte) by (nonlinear_arith)
        requires
            0 <= byte,
            0 <= bit < 8,
    ;
    assert((byte * 8 + bit) % 8 == bit) by (nonlinear_arith)
        requires
            0 <= byte,
            0 <= bit < 8,
    ;
}

impl BitReader {
    #[verifier::type_invariant]
    spec fn well_formed(&self) -> bool {
        &&& self.current_bit_index < 8
        &&& self.current_byte <= self.bytes@.len()
        &&& self.current_byte == self.bytes@.len() ==> self.current_bit_index == 0
    }

    /// Creates a new `BitReader` over the given bytes.
    pub fn new(bytes: Vec<u8>) -> (reader: Self)
        ensures
            reader@ == bits_of(bytes@),
    {
        let reader = BitReader { current_bit_index: 0, current_byte: 0, bytes };
        assert(reader@ =~= bits_of(reader.bytes@));
        reader
    }

    /// Reads the next bit, or returns `None` once every bit has been read.
    pub fn next(&mut self) -> (bit: Option<bool>)
        ensures
            old(self)@.len() == 0 ==> bit is None && final(self)@ == old(self)@,
            old(self)@.len() > 0 ==> bit == Some(old(self)@[0]) && final(self)@ == old(
                self,
            )@.drop_first(),
    {
        proof {
            use_type_invariant(&*self);
        }
        let ghost position = self.current_byte * 8 + self.current_bit_index;
        if self.current_byte < self.bytes.len() {
            let byte = self.bytes[self.current_byte];
            let bit = ((byte >> (self.current_bit_index as u8)) & 1) == 1;
            proof {
                lemma_position(self.current_byte as int, self.current_bit_index as int);
                assert(self.current_byte * 8 + 8 <= self.bytes@.len() * 8) by (nonlinear_arith)
                    requires
                        self.current_byte < self.bytes@.len(),
                ;
                assert(bit == old(self)@[0]);
            }
            if self.current_bit_index == 7 {
                self.current_bit_index = 0;
                self.current_byte = self.current_byte + 1;
            } else {
                self.current_bit_index = self.current_bit_index + 1;
            }
            assert(self@ =~= old(self)@.drop_first());
            Some(bit)
        } else {
            assert(old(self)@.len() == 0);
            None
        }
    }

    /// Tries to return the next `N` bits if possible, returning `None` if
    /// there aren't enough bits. If `None` is returned, the reader is fully
    /// consumed.
    pub fn get_bits<const N: usize>(&mut self) -> (bits: Option<Vec<bool>>)
        ensures
            old(self)@.len() >= N ==> (bits matches Some(b) && b@ == old(self)@.take(N as int)
                && final(self)@ == old(self)@.skip(N as int)),
            old(self)@.len() < N ==> bits is None && final(self)@.len() == 0,
    {
        let mut bits: Vec<bool> = Vec::new();
        while bits.len() < N
            invariant
                bits@.len() <= N,
                old(self)@ == bits@ + self@,
            decreases N - bits@.len(),
        {
            match self.next() {
                Some(bit) => {
                    bits.push(bit);
                },
                None => {
                    return None;
                },
            }
        }
        assert(old(self)@.take(N as int) =~= bits@);
        assert(old(self)@.skip(N as int) =~= self@);
        Some(bits)
    }
}

/// An instruction in brainfuck.
#[derive(Debug, Clone, Copy, PartialEq, Eq, Structural)]
pub enum BFInstruction {
    IncrementHead,
    DecrementHead,
    IncrementByte,
    DecrementByte,
    OutputByte,
    InputByte,
    BranchForwards,
    BranchBackwards,
}

/// The number, from 0 to 7, that stands for an instruction.
pub open spec fn instruction_number(instruction: BFInstruction) -> int {
    match instruction {
        BFInstruction::IncrementHead => 0,
        BFInstruction::DecrementHead => 1,
        BFInstruction::IncrementByte => 2,
        BFInstruction::DecrementByte => 3,
        BFInstruction::OutputByte => 4,
        BFInstruction::InputByte => 5,
        BFInstruction::BranchForwards => 6,
        BFInstruction::BranchBackwards => 7,
    }
}

/// The instruction that a number from 0 to 7 stands for.
pub open spec fn instruction_of_number(number: int) -> BFInstruction {
    if number == 0 {
        BFInstruction::IncrementHead
    } else if number == 1 {
        BFInstruction::DecrementHead
    } else if number == 2 {
        BFInstruction::IncrementByte
    } else if number == 3 {
        BFInstruction::DecrementByte
    } else if number == 4 {
        BFInstruction::OutputByte
    } else if number == 5 {
        BFInstruction::InputByte
    } else if number == 6 {
        BFInstruction::BranchForwards
    } else {
        BFInstruction::BranchBackwards
    }
}

pub open spec fn bit_value(bit: bool) -> int {
    if bit {
        1
    } else {
        0
    }
}

/// The instruction that three bits stand for, the first bit the most
/// significant.
pub open spec fn instruction_of_bits(bits: Seq<bool>) -> BFInstruction {
    instruction_of_number(4 * bit_value(bits[0]) + 2 * bit_value(bits[1]) + bit_value(bits[2]))
}

/// The three bits of an instruction's number, most significant first.
pub open spec fn bits_of_instruction(instruction: BFInstruction) -> Seq<bool> {
    let n = instruction_number(instruction);
    seq![n >= 4, n % 4 >= 2, n % 2 == 1]
}

/// The character that shows an instruction in brainfuck source.
pub open spec fn instruction_symbol(instruction: BFInstruction) -> char {
    match instruction {
        BFInstruction::IncrementHead => '>',
        BFInstruction::DecrementHead => '<',
        BFInstruction::IncrementByte => '+',
        BFInstruction::DecrementByte => '-',
        BFInstruction::OutputByte => '.',
        BFInstruction::InputByte => ',',
        BFInstruction::BranchForwards => '[',
        BFInstruction::BranchBackwards => ']',
    }
}

impl BFInstruction {
    /// Gets a brainfuck instruction from an array of 3 bits.
    /// Every array of 3 bits is guaranteed to return an instruction.
    pub fn from_bit_array(bits: [bool; 3]) -> (instruction: Self)
        ensures
            instruction == instruction_of_bits(bits@),
    {
        let b0: u8 = if bits[0] { 1 } else { 0 };
        let b1: u8 = if bits[1] { 1 } else { 0 };
        let b2: u8 = if bits[2] { 1 } else { 0 };
        let instruction_num: u8 = 4 * b0 + 2 * b1 + b2;
        match instruction_num {
            0 => BFInstruction::IncrementHead,
            1 => BFInstruction::DecrementHead,
            2 => BFInstruction::IncrementByte,
            3 => BFInstruction::DecrementByte,
            4 => BFInstruction::OutputByte,
            5 => BFInstruction::InputByte,
            6 => BFInstruction::BranchForwards,
            _ => BFInstruction::BranchBackwards,
        }
    }

    /// The number, from 0 to 7, that stands for this instruction.
    fn number(&self) -> (n: u8)
        ensures
            n == instruction_number(*self),
    {
        match self {
            BFInstruction::IncrementHead => 0,
            BFInstruction::DecrementHead => 1,
            BFInstruction::IncrementByte => 2,
            BFInstruction::DecrementByte => 3,
            BFInstruction::OutputByte => 4,
            BFInstruction::InputByte => 5,
            BFInstruction::BranchForwards => 6,
            BFInstruction::BranchBackwards => 7,
        }
    }

    /// Returns the 3-bit representation of the instruction.
    /// `BFInstruction::to_bits(from_bit_array(arr)) == arr` will always hold.
    pub fn to_bits(&self) -> (bits: [bool; 3])
        ensures
            bits@ == bits_of_instruction(*self),
    {
        let num = self.number();
        proof {
            assert(((num >> 2u8) & 1u8 == 1u8) == (num >= 4)) by (bit_vector)
                requires
                    num < 8,
            ;
            assert(((num >> 1u8) & 1u8 == 1u8) == (num % 4 >= 2)) by (bit_vector)
                requires
                    num < 8,
            ;
            assert((num & 1u8 == 1u8) == (num % 2 == 1)) by (bit_vector)
                requires
                    num < 8,
            ;
        }
        let bits = [(num >> 2) & 1 == 1, (num >> 1) & 1 == 1, num & 1 == 1];
        assert(bits@ =~= bits_of_instruction(*self));
        bits
    }

    /// The character that shows this instruction in brainfuck source.
    pub fn symbol(&self) -> (c: char)
        ensures
            c == instruction_symbol(*self),
    {
        match self {
            BFInstruction::IncrementHead => '>',
            BFInstruction::DecrementHead => '<',
            BFInstruction::IncrementByte => '+',
            BFInstruction::DecrementByte => '-',
            BFInstruction::OutputByte => '.',
            BFInstruction::InputByte => ',',
            BFInstruction::BranchForwards => '[',
            BFInstruction::BranchBackwards => ']',
        }
    }
}

/// Turning three bits into an instruction and back gives the same bits.
pub proof fn lemma_bits_round_trip(bits: Seq<bool>)
    requires
        bits.len() == 3,
    ensures
        bits_of_instruction(instruction_of_bits(bits)) == bits,
{
    assert(bits_of_instruction(instruction_of_bits(bits)) =~= bits);
}

/// Turning an instruction into bits and back gives the same instruction.
pub proof fn lemma_instruction_round_trip(instruction: BFInstruction)
    ensures
        instruction_of_bits(bits_of_instruction(instruction)) == instruction,
{
}

/// How an instruction changes the depth of brackets: an opening one
/// adds one, a closing one takes one away.
pub open spec fn bracket_delta(instruction: BFInstruction) -> int {
    match instruction {
        BFInstruction::BranchForwards => 1,
        BFInstruction::BranchBackwards => -1,
        _ => 0,
    }
}

/// Opening minus closing brackets among the instructions `lo..hi`.
pub open spec fn bracket_balance(program: Seq<BFInstruction>, lo: int, hi: int) -> int
    decreases hi - lo,
{
    if lo >= hi {
        0
    } else {
        bracket_delta(program[lo]) + bracket_balance(program, lo + 1, hi)
    }
}

/// The count of brackets opened minus closed after instruction `start`,
/// up to and including instruction `m`.
pub open spec fn depth_after(program: Seq<BFInstruction>, start: int, m: int) -> int {
    bracket_balance(program, start + 1, m + 1)
}

/// The first `j` at or after `k` at which the brackets after `start`
/// close one more than they open: the match of a bracket at `start`.
pub open spec fn forward_match_from(program: Seq<BFInstruction>, start: int, k: int) -> Option<
    int,
>
    decreases program.len() - k,
{
    if k < 0 || k >= program.len() {
        None
    } else if depth_after(program, start, k) == -1 {
        Some(k)
    } else {
        forward_match_from(program, start, k + 1)
    }
}

/// Where a jump forwards from instruction `start` lands: the closing
/// bracket that matches it.
pub open spec fn forward_match(program: Seq<BFInstruction>, start: int) -> Option<int> {
    forward_match_from(program, start, start + 1)
}

/// The last `j` at or before `k` from which the brackets up to `start`
/// open one more than they close: the match of a bracket at `start`.
pub open spec fn backward_match_from(program: Seq<BFInstruction>, start: int, k: int) -> Option<
    int,
>
    decreases k + 1,
{
    if k < 0 || k >= program.len() {
        None
    } else if bracket_balance(program, k, start) == 1 {
        Some(k)
    } else {
        backward_match_from(program, start, k - 1)
    }
}

/// Where a jump backwards from instruction `start` lands: the opening
/// bracket that matches it.
pub open spec fn backward_match(program: Seq<BFInstruction>, start: int) -> Option<int> {
    backward_match_from(program, start, start - 1)
}

pub proof fn lemma_balance_extend(program: Seq<BFInstruction>, lo: int, hi: int)
    requires
        lo <= hi,
    ensures
        bracket_balance(program, lo, hi + 1) == bracket_balance(program, lo, hi) + bracket_delta(
            program[hi],
        ),
    decreases hi - lo,
{
    if lo < hi {
        lemma_balance_extend(program, lo + 1, hi);
    } else {
        assert(bracket_balance(program, lo + 1, hi + 1) == 0);
    }
}

pub proof fn lemma_balance_split(program: Seq<BFInstruction>, lo: int, mid: int, hi: int)
    requires
        lo <= mid <= hi,
    ensures
        bracket_balance(program, lo, hi) == bracket_balance(program, lo, mid) + bracket_balance(
            program,
            mid,
            hi,
        ),
    decreases mid - lo,
{
    if lo < mid {
        lemma_balance_split(program, lo + 1, mid, hi);
    }
}

pub proof fn lemma_forward_match_from(program: Seq<BFInstruction>, start: int, k: int)
    requires
        0 <= k,
    ensures
        forward_match_from(program, start, k) matches Some(j) ==> {
            &&& k <= j < program.len()
            &&& depth_after(program, start, j) == -1
            &&& forall|m: int| k <= m < j ==> #[trigger] depth_after(program, start, m) != -1
        },
        forward_match_from(program, start, k) is None ==> forall|m: int|
            k <= m < program.len() ==> #[trigger] depth_after(program, start, m) != -1,
    decreases program.len() - k,
{
    if k < program.len() && depth_after(program, start, k) != -1 {
        lemma_forward_match_from(program, start, k + 1);
    }
}

pub proof fn lemma_backward_match_from(program: Seq<BFInstruction>, start: int, k: int)
    requires
        k < program.len(),
    ensures
        backward_match_from(program, start, k) matches Some(j) ==> {
            &&& 0 <= j <= k
            &&& bracket_balance(program, j, start) == 1
            &&& forall|m: int| j < m <= k ==> #[trigger] bracket_balance(program, m, start) != 1
        },
        backward_match_from(program, start, k) is None ==> forall|m: int|
            0 <= m <= k ==> #[trigger] bracket_balance(program, m, start) != 1,
    decreases k + 1,
{
    if 0 <= k && bracket_balance(program, k, start) != 1 {
        lemma_backward_match_from(program, start, k - 1);
    }
}

/// A jump forwards from an opening bracket lands on a closing bracket
/// from which a jump backwards lands on the opening bracket again.
pub proof fn lemma_forward_then_backward(program: Seq<BFInstruction>, open: int, close: int)
    requires
        0 <= open < program.len(),
        program[open] == BFInstruction::BranchForwards,
        forward_match(program, open) == Some(close),
    ensures
        program[close] == BFInstruction::BranchBackwards,
        backward_match(program, close) == Some(open),
{
    lemma_forward_match_from(program, open, open + 1);
    lemma_depth_nonnegative(program, open, close, close - 1);
    lemma_balance_extend(program, open + 1, close);
    assert(depth_after(program, open, close - 1) == 0);
    assert(bracket_balance(program, open, close) == 1);
    assert forall|m: int| open < m <= close - 1 implies #[trigger] bracket_balance(
        program,
        m,
        close,
    ) != 1 by {
        lemma_balance_split(program, open + 1, m, close);
        lemma_depth_nonnegative(program, open, close, m - 1);
    }
    lemma_backward_match_from(program, close, close - 1);
    match backward_match(program, close) {
        Some(j) => {
            if j < open {
                assert(bracket_balance(program, open, close) != 1);
            }
        },
        None => {
            assert(bracket_balance(program, open, close) != 1);
        },
    }
}

/// Before the match `close` of an opening bracket at `open` is reached,
/// the depth after `open` never drops below zero.
proof fn lemma_depth_nonnegative(program: Seq<BFInstruction>, open: int, close: int, m: int)
    requires
        0 <= open <= m < close,
        forall|i: int| open + 1 <= i < close ==> #[trigger] depth_after(program, open, i) != -1,
    ensures
        depth_after(program, open, m) >= 0,
    decreases m - open,
{
    if m > open {
        lemma_balance_extend(program, open + 1, m);
        lemma_depth_nonnegative(program, open, close, m - 1);
        assert(depth_after(program, open, m) != -1);
    }
}

/// A jump backwards from a closing bracket lands on an opening bracket
/// from which a jump forwards lands on the closing bracket again.
pub proof fn lemma_backward_then_forward(program: Seq<BFInstruction>, close: int, open: int)
    requires
        0 <= close < program.len(),
        program[close] == BFInstruction::BranchBackwards,
        backward_match(program, close) == Some(open),
    ensures
        program[open] == BFInstruction::BranchForwards,
        forward_match(program, open) == Some(close),
{
    lemma_backward_match_from(program, close, close - 1);
    lemma_backward_depth(program, open, close, open + 1);
    assert(bracket_balance(program, open + 1, close) == 0);
    lemma_balance_extend(program, open + 1, close);
    assert(depth_after(program, open, close) == -1);
    assert forall|m: int| open + 1 <= m < close implies #[trigger] depth_after(program, open, m)
        != -1 by {
        lemma_balance_split(program, open + 1, m + 1, close);
        lemma_backward_depth(program, open, close, m + 1);
    }
    lemma_forward_match_from(program, open, open + 1);
    match forward_match(program, open) {
        Some(j) => {
            if j > close {
                assert(depth_after(program, open, close) != -1);
            }
        },
        None => {
            assert(depth_after(program, open, close) != -1);
        },
    }
}

/// Between an opening bracket and the closing bracket that a jump
/// backwards from it found, no stretch ending at the closing bracket
/// opens more than it closes.
proof fn lemma_backward_depth(program: Seq<BFInstruction>, open: int, close: int, m: int)
    requires
        0 <= open < m <= close,
        forall|i: int| open < i <= close - 1 ==> #[trigger] bracket_balance(program, i, close)
            != 1,
    ensures
        bracket_balance(program, m, close) <= 0,
    decreases close - m,
{
    if m < close {
        lemma_backward_depth(program, open, close, m + 1);
        assert(bracket_balance(program, m, close) != 1);
    }
}

/// The instructions that a stream of bits stands for, three bits each;
/// bits left over at the end are ignored.
pub open spec fn decode_instructions(bits: Seq<bool>) -> Seq<BFInstruction> {
    Seq::new(bits.len() / 3, |k: int| instruction_of_bits(bits.subrange(3 * k, 3 * k + 3)))
}

/// The state of a brainfuck machine as the contracts see it: the cells
/// of the tape, the position of the read-write head, the instructions
/// and the position of the instruction pointer.
pub struct BFMachine {
    pub tape: Seq<u8>,
    pub head: int,
    pub program: Seq<BFInstruction>,
    pub instruction_pointer: int,
}

/// What one step of a program did.
#[derive(Debug, Clone, Copy, PartialEq, Eq, Structural)]
pub enum StepOutcome {
    /// The instruction ran and the program goes on.
    Continue,
    /// The instruction wrote out this byte.
    Output(u8),
    /// The instruction at the pointer reads a byte: hand one to
    /// `BFProgram::provide_input`.
    AwaitingInput,
    /// The pointer is past the last instruction: the program is done.
    Halted,
    /// The instruction would move the head off the tape, or there is no
    /// cell under it.
    HeadOutOfBounds,
    /// A jump found no matching bracket.
    UnmatchedBranch,
}

/// A cell's value after it has been incremented, wrapping at 255.
pub open spec fn cell_incremented(value: u8) -> u8 {
    if value == 255 {
        0
    } else {
        (value + 1) as u8
    }
}

/// A cell's value after it has been decremented, wrapping at 0.
pub open spec fn cell_decremented(value: u8) -> u8 {
    if value == 0 {
        255
    } else {
        (value - 1) as u8
    }
}

/// The machine with its instruction pointer at `ip`.
pub open spec fn jump_to(m: BFMachine, ip: int) -> BFMachine {
    BFMachine { tape: m.tape, head: m.head, program: m.program, instruction_pointer: ip }
}

/// The machine with cell `m.head` set to `value` and the pointer moved on.
pub open spec fn write_cell(m: BFMachine, value: u8) -> BFMachine {
    BFMachine {
        tape: m.tape.update(m.head, value),
        head: m.head,
        program: m.program,
        instruction_pointer: m.instruction_pointer + 1,
    }
}

/// The machine with the head at `head` and the pointer moved on.
pub open spec fn move_head(m: BFMachine, head: int) -> BFMachine {
    BFMachine {
        tape: m.tape,
        head: head,
        program: m.program,
        instruction_pointer: m.instruction_pointer + 1,
    }
}

/// One step of a machine: the state after it and what it did. A step
/// that stops the machine leaves its state as it was.
pub open spec fn next_state(m: BFMachine) -> (BFMachine, StepOutcome) {
    let ip = m.instruction_pointer;
    if ip < 0 || ip >= m.program.len() {
        (m, StepOutcome::Halted)
    } else {
        match m.program[ip] {
            BFInstruction::IncrementHead => if 0 <= m.head && m.head + 1 < m.tape.len() {
                (move_head(m, m.head + 1), StepOutcome::Continue)
            } else {
                (m, StepOutcome::HeadOutOfBounds)
            },
            BFInstruction::DecrementHead => if 0 < m.head < m.tape.len() {
                (move_head(m, m.head - 1), StepOutcome::Continue)
            } else {
                (m, StepOutcome::HeadOutOfBounds)
            },
            instruction => if !(0 <= m.head < m.tape.len()) {
                (m, StepOutcome::HeadOutOfBounds)
            } else {
                let value = m.tape[m.head];
                match instruction {
                    BFInstruction::IncrementByte => (
                        write_cell(m, cell_incremented(value)),
                        StepOutcome::Continue,
                    ),
                    BFInstruction::DecrementByte => (
                        write_cell(m, cell_decremented(value)),
                        StepOutcome::Continue,
                    ),
                    BFInstruction::OutputByte => (
                        jump_to(m, ip + 1),
                        StepOutcome::Output(value),
                    ),
                    BFInstruction::InputByte => (m, StepOutcome::AwaitingInput),
                    BFInstruction::BranchForwards => if value == 0 {
                        match forward_match(m.program, ip) {
                            Some(j) => (jump_to(m, j + 1), StepOutcome::Continue),
                            None => (m, StepOutcome::UnmatchedBranch),
                        }
                    } else {
                        (jump_to(m, ip + 1), StepOutcome::Continue)
                    },
                    _ => if value != 0 {
                        match backward_match(m.program, ip) {
                            Some(j) => (jump_to(m, j + 1), StepOutcome::Continue),
                            None => (m, StepOutcome::UnmatchedBranch),
                        }
                    } else {
                        (jump_to(m, ip + 1), StepOutcome::Continue)
                    },
                }
            },
        }
    }
}

/// The machine after `byte` has been handed to it, and whether it took
/// the byte: it does when it waits for input at an input instruction.
pub open spec fn input_state(m: BFMachine, byte: u8) -> (BFMachine, bool) {
    let ip = m.instruction_pointer;
    if 0 <= ip < m.program.len() && m.program[ip] == BFInstruction::InputByte && 0 <= m.head
        < m.tape.len() {
        (write_cell(m, byte), true)
    } else {
        (m, false)
    }
}

/// A step keeps a machine well formed: the head stays on the tape (it
/// never wraps around an edge, and moves by at most one cell), the tape
/// keeps its length and the instructions do not change.
pub proof fn lemma_step_keeps_machine(m: BFMachine, n: nat)
    requires
        machine_well_formed(m, n),
    ensures
        machine_well_formed(next_state(m).0, n),
        next_state(m).0.program == m.program,
        next_state(m).0.tape.len() == m.tape.len(),
        -1 <= next_state(m).0.head - m.head <= 1,
{
    let ip = m.instruction_pointer;
    if 0 <= ip < m.program.len() {
        lemma_forward_match_from(m.program, ip, ip + 1);
        lemma_backward_match_from(m.program, ip, ip - 1);
    }
}

/// The bits read from a byte, least significant first, build the byte
/// back: bit `i` of byte `j` is read as bit `8 * j + i` and weighs `2^i`.
pub proof fn lemma_bits_rebuild_byte(bytes: Seq<u8>, j: int)
    requires
        0 <= j < bytes.len(),
    ensures
        bits_of(bytes).len() == 8 * bytes.len(),
        bytes[j] as int == bit_value(bits_of(bytes)[8 * j]) + 2 * bit_value(bits_of(bytes)[8 * j + 1])
            + 4 * bit_value(bits_of(bytes)[8 * j + 2]) + 8 * bit_value(bits_of(bytes)[8 * j + 3]) + 16
            * bit_value(bits_of(bytes)[8 * j + 4]) + 32 * bit_value(bits_of(bytes)[8 * j + 5]) + 64
            * bit_value(bits_of(bytes)[8 * j + 6]) + 128 * bit_value(bits_of(bytes)[8 * j + 7]),
{
    let x = bytes[j];
    let bits = bits_of(bytes);
    assert(j * 8 + 8 <= bytes.len() * 8) by (nonlinear_arith)
        requires
            j < bytes.len(),
    ;
    assert forall|i: int| 0 <= i < 8 implies #[trigger] bit_value(bits[8 * j + i]) == ((x >> (i as u8))
        & 1u8) as int by {
        lemma_position(j, i);
        assert(8 * j + i == j * 8 + i);
        let shift: u8 = i as u8;
        assert(((x >> shift) & 1u8) <= 1u8) by (bit_vector);
    }
    assert(bit_value(bits[8 * j + 0]) == ((x >> 0u8) & 1u8) as int);
    assert(bit_value(bits[8 * j + 1]) == ((x >> 1u8) & 1u8) as int);
    assert(bit_value(bits[8 * j + 2]) == ((x >> 2u8) & 1u8) as int);
    assert(bit_value(bits[8 * j + 3]) == ((x >> 3u8) & 1u8) as int);
    assert(bit_value(bits[8 * j + 4]) == ((x >> 4u8) & 1u8) as int);
    assert(bit_value(bits[8 * j + 5]) == ((x >> 5u8) & 1u8) as int);
    assert(bit_value(bits[8 * j + 6]) == ((x >> 6u8) & 1u8) as int);
    assert(bit_value(bits[8 * j + 7]) == ((x >> 7u8) & 1u8) as int);
    assert(x as int == ((x >> 0u8) & 1u8) + 2 * ((x >> 1u8) & 1u8) + 4 * ((x >> 2u8) & 1u8) + 8 * ((x
        >> 3u8) & 1u8) + 16 * ((x >> 4u8) & 1u8) + 32 * ((x >> 5u8) & 1u8) + 64 * ((x >> 6u8) & 1u8)
        + 128 * ((x >> 7u8) & 1u8)) by (bit_vector);
}

/// The instruction three bits stand for is the one at the place `4 * b0 +
/// 2 * b1 + b2` of `> < + - . , [ ]`.
pub proof fn lemma_instruction_table(bits: Seq<bool>)
    requires
        bits.len() == 3,
    ensures
        instruction_symbol(instruction_of_bits(bits)) == seq!['>', '<', '+', '-', '.', ',', '[', ']'][4
            * bit_value(bits[0]) + 2 * bit_value(bits[1]) + bit_value(bits[2])],
        instruction_of_bits(bits) == seq![
            BFInstruction::IncrementHead,
            BFInstruction::DecrementHead,
            BFInstruction::IncrementByte,
            BFInstruction::DecrementByte,
            BFInstruction::OutputByte,
            BFInstruction::InputByte,
            BFInstruction::BranchForwards,
            BFInstruction::BranchBackwards,
        ][4 * bit_value(bits[0]) + 2 * bit_value(bits[1]) + bit_value(bits[2])],
{
}

/// A program read from bytes has one instruction for every three whole
/// bits, and instruction `k` is made of bits `3k`, `3k + 1`, `3k + 2`.
pub proof fn lemma_decoded_instruction(bytes: Seq<u8>, k: int)
    ensures
        decode_instructions(bits_of(bytes)).len() == (8 * bytes.len()) / 3,
        0 <= k < (8 * bytes.len()) / 3 ==> decode_instructions(bits_of(bytes))[k]
            == instruction_of_bits(
            seq![bits_of(bytes)[3 * k], bits_of(bytes)[3 * k + 1], bits_of(bytes)[3 * k + 2]],
        ),
{
    let bits = bits_of(bytes);
    if 0 <= k < (8 * bytes.len()) / 3 {
        assert(bits.subrange(3 * k, 3 * k + 3) =~= seq![bits[3 * k], bits[3 * k + 1], bits[3 * k + 2]]);
    }
}

/// Counting brackets: one instruction counts one for an opening bracket,
/// minus one for a closing one, none for anything else, and counts over
/// stretches that follow each other add up.
pub proof fn lemma_bracket_counting(program: Seq<BFInstruction>, lo: int, mid: int, hi: int)
    requires
        0 <= lo <= mid <= hi,
    ensures
        bracket_balance(program, lo, lo) == 0,
        bracket_balance(program, lo, lo + 1) == if program[lo] == BFInstruction::BranchForwards {
            1int
        } else if program[lo] == BFInstruction::BranchBackwards {
            -1int
        } else {
            0int
        },
        bracket_balance(program, lo, hi) == bracket_balance(program, lo, mid) + bracket_balance(
            program,
            mid,
            hi,
        ),
{
    lemma_balance_split(program, lo, mid, hi);
    assert(bracket_balance(program, lo + 1, lo + 1) == 0);
}

/// Past the last instruction a program halts and stays as it is.
pub proof fn lemma_step_past_the_end(m: BFMachine)
    requires
        m.instruction_pointer >= m.program.len(),
    ensures
        next_state(m).0 == m,
        next_state(m).1 == StepOutcome::Halted,
{
}

/// The head moves by one cell and never past either end of the tape,
/// where a step stops with `HeadOutOfBounds` and changes nothing.
pub proof fn lemma_step_moves_head(m: BFMachine)
    requires
        0 <= m.instruction_pointer < m.program.len(),
        0 <= m.head < m.tape.len(),
    ensures
        m.program[m.instruction_pointer] == BFInstruction::IncrementHead && m.head + 1 < m.tape.len()
            ==> next_state(m) == ((BFMachine {
            tape: m.tape,
            head: m.head + 1,
            program: m.program,
            instruction_pointer: m.instruction_pointer + 1,
        }), StepOutcome::Continue),
        m.program[m.instruction_pointer] == BFInstruction::IncrementHead && m.head + 1 == m.tape.len()
            ==> next_state(m) == (m, StepOutcome::HeadOutOfBounds),
        m.program[m.instruction_pointer] == BFInstruction::DecrementHead && m.head > 0 ==> next_state(
            m,
        ) == ((BFMachine {
            tape: m.tape,
            head: m.head - 1,
            program: m.program,
            instruction_pointer: m.instruction_pointer + 1,
        }), StepOutcome::Continue),
        m.program[m.instruction_pointer] == BFInstruction::DecrementHead && m.head == 0 ==> next_state(
            m,
        ) == (m, StepOutcome::HeadOutOfBounds),
{
}

/// Incrementing and decrementing change the cell under the head by one,
/// modulo 256, and no other cell; writing out gives the cell under the
/// head and changes nothing; reading waits for a byte.
pub proof fn lemma_step_on_cells(m: BFMachine)
    requires
        0 <= m.instruction_pointer < m.program.len(),
        0 <= m.head < m.tape.len(),
    ensures
        m.program[m.instruction_pointer] == BFInstruction::IncrementByte ==> {
            let (after, outcome) = next_state(m);
            &&& outcome == StepOutcome::Continue
            &&& after.tape.len() == m.tape.len()
            &&& after.tape[m.head] as int == (m.tape[m.head] + 1) % 256
            &&& forall|k: int| 0 <= k < m.tape.len() && k != m.head ==> after.tape[k] == m.tape[k]
            &&& after.head == m.head
            &&& after.program == m.program
            &&& after.instruction_pointer == m.instruction_pointer + 1
        },
        m.program[m.instruction_pointer] == BFInstruction::DecrementByte ==> {
            let (after, outcome) = next_state(m);
            &&& outcome == StepOutcome::Continue
            &&& after.tape.len() == m.tape.len()
            &&& after.tape[m.head] as int == (m.tape[m.head] + 255) % 256
            &&& forall|k: int| 0 <= k < m.tape.len() && k != m.head ==> after.tape[k] == m.tape[k]
            &&& after.head == m.head
            &&& after.program == m.program
            &&& after.instruction_pointer == m.instruction_pointer + 1
        },
        m.program[m.instruction_pointer] == BFInstruction::OutputByte ==> next_state(m) == ((
        BFMachine {
            tape: m.tape,
            head: m.head,
            program: m.program,
            instruction_pointer: m.instruction_pointer + 1,
        }), StepOutcome::Output(m.tape[m.head])),
        m.program[m.instruction_pointer] == BFInstruction::InputByte ==> next_state(m) == (
            m,
            StepOutcome::AwaitingInput,
        ),
{
}

/// Without a cell under the head, an instruction that uses the cell
/// stops the program with `HeadOutOfBounds` and changes nothing.
pub proof fn lemma_step_without_cell(m: BFMachine)
    requires
        0 <= m.instruction_pointer < m.program.len(),
        m.tape.len() == 0,
        m.head == 0,
    ensures
        next_state(m) == (m, StepOutcome::HeadOutOfBounds),
{
}

/// An opening bracket on a nonzero cell, and a closing bracket on a zero
/// cell, go on to the next instruction whether or not they have a match.
pub proof fn lemma_step_branch_falls_through(m: BFMachine)
    requires
        0 <= m.instruction_pointer < m.program.len(),
        0 <= m.head < m.tape.len(),
        (m.program[m.instruction_pointer] == BFInstruction::BranchForwards && m.tape[m.head] != 0) || (
        m.program[m.instruction_pointer] == BFInstruction::BranchBackwards && m.tape[m.head] == 0),
    ensures
        next_state(m) == ((BFMachine {
            tape: m.tape,
            head: m.head,
            program: m.program,
            instruction_pointer: m.instruction_pointer + 1,
        }), StepOutcome::Continue),
{
}

/// An opening bracket on a zero cell skips its loop: the step goes on
/// just past the closing bracket `j` that matches it, the first one after
/// it at which the brackets in between balance.
pub proof fn lemma_step_skips_loop(m: BFMachine, j: int)
    requires
        0 <= m.instruction_pointer < j < m.program.len(),
        0 <= m.head < m.tape.len(),
        m.tape[m.head] == 0,
        m.program[m.instruction_pointer] == BFInstruction::BranchForwards,
        m.program[j] == BFInstruction::BranchBackwards,
        bracket_balance(m.program, m.instruction_pointer + 1, j) == 0,
        forall|k: int|
            m.instruction_pointer < k <= j ==> #[trigger] bracket_balance(
                m.program,
                m.instruction_pointer + 1,
                k,
            ) >= 0,
    ensures
        next_state(m) == ((BFMachine {
            tape: m.tape,
            head: m.head,
            program: m.program,
            instruction_pointer: j + 1,
        }), StepOutcome::Continue),
{
    let p = m.program;
    let ip = m.instruction_pointer;
    lemma_forward_match_from(p, ip, ip + 1);
    lemma_balance_extend(p, ip + 1, j);
    assert(depth_after(p, ip, j) == -1);
    match forward_match(p, ip) {
        Some(jj) => {
            if jj < j {
                assert(depth_after(p, ip, jj) == bracket_balance(p, ip + 1, jj + 1));
                assert(bracket_balance(p, ip + 1, jj + 1) >= 0);
            } else if jj > j {
                assert(depth_after(p, ip, j) != -1);
            }
        },
        None => {
            assert(depth_after(p, ip, j) != -1);
        },
    }
}

/// An opening bracket on a zero cell with no closing bracket after it at
/// which the brackets in between balance stops the program with
/// `UnmatchedBranch`, changing nothing.
pub proof fn lemma_step_unmatched_opening(m: BFMachine)
    requires
        0 <= m.instruction_pointer < m.program.len(),
        0 <= m.head < m.tape.len(),
        m.tape[m.head] == 0,
        m.program[m.instruction_pointer] == BFInstruction::BranchForwards,
        forall|k: int|
            m.instruction_pointer < k <= m.program.len() ==> #[trigger] bracket_balance(
                m.program,
                m.instruction_pointer + 1,
                k,
            ) >= 0,
    ensures
        next_state(m) == (m, StepOutcome::UnmatchedBranch),
{
    let p = m.program;
    let ip = m.instruction_pointer;
    lemma_forward_match_from(p, ip, ip + 1);
    if forward_match(p, ip) is Some {
        let jj = forward_match(p, ip)->0;
        assert(depth_after(p, ip, jj) == bracket_balance(p, ip + 1, jj + 1));
        assert(bracket_balance(p, ip + 1, jj + 1) >= 0);
    }
}

/// A closing bracket on a nonzero cell repeats its loop: the step goes
/// on just past the opening bracket `j` that matches it, the last one
/// before it after which the brackets in between balance.
pub proof fn lemma_step_repeats_loop(m: BFMachine, j: int)
    requires
        0 <= j < m.instruction_pointer < m.program.len(),
        0 <= m.head < m.tape.len(),
        m.tape[m.head] != 0,
        m.program[m.instruction_pointer] == BFInstruction::BranchBackwards,
        m.program[j] == BFInstruction::BranchForwards,
        bracket_balance(m.program, j + 1, m.instruction_pointer) == 0,
        forall|k: int|
            j < k <= m.instruction_pointer ==> #[trigger] bracket_balance(
                m.program,
                k,
                m.instruction_pointer,
            ) <= 0,
    ensures
        next_state(m) == ((BFMachine {
            tape: m.tape,
            head: m.head,
            program: m.program,
            instruction_pointer: j + 1,
        }), StepOutcome::Continue),
{
    let p = m.program;
    let ip = m.instruction_pointer;
    lemma_backward_match_from(p, ip, ip - 1);
    assert(bracket_balance(p, j, ip) == 1);
    match backward_match(p, ip) {
        Some(jj) => {
            if jj > j {
                assert(bracket_balance(p, jj, ip) <= 0);
            } else if jj < j {
                assert(bracket_balance(p, j, ip) != 1);
            }
        },
        None => {
            assert(bracket_balance(p, j, ip) != 1);
        },
    }
}

/// A closing bracket on a nonzero cell with no opening bracket before it
/// after which the brackets in between balance stops the program with
/// `UnmatchedBranch`, changing nothing.
pub proof fn lemma_step_unmatched_closing(m: BFMachine)
    requires
        0 <= m.instruction_pointer < m.program.len(),
        0 <= m.head < m.tape.len(),
        m.tape[m.head] != 0,
        m.program[m.instruction_pointer] == BFInstruction::BranchBackwards,
        forall|k: int|
            0 <= k <= m.instruction_pointer ==> #[trigger] bracket_balance(
                m.program,
                k,
                m.instruction_pointer,
            ) <= 0,
    ensures
        next_state(m) == (m, StepOutcome::UnmatchedBranch),
{
    let p = m.program;
    let ip = m.instruction_pointer;
    lemma_backward_match_from(p, ip, ip - 1);
    if backward_match(p, ip) is Some {
        let jj = backward_match(p, ip)->0;
        assert(bracket_balance(p, jj, ip) <= 0);
    }
}

/// A byte handed to a program waiting at an input instruction replaces
/// the cell under the head, whatever it held, leaves every other cell
/// alone and moves on to the next instruction. Anywhere else the byte is
/// refused and nothing changes.
pub proof fn lemma_input_replaces_cell(m: BFMachine, byte: u8)
    ensures
        input_state(m, byte).1 <==> (0 <= m.instruction_pointer < m.program.len()
            && m.program[m.instruction_pointer] == BFInstruction::InputByte && 0 <= m.head
            < m.tape.len()),
        input_state(m, byte).1 ==> {
            let after = input_state(m, byte).0;
            &&& after.tape.len() == m.tape.len()
            &&& after.tape[m.head] == byte
            &&& forall|k: int| 0 <= k < m.tape.len() && k != m.head ==> after.tape[k] == m.tape[k]
            &&& after.head == m.head
            &&& after.program == m.program
            &&& after.instruction_pointer == m.instruction_pointer + 1
        },
        !input_state(m, byte).1 ==> input_state(m, byte).0 == m,
{
}

/// `program` with the instructions `first` and `second` put in before
/// instruction `i`.
pub open spec fn with_pair(
    program: Seq<BFInstruction>,
    i: int,
    first: BFInstruction,
    second: BFInstruction,
) -> Seq<BFInstruction> {
    program.take(i) + seq![first, second] + program.skip(i)
}

/// An increment and a decrement of the cell under the head, in either
/// order: together they leave every cell as it was.
pub open spec fn cancelling_pair(first: BFInstruction, second: BFInstruction) -> bool {
    ||| first == BFInstruction::IncrementByte && second == BFInstruction::DecrementByte
    ||| first == BFInstruction::DecrementByte && second == BFInstruction::IncrementByte
}

/// Where instruction `x` of a program stands once a pair has been put in
/// before instruction `i`.
pub open spec fn shifted(i: int, x: int) -> int {
    if x < i {
        x
    } else {
        x + 2
    }
}

/// The instruction of a program that a position of the program with a
/// pair put in before instruction `i` goes back to; the pair and the
/// instruction after it go back to `i`.
pub open spec fn unshifted(i: int, x: int) -> int {
    if x <= i {
        x
    } else if x <= i + 2 {
        i
    } else {
        x - 2
    }
}

/// `m2` runs the program of `m` with the pair `first`, `second` put in
/// before instruction `i`, with the same tape and head, and stands at the
/// same instruction: either the shifted one, or at the pair when `m` is
/// about to run instruction `i`.
pub open spec fn runs_alongside(
    m: BFMachine,
    m2: BFMachine,
    i: int,
    first: BFInstruction,
    second: BFInstruction,
) -> bool {
    &&& m2.tape == m.tape
    &&& m2.head == m.head
    &&& m2.program == with_pair(m.program, i, first, second)
    &&& (m2.instruction_pointer == shifted(i, m.instruction_pointer) || (m.instruction_pointer == i
        && m2.instruction_pointer == i))
}

proof fn lemma_with_pair_index(
    program: Seq<BFInstruction>,
    i: int,
    first: BFInstruction,
    second: BFInstruction,
)
    requires
        0 <= i <= program.len(),
    ensures
        with_pair(program, i, first, second).len() == program.len() + 2,
        with_pair(program, i, first, second)[i] == first,
        with_pair(program, i, first, second)[i + 1] == second,
        forall|x: int|
            0 <= x < program.len() ==> #[trigger] with_pair(program, i, first, second)[shifted(i, x)]
                == program[x],
        forall|x: int|
            0 <= x < program.len() + 2 && x != i && x != i + 1 ==> #[trigger] with_pair(
                program,
                i,
                first,
                second,
            )[x] == program[unshifted(i, x)],
{
    let w = with_pair(program, i, first, second);
    assert forall|x: int| 0 <= x < program.len() implies #[trigger] w[shifted(i, x)] == program[x] by {
        if x >= i {
            assert(w[x + 2] == program.skip(i)[x - i]);
        }
    }
    assert forall|x: int|
        0 <= x < program.len() + 2 && x != i && x != i + 1 implies #[trigger] w[x]
        == program[unshifted(i, x)] by {
        if x > i + 1 {
            assert(w[x] == program.skip(i)[x - i - 2]);
        }
    }
}

/// Brackets are counted alike over a stretch of the program with the
/// pair put in and over the stretch it goes back to.
proof fn lemma_balance_with_pair(
    program: Seq<BFInstruction>,
    i: int,
    first: BFInstruction,
    second: BFInstruction,
    a: int,
    b: int,
)
    requires
        0 <= i <= program.len(),
        cancelling_pair(first, second),
        0 <= a <= b <= program.len() + 2,
    ensures
        bracket_balance(with_pair(program, i, first, second), a, b) == bracket_balance(
            program,
            unshifted(i, a),
            unshifted(i, b),
        ),
    decreases b - a,
{
    let w = with_pair(program, i, first, second);
    lemma_with_pair_index(program, i, first, second);
    if a < b {
        lemma_balance_with_pair(program, i, first, second, a + 1, b);
        if a < i || a > i + 1 {
            assert(w[a] == program[unshifted(i, a)]);
        }
    }
}

/// Jumps land alike in a program and in the program with the pair put
/// in: on the shifted match, or nowhere in both.
proof fn lemma_matches_with_pair(
    program: Seq<BFInstruction>,
    i: int,
    first: BFInstruction,
    second: BFInstruction,
    s: int,
)
    requires
        0 <= i <= program.len(),
        cancelling_pair(first, second),
        0 <= s < program.len(),
    ensures
        forward_match(with_pair(program, i, first, second), shifted(i, s)) == match forward_match(
            program,
            s,
        ) {
            Some(j) => Some(shifted(i, j)),
            None => None::<int>,
        },
        backward_match(with_pair(program, i, first, second), shifted(i, s)) == match backward_match(
            program,
            s,
        ) {
            Some(j) => Some(shifted(i, j)),
            None => None::<int>,
        },
{
    let w = with_pair(program, i, first, second);
    let len = program.len();
    let ss = shifted(i, s);
    lemma_with_pair_index(program, i, first, second);
    lemma_forward_match_from(program, s, s + 1);
    lemma_forward_match_from(w, ss, ss + 1);
    lemma_backward_match_from(program, s, s - 1);
    lemma_backward_match_from(w, ss, ss - 1);
    // depths seen from `ss` in `w` are depths seen from `s` in `program`
    assert forall|jj: int| ss + 1 <= jj < len + 2 implies #[trigger] depth_after(w, ss, jj)
        == bracket_balance(program, s + 1, unshifted(i, jj + 1)) by {
        lemma_balance_with_pair(program, i, first, second, ss + 1, jj + 1);
    }
    assert forall|jj: int| 0 <= jj < ss implies #[trigger] bracket_balance(w, jj, ss)
        == bracket_balance(program, unshifted(i, jj), s) by {
        lemma_balance_with_pair(program, i, first, second, jj, ss);
    }
    match forward_match(program, s) {
        Some(j) => {
            assert(depth_after(w, ss, shifted(i, j)) == -1);
            assert forall|jj: int| ss + 1 <= jj < shifted(i, j) implies #[trigger] depth_after(
                w,
                ss,
                jj,
            ) != -1 by {
                let x = unshifted(i, jj + 1);
                if x > s + 1 {
                    assert(depth_after(program, s, x - 1) != -1);
                }
            }
            match forward_match(w, ss) {
                Some(jw) => {
                    if jw < shifted(i, j) {
                        assert(depth_after(w, ss, jw) != -1);
                    } else if jw > shifted(i, j) {
                        assert(depth_after(w, ss, shifted(i, j)) != -1);
                    }
                },
                None => {
                    assert(depth_after(w, ss, shifted(i, j)) != -1);
                },
            }
        },
        None => {
            if forward_match(w, ss) is Some {
                let jw = forward_match(w, ss)->0;
                let x = unshifted(i, jw + 1);
                assert(depth_after(w, ss, jw) == -1);
                if x > s + 1 {
                    assert(depth_after(program, s, x - 1) != -1);
                }
            }
        },
    }
    match backward_match(program, s) {
        Some(j) => {
            assert(bracket_balance(w, shifted(i, j), ss) == 1);
            assert forall|jj: int| shifted(i, j) < jj <= ss - 1 implies #[trigger] bracket_balance(
                w,
                jj,
                ss,
            ) != 1 by {
                let x = unshifted(i, jj);
                if x < s {
                    assert(bracket_balance(program, x, s) != 1);
                }
            }
            match backward_match(w, ss) {
                Some(jw) => {
                    if jw > shifted(i, j) {
                        assert(bracket_balance(w, jw, ss) != 1);
                    } else if jw < shifted(i, j) {
                        assert(bracket_balance(w, shifted(i, j), ss) != 1);
                    }
                },
                None => {
                    assert(bracket_balance(w, shifted(i, j), ss) != 1);
                },
            }
        },
        None => {
            if backward_match(w, ss) is Some {
                let jw = backward_match(w, ss)->0;
                let x = unshifted(i, jw);
                assert(bracket_balance(w, jw, ss) == 1);
                if x < s {
                    assert(bracket_balance(program, x, s) != 1);
                }
            }
        },
    }
}

/// Putting an increment and a decrement of the same cell next to each
/// other into a program changes nothing it does: where the original
/// program is about to run instruction `i`, the other runs the pair in two
/// steps that just go on; everywhere else both make the same step, with
/// the same outcome, the same input taken and the same bytes written, and
/// stay alongside. The tape must have a cell for the pair to work on.
pub proof fn lemma_cancelling_pair_changes_nothing(
    m: BFMachine,
    m2: BFMachine,
    n: nat,
    i: int,
    first: BFInstruction,
    second: BFInstruction,
    byte: u8,
)
    requires
        machine_well_formed(m, n),
        n >= 1,
        0 <= i <= m.program.len(),
        cancelling_pair(first, second),
        runs_alongside(m, m2, i, first, second),
    ensures
        m.instruction_pointer == i && m2.instruction_pointer == i ==> {
            let (after_first, first_outcome) = next_state(m2);
            let (after_second, second_outcome) = next_state(after_first);
            &&& first_outcome == StepOutcome::Continue
            &&& second_outcome == StepOutcome::Continue
            &&& runs_alongside(m, after_second, i, first, second)
            &&& after_second.instruction_pointer == shifted(i, i)
        },
        !(m.instruction_pointer == i && m2.instruction_pointer == i) ==> {
            &&& next_state(m2).1 == next_state(m).1
            &&& runs_alongside(next_state(m).0, next_state(m2).0, i, first, second)
            &&& input_state(m2, byte).1 == input_state(m, byte).1
            &&& runs_alongside(input_state(m, byte).0, input_state(m2, byte).0, i, first, second)
        },
{
    let program = m.program;
    let w = m2.program;
    let ip = m.instruction_pointer;
    lemma_with_pair_index(program, i, first, second);
    if ip == i && m2.instruction_pointer == i {
        let (a, o1) = next_state(m2);
        let (b, o2) = next_state(a);
        assert(b.tape =~= m.tape);
    } else {
        if ip < program.len() {
            lemma_matches_with_pair(program, i, first, second, ip);
            lemma_forward_match_from(program, ip, ip + 1);
            lemma_backward_match_from(program, ip, ip - 1);
            assert(w[shifted(i, ip)] == program[ip]);
        }
    }
}

/// A brainfuck program with `N` cells on the tape.
/// The read-write head does not loop around the edges.
pub struct BFProgram<const N: usize> {
    values: Vec<u8>,
    head: usize,
    program: Vec<BFInstruction>,
    instruction_pointer: usize,
}

impl<const N: usize> View for BFProgram<N> {
    type V = BFMachine;

    closed spec fn view(&self) -> BFMachine {
        BFMachine {
            tape: self.values@,
            head: self.head as int,
            program: self.program@,
            instruction_pointer: self.instruction_pointer as int,
        }
    }
}

/// A machine whose tape has `n` cells, whose head is on the tape (or at
/// zero on an empty tape) and whose pointer is at most one past the last
/// instruction.
pub open spec fn machine_well_formed(m: BFMachine, n: nat) -> bool {
    &&& m.tape.len() == n
    &&& 0 <= m.head
    &&& (m.head < n || m.head == 0)
    &&& 0 <= m.instruction_pointer <= m.program.len()
}

impl<const N: usize> BFProgram<N> {
    /// Loads a program from the bytes of a file, where every 3 bits is
    /// the corresponding instruction. If the number of bits is not a
    /// multiple of 3, the remaining bits are ignored.
    pub fn load_from_binary(bytes: Vec<u8>) -> (program: Self)
        ensures
            program@.program == decode_instructions(bits_of(bytes@)),
            program@.tape == Seq::new(N as nat, |i: int| 0u8),
            program@.head == 0,
            program@.instruction_pointer == 0,
            machine_well_formed(program@, N as nat),
    {
        let ghost bits = bits_of(bytes@);
        let mut reader = BitReader::new(bytes);
        let mut instructions: Vec<BFInstruction> = Vec::new();
        loop
            invariant_except_break
                reader@ == bits.skip(3 * instructions@.len() as int),
            invariant
                3 * instructions@.len() <= bits.len(),
                forall|k: int|
                    0 <= k < instructions@.len() ==> #[trigger] instructions@[k]
                        == instruction_of_bits(bits.subrange(3 * k, 3 * k + 3)),
            ensures
                instructions@ == decode_instructions(bits),
            decreases reader@.len(),
        {
            match reader.get_bits::<3>() {
                Some(b) => {
                    let ghost k = instructions@.len() as int;
                    let instruction = BFInstruction::from_bit_array([b[0], b[1], b[2]]);
                    proof {
                        assert(b@ =~= bits.subrange(3 * k, 3 * k + 3));
                        let arr = seq![b@[0], b@[1], b@[2]];
                        assert(instruction_of_bits(arr) == instruction_of_bits(b@));
                    }
                    instructions.push(instruction);
                    assert(reader@ =~= bits.skip(3 * instructions@.len() as int));
                },
                None => {
                    assert(instructions@ =~= decode_instructions(bits));
                    break;
                },
            }
        }
        Self::new_from_instructions(instructions)
    }

    /// Creates a new program from instructions.
    pub fn new_from_instructions(program: Vec<BFInstruction>) -> (result: Self)
        ensures
            result@.program == program@,
            result@.tape == Seq::new(N as nat, |i: int| 0u8),
            result@.head == 0,
            result@.instruction_pointer == 0,
            machine_well_formed(result@, N as nat),
    {
        let mut values: Vec<u8> = Vec::new();
        while values.len() < N
            invariant
                values@.len() <= N,
                values@ == Seq::new(values@.len(), |i: int| 0u8),
            decreases N - values@.len(),
        {
            values.push(0);
            assert(values@ =~= Seq::new(values@.len(), |i: int| 0u8));
        }
        BFProgram { values, head: 0, program, instruction_pointer: 0 }
    }

    /// Gets the byte at the read-write head.
    pub fn get_current_value(&self) -> (value: u8)
        requires
            machine_well_formed(self@, N as nat),
            N > 0,
        ensures
            value == self@.tape[self@.head],
    {
        self.values[self.head]
    }

    /// Gets a mutable reference to the byte at the read-write head.
    pub fn get_current_value_mut(&mut self) -> (value: &mut u8)
        requires
            machine_well_formed(old(self)@, N as nat),
            N > 0,
        ensures
            *value == old(self)@.tape[old(self)@.head],
            final(self)@ == (BFMachine {
                tape: old(self)@.tape.update(old(self)@.head, *final(value)),
                head: old(self)@.head,
                program: old(self)@.program,
                instruction_pointer: old(self)@.instruction_pointer,
            }),
    {
        &mut self.values[self.head]
    }

    /// Sets the byte at the read-write head.
    pub fn set_current_value(&mut self, value: u8)
        requires
            machine_well_formed(old(self)@, N as nat),
            N > 0,
        ensures
            final(self)@ == (BFMachine {
                tape: old(self)@.tape.update(old(self)@.head, value),
                head: old(self)@.head,
                program: old(self)@.program,
                instruction_pointer: old(self)@.instruction_pointer,
            }),
    {
        self.values.set(self.head, value);
    }

    /// Moves the instruction pointer to the matching
    /// branch backwards instruction; returns whether there is one. Where
    /// there is none, nothing changes.
    pub fn branch_forwards(&mut self) -> (found: bool)
        requires
            machine_well_formed(old(self)@, N as nat),
            old(self)@.instruction_pointer < old(self)@.program.len(),
        ensures
            machine_well_formed(final(self)@, N as nat),
            found ==> final(self)@.instruction_pointer < final(self)@.program.len(),
            match forward_match(old(self)@.program, old(self)@.instruction_pointer) {
                Some(j) => found && final(self)@ == jump_to(old(self)@, j),
                None => !found && final(self)@ == old(self)@,
            },
    {
        let ghost program = self.program@;
        let length = self.program.len();
        let start = self.instruction_pointer;
        proof {
            lemma_forward_match_from(program, start as int, start + 1);
        }
        let mut current = start;
        let mut seen_branches_forwards: usize = 1;
        while seen_branches_forwards > 0
            invariant
                program == self.program@,
                self@ == old(self)@,
                machine_well_formed(self@, N as nat),
                start == self@.instruction_pointer,
                length == program.len(),
                start <= current < program.len(),
                seen_branches_forwards == 1 + depth_after(program, start as int, current as int),
                seen_branches_forwards <= current - start + 1,
                seen_branches_forwards > 0 ==> forward_match(program, start as int)
                    == forward_match_from(program, start as int, current + 1),
                seen_branches_forwards == 0 ==> forward_match(program, start as int) == Some(
                    current as int,
                ),
            decreases program.len() - current,
        {
            current += 1;
            if current >= self.program.len() {
                return false;
            }
            let current_instruction = self.program[current];
            proof {
                lemma_balance_extend(program, start + 1, current as int);
            }
            if current_instruction == BFInstruction::BranchForwards {
                seen_branches_forwards += 1;
            }
            if current_instruction == BFInstruction::BranchBackwards {
                seen_branches_forwards -= 1;
            }
        }
        self.instruction_pointer = current;
        true
    }

    /// Moves the instruction pointer to the matching
    /// branch forwards instruction; returns whether there is one. Where
    /// there is none, nothing changes.
    pub fn branch_backwards(&mut self) -> (found: bool)
        requires
            machine_well_formed(old(self)@, N as nat),
            old(self)@.instruction_pointer < old(self)@.program.len(),
        ensures
            machine_well_formed(final(self)@, N as nat),
            found ==> final(self)@.instruction_pointer < final(self)@.program.len(),
            match backward_match(old(self)@.program, old(self)@.instruction_pointer) {
                Some(j) => found && final(self)@ == jump_to(old(self)@, j),
                None => !found && final(self)@ == old(self)@,
            },
    {
        let ghost program = self.program@;
        let length = self.program.len();
        let start = self.instruction_pointer;
        proof {
            lemma_backward_match_from(program, start as int, start - 1);
        }
        let mut current = start;
        let mut seen_branches_backwards: usize = 1;
        while seen_branches_backwards > 0
            invariant
                program == self.program@,
                self@ == old(self)@,
                machine_well_formed(self@, N as nat),
                start == self@.instruction_pointer,
                length == program.len(),
                current <= start < program.len(),
                seen_branches_backwards == 1 - bracket_balance(program, current as int, start as int),
                seen_branches_backwards <= start - current + 1,
                seen_branches_backwards > 0 ==> backward_match(program, start as int)
                    == backward_match_from(program, start as int, current - 1),
                seen_branches_backwards == 0 ==> backward_match(program, start as int) == Some(
                    current as int,
                ),
            decreases current,
        {
            if current == 0 {
                return false;
            }
            current -= 1;
            let current_instruction = self.program[current];
            if current_instruction == BFInstruction::BranchForwards {
                seen_branches_backwards -= 1;
            }
            if current_instruction == BFInstruction::BranchBackwards {
                seen_branches_backwards += 1;
            }
        }
        self.instruction_pointer = current;
        true
    }

    /// Runs the instruction at the instruction pointer. Input and output
    /// are left to the caller: an output instruction hands back the byte
    /// to write, and an input instruction waits for `provide_input`.
    pub fn step(&mut self) -> (outcome: StepOutcome)
        requires
            machine_well_formed(old(self)@, N as nat),
        ensures
            machine_well_formed(final(self)@, N as nat),
            (final(self)@, outcome) == next_state(old(self)@),
    {
        if self.instruction_pointer >= self.program.len() {
            return StepOutcome::Halted;
        }
        let instruction = self.program[self.instruction_pointer];
        match instruction {
            BFInstruction::IncrementHead => {
                if self.head + 1 < N {
                    self.head = self.head + 1;
                } else {
                    return StepOutcome::HeadOutOfBounds;
                }
            },
            BFInstruction::DecrementHead => {
                if self.head > 0 {
                    self.head = self.head - 1;
                } else {
                    return StepOutcome::HeadOutOfBounds;
                }
            },
            _ => {
                if N == 0 {
                    return StepOutcome::HeadOutOfBounds;
                }
                match instruction {
                    BFInstruction::IncrementByte => {
                        let new_val = self.get_current_value().wrapping_add(1);
                        self.set_current_value(new_val);
                    },
                    BFInstruction::DecrementByte => {
                        let new_val = self.get_current_value().wrapping_sub(1);
                        self.set_current_value(new_val);
                    },
                    BFInstruction::InputByte => {
                        return StepOutcome::AwaitingInput;
                    },
                    BFInstruction::OutputByte => {
                        let value = self.get_current_value();
                        self.instruction_pointer = self.instruction_pointer + 1;
                        return StepOutcome::Output(value);
                    },
                    BFInstruction::BranchForwards => {
                        if self.get_current_value() == 0 {
                            if !self.branch_forwards() {
                                return StepOutcome::UnmatchedBranch;
                            }
                        }
                    },
                    _ => {
                        if self.get_current_value() != 0 {
                            if !self.branch_backwards() {
                                return StepOutcome::UnmatchedBranch;
                            }
                        }
                    },
                }
            },
        }
        self.instruction_pointer = self.instruction_pointer + 1;
        StepOutcome::Continue
    }

    /// Hands a byte that was read to a program waiting at an input
    /// instruction: it is written to the cell under the head and the
    /// program goes on. Returns `false`, changing nothing, where the
    /// program is not waiting for input.
    pub fn provide_input(&mut self, byte: u8) -> (taken: bool)
        requires
            machine_well_formed(old(self)@, N as nat),
        ensures
            machine_well_formed(final(self)@, N as nat),
            (final(self)@, taken) == input_state(old(self)@, byte),
    {
        if self.instruction_pointer < self.program.len() && self.program[self.instruction_pointer]
            == BFInstruction::InputByte && N > 0 {
            *self.get_current_value_mut() = byte;
            self.instruction_pointer = self.instruction_pointer + 1;
            true
        } else {
            false
        }
    }

    /// The instructions of the program.
    pub fn instructions(&self) -> (instructions: &Vec<BFInstruction>)
        ensures
            instructions@ == self@.program,
    {
        &self.program
    }

    /// The cells of the tape.
    pub fn into_tape(self) -> (tape: Vec<u8>)
        ensures
            tape@ == self@.tape,
    {
        self.values
    }
}

} // verus!
