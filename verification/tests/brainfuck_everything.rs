use practice_programs::brainfuck_everything::{BFInstruction, BFProgram, BitReader, StepOutcome};

fn parse(source: &str) -> Vec<BFInstruction> {
    source
        .chars()
        .map(|c| match c {
            '>' => BFInstruction::IncrementHead,
            '<' => BFInstruction::DecrementHead,
            '+' => BFInstruction::IncrementByte,
            '-' => BFInstruction::DecrementByte,
            '.' => BFInstruction::OutputByte,
            ',' => BFInstruction::InputByte,
            '[' => BFInstruction::BranchForwards,
            ']' => BFInstruction::BranchBackwards,
            _ => panic!("not an instruction"),
        })
        .collect()
}

/// Steps a program until it stops, feeding it `input`; returns what it
/// wrote, how it stopped and its tape.
fn drive<const N: usize>(mut program: BFProgram<N>, input: &[u8]) -> (Vec<u8>, StepOutcome, Vec<u8>) {
    let mut output = Vec::new();
    let mut input = input.iter();
    loop {
        match program.step() {
            StepOutcome::Continue => {}
            StepOutcome::Output(byte) => output.push(byte),
            StepOutcome::AwaitingInput => {
                assert!(program.provide_input(*input.next().unwrap()));
            }
            stop => return (output, stop, program.into_tape()),
        }
    }
}

const ALL: [BFInstruction; 8] = [
    BFInstruction::IncrementHead,
    BFInstruction::DecrementHead,
    BFInstruction::IncrementByte,
    BFInstruction::DecrementByte,
    BFInstruction::OutputByte,
    BFInstruction::InputByte,
    BFInstruction::BranchForwards,
    BFInstruction::BranchBackwards,
];

#[test]
fn bit_reader_reads_low_bits_first() {
    let mut reader = BitReader::new(vec![0b0000_0101, 0b1000_0000]);
    let mut bits = Vec::new();
    while let Some(bit) = reader.next() {
        bits.push(bit);
    }
    assert_eq!(
        bits,
        vec![
            true, false, true, false, false, false, false, false, false, false, false, false,
            false, false, false, true
        ]
    );
    assert_eq!(reader.next(), None);
}

#[test]
fn get_bits_takes_whole_groups_then_consumes_the_rest() {
    let mut reader = BitReader::new(vec![0b1101_0110]);
    assert_eq!(reader.get_bits::<3>(), Some(vec![false, true, true]));
    assert_eq!(reader.get_bits::<3>(), Some(vec![false, true, false]));
    assert_eq!(reader.get_bits::<3>(), None);
    assert_eq!(reader.next(), None);
    assert_eq!(reader.get_bits::<0>(), Some(vec![]));
}

#[test]
fn get_bits_exactly_the_remaining_bits() {
    let mut reader = BitReader::new(vec![0xff]);
    assert_eq!(reader.get_bits::<8>(), Some(vec![true; 8]));
    assert_eq!(reader.get_bits::<1>(), None);
    let mut empty = BitReader::new(vec![]);
    assert_eq!(empty.get_bits::<1>(), None);
}

#[test]
fn from_bit_array_reads_the_first_bit_as_most_significant() {
    assert_eq!(BFInstruction::from_bit_array([false, false, false]), BFInstruction::IncrementHead);
    assert_eq!(BFInstruction::from_bit_array([false, false, true]), BFInstruction::DecrementHead);
    assert_eq!(BFInstruction::from_bit_array([false, true, false]), BFInstruction::IncrementByte);
    assert_eq!(BFInstruction::from_bit_array([false, true, true]), BFInstruction::DecrementByte);
    assert_eq!(BFInstruction::from_bit_array([true, false, false]), BFInstruction::OutputByte);
    assert_eq!(BFInstruction::from_bit_array([true, false, true]), BFInstruction::InputByte);
    assert_eq!(BFInstruction::from_bit_array([true, true, false]), BFInstruction::BranchForwards);
    assert_eq!(BFInstruction::from_bit_array([true, true, true]), BFInstruction::BranchBackwards);
}

#[test]
fn to_bits_and_from_bit_array_are_inverse() {
    for a in [false, true] {
        for b in [false, true] {
            for c in [false, true] {
                let arr = [a, b, c];
                assert_eq!(BFInstruction::to_bits(&BFInstruction::from_bit_array(arr)), arr);
            }
        }
    }
    for instruction in ALL {
        assert_eq!(BFInstruction::from_bit_array(instruction.to_bits()), instruction);
    }
    assert_eq!(BFInstruction::OutputByte.to_bits(), [true, false, false]);
}

#[test]
fn symbols_of_instructions() {
    let symbols: String = ALL.iter().map(|i| i.symbol()).collect();
    assert_eq!(symbols, "><+-.,[]");
}

#[test]
fn load_from_binary_ignores_leftover_bits() {
    // bits, low first: 0 1 1 | 0 1 0 | 1 1 1 | 0 0 0 | 0 0 1 | 0
    let program = BFProgram::<4>::load_from_binary(vec![0b1101_0110, 0b0100_0001]);
    assert_eq!(
        program.instructions(),
        &vec![
            BFInstruction::DecrementByte,
            BFInstruction::IncrementByte,
            BFInstruction::BranchBackwards,
            BFInstruction::IncrementHead,
            BFInstruction::DecrementHead,
        ]
    );
    assert_eq!(program.into_tape(), vec![0, 0, 0, 0]);
    let empty = BFProgram::<2>::load_from_binary(vec![]);
    assert!(empty.instructions().is_empty());
}

#[test]
fn loop_moves_value_and_outputs() {
    let program = BFProgram::<2>::new_from_instructions(parse("++[>+++<-]>."));
    let (output, stop, tape) = drive(program, &[]);
    assert_eq!(output, vec![6]);
    assert_eq!(stop, StepOutcome::Halted);
    assert_eq!(tape, vec![0, 6]);
}

#[test]
fn input_is_written_under_the_head() {
    let program = BFProgram::<3>::new_from_instructions(parse(">,+.<,."));
    let (output, stop, tape) = drive(program, &[41, 7]);
    assert_eq!(output, vec![42, 7]);
    assert_eq!(stop, StepOutcome::Halted);
    assert_eq!(tape, vec![7, 42, 0]);
}

#[test]
fn provide_input_only_at_an_input_instruction() {
    let mut program = BFProgram::<1>::new_from_instructions(parse("+,"));
    assert!(!program.provide_input(9));
    assert_eq!(program.step(), StepOutcome::Continue);
    assert_eq!(program.step(), StepOutcome::AwaitingInput);
    assert_eq!(program.step(), StepOutcome::AwaitingInput);
    assert!(program.provide_input(9));
    assert_eq!(program.step(), StepOutcome::Halted);
    assert_eq!(program.into_tape(), vec![9]);
}

#[test]
fn cells_wrap_around() {
    let program = BFProgram::<1>::new_from_instructions(parse("-."));
    let (output, _, tape) = drive(program, &[]);
    assert_eq!(output, vec![255]);
    assert_eq!(tape, vec![255]);
    let program = BFProgram::<1>::new_from_instructions(parse("-+"));
    assert_eq!(drive(program, &[]).2, vec![0]);
}

#[test]
fn head_does_not_loop_around_the_edges() {
    let program = BFProgram::<2>::new_from_instructions(parse("+<"));
    let (_, stop, tape) = drive(program, &[]);
    assert_eq!(stop, StepOutcome::HeadOutOfBounds);
    assert_eq!(tape, vec![1, 0]);
    let program = BFProgram::<2>::new_from_instructions(parse(">>+"));
    let (_, stop, tape) = drive(program, &[]);
    assert_eq!(stop, StepOutcome::HeadOutOfBounds);
    assert_eq!(tape, vec![0, 0]);
    let program = BFProgram::<0>::new_from_instructions(parse("+"));
    assert_eq!(drive(program, &[]).1, StepOutcome::HeadOutOfBounds);
    let program = BFProgram::<0>::new_from_instructions(vec![]);
    assert_eq!(drive(program, &[]).1, StepOutcome::Halted);
}

#[test]
fn unmatched_brackets_stop_the_program() {
    let program = BFProgram::<1>::new_from_instructions(parse("[+"));
    assert_eq!(drive(program, &[]).1, StepOutcome::UnmatchedBranch);
    let program = BFProgram::<1>::new_from_instructions(parse("+]"));
    assert_eq!(drive(program, &[]).1, StepOutcome::UnmatchedBranch);
    // a closing bracket is only looked for when the cell is zero
    let program = BFProgram::<1>::new_from_instructions(parse("+[-"));
    assert_eq!(drive(program, &[]).1, StepOutcome::Halted);
}

#[test]
fn nested_loops_skip_and_repeat() {
    // cell 0 is zero, so the whole nested loop is skipped
    let program = BFProgram::<2>::new_from_instructions(parse("[>[+]<]+."));
    assert_eq!(drive(program, &[]).0, vec![1]);
    // 3 * 2 = 6
    let program = BFProgram::<3>::new_from_instructions(parse("+++[>++[>+<-]<-]>>."));
    let (output, _, tape) = drive(program, &[]);
    assert_eq!(output, vec![6]);
    assert_eq!(tape, vec![0, 0, 6]);
}

#[test]
fn branch_functions_move_to_the_matching_bracket() {
    let mut program = BFProgram::<1>::new_from_instructions(parse("[[]+]"));
    assert!(program.branch_forwards());
    // at the outer ] with a zero cell: it goes on past the end
    assert_eq!(program.step(), StepOutcome::Continue);
    assert_eq!(program.step(), StepOutcome::Halted);

    let mut program = BFProgram::<1>::new_from_instructions(parse("+[[]]"));
    // walk to the last instruction: + then the first [ (cell non zero)
    assert_eq!(program.step(), StepOutcome::Continue);
    assert_eq!(program.step(), StepOutcome::Continue);
    assert_eq!(program.step(), StepOutcome::Continue);
    // now at the inner ] with a non-zero cell: it jumps back to the inner [
    assert!(program.branch_backwards());
    assert_eq!(program.step(), StepOutcome::Continue);
    assert_eq!(program.step(), StepOutcome::Continue);

    let mut program = BFProgram::<1>::new_from_instructions(parse("[+"));
    assert!(!program.branch_forwards());
}

#[test]
fn current_value_accessors() {
    let mut program = BFProgram::<2>::new_from_instructions(parse(">"));
    assert_eq!(program.get_current_value(), 0);
    program.set_current_value(5);
    assert_eq!(program.get_current_value(), 5);
    *program.get_current_value_mut() = 8;
    assert_eq!(program.get_current_value(), 8);
    assert_eq!(program.step(), StepOutcome::Continue);
    assert_eq!(program.get_current_value(), 0);
    assert_eq!(program.into_tape(), vec![8, 0]);
}

#[test]
fn cancelling_pair_changes_nothing() {
    let source = "+++[>++<-],>.";
    let plain = BFProgram::<2>::new_from_instructions(parse(source));
    let expected = drive(plain, &[40]);
    for i in 0..=source.len() {
        for pair in ["+-", "-+"] {
            let mut with_pair = String::from(&source[..i]);
            with_pair.push_str(pair);
            with_pair.push_str(&source[i..]);
            let program = BFProgram::<2>::new_from_instructions(parse(&with_pair));
            assert_eq!(drive(program, &[40]), expected);
        }
    }
}
