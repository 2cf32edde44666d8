use gridpath::machine::{combo, parse_input, render, run, solve, Instruction, MachineError, Registers};

#[test]
fn test_example() {
    let input = "\
        Register A: 729
        Register B: 0
        Register C: 0

        Program: 0,1,5,4,3,0
        ";
    assert_eq!(solve(input), Ok("4,6,3,5,6,3,5,2,1,0".to_string()));
}

#[test]
fn parse_reads_registers_and_program() {
    let parsed = parse_input("Register A: 10\nRegister B: +7\nRegister C: 9\n\nProgram:  5,0, 5,1 ,5,4\n");
    assert_eq!(parsed, Some((Registers { a: 10, b: 7, c: 9 }, vec![5, 0, 5, 1, 5, 4])));
    assert_eq!(parse_input(""), Some((Registers { a: 0, b: 0, c: 0 }, vec![])));
    assert_eq!(parse_input("noise\nRegister A: 1 2 3\n"), Some((Registers { a: 3, b: 0, c: 0 }, vec![])));
}

#[test]
fn parse_rejects_what_is_no_number() {
    assert_eq!(parse_input("Register A: x"), None);
    assert_eq!(parse_input("Register A:"), None);
    assert_eq!(parse_input("Program: 1,2,256"), None);
    assert_eq!(parse_input("Program: 1,,2"), None);
    assert_eq!(parse_input("Program:"), None);
    assert_eq!(parse_input("Register B: 18446744073709551616"), None);
    assert_eq!(solve("Register A: x"), Err(MachineError::BadInput));
}

#[test]
fn small_programs_do_what_the_manual_says() {
    let zero = Registers { a: 0, b: 0, c: 0 };
    assert_eq!(run(Registers { a: 10, ..zero }, &vec![5, 0, 5, 1, 5, 4], 100), Ok(vec![0, 1, 2]));
    assert_eq!(
        run(Registers { a: 2024, ..zero }, &vec![0, 1, 5, 4, 3, 0], 1000),
        Ok(vec![4, 2, 5, 6, 7, 7, 7, 7, 3, 1, 0])
    );
    // bst with register C = 9 puts 1 into B, which out then shows
    assert_eq!(run(Registers { c: 9, ..zero }, &vec![2, 6, 5, 5], 10), Ok(vec![1]));
    // bxl: 29 xor 7 = 26, shown modulo 8
    assert_eq!(run(Registers { b: 29, ..zero }, &vec![1, 7, 5, 5], 10), Ok(vec![2]));
    // bxc: 2024 xor 43690 = 44354, shown modulo 8
    assert_eq!(run(Registers { b: 2024, c: 43690, ..zero }, &vec![4, 0, 5, 5], 10), Ok(vec![2]));
    // bdv and cdv divide A by a power of two
    assert_eq!(run(Registers { a: 45, ..zero }, &vec![6, 2, 5, 5, 7, 3, 5, 6], 10), Ok(vec![3, 5]));
}

#[test]
fn faults_are_told_apart() {
    let zero = Registers { a: 0, b: 0, c: 0 };
    assert_eq!(run(zero, &vec![8, 0], 10), Err(MachineError::InvalidOpcode));
    assert_eq!(run(zero, &vec![5, 7], 10), Err(MachineError::InvalidOperand));
    assert_eq!(run(zero, &vec![2, 7], 10), Err(MachineError::InvalidOperand));
    assert_eq!(run(zero, &vec![0, 7], 10), Err(MachineError::InvalidOperand));
    assert_eq!(run(zero, &vec![5, 0, 5], 10), Err(MachineError::Truncated));
    assert_eq!(run(Registers { a: 1, b: 64, c: 0 }, &vec![0, 5], 10), Err(MachineError::ShiftTooLarge));
    assert_eq!(run(Registers { a: 1, b: 63, c: 0 }, &vec![0, 5, 5, 4], 10), Ok(vec![0]));
    assert_eq!(run(Registers { a: 1, ..zero }, &vec![3, 0], 1000), Err(MachineError::OutOfFuel));
    assert_eq!(run(zero, &vec![], 0), Ok(vec![]));
    assert_eq!(run(zero, &vec![5, 0], 0), Err(MachineError::OutOfFuel));
    assert_eq!(run(zero, &vec![5, 0], 1), Ok(vec![0]));
}

#[test]
fn opcodes_and_combo_operands() {
    assert_eq!(Instruction::from_opcode(0), Some(Instruction::Adv));
    assert_eq!(Instruction::from_opcode(1), Some(Instruction::Bxl));
    assert_eq!(Instruction::from_opcode(2), Some(Instruction::Bst));
    assert_eq!(Instruction::from_opcode(3), Some(Instruction::Jnz));
    assert_eq!(Instruction::from_opcode(4), Some(Instruction::Bxc));
    assert_eq!(Instruction::from_opcode(5), Some(Instruction::Out));
    assert_eq!(Instruction::from_opcode(6), Some(Instruction::Bdv));
    assert_eq!(Instruction::from_opcode(7), Some(Instruction::Cdv));
    assert_eq!(Instruction::from_opcode(8), None);
    let r = Registers { a: 11, b: 22, c: 33 };
    assert_eq!(combo(&r, 0), Some(0));
    assert_eq!(combo(&r, 3), Some(3));
    assert_eq!(combo(&r, 4), Some(11));
    assert_eq!(combo(&r, 5), Some(22));
    assert_eq!(combo(&r, 6), Some(33));
    assert_eq!(combo(&r, 7), None);
}

#[test]
fn output_is_joined_by_commas() {
    assert_eq!(render(&vec![]), Vec::<char>::new());
    assert_eq!(render(&vec![7]), vec!['7']);
    assert_eq!(render(&vec![1, 20, 255]).iter().collect::<String>(), "1,20,255");
}
