//! A three-register machine with eight instructions, and the text format
//! that sets it up.

use vstd::prelude::*;
use vstd::arithmetic::power2::pow2;
use crate::text::{
    chars_of, decimal_digits, fields_of, has_prefix, lines_of, split_lines, split_by, split_on,
    split_whitespace, starts_with, string_of, tail, to_decimal, trim, trimmed, unsigned_of,
    parse_unsigned, views,
};

verus! {

/// The eight instructions, by opcode from 0 to 7.
#[derive(Clone, Copy, Debug, PartialEq, Eq, Structural)]
pub enum Instruction {
    Adv,
    Bxl,
    Bst,
    Jnz,
    Bxc,
    Out,
    Bdv,
    Cdv,
}

/// The three registers.
#[derive(Clone, Copy, Debug, PartialEq, Eq, Structural)]
pub struct Registers {
    pub a: u64,
    pub b: u64,
    pub c: u64,
}

/// Why a machine gave no output.
#[derive(Clone, Copy, Debug, PartialEq, Eq, Structural)]
pub enum MachineError {
    /// The text does not describe a machine.
    BadInput,
    /// An opcode above 7.
    InvalidOpcode,
    /// The combo operand 7, or one above it.
    InvalidOperand,
    /// An opcode without operand at the end of the program.
    Truncated,
    /// A division by a power of two that the registers cannot hold.
    ShiftTooLarge,
    /// The machine did not halt within the steps it was given.
    OutOfFuel,
    /// An instruction that cannot be followed where it stands.
    Unsupported,
}

/// What one step of the machine does.
pub enum Step {
    /// The instruction pointer is past the program.
    Halt,
    Fault(MachineError),
    /// The registers and the instruction pointer after the step, and the
    /// value it put out, if any.
    Next(Registers, nat, Option<u8>),
}

impl Instruction {
    /// The instruction with the given opcode.
    pub open spec fn decode(value: u8) -> Option<Instruction> {
        if value == 0 {
            Some(Instruction::Adv)
        } else if value == 1 {
            Some(Instruction::Bxl)
        } else if value == 2 {
            Some(Instruction::Bst)
        } else if value == 3 {
            Some(Instruction::Jnz)
        } else if value == 4 {
            Some(Instruction::Bxc)
        } else if value == 5 {
            Some(Instruction::Out)
        } else if value == 6 {
            Some(Instruction::Bdv)
        } else if value == 7 {
            Some(Instruction::Cdv)
        } else {
            None
        }
    }

    /// The instruction with the given opcode, if the opcode is one.
    pub fn from_opcode(value: u8) -> (r: Option<Instruction>)
        ensures
            r == Instruction::decode(value),
    {
        match value {
            0 => Some(Instruction::Adv),
            1 => Some(Instruction::Bxl),
            2 => Some(Instruction::Bst),
            3 => Some(Instruction::Jnz),
            4 => Some(Instruction::Bxc),
            5 => Some(Instruction::Out),
            6 => Some(Instruction::Bdv),
            7 => Some(Instruction::Cdv),
            _ => None,
        }
    }
}

/// The value of a combo operand: 0 to 3 stand for themselves, 4 to 6 for
/// the registers A, B and C.
pub open spec fn combo_of(r: Registers, operand: u8) -> Option<u64> {
    if operand <= 3 {
        Some(operand as u64)
    } else if operand == 4 {
        Some(r.a)
    } else if operand == 5 {
        Some(r.b)
    } else if operand == 6 {
        Some(r.c)
    } else {
        None
    }
}

/// The value of a combo operand.
pub fn combo(registers: &Registers, operand: u8) -> (r: Option<u64>)
    ensures
        r == combo_of(*registers, operand),
{
    match operand {
        0 | 1 | 2 | 3 => Some(operand as u64),
        4 => Some(registers.a),
        5 => Some(registers.b),
        6 => Some(registers.c),
        _ => None,
    }
}

/// Register A divided by two to the power of a combo operand.
pub open spec fn shifted(r: Registers, operand: u8) -> Result<u64, MachineError> {
    match combo_of(r, operand) {
        None => Err(MachineError::InvalidOperand),
        Some(n) => if n >= 64 {
            Err(MachineError::ShiftTooLarge)
        } else {
            Ok((r.a as nat / pow2(n as nat)) as u64)
        },
    }
}

/// One step of the machine at instruction pointer `ip`.
pub open spec fn step_of(r: Registers, ip: nat, program: Seq<u8>) -> Step {
    if ip >= program.len() {
        Step::Halt
    } else if ip + 1 >= program.len() {
        Step::Fault(MachineError::Truncated)
    } else {
        let operand = program[ip as int + 1];
        match Instruction::decode(program[ip as int]) {
            None => Step::Fault(MachineError::InvalidOpcode),
            Some(Instruction::Adv) => match shifted(r, operand) {
                Ok(v) => Step::Next(Registers { a: v, ..r }, ip + 2, None),
                Err(e) => Step::Fault(e),
            },
            Some(Instruction::Bxl) => Step::Next(Registers { b: r.b ^ (operand as u64), ..r }, ip + 2, None),
            Some(Instruction::Bst) => match combo_of(r, operand) {
                Some(v) => Step::Next(Registers { b: v % 8, ..r }, ip + 2, None),
                None => Step::Fault(MachineError::InvalidOperand),
            },
            Some(Instruction::Jnz) => if r.a != 0 {
                Step::Next(r, operand as nat, None)
            } else {
                Step::Next(r, ip + 2, None)
            },
            Some(Instruction::Bxc) => Step::Next(Registers { b: r.b ^ r.c, ..r }, ip + 2, None),
            Some(Instruction::Out) => match combo_of(r, operand) {
                Some(v) => Step::Next(r, ip + 2, Some((v % 8) as u8)),
                None => Step::Fault(MachineError::InvalidOperand),
            },
            Some(Instruction::Bdv) => match shifted(r, operand) {
                Ok(v) => Step::Next(Registers { b: v, ..r }, ip + 2, None),
                Err(e) => Step::Fault(e),
            },
            Some(Instruction::Cdv) => match shifted(r, operand) {
                Ok(v) => Step::Next(Registers { c: v, ..r }, ip + 2, None),
                Err(e) => Step::Fault(e),
            },
        }
    }
}

/// `front` before what a run gave.
pub open spec fn after(front: Seq<u8>, rest: Result<Seq<u8>, MachineError>) -> Result<
    Seq<u8>,
    MachineError,
> {
    match rest {
        Ok(out) => Ok(front + out),
        Err(e) => Err(e),
    }
}

/// What the machine puts out when it runs from `ip` for at most `fuel`
/// steps.
pub open spec fn run_of(r: Registers, ip: nat, program: Seq<u8>, fuel: nat) -> Result<
    Seq<u8>,
    MachineError,
>
    decreases fuel,
{
    match step_of(r, ip, program) {
        Step::Halt => Ok(Seq::empty()),
        Step::Fault(e) => Err(e),
        Step::Next(r2, ip2, out) => if fuel == 0 {
            Err(MachineError::OutOfFuel)
        } else {
            let front = match out {
                Some(v) => seq![v],
                None => Seq::empty(),
            };
            after(front, run_of(r2, ip2, program, (fuel - 1) as nat))
        },
    }
}

/// Register A divided by two to the power of a combo operand.
fn shift(registers: &Registers, operand: u8) -> (r: Result<u64, MachineError>)
    ensures
        r == shifted(*registers, operand),
{
    match combo(registers, operand) {
        None => Err(MachineError::InvalidOperand),
        Some(n) => {
            if n >= 64 {
                Err(MachineError::ShiftTooLarge)
            } else {
                proof {
                    vstd::bits::lemma_u64_shr_is_div(registers.a, n);
                }
                Ok(registers.a >> n)
            }
        },
    }
}

/// Runs a program from its first instruction, for at most `fuel` steps, and
/// returns what it put out.
pub fn run(registers: Registers, program: &Vec<u8>, fuel: u64) -> (r: Result<Vec<u8>, MachineError>)
    ensures
        match r {
            Ok(out) => run_of(registers, 0, program@, fuel as nat) == Ok::<Seq<u8>, MachineError>(out@),
            Err(e) => run_of(registers, 0, program@, fuel as nat) == Err::<Seq<u8>, MachineError>(e),
        },
{
    let mut regs = registers;
    let mut output: Vec<u8> = Vec::new();
    let mut ip: usize = 0;
    let mut left: u64 = fuel;
    let ghost whole = run_of(registers, 0, program@, fuel as nat);
    assert(after(output@, run_of(regs, ip as nat, program@, left as nat)) == whole) by {
        match run_of(regs, ip as nat, program@, left as nat) {
            Ok(out) => {
                assert(output@ + out =~= out);
            },
            Err(_) => {},
        }
    }
    loop
        invariant
            whole == run_of(registers, 0, program@, fuel as nat),
            after(output@, run_of(regs, ip as nat, program@, left as nat)) == whole,
        decreases left,
    {
        if ip >= program.len() {
            assert(output@ + Seq::<u8>::empty() =~= output@);
            return Ok(output);
        }
        if ip + 1 >= program.len() {
            return Err(MachineError::Truncated);
        }
        let opcode = program[ip];
        let operand = program[ip + 1];
        let instruction = match Instruction::from_opcode(opcode) {
            Some(i) => i,
            None => {
                return Err(MachineError::InvalidOpcode);
            },
        };
        let ghost before = regs;
        let ghost ip0 = ip as nat;
        let ghost out0 = output@;
        let mut next: usize = ip + 2;
        let mut emitted: Option<u8> = None;
        let mut fault: Option<MachineError> = None;
        match instruction {
            Instruction::Adv => {
                match shift(&regs, operand) {
                    Ok(v) => {
                        regs.a = v;
                    },
                    Err(e) => {
                        fault = Some(e);
                    },
                }
            },
            Instruction::Bxl => {
                regs.b = regs.b ^ (operand as u64);
            },
            Instruction::Bst => {
                match combo(&regs, operand) {
                    Some(v) => {
                        regs.b = v % 8;
                    },
                    None => {
                        fault = Some(MachineError::InvalidOperand);
                    },
                }
            },
            Instruction::Jnz => {
                if regs.a != 0 {
                    next = operand as usize;
                }
            },
            Instruction::Bxc => {
                regs.b = regs.b ^ regs.c;
            },
            Instruction::Out => {
                match combo(&regs, operand) {
                    Some(v) => {
                        emitted = Some((v % 8) as u8);
                    },
                    None => {
                        fault = Some(MachineError::InvalidOperand);
                    },
                }
            },
            Instruction::Bdv => {
                match shift(&regs, operand) {
                    Ok(v) => {
                        regs.b = v;
                    },
                    Err(e) => {
                        fault = Some(e);
                    },
                }
            },
            Instruction::Cdv => {
                match shift(&regs, operand) {
                    Ok(v) => {
                        regs.c = v;
                    },
                    Err(e) => {
                        fault = Some(e);
                    },
                }
            },
        }
        match fault {
            Some(e) => {
                assert(step_of(before, ip0, program@) == Step::Fault(e));
                return Err(e);
            },
            None => {},
        }
        assert(step_of(before, ip0, program@) == Step::Next(regs, next as nat, emitted));
        if left == 0 {
            return Err(MachineError::OutOfFuel);
        }
        match emitted {
            Some(v) => {
                output.push(v);
            },
            None => {},
        }
        left = left - 1;
        ip = next;
        proof {
            let front = match emitted {
                Some(v) => seq![v],
                None => Seq::empty(),
            };
            assert(output@ =~= out0 + front);
            match run_of(regs, ip as nat, program@, left as nat) {
                Ok(out) => {
                    assert(out0 + (front + out) =~= output@ + out);
                },
                Err(_) => {},
            }
        }
    }
}

/// The numbers of a list, written in decimal and separated by commas.
pub open spec fn rendered(out: Seq<u8>) -> Seq<char>
    decreases out.len(),
{
    if out.len() == 0 {
        Seq::empty()
    } else if out.len() == 1 {
        decimal_digits(out[0] as nat)
    } else {
        rendered(out.drop_last()) + seq![','] + decimal_digits(out.last() as nat)
    }
}

/// Writes the numbers of a list in decimal, separated by commas.
pub fn render(out: &Vec<u8>) -> (s: Vec<char>)
    ensures
        s@ == rendered(out@),
{
    let mut s: Vec<char> = Vec::new();
    let mut i: usize = 0;
    while i < out.len()
        invariant
            i <= out.len(),
            s@ == rendered(out@.take(i as int)),
        decreases out.len() - i,
    {
        let ghost before = s@;
        if i > 0 {
            s.push(',');
        }
        let mut digits = to_decimal(out[i] as u128);
        s.append(&mut digits);
        proof {
            let t = out@.take(i + 1);
            assert(t.drop_last() =~= out@.take(i as int));
            assert(t.last() == out@[i as int]);
            if i > 0 {
                assert(s@ =~= before + seq![','] + decimal_digits(out@[i as int] as nat));
            } else {
                assert(s@ =~= decimal_digits(out@[i as int] as nat));
            }
        }
        i += 1;
    }
    assert(out@.take(out.len() as int) =~= out@);
    s
}

/// The bytes that a comma-separated list of numbers holds; nothing if a
/// piece is not a number from 0 to 255.
pub open spec fn bytes_of(pieces: Seq<Seq<char>>) -> Option<Seq<u8>>
    decreases pieces.len(),
{
    if pieces.len() == 0 {
        Some(Seq::empty())
    } else {
        match (bytes_of(pieces.drop_last()), unsigned_of(trimmed(pieces.last()), 255)) {
            (Some(front), Some(v)) => Some(front.push(v as u8)),
            _ => None,
        }
    }
}

/// The number that the last word of a line holds.
pub open spec fn last_number(line: Seq<char>) -> Option<u64> {
    let words = fields_of(line);
    if words.len() == 0 {
        None
    } else {
        match unsigned_of(words.last(), u64::MAX as nat) {
            Some(v) => Some(v as u64),
            None => None,
        }
    }
}

/// What one line of the text changes: a register or the program. Lines
/// that say nothing of either are passed over.
pub open spec fn read_line(acc: (Registers, Seq<u8>), line: Seq<char>) -> Option<(Registers, Seq<u8>)> {
    let t = trimmed(line);
    if t.len() == 0 {
        Some(acc)
    } else if has_prefix(t, "Register A:"@) {
        match last_number(t) {
            Some(v) => Some((Registers { a: v, ..acc.0 }, acc.1)),
            None => None,
        }
    } else if has_prefix(t, "Register B:"@) {
        match last_number(t) {
            Some(v) => Some((Registers { b: v, ..acc.0 }, acc.1)),
            None => None,
        }
    } else if has_prefix(t, "Register C:"@) {
        match last_number(t) {
            Some(v) => Some((Registers { c: v, ..acc.0 }, acc.1)),
            None => None,
        }
    } else if has_prefix(t, "Program:"@) {
        match bytes_of(split_by(t.skip("Program:"@.len() as int), ',')) {
            Some(p) => Some((acc.0, p)),
            None => None,
        }
    } else {
        Some(acc)
    }
}

/// What a sequence of lines makes of a machine.
pub open spec fn read_lines(acc: (Registers, Seq<u8>), lines: Seq<Seq<char>>) -> Option<
    (Registers, Seq<u8>),
>
    decreases lines.len(),
{
    if lines.len() == 0 {
        Some(acc)
    } else {
        match read_line(acc, lines[0]) {
            Some(next) => read_lines(next, lines.drop_first()),
            None => None,
        }
    }
}

/// The machine that a text describes: registers at zero and an empty
/// program, changed by each line in turn.
pub open spec fn setup_of(text: Seq<char>) -> Option<(Registers, Seq<u8>)> {
    read_lines((Registers { a: 0, b: 0, c: 0 }, Seq::empty()), lines_of(text))
}

fn parse_last_number(line: &Vec<char>) -> (r: Option<u64>)
    ensures
        r == last_number(line@),
{
    let words = split_whitespace(line);
    if words.len() == 0 {
        return None;
    }
    let last = &words[words.len() - 1];
    assert(views(words@).last() == last@);
    match parse_unsigned(last, u64::MAX as u128) {
        Some(v) => Some(v as u64),
        None => None,
    }
}

fn parse_program(rest: &Vec<char>) -> (r: Option<Vec<u8>>)
    ensures
        match r {
            Some(p) => bytes_of(split_by(rest@, ',')) == Some(p@),
            None => bytes_of(split_by(rest@, ',')) is None,
        },
{
    let pieces = split_on(rest, ',');
    let ghost all = views(pieces@);
    let mut program: Vec<u8> = Vec::new();
    let mut i: usize = 0;
    while i < pieces.len()
        invariant
            i <= pieces.len(),
            all == views(pieces@),
            all == split_by(rest@, ','),
            bytes_of(all.take(i as int)) == Some(program@),
        decreases pieces.len() - i,
    {
        let piece = trim(&pieces[i]);
        proof {
            let t = all.take(i + 1);
            assert(t.drop_last() =~= all.take(i as int));
            assert(t.last() == pieces@[i as int]@);
            lemma_bytes_grow(all, i + 1);
        }
        match parse_unsigned(&piece, 255) {
            Some(v) => {
                program.push(v as u8);
            },
            None => {
                assert(bytes_of(all.take(i + 1)) is None);
                return None;
            },
        }
        i += 1;
    }
    assert(all.take(pieces.len() as int) =~= all);
    Some(program)
}

/// A list of pieces holds no bytes if a front part of it holds none.
pub proof fn lemma_bytes_grow(pieces: Seq<Seq<char>>, n: int)
    requires
        0 <= n <= pieces.len(),
    ensures
        bytes_of(pieces.take(n)) is None ==> bytes_of(pieces) is None,
    decreases pieces.len() - n,
{
    if n < pieces.len() {
        lemma_bytes_grow(pieces, n + 1);
        assert(pieces.take(n + 1).drop_last() =~= pieces.take(n));
    } else {
        assert(pieces.take(n) =~= pieces);
    }
}

/// Reads the registers and the program from a text.
pub fn parse_input(input: &str) -> (r: Option<(Registers, Vec<u8>)>)
    ensures
        match r {
            Some(m) => setup_of(input@) == Some((m.0, m.1@)),
            None => setup_of(input@) is None,
        },
{
    let text = chars_of(input);
    let lines = split_lines(&text);
    let prefix_a = chars_of("Register A:");
    let prefix_b = chars_of("Register B:");
    let prefix_c = chars_of("Register C:");
    let prefix_p = chars_of("Program:");
    let mut registers = Registers { a: 0, b: 0, c: 0 };
    let mut program: Vec<u8> = Vec::new();
    let ghost all = lines_of(input@);
    let mut i: usize = 0;
    assert(all.skip(0) =~= all);
    while i < lines.len()
        invariant
            i <= lines.len(),
            all == views(lines@),
            all == lines_of(input@),
            prefix_a@ == "Register A:"@,
            prefix_b@ == "Register B:"@,
            prefix_c@ == "Register C:"@,
            prefix_p@ == "Program:"@,
            setup_of(input@) == read_lines((registers, program@), all.skip(i as int)),
        decreases lines.len() - i,
    {
        let line = trim(&lines[i]);
        proof {
            assert(all.skip(i as int)[0] == lines@[i as int]@);
            assert(all.skip(i as int).drop_first() =~= all.skip(i + 1));
        }
        if line.len() == 0 {
        } else if starts_with(&line, &prefix_a) {
            match parse_last_number(&line) {
                Some(v) => {
                    registers.a = v;
                },
                None => {
                    return None;
                },
            }
        } else if starts_with(&line, &prefix_b) {
            match parse_last_number(&line) {
                Some(v) => {
                    registers.b = v;
                },
                None => {
                    return None;
                },
            }
        } else if starts_with(&line, &prefix_c) {
            match parse_last_number(&line) {
                Some(v) => {
                    registers.c = v;
                },
                None => {
                    return None;
                },
            }
        } else if starts_with(&line, &prefix_p) {
            let rest = tail(&line, prefix_p.len());
            match parse_program(&rest) {
                Some(p) => {
                    program = p;
                },
                None => {
                    return None;
                },
            }
        }
        i += 1;
    }
    Some((registers, program))
}

/// The most steps that `solve` lets a machine run.
pub const STEP_LIMIT: u64 = 0xffff_ffff_ffff_ffff;

/// What `solve` makes of a text.
pub open spec fn solution_of(text: Seq<char>) -> Result<Seq<char>, MachineError> {
    match setup_of(text) {
        None => Err(MachineError::BadInput),
        Some(m) => match run_of(m.0, 0, m.1, STEP_LIMIT as nat) {
            Ok(out) => Ok(rendered(out)),
            Err(e) => Err(e),
        },
    }
}

/// Reads a machine from text, runs it and returns what it put out, the
/// numbers separated by commas.
pub fn solve(input: &str) -> (r: Result<String, MachineError>)
    ensures
        match r {
            Ok(s) => solution_of(input@) == Ok::<Seq<char>, MachineError>(s@),
            Err(e) => solution_of(input@) == Err::<Seq<char>, MachineError>(e),
        },
{
    let (registers, program) = match parse_input(input) {
        Some(m) => m,
        None => {
            return Err(MachineError::BadInput);
        },
    };
    match run(registers, &program, STEP_LIMIT) {
        Ok(out) => {
            let text = render(&out);
            Ok(string_of(&text))
        },
        Err(e) => Err(e),
    }
}

} // verus!
