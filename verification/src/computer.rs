//! The three-register machine as a computer that is stepped one
//! instruction at a time, and the search for the input that makes a program
//! put out itself.

use vstd::prelude::*;
use crate::machine::{combo_of, shifted, Instruction, MachineError, Registers};

verus! {

/// A computer: registers, instruction pointer, program and output.
pub struct Computer {
    pub register_a: u64,
    pub register_b: u64,
    pub register_c: u64,
    pub ip: usize,
    pub program: Vec<u8>,
    pub output: Vec<u8>,
}

/// What a computer holds besides its program.
pub ghost struct State {
    pub regs: Registers,
    pub ip: nat,
    pub output: Seq<u8>,
}

/// What one instruction makes of a state; the instruction pointer moves on
/// by two unless the instruction jumps.
pub open spec fn executed(ins: Instruction, operand: u8, s: State) -> Result<State, MachineError> {
    let r = s.regs;
    match ins {
        Instruction::Adv => match shifted(r, operand) {
            Ok(v) => Ok(State { regs: Registers { a: v, ..r }, ip: s.ip + 2, output: s.output }),
            Err(e) => Err(e),
        },
        Instruction::Bxl => Ok(
            State { regs: Registers { b: r.b ^ (operand as u64), ..r }, ip: s.ip + 2, output: s.output },
        ),
        Instruction::Bst => match combo_of(r, operand) {
            Some(v) => Ok(State { regs: Registers { b: v % 8, ..r }, ip: s.ip + 2, output: s.output }),
            None => Err(MachineError::InvalidOperand),
        },
        Instruction::Jnz => if r.a != 0 {
            Ok(State { regs: r, ip: operand as nat, output: s.output })
        } else {
            Ok(State { regs: r, ip: s.ip + 2, output: s.output })
        },
        Instruction::Bxc => Ok(
            State { regs: Registers { b: r.b ^ r.c, ..r }, ip: s.ip + 2, output: s.output },
        ),
        Instruction::Out => match combo_of(r, operand) {
            Some(v) => Ok(State { regs: r, ip: s.ip + 2, output: s.output.push((v % 8) as u8) }),
            None => Err(MachineError::InvalidOperand),
        },
        Instruction::Bdv => match shifted(r, operand) {
            Ok(v) => Ok(State { regs: Registers { b: v, ..r }, ip: s.ip + 2, output: s.output }),
            Err(e) => Err(e),
        },
        Instruction::Cdv => match shifted(r, operand) {
            Ok(v) => Ok(State { regs: Registers { c: v, ..r }, ip: s.ip + 2, output: s.output }),
            Err(e) => Err(e),
        },
    }
}

/// The state in which a run ends: the computer halts where the instruction
/// pointer leaves the program or meets an opcode above 7.
pub open spec fn ran(s: State, program: Seq<u8>, fuel: nat) -> Result<State, MachineError>
    decreases fuel,
{
    if s.ip >= program.len() {
        Ok(s)
    } else if s.ip + 1 >= program.len() {
        Err(MachineError::Truncated)
    } else {
        match Instruction::decode(program[s.ip as int]) {
            None => Ok(s),
            Some(ins) => match executed(ins, program[s.ip as int + 1], s) {
                Err(e) => Err(e),
                Ok(next) => if fuel == 0 {
                    Err(MachineError::OutOfFuel)
                } else {
                    ran(next, program, (fuel - 1) as nat)
                },
            },
        }
    }
}

/// The state after the program has been followed up to its first output:
/// the computer stops after an `out`, at the end of the program, or at an
/// opcode above 7. A jump cannot be followed.
pub open spec fn engineered(s: State, program: Seq<u8>) -> Result<State, MachineError>
    decreases program.len() - s.ip,
{
    if s.ip >= program.len() {
        Ok(s)
    } else if s.ip + 1 >= program.len() {
        Err(MachineError::Truncated)
    } else {
        match Instruction::decode(program[s.ip as int]) {
            None => Ok(s),
            Some(Instruction::Jnz) => Err(MachineError::Unsupported),
            Some(ins) => match executed(ins, program[s.ip as int + 1], s) {
                Err(e) => Err(e),
                Ok(next) => if ins == Instruction::Out {
                    Ok(next)
                } else {
                    engineered(next, program)
                },
            },
        }
    }
}

impl View for Computer {
    type V = State;

    open spec fn view(&self) -> State {
        State {
            regs: Registers { a: self.register_a, b: self.register_b, c: self.register_c },
            ip: self.ip as nat,
            output: self.output@,
        }
    }
}

impl Computer {
    /// A computer at the start of a program, with nothing put out.
    pub fn new(a: u64, b: u64, c: u64, program: Vec<u8>) -> (k: Computer)
        ensures
            k@ == (State { regs: Registers { a, b, c }, ip: 0, output: Seq::empty() }),
            k.program@ == program@,
    {
        Computer {
            register_a: a,
            register_b: b,
            register_c: c,
            ip: 0,
            program,
            output: Vec::new(),
        }
    }

    /// The value of a combo operand.
    pub fn get_combo_value(&self, operand: u8) -> (r: Option<u64>)
        ensures
            r == combo_of(self@.regs, operand),
    {
        match operand {
            0 | 1 | 2 | 3 => Some(operand as u64),
            4 => Some(self.register_a),
            5 => Some(self.register_b),
            6 => Some(self.register_c),
            _ => None,
        }
    }

    /// Register A divided by two to the power of a combo operand.
    fn shift(&self, operand: u8) -> (r: Result<u64, MachineError>)
        ensures
            r == shifted(self@.regs, operand),
    {
        match self.get_combo_value(operand) {
            None => Err(MachineError::InvalidOperand),
            Some(n) => {
                if n >= 64 {
                    Err(MachineError::ShiftTooLarge)
                } else {
                    proof {
                        vstd::bits::lemma_u64_shr_is_div(self.register_a, n);
                    }
                    Ok(self.register_a >> n)
                }
            },
        }
    }

    /// Divides register A by a power of two.
    pub fn adv(&mut self, operand: u8) -> (r: Result<(), MachineError>)
        requires
            old(self).ip + 2 <= usize::MAX,
        ensures
            final(self).program == old(self).program,
            match r {
                Ok(_) => executed(Instruction::Adv, operand, old(self)@) == Ok::<State, MachineError>(
                    final(self)@,
                ),
                Err(e) => executed(Instruction::Adv, operand, old(self)@) == Err::<
                    State,
                    MachineError,
                >(e) && *final(self) == *old(self),
            },
    {
        match self.shift(operand) {
            Ok(v) => {
                self.register_a = v;
                self.ip += 2;
                Ok(())
            },
            Err(e) => Err(e),
        }
    }

    /// Mixes register B with the operand.
    pub fn bxl(&mut self, operand: u8)
        requires
            old(self).ip + 2 <= usize::MAX,
        ensures
            final(self).program == old(self).program,
            executed(Instruction::Bxl, operand, old(self)@) == Ok::<State, MachineError>(final(self)@),
    {
        self.register_b = self.register_b ^ (operand as u64);
        self.ip += 2;
    }

    /// Puts a combo operand modulo 8 into register B.
    pub fn bst(&mut self, operand: u8) -> (r: Result<(), MachineError>)
        requires
            old(self).ip + 2 <= usize::MAX,
        ensures
            final(self).program == old(self).program,
            match r {
                Ok(_) => executed(Instruction::Bst, operand, old(self)@) == Ok::<State, MachineError>(
                    final(self)@,
                ),
                Err(e) => executed(Instruction::Bst, operand, old(self)@) == Err::<
                    State,
                    MachineError,
                >(e) && *final(self) == *old(self),
            },
    {
        match self.get_combo_value(operand) {
            Some(v) => {
                self.register_b = v % 8;
                self.ip += 2;
                Ok(())
            },
            None => Err(MachineError::InvalidOperand),
        }
    }

    /// Jumps to the operand unless register A is 0.
    pub fn jnz(&mut self, operand: u8)
        requires
            old(self).ip + 2 <= usize::MAX,
        ensures
            final(self).program == old(self).program,
            executed(Instruction::Jnz, operand, old(self)@) == Ok::<State, MachineError>(final(self)@),
    {
        if self.register_a != 0 {
            self.ip = operand as usize;
        } else {
            self.ip += 2;
        }
    }

    /// Mixes register B with register C.
    pub fn bxc(&mut self)
        requires
            old(self).ip + 2 <= usize::MAX,
        ensures
            final(self).program == old(self).program,
            forall|operand: u8|
                #[trigger] executed(Instruction::Bxc, operand, old(self)@) == Ok::<
                    State,
                    MachineError,
                >(final(self)@),
    {
        self.register_b = self.register_b ^ self.register_c;
        self.ip += 2;
    }

    /// Puts out a combo operand modulo 8.
    pub fn out(&mut self, operand: u8) -> (r: Result<(), MachineError>)
        requires
            old(self).ip + 2 <= usize::MAX,
        ensures
            final(self).program == old(self).program,
            match r {
                Ok(_) => executed(Instruction::Out, operand, old(self)@) == Ok::<State, MachineError>(
                    final(self)@,
                ),
                Err(e) => executed(Instruction::Out, operand, old(self)@) == Err::<
                    State,
                    MachineError,
                >(e) && *final(self) == *old(self),
            },
    {
        match self.get_combo_value(operand) {
            Some(v) => {
                self.output.push((v % 8) as u8);
                self.ip += 2;
                Ok(())
            },
            None => Err(MachineError::InvalidOperand),
        }
    }

    /// Puts register A divided by a power of two into register B.
    pub fn bdv(&mut self, operand: u8) -> (r: Result<(), MachineError>)
        requires
            old(self).ip + 2 <= usize::MAX,
        ensures
            final(self).program == old(self).program,
            match r {
                Ok(_) => executed(Instruction::Bdv, operand, old(self)@) == Ok::<State, MachineError>(
                    final(self)@,
                ),
                Err(e) => executed(Instruction::Bdv, operand, old(self)@) == Err::<
                    State,
                    MachineError,
                >(e) && *final(self) == *old(self),
            },
    {
        match self.shift(operand) {
            Ok(v) => {
                self.register_b = v;
                self.ip += 2;
                Ok(())
            },
            Err(e) => Err(e),
        }
    }

    /// Puts register A divided by a power of two into register C.
    pub fn cdv(&mut self, operand: u8) -> (r: Result<(), MachineError>)
        requires
            old(self).ip + 2 <= usize::MAX,
        ensures
            final(self).program == old(self).program,
            match r {
                Ok(_) => executed(Instruction::Cdv, operand, old(self)@) == Ok::<State, MachineError>(
                    final(self)@,
                ),
                Err(e) => executed(Instruction::Cdv, operand, old(self)@) == Err::<
                    State,
                    MachineError,
                >(e) && *final(self) == *old(self),
            },
    {
        match self.shift(operand) {
            Ok(v) => {
                self.register_c = v;
                self.ip += 2;
                Ok(())
            },
            Err(e) => Err(e),
        }
    }

    /// Follows one instruction.
    fn step(&mut self, ins: Instruction, operand: u8) -> (r: Result<(), MachineError>)
        requires
            old(self).ip + 2 <= usize::MAX,
        ensures
            final(self).program == old(self).program,
            match r {
                Ok(_) => executed(ins, operand, old(self)@) == Ok::<State, MachineError>(final(self)@),
                Err(e) => executed(ins, operand, old(self)@) == Err::<State, MachineError>(e),
            },
    {
        match ins {
            Instruction::Adv => self.adv(operand),
            Instruction::Bxl => {
                self.bxl(operand);
                Ok(())
            },
            Instruction::Bst => self.bst(operand),
            Instruction::Jnz => {
                self.jnz(operand);
                Ok(())
            },
            Instruction::Bxc => {
                self.bxc();
                Ok(())
            },
            Instruction::Out => self.out(operand),
            Instruction::Bdv => self.bdv(operand),
            Instruction::Cdv => self.cdv(operand),
        }
    }

    /// Runs the program for at most `fuel` instructions.
    pub fn run(&mut self, fuel: u64) -> (r: Result<(), MachineError>)
        ensures
            final(self).program == old(self).program,
            match r {
                Ok(_) => ran(old(self)@, old(self).program@, fuel as nat) == Ok::<State, MachineError>(
                    final(self)@,
                ),
                Err(e) => ran(old(self)@, old(self).program@, fuel as nat) == Err::<
                    State,
                    MachineError,
                >(e),
            },
    {
        let mut left = fuel;
        loop
            invariant
                self.program == old(self).program,
                ran(self@, self.program@, left as nat) == ran(
                    old(self)@,
                    old(self).program@,
                    fuel as nat,
                ),
            decreases left,
        {
            if self.ip >= self.program.len() {
                return Ok(());
            }
            if self.ip + 1 >= self.program.len() {
                return Err(MachineError::Truncated);
            }
            let opcode = self.program[self.ip];
            let operand = self.program[self.ip + 1];
            let ins = match Instruction::from_opcode(opcode) {
                Some(i) => i,
                None => {
                    return Ok(());
                },
            };
            match self.step(ins, operand) {
                Ok(_) => {},
                Err(e) => {
                    return Err(e);
                },
            }
            if left == 0 {
                return Err(MachineError::OutOfFuel);
            }
            left -= 1;
        }
    }

    /// Clears the output and follows the program up to its first output.
    pub fn reverse_eng(&mut self) -> (r: Result<(), MachineError>)
        ensures
            final(self).program == old(self).program,
            match r {
                Ok(_) => engineered(
                    State { output: Seq::empty(), ..old(self)@ },
                    old(self).program@,
                ) == Ok::<State, MachineError>(final(self)@),
                Err(e) => engineered(
                    State { output: Seq::empty(), ..old(self)@ },
                    old(self).program@,
                ) == Err::<State, MachineError>(e),
            },
    {
        self.output = Vec::new();
        let ghost whole = engineered(State { output: Seq::empty(), ..old(self)@ }, old(self).program@);
        assert(self@ == (State { output: Seq::empty(), ..old(self)@ }));
        loop
            invariant
                self.program == old(self).program,
                whole == engineered(State { output: Seq::empty(), ..old(self)@ }, old(self).program@),
                engineered(self@, self.program@) == whole,
            decreases self.program.len() - self.ip,
        {
            if self.ip >= self.program.len() {
                return Ok(());
            }
            if self.ip + 1 >= self.program.len() {
                return Err(MachineError::Truncated);
            }
            let opcode = self.program[self.ip];
            let operand = self.program[self.ip + 1];
            let ins = match Instruction::from_opcode(opcode) {
                Some(i) => i,
                None => {
                    return Ok(());
                },
            };
            match ins {
                Instruction::Jnz => {
                    return Err(MachineError::Unsupported);
                },
                _ => {},
            }
            match self.step(ins, operand) {
                Ok(_) => {},
                Err(e) => {
                    return Err(e);
                },
            }
            match ins {
                Instruction::Out => {
                    return Ok(());
                },
                _ => {},
            }
        }
    }
}

/// The candidate for register A made of `a` and three more bits `t`.
pub open spec fn candidate(a: u64, t: u8) -> u64 {
    (a << 3) | (t as u64)
}

/// The search for register A, continued with the three bits `t` and those
/// above it.
pub open spec fn sought_from(target: Seq<u8>, a: u64, program: Seq<u8>, t: int) -> Result<
    Option<u64>,
    MachineError,
>
    decreases target.len(), 8 - t,
{
    if t < 0 || t >= 8 || target.len() == 0 {
        Ok(None)
    } else {
        let c = candidate(a, t as u8);
        match engineered(
            State { regs: Registers { a: c, b: 0, c: 0 }, ip: 0, output: Seq::empty() },
            program,
        ) {
            Err(e) => Err(e),
            Ok(s) => if s.output.len() > 0 && s.output.last() == target.last() {
                match sought(target.drop_last(), c, program) {
                    Err(e) => Err(e),
                    Ok(Some(r)) => Ok(Some(r)),
                    Ok(None) => sought_from(target, a, program, t + 1),
                }
            } else {
                sought_from(target, a, program, t + 1)
            },
        }
    }
}

/// The value of register A that the search finds: for an empty target it is
/// `a`; else the first candidate, three bits after `a`, whose first output
/// is the last of the target and from which the search for the rest of the
/// target succeeds.
pub open spec fn sought(target: Seq<u8>, a: u64, program: Seq<u8>) -> Result<Option<u64>, MachineError>
    decreases target.len(), 9int,
{
    if target.len() == 0 {
        Ok(Some(a))
    } else {
        sought_from(target, a, program, 0)
    }
}

/// The search over the first `n` numbers of the target.
fn solve_prefix(target: &Vec<u8>, n: usize, a: u64, program: &Vec<u8>) -> (r: Result<
    Option<u64>,
    MachineError,
>)
    requires
        n <= target.len(),
    ensures
        r == sought(target@.take(n as int), a, program@),
    decreases n,
{
    if n == 0 {
        return Ok(Some(a));
    }
    let ghost goal = target@.take(n as int);
    let mut t: u8 = 0;
    while t < 8
        invariant
            t <= 8,
            0 < n <= target.len(),
            goal == target@.take(n as int),
            sought(goal, a, program@) == sought_from(goal, a, program@, t as int),
        decreases 8 - t,
    {
        let candidate_a = (a << 3) | (t as u64);
        let mut computer = Computer::new(candidate_a, 0, 0, program.clone());
        match computer.reverse_eng() {
            Ok(_) => {},
            Err(e) => {
                return Err(e);
            },
        }
        if computer.output.len() > 0 {
            if computer.output[computer.output.len() - 1] == target[n - 1] {
                proof {
                    assert(goal.drop_last() =~= target@.take(n - 1));
                }
                match solve_prefix(target, n - 1, candidate_a, program) {
                    Err(e) => {
                        return Err(e);
                    },
                    Ok(Some(result)) => {
                        return Ok(Some(result));
                    },
                    Ok(None) => {},
                }
            }
        }
        t += 1;
    }
    Ok(None)
}

/// Searches for the value of register A with which the program puts out
/// the target, three bits at a time from the last number of the target to
/// the first.
pub fn solve_for_a(target: &Vec<u8>, a: u64, program: &Vec<u8>) -> (r: Result<Option<u64>, MachineError>)
    ensures
        r == sought(target@, a, program@),
{
    assert(target@.take(target.len() as int) =~= target@);
    solve_prefix(target, target.len(), a, program)
}

} // verus!
