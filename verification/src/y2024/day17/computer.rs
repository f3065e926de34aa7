use crate::text::{append_decimal, decimal};
use vstd::arithmetic::power2::pow2;
use vstd::bits::lemma_u64_shr_is_div;
use vstd::prelude::*;

verus! {

/// The three registers of the computer.
pub struct Registers {
    pub a: u64,
    pub b: u64,
    pub c: u64,
}

/// A computer with three registers that runs a program of three-bit
/// numbers: instructions and operands in turn.
pub struct Computer {
    pub instructions: Vec<u8>,
    pub registers: Registers,
    pub pointer: usize,
    pub outputs: Vec<u64>,
}

/// The state of a computer, apart from its program.
pub struct Machine {
    pub a: u64,
    pub b: u64,
    pub c: u64,
    pub pointer: usize,
    pub outputs: Seq<u64>,
}

/// How a run ended.
#[derive(Debug, Copy, Clone, PartialEq, Eq, Structural)]
pub enum Halt {
    /// The pointer has left the program.
    Finished,
    /// The instruction at the pointer cannot be carried out.
    Faulted,
    /// The run was given up after `u64::MAX` instructions.
    OutOfSteps,
}

/// What the combo operand `operand` stands for: itself up to 3, then the
/// registers; 7 and more stand for nothing.
pub open spec fn combo_of(m: Machine, operand: u8) -> Option<u64> {
    if operand <= 3 {
        Some(operand as u64)
    } else if operand == 4 {
        Some(m.a)
    } else if operand == 5 {
        Some(m.b)
    } else if operand == 6 {
        Some(m.c)
    } else {
        None
    }
}

/// The power of two by which a division instruction divides: `combo`,
/// taken as a 32-bit number, if two to that power is a 64-bit number.
pub open spec fn exponent_of(combo: u64) -> Option<nat> {
    let e = combo % 0x1_0000_0000;
    if e < 64 {
        Some(e as nat)
    } else {
        None
    }
}

/// The machine with the pointer behind the instruction at `at`, unless the
/// instruction has moved the pointer elsewhere.
pub open spec fn advanced(m: Machine, at: usize) -> Machine {
    if m.pointer == at {
        Machine { pointer: (at + 2) as usize, ..m }
    } else {
        m
    }
}

/// The machine after the instruction at its pointer; `None` where the
/// pointer has left the program or the instruction cannot be carried out:
/// it lacks its operand, its number or its operand is above 6, or it
/// divides by a power of two that is no 64-bit number.
pub open spec fn next(program: Seq<u8>, m: Machine) -> Option<Machine> {
    if m.pointer + 1 >= program.len() {
        None
    } else {
        let instruction = program[m.pointer as int];
        let operand = program[m.pointer + 1];
        match combo_of(m, operand) {
            None => None,
            Some(combo) => {
                if instruction == 0 || instruction == 6 || instruction == 7 {
                    match exponent_of(combo) {
                        None => None,
                        Some(e) => {
                            let q = (m.a as nat / pow2(e)) as u64;
                            Some(
                                advanced(
                                    if instruction == 0 {
                                        Machine { a: q, ..m }
                                    } else if instruction == 6 {
                                        Machine { b: q, ..m }
                                    } else {
                                        Machine { c: q, ..m }
                                    },
                                    m.pointer,
                                ),
                            )
                        },
                    }
                } else if instruction == 1 {
                    Some(advanced(Machine { b: m.b ^ (operand as u64), ..m }, m.pointer))
                } else if instruction == 2 {
                    Some(advanced(Machine { b: combo % 8, ..m }, m.pointer))
                } else if instruction == 3 {
                    Some(
                        advanced(
                            if m.a != 0 {
                                Machine { pointer: operand as usize, ..m }
                            } else {
                                m
                            },
                            m.pointer,
                        ),
                    )
                } else if instruction == 4 {
                    Some(advanced(Machine { b: m.b ^ m.c, ..m }, m.pointer))
                } else if instruction == 5 {
                    Some(advanced(Machine { outputs: m.outputs.push(combo % 8), ..m }, m.pointer))
                } else {
                    None
                }
            },
        }
    }
}

/// The machine after `n` instructions, where an instruction that cannot be
/// carried out leaves it as it is.
pub open spec fn after(program: Seq<u8>, m: Machine, n: nat) -> Machine
    decreases n,
{
    if n == 0 {
        m
    } else {
        let before = after(program, m, (n - 1) as nat);
        match next(program, before) {
            Some(then) => then,
            None => before,
        }
    }
}

/// A run of `n` instructions from `m` ends as `halt` says: all of them
/// could be carried out, and then the pointer has left the program, or the
/// next instruction cannot be carried out, or `n` is `u64::MAX`.
pub open spec fn ran(program: Seq<u8>, m: Machine, n: nat, halt: Halt) -> bool {
    &&& n <= u64::MAX
    &&& forall|k: nat| k < n ==> next(program, #[trigger] after(program, m, k)) is Some
    &&& match halt {
        Halt::Finished => after(program, m, n).pointer >= program.len(),
        Halt::Faulted => after(program, m, n).pointer < program.len() && next(
            program,
            after(program, m, n),
        ) is None,
        Halt::OutOfSteps => n == u64::MAX && next(program, after(program, m, n)) is Some,
    }
}

/// The numbers of `outputs`, written one after another.
pub open spec fn joined(outputs: Seq<u64>) -> Seq<char>
    decreases outputs.len(),
{
    if outputs.len() == 0 {
        Seq::empty()
    } else {
        joined(outputs.drop_last()) + decimal(outputs.last() as nat)
    }
}

impl Computer {
    /// The state of the computer.
    pub open spec fn view(&self) -> Machine {
        Machine {
            a: self.registers.a,
            b: self.registers.b,
            c: self.registers.c,
            pointer: self.pointer,
            outputs: self.outputs@,
        }
    }

    pub fn new(instructions: Vec<u8>, a: u64, b: u64, c: u64) -> (r: Self)
        ensures
            r.instructions == instructions,
            r@ == (Machine { a, b, c, pointer: 0, outputs: Seq::empty() }),
    {
        Self { instructions, registers: Registers { a, b, c }, pointer: 0, outputs: Vec::new() }
    }

    /// Sets the registers, and puts the pointer back to the beginning of
    /// the program and the output back to nothing.
    pub fn restart(&mut self, a: u64, b: u64, c: u64)
        ensures
            final(self).instructions == old(self).instructions,
            final(self)@ == (Machine { a, b, c, pointer: 0, outputs: Seq::empty() }),
    {
        self.registers.a = a;
        self.registers.b = b;
        self.registers.c = c;
        self.pointer = 0;
        self.outputs = Vec::new();
    }

    /// What the combo operand `operand` stands for.
    fn combo(&self, operand: u8) -> (r: Option<u64>)
        ensures
            r == combo_of(self@, operand),
    {
        if operand <= 3 {
            Some(operand as u64)
        } else if operand == 4 {
            Some(self.registers.a)
        } else if operand == 5 {
            Some(self.registers.b)
        } else if operand == 6 {
            Some(self.registers.c)
        } else {
            None
        }
    }

    /// Register A divided by two to the power `combo`, if the power is one
    /// by which a division instruction divides.
    fn divide(&self, combo: u64) -> (r: Option<u64>)
        ensures
            match r {
                Some(q) => exponent_of(combo) matches Some(e) && q == self.registers.a as nat
                    / pow2(e),
                None => exponent_of(combo) is None,
            },
    {
        let e = combo % 0x1_0000_0000;
        if e < 64 {
            proof {
                lemma_u64_shr_is_div(self.registers.a, e);
            }
            Some(self.registers.a >> e)
        } else {
            None
        }
    }

    /// Divides register A by a power of two.
    fn adv(&mut self, q: u64)
        ensures
            *final(self) == (Computer { registers: Registers { a: q, ..old(self).registers }, ..*old(self) }),
    {
        self.registers.a = q;
    }

    /// Combines register B with the operand, bit by bit.
    fn bxl(&mut self, op: u64)
        ensures
            *final(self) == (Computer {
                registers: Registers { b: old(self).registers.b ^ op, ..old(self).registers },
                ..*old(self)
            }),
    {
        self.registers.b = self.registers.b ^ op;
    }

    /// Keeps the lowest three bits of the operand in register B.
    fn bst(&mut self, combo: u64)
        ensures
            *final(self) == (Computer {
                registers: Registers { b: (combo % 8) as u64, ..old(self).registers },
                ..*old(self)
            }),
    {
        self.registers.b = combo % 8;
    }

    /// Jumps to the operand unless register A holds 0.
    fn jnz(&mut self, op: u64)
        requires
            op <= usize::MAX,
        ensures
            *final(self) == (Computer {
                pointer: if old(self).registers.a != 0 {
                    op as usize
                } else {
                    old(self).pointer
                },
                ..*old(self)
            }),
    {
        if self.registers.a != 0 {
            self.pointer = op as usize;
        }
    }

    /// Combines register B with register C, bit by bit.
    fn bxc(&mut self, _combo: u64)
        ensures
            *final(self) == (Computer {
                registers: Registers {
                    b: old(self).registers.b ^ old(self).registers.c,
                    ..old(self).registers
                },
                ..*old(self)
            }),
    {
        self.registers.b = self.registers.b ^ self.registers.c;
    }

    /// Puts out the lowest three bits of the operand.
    fn out(&mut self, combo: u64)
        ensures
            final(self).instructions == old(self).instructions,
            final(self).registers == old(self).registers,
            final(self).pointer == old(self).pointer,
            final(self).outputs@ == old(self).outputs@.push((combo % 8) as u64),
    {
        self.outputs.push(combo % 8);
    }

    /// Divides register A by a power of two, and keeps the result in B.
    fn bdv(&mut self, q: u64)
        ensures
            *final(self) == (Computer { registers: Registers { b: q, ..old(self).registers }, ..*old(self) }),
    {
        self.registers.b = q;
    }

    /// Divides register A by a power of two, and keeps the result in C.
    fn cdv(&mut self, q: u64)
        ensures
            *final(self) == (Computer { registers: Registers { c: q, ..old(self).registers }, ..*old(self) }),
    {
        self.registers.c = q;
    }

    /// The instruction at the pointer can be carried out.
    pub fn can_step(&self) -> (r: bool)
        ensures
            r == next(self.instructions@, self@) is Some,
    {
        let i = self.pointer;
        if i >= self.instructions.len() || i + 1 >= self.instructions.len() {
            return false;
        }
        let instruction = self.instructions[i];
        match self.combo(self.instructions[i + 1]) {
            None => false,
            Some(combo) => if instruction == 0 || instruction == 6 || instruction == 7 {
                self.divide(combo).is_some()
            } else {
                instruction <= 5
            },
        }
    }

    /// Carries out the instruction at the pointer, if that can be done, and
    /// says whether it was.
    pub fn step(&mut self) -> (r: bool)
        ensures
            final(self).instructions == old(self).instructions,
            match next(old(self).instructions@, old(self)@) {
                Some(then) => r && final(self)@ == then,
                None => !r && final(self)@ == old(self)@,
            },
    {
        let i = self.pointer;
        if i >= self.instructions.len() || i + 1 >= self.instructions.len() {
            return false;
        }
        let instruction = self.instructions[i];
        let operand = self.instructions[i + 1];
        let combo = match self.combo(operand) {
            None => {
                return false;
            },
            Some(combo) => combo,
        };
        if instruction == 0 || instruction == 6 || instruction == 7 {
            match self.divide(combo) {
                None => {
                    return false;
                },
                Some(q) => {
                    if instruction == 0 {
                        self.adv(q);
                    } else if instruction == 6 {
                        self.bdv(q);
                    } else {
                        self.cdv(q);
                    }
                },
            }
        } else if instruction == 1 {
            self.bxl(operand as u64);
        } else if instruction == 2 {
            self.bst(combo);
        } else if instruction == 3 {
            self.jnz(operand as u64);
        } else if instruction == 4 {
            self.bxc(combo);
        } else if instruction == 5 {
            self.out(combo);
        } else {
            return false;
        }
        if self.pointer == i {
            self.pointer = i + 2;
        }
        true
    }

    /// Runs the program from where the pointer stands until the pointer
    /// leaves the program, or an instruction cannot be carried out, or
    /// `u64::MAX` instructions have been carried out.
    pub fn run(&mut self) -> (halt: Halt)
        ensures
            final(self).instructions == old(self).instructions,
            exists|n: nat|
                ran(old(self).instructions@, old(self)@, n, halt) && final(self)@ == #[trigger] after(
                    old(self).instructions@,
                    old(self)@,
                    n,
                ),
    {
        let ghost program = self.instructions@;
        let ghost start = self@;
        let mut steps: u64 = 0;
        while steps < u64::MAX
            invariant
                program == old(self).instructions@,
                start == old(self)@,
                self.instructions@ == program,
                self.instructions == old(self).instructions,
                self@ == after(program, start, steps as nat),
                forall|k: nat| k < steps ==> next(program, #[trigger] after(program, start, k)) is Some,
            decreases u64::MAX - steps,
        {
            if self.pointer >= self.instructions.len() {
                assert(ran(program, start, steps as nat, Halt::Finished));
                return Halt::Finished;
            }
            if !self.step() {
                assert(ran(program, start, steps as nat, Halt::Faulted));
                return Halt::Faulted;
            }
            steps += 1;
        }
        let ghost n = steps as nat;
        if self.pointer >= self.instructions.len() {
            assert(ran(program, start, n, Halt::Finished));
            Halt::Finished
        } else if self.can_step() {
            assert(ran(program, start, n, Halt::OutOfSteps));
            Halt::OutOfSteps
        } else {
            assert(ran(program, start, n, Halt::Faulted));
            Halt::Faulted
        }
    }

    pub fn outputs(&self) -> (r: &Vec<u64>)
        ensures
            r@ == self@.outputs,
    {
        &self.outputs
    }

    /// What the computer has put out, the numbers written one after another.
    pub fn concat_output(&self) -> (r: String)
        ensures
            r@ == joined(self@.outputs),
    {
        let mut total = String::new();
        let mut i: usize = 0;
        while i < self.outputs.len()
            invariant
                i <= self.outputs.len(),
                total@ == joined(self.outputs@.take(i as int)),
            decreases self.outputs.len() - i,
        {
            proof {
                assert(self.outputs@.take(i + 1).drop_last() =~= self.outputs@.take(i as int));
            }
            append_decimal(&mut total, self.outputs[i]);
            i += 1;
        }
        assert(self.outputs@.take(self.outputs.len() as int) =~= self.outputs@);
        total
    }
}

} // verus!
