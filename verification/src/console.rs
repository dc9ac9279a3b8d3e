//! The instructions of a small game console and how they are read.
use crate::text::{
    chars_equal, chars_of, fields_view, parse_signed, signed_value, split_fields, whitespace_fields,
};
use vstd::prelude::*;

verus! {

/// What an instruction does.
#[derive(Debug, PartialEq, Eq, Copy, Clone, Structural)]
pub enum Operation {
    /// Nothing.
    Nop,
    /// Jumps by the argument.
    Jmp,
    /// Adds the argument to the accumulator.
    Acc,
}

/// An operation and its argument.
#[derive(Debug, PartialEq, Eq, Copy, Clone, Structural)]
pub struct Instruction {
    pub op: Operation,
    pub arg: i32,
}

/// An instruction to run in place of the one at `location`.
pub struct CodeChange {
    pub location: usize,
    pub instruction: Instruction,
}

/// The console: its program, how often each instruction was visited, and
/// its two registers.
pub struct GameConsole {
    pub code: Vec<Instruction>,
    pub visits: Vec<u32>,
    pub accumulator: i32,
    pub program_counter: usize,
}

/// Why a line is no instruction.
#[derive(Debug, PartialEq, Eq, Copy, Clone, Structural)]
pub enum DecodeError {
    /// The line has no field.
    MissingOpcode,
    /// The first field is none of `nop`, `jmp`, `acc`.
    UnknownOpcode,
    /// The line has one field only.
    MissingArgument,
    /// The second field is no number that fits in 32 bits with a sign.
    BadArgument,
    /// The line has more than two fields.
    SpuriousField,
}

/// The operation that a word names.
pub open spec fn operation_named(word: Seq<char>) -> Option<Operation> {
    if word == "nop"@ {
        Some(Operation::Nop)
    } else if word == "jmp"@ {
        Some(Operation::Jmp)
    } else if word == "acc"@ {
        Some(Operation::Acc)
    } else {
        None
    }
}

/// The instruction that the fields of a line give.  The faults are looked
/// for from the left.
pub open spec fn decoded(fields: Seq<Seq<char>>) -> Result<Instruction, DecodeError> {
    if fields.len() == 0 {
        Err(DecodeError::MissingOpcode)
    } else if operation_named(fields[0]) is None {
        Err(DecodeError::UnknownOpcode)
    } else if fields.len() == 1 {
        Err(DecodeError::MissingArgument)
    } else if !(signed_value(fields[1]) matches Some(v) && i32::MIN <= v <= i32::MAX) {
        Err(DecodeError::BadArgument)
    } else if fields.len() > 2 {
        Err(DecodeError::SpuriousField)
    } else {
        Ok(Instruction { op: operation_named(fields[0])->0, arg: signed_value(fields[1])->0 as i32 })
    }
}

/// The operation that takes the place of `op` when an instruction is
/// flipped: `nop` and `jmp` change places.
pub fn flip_op(op: &Operation) -> (r: Operation)
    ensures
        r == (match *op {
            Operation::Nop => Operation::Jmp,
            Operation::Jmp => Operation::Nop,
            Operation::Acc => Operation::Acc,
        }),
{
    match op {
        Operation::Nop => Operation::Jmp,
        Operation::Jmp => Operation::Nop,
        Operation::Acc => Operation::Acc,
    }
}

/// The instruction with the flipped operation and the same argument.
pub fn flip_instr(instr: &Instruction) -> (r: Instruction)
    ensures
        r.arg == instr.arg,
        r.op == (match instr.op {
            Operation::Nop => Operation::Jmp,
            Operation::Jmp => Operation::Nop,
            Operation::Acc => Operation::Acc,
        }),
{
    Instruction { op: flip_op(&instr.op), arg: instr.arg }
}

/// Decodes the fields of a line.
pub fn decode_fields(fields: &Vec<Vec<char>>) -> (r: Result<Instruction, DecodeError>)
    ensures
        r == decoded(fields_view(fields@)),
{
    if fields.len() == 0 {
        return Err(DecodeError::MissingOpcode);
    }
    assert(fields_view(fields@)[0] == fields[0]@);
    let opcode = if chars_equal(&fields[0], "nop") {
        Operation::Nop
    } else if chars_equal(&fields[0], "jmp") {
        Operation::Jmp
    } else if chars_equal(&fields[0], "acc") {
        Operation::Acc
    } else {
        return Err(DecodeError::UnknownOpcode);
    };
    if fields.len() == 1 {
        return Err(DecodeError::MissingArgument);
    }
    assert(fields_view(fields@)[1] == fields[1]@);
    let arg: i32 = match parse_signed(&fields[1]) {
        Some(v) => {
            if v < -0x8000_0000 || v > 0x7fff_ffff {
                return Err(DecodeError::BadArgument);
            }
            v as i32
        },
        None => {
            return Err(DecodeError::BadArgument);
        },
    };
    if fields.len() > 2 {
        return Err(DecodeError::SpuriousField);
    }
    Ok(Instruction { op: opcode, arg })
}

/// Decodes a line such as `jmp +4`: an operation and a number with a sign,
/// set apart by white space.
pub fn decode_instruction(line: &str) -> (r: Result<Instruction, DecodeError>)
    ensures
        r == decoded(whitespace_fields(line@)),
{
    let fields = split_fields(line);
    decode_fields(&fields)
}

/// The instruction that runs at `loc` when `change` is in force.
pub open spec fn instr_at(code: Seq<Instruction>, change: CodeChange, loc: int) -> Instruction {
    if loc == change.location {
        change.instruction
    } else {
        code[loc]
    }
}

/// The place at which the program goes on after `instr` ran at `pc`.
pub open spec fn target(instr: Instruction, pc: int) -> int {
    match instr.op {
        Operation::Jmp => pc + instr.arg,
        _ => pc + 1,
    }
}

/// The accumulator after `instr` ran; a sum that does not fit in 32 bits
/// wraps around.
pub open spec fn accumulated(instr: Instruction, acc: i32) -> i32 {
    match instr.op {
        Operation::Acc => acc.wrapping_add(instr.arg),
        _ => acc,
    }
}

/// Whether no jump of the program leads below 0 or beyond what a place can
/// be.
pub open spec fn jumps_stay(code: Seq<Instruction>, change: CodeChange) -> bool {
    forall|loc: int|
        0 <= loc < code.len() ==> 0 <= #[trigger] target(instr_at(code, change, loc), loc)
            <= usize::MAX
}

/// How a run ends.
pub struct RunEnd {
    /// Whether the program counter left the program, which ends it in good
    /// order; otherwise the run came back to an instruction that it had
    /// visited.
    pub terminated: bool,
    /// The program counter at the end.
    pub pc: int,
    /// The accumulator at the end.
    pub accumulator: i32,
    /// The instructions that ran.
    pub visited: Set<int>,
}

/// The run from `pc` on, where the instructions in `visited` ran before and
/// at most `fuel` more may run.
pub open spec fn ran(
    code: Seq<Instruction>,
    change: CodeChange,
    pc: int,
    acc: i32,
    visited: Set<int>,
    fuel: nat,
) -> RunEnd
    decreases fuel,
{
    let instr = instr_at(code, change, pc);
    let next = target(instr, pc);
    let sum = accumulated(instr, acc);
    let seen = visited.insert(pc);
    if next >= code.len() {
        RunEnd { terminated: true, pc: next, accumulator: sum, visited: seen }
    } else if seen.contains(next) || fuel == 0 {
        RunEnd { terminated: false, pc: next, accumulator: sum, visited: seen }
    } else {
        ran(code, change, next, sum, seen, (fuel - 1) as nat)
    }
}

/// The run of a program from `pc` on, with a fresh console.  No run is
/// longer than the program, so that much fuel is enough.
pub open spec fn run_of(code: Seq<Instruction>, change: CodeChange, pc: int) -> RunEnd {
    ran(code, change, pc, 0, Set::empty(), code.len())
}

/// A set of places of a program has at most as many members as the program
/// has instructions.
proof fn lemma_visited_bounded(visited: Set<int>, n: int)
    requires
        0 <= n,
        forall|i: int| visited.contains(i) ==> 0 <= i < n,
    ensures
        visited.finite(),
        visited.len() <= n,
{
    vstd::set_lib::lemma_int_range(0, n);
    vstd::set_lib::lemma_len_subset(visited, vstd::set_lib::set_int_range(0, n));
}

impl GameConsole {
    /// Runs the program from `pc` with `change` in force until the program
    /// counter leaves the program or comes to an instruction for the second
    /// time.  Tells whether the program ended in good order, and where.
    pub fn run_with_change(&mut self, pc: usize, verbose: bool, change: &CodeChange) -> (r: (
        bool,
        usize,
    ))
        requires
            pc < old(self).code@.len(),
            jumps_stay(old(self).code@, *change),
        ensures
            final(self).code == old(self).code,
            r.0 == run_of(old(self).code@, *change, pc as int).terminated,
            r.1 == run_of(old(self).code@, *change, pc as int).pc,
            final(self).program_counter == r.1,
            final(self).accumulator == run_of(old(self).code@, *change, pc as int).accumulator,
            final(self).visits@.len() == old(self).code@.len(),
            forall|i: int|
                0 <= i < final(self).visits@.len() ==> (final(self).visits@[i] != 0 <==> run_of(
                    old(self).code@,
                    *change,
                    pc as int,
                ).visited.contains(i)),
    {
        self.reset(pc);
        let ghost code = self.code@;
        let ghost mut visited: Set<int> = Set::empty();
        let ghost mut fuel: nat = code.len();
        let n = self.code.len();
        proof {
            lemma_visited_bounded(visited, n as int);
        }
        loop
            invariant
                self.code == old(self).code,
                code == old(self).code@,
                n == code.len(),
                self.program_counter < n,
                self.visits@.len() == n,
                jumps_stay(code, *change),
                forall|i: int| visited.contains(i) ==> 0 <= i < n,
                forall|i: int| 0 <= i < n ==> (self.visits@[i] != 0 <==> visited.contains(i)),
                !visited.contains(self.program_counter as int),
                visited.finite(),
                fuel + visited.len() == n,
                run_of(code, *change, pc as int) == ran(
                    code,
                    *change,
                    self.program_counter as int,
                    self.accumulator,
                    visited,
                    fuel,
                ),
            decreases fuel,
        {
            let here = self.program_counter;
            self.visits.set(here, 1);
            let instr = self.get_instr(here, change);
            assert(instr == instr_at(code, *change, here as int));
            assert(0 <= target(instr, here as int) <= usize::MAX);
            let newpc: usize = match instr.op {
                Operation::Nop => here + 1,
                Operation::Jmp => {
                    let offset = instr.arg;
                    if offset > 0 {
                        here + (offset as usize)
                    } else {
                        here - ((-(offset as i64)) as usize)
                    }
                },
                Operation::Acc => {
                    self.accumulator = self.accumulator.wrapping_add(instr.arg);
                    here + 1
                },
            };
            proof {
                visited = visited.insert(here as int);
                lemma_visited_bounded(visited, n as int);
            }
            self.program_counter = newpc;
            if self.program_counter >= self.code.len() {
                return (true, self.program_counter);
            }
            if self.visits[self.program_counter] != 0 {
                return (false, self.program_counter);
            }
            proof {
                lemma_visited_bounded(visited.insert(newpc as int), n as int);
                fuel = (fuel - 1) as nat;
            }
        }
    }

    /// Runs the program as it is from `pc`.
    pub fn run(&mut self, pc: usize, verbose: bool) -> (r: (bool, usize))
        requires
            pc < old(self).code@.len(),
            jumps_stay(
                old(self).code@,
                CodeChange {
                    location: old(self).code@.len() as usize,
                    instruction: Instruction { op: Operation::Nop, arg: 0 },
                },
            ),
        ensures
            final(self).code == old(self).code,
            r.0 == run_of(
                old(self).code@,
                CodeChange {
                    location: old(self).code@.len() as usize,
                    instruction: Instruction { op: Operation::Nop, arg: 0 },
                },
                pc as int,
            ).terminated,
            r.1 == run_of(
                old(self).code@,
                CodeChange {
                    location: old(self).code@.len() as usize,
                    instruction: Instruction { op: Operation::Nop, arg: 0 },
                },
                pc as int,
            ).pc,
            final(self).accumulator == run_of(
                old(self).code@,
                CodeChange {
                    location: old(self).code@.len() as usize,
                    instruction: Instruction { op: Operation::Nop, arg: 0 },
                },
                pc as int,
            ).accumulator,
    {
        let inaccessible_change = CodeChange {
            location: self.code.len(),
            instruction: Instruction { op: Operation::Nop, arg: 0 },
        };
        self.run_with_change(pc, verbose, &inaccessible_change)
    }

    /// Sets the console back: no instruction visited, the accumulator at 0,
    /// and the program counter at `pc`.
    pub fn reset(&mut self, pc: usize)
        ensures
            final(self).code == old(self).code,
            final(self).visits@ == Seq::new(old(self).code@.len(), |i: int| 0u32),
            final(self).accumulator == 0,
            final(self).program_counter == pc,
    {
        self.visits.clear();
        let n = self.code.len();
        let mut i: usize = 0;
        while i < n
            invariant
                0 <= i <= n,
                n == self.code@.len(),
                self.code == old(self).code,
                self.visits@ == Seq::new(i as nat, |k: int| 0u32),
            decreases n - i,
        {
            self.visits.push(0);
            assert(self.visits@ =~= Seq::new((i + 1) as nat, |k: int| 0u32));
            i += 1;
        }
        self.accumulator = 0;
        self.program_counter = pc;
    }

    /// The number of instructions.
    pub fn codesize(&self) -> (r: usize)
        ensures
            r == self.code@.len(),
    {
        self.code.len()
    }

    /// The instruction that runs at `loc`: that of the change if it is for
    /// `loc`, else that of the program.
    pub fn get_instr(&self, loc: usize, change: &CodeChange) -> (r: Instruction)
        requires
            loc == change.location || loc < self.code@.len(),
        ensures
            r == (if loc == change.location {
                change.instruction
            } else {
                self.code@[loc as int]
            }),
    {
        if loc == change.location {
            change.instruction
        } else {
            self.code[loc]
        }
    }
}

/// The flipped instruction at `loc` as a change.
pub open spec fn flip_at(code: Seq<Instruction>, loc: int) -> CodeChange {
    CodeChange {
        location: loc as usize,
        instruction: Instruction {
            op: match code[loc].op {
                Operation::Nop => Operation::Jmp,
                Operation::Jmp => Operation::Nop,
                Operation::Acc => Operation::Acc,
            },
            arg: code[loc].arg,
        },
    }
}

/// Whether the program ends in good order when the instruction at `loc` is
/// flipped.
pub open spec fn mends(code: Seq<Instruction>, loc: int) -> bool {
    code[loc].op != Operation::Acc && run_of(code, flip_at(code, loc), 0).terminated
}

/// Whether no instruction would lead below 0 or beyond what a place can be
/// if it were a jump.
pub open spec fn all_jumps_stay(code: Seq<Instruction>) -> bool {
    forall|loc: int| 0 <= loc < code.len() ==> 0 <= loc + (#[trigger] code[loc]).arg <= usize::MAX
}

impl GameConsole {
    /// Looks for the first instruction, other than an `acc`, whose flip lets
    /// the program end in good order, and gives its place and the program
    /// counter at the end; the console is left as that run left it.
    pub fn find_fix(&mut self) -> (r: Option<(usize, usize)>)
        requires
            old(self).code@.len() >= 1,
            old(self).code@.len() < usize::MAX,
            all_jumps_stay(old(self).code@),
        ensures
            final(self).code == old(self).code,
            r is None <==> forall|loc: int|
                0 <= loc < old(self).code@.len() ==> !mends(old(self).code@, loc),
            r matches Some(found) ==> found.0 < old(self).code@.len() && mends(
                old(self).code@,
                found.0 as int,
            ) && (forall|loc: int| 0 <= loc < found.0 ==> !mends(old(self).code@, loc)) && found.1
                == run_of(old(self).code@, flip_at(old(self).code@, found.0 as int), 0).pc
                && final(self).accumulator == run_of(
                old(self).code@,
                flip_at(old(self).code@, found.0 as int),
                0,
            ).accumulator,
    {
        let n = self.code.len();
        let mut loc: usize = 0;
        while loc < n
            invariant
                0 <= loc <= n,
                n == self.code@.len(),
                n >= 1,
                n < usize::MAX,
                self.code == old(self).code,
                all_jumps_stay(self.code@),
                forall|k: int| 0 <= k < loc ==> !mends(self.code@, k),
            decreases n - loc,
        {
            let instr = self.code[loc];
            if instr.op != Operation::Acc {
                let change = CodeChange { location: loc, instruction: flip_instr(&instr) };
                assert(change == flip_at(self.code@, loc as int));
                proof {
                    assert forall|at: int| 0 <= at < n implies 0 <= #[trigger] target(
                        instr_at(self.code@, change, at),
                        at,
                    ) <= usize::MAX by {
                        assert(0 <= at + self.code@[at].arg <= usize::MAX);
                    }
                }
                let (terminated, pc) = self.run_with_change(0, false, &change);
                if terminated {
                    assert(mends(self.code@, loc as int));
                    return Some((loc, pc));
                }
                assert(!mends(self.code@, loc as int));
            }
            loc += 1;
        }
        None
    }
}

} // verus!
