use vstd::prelude::*;
use crate::compiler::{brackets_balanced, compiles_to, parse_bftext, Op};
use crate::errors::{BUDGET_EXCEEDED, INPUT_ERROR, INVALID_CURSOR, OUTPUT_ERROR, OVERFLOW, UNDERFLOW};
use crate::tape::{wrapped, Tape, TAPE_LEN};

verus! {

/// The state of a run: the tape, the data cursor, the instruction cursor, how
/// many input bytes were taken and the bytes written so far.
pub struct Machine {
    pub cells: Seq<u8>,
    pub ptr: int,
    pub pc: int,
    pub consumed: int,
    pub output: Seq<u8>,
}

/// What one fetch does to a machine.
pub enum Outcome {
    Next(Machine),
    Halt(Machine),
    Fail(i16, Machine),
}

/// A machine with a zeroed tape, both cursors at the start, no input taken and
/// no output written.
pub open spec fn initial_machine() -> Machine {
    Machine {
        cells: Seq::new(TAPE_LEN as nat, |i: int| 0u8),
        ptr: 0,
        pc: 0,
        consumed: 0,
        output: Seq::empty(),
    }
}

/// One fetch-decide-apply cycle: the instruction cursor moves on by one and the
/// operation found there is carried out. A failing operation leaves the tape,
/// the input and the output as they were.
pub open spec fn step(ops: Seq<Op>, input: Seq<u8>, m: Machine) -> Outcome {
    let pc = m.pc + 1;
    if pc < 0 || pc >= ops.len() {
        Outcome::Fail(INVALID_CURSOR, m)
    } else {
        let cur = Machine { pc, ..m };
        let cell = m.cells[m.ptr];
        match ops[pc] {
            Op::Forward(t) => if cell == 0 {
                Outcome::Next(Machine { pc: t as int, ..m })
            } else {
                Outcome::Next(cur)
            },
            Op::Back(t) => if cell != 0 {
                Outcome::Next(Machine { pc: t as int, ..m })
            } else {
                Outcome::Next(cur)
            },
            Op::Left(n) => if n > m.ptr {
                Outcome::Fail(UNDERFLOW, cur)
            } else {
                Outcome::Next(Machine { ptr: m.ptr - n, ..cur })
            },
            Op::Right(n) => if m.ptr + n >= TAPE_LEN {
                Outcome::Fail(OVERFLOW, cur)
            } else {
                Outcome::Next(Machine { ptr: m.ptr + n, ..cur })
            },
            Op::Add(n) => Outcome::Next(
                Machine { cells: m.cells.update(m.ptr, wrapped(cell + n)), ..cur },
            ),
            Op::Substract(n) => Outcome::Next(
                Machine { cells: m.cells.update(m.ptr, wrapped(cell - n)), ..cur },
            ),
            Op::In => if m.consumed < input.len() {
                Outcome::Next(
                    Machine {
                        cells: m.cells.update(m.ptr, input[m.consumed]),
                        consumed: m.consumed + 1,
                        ..cur
                    },
                )
            } else {
                Outcome::Fail(INPUT_ERROR, cur)
            },
            Op::Out => Outcome::Next(Machine { output: m.output.push(cell), ..cur }),
            Op::End => Outcome::Halt(cur),
            Op::Start => Outcome::Fail(INVALID_CURSOR, cur),
        }
    }
}

/// Runs at most `fuel` cycles from `m`: the status and the machine at the end.
pub open spec fn run_spec(ops: Seq<Op>, input: Seq<u8>, m: Machine, fuel: nat) -> (Result<(), i16>, Machine)
    decreases fuel,
{
    if fuel == 0 {
        (Err(BUDGET_EXCEEDED), m)
    } else {
        match step(ops, input, m) {
            Outcome::Next(m2) => run_spec(ops, input, m2, (fuel - 1) as nat),
            Outcome::Halt(m2) => (Ok(()), m2),
            Outcome::Fail(e, m2) => (Err(e), m2),
        }
    }
}

/// Fetches from `pc + 1` on, following each loop bound's jump on `val`, until
/// an operation that is not a loop bound is found; each fetch spends one unit
/// of `fuel`. Gives that operation, the cursor left on it and the fuel left;
/// or `None`, with the cursor where it stopped, when the fuel is spent or no
/// operation follows the cursor.
pub open spec fn chase(ops: Seq<Op>, pc: int, val: u8, fuel: nat) -> (Option<Op>, int, nat)
    decreases fuel,
{
    if fuel == 0 {
        (None, pc, 0)
    } else if pc + 1 < 0 || pc + 1 >= ops.len() {
        (None, pc, fuel)
    } else {
        match ops[pc + 1] {
            Op::Forward(t) => chase(ops, if val == 0 { t as int } else { pc + 1 }, val, (fuel - 1) as nat),
            Op::Back(t) => chase(ops, if val != 0 { t as int } else { pc + 1 }, val, (fuel - 1) as nat),
            op => (Some(op), pc + 1, (fuel - 1) as nat),
        }
    }
}

/// Following loop bounds with `chase` is what `run_spec` does on the same
/// fetches: a run from `m` either ends where the chase stopped, or goes on as
/// a run that fetches the operation the chase found.
pub proof fn lemma_chase(ops: Seq<Op>, input: Seq<u8>, m: Machine, fuel: nat)
    ensures
        chase(ops, m.pc, m.cells[m.ptr], fuel).2 <= fuel,
        chase(ops, m.pc, m.cells[m.ptr], fuel).0 is None ==> run_spec(ops, input, m, fuel) == (
            Err::<(), i16>(
                if chase(ops, m.pc, m.cells[m.ptr], fuel).2 == 0 {
                    BUDGET_EXCEEDED
                } else {
                    INVALID_CURSOR
                },
            ),
            Machine { pc: chase(ops, m.pc, m.cells[m.ptr], fuel).1, ..m },
        ),
        chase(ops, m.pc, m.cells[m.ptr], fuel).0 matches Some(op) ==> {
            let pc = chase(ops, m.pc, m.cells[m.ptr], fuel).1;
            let f = chase(ops, m.pc, m.cells[m.ptr], fuel).2;
            &&& 0 <= pc < ops.len()
            &&& ops[pc] == op
            &&& !(op is Forward) && !(op is Back)
            &&& f < fuel
            &&& run_spec(ops, input, m, fuel) == run_spec(ops, input, Machine { pc: pc - 1, ..m }, f + 1)
        },
    decreases fuel,
{
    if fuel > 0 && 0 <= m.pc + 1 < ops.len() {
        let val = m.cells[m.ptr];
        match ops[m.pc + 1] {
            Op::Forward(t) => {
                let m2 = Machine { pc: if val == 0 { t as int } else { m.pc + 1 }, ..m };
                assert(step(ops, input, m) == Outcome::Next(m2));
                lemma_chase(ops, input, m2, (fuel - 1) as nat);
                assert(run_spec(ops, input, m, fuel) == run_spec(ops, input, m2, (fuel - 1) as nat));
                assert(chase(ops, m.pc, val, fuel) == chase(ops, m2.pc, val, (fuel - 1) as nat));
                let pc2 = chase(ops, m2.pc, val, (fuel - 1) as nat).1;
                assert(Machine { pc: pc2, ..m2 } == Machine { pc: pc2, ..m });
                assert(Machine { pc: pc2 - 1, ..m2 } == Machine { pc: pc2 - 1, ..m });
            },
            Op::Back(t) => {
                let m2 = Machine { pc: if val != 0 { t as int } else { m.pc + 1 }, ..m };
                assert(step(ops, input, m) == Outcome::Next(m2));
                lemma_chase(ops, input, m2, (fuel - 1) as nat);
                assert(run_spec(ops, input, m, fuel) == run_spec(ops, input, m2, (fuel - 1) as nat));
                assert(chase(ops, m.pc, val, fuel) == chase(ops, m2.pc, val, (fuel - 1) as nat));
                let pc2 = chase(ops, m2.pc, val, (fuel - 1) as nat).1;
                assert(Machine { pc: pc2, ..m2 } == Machine { pc: pc2, ..m });
                assert(Machine { pc: pc2 - 1, ..m2 } == Machine { pc: pc2 - 1, ..m });
            },
            _ => {
                assert(Machine { pc: m.pc + 1 - 1, ..m } == m);
            },
        }
    }
}

/// What a running machine asks of its caller next.
#[derive(Debug, Clone, Copy, PartialEq, Eq, Structural)]
pub enum Action {
    /// One input byte is wanted for the cell under the cursor.
    Read,
    /// This byte is to be written to the output.
    Write(u8),
    /// `End` was fetched: the program is done.
    Halt,
    /// The run ends with this error code.
    Fail(i16),
}

/// Runs from `m` on at most `fuel` fetches until an input or output operation
/// is fetched, the program halts or an operation fails. Gives the action, the
/// machine, whose instruction cursor stands on the operation fetched last,
/// and the fuel left.
pub open spec fn advance(ops: Seq<Op>, m: Machine, fuel: nat) -> (Action, Machine, nat)
    decreases fuel,
{
    if fuel == 0 {
        (Action::Fail(BUDGET_EXCEEDED), m, 0)
    } else if m.pc + 1 < 0 || m.pc + 1 >= ops.len() {
        (Action::Fail(INVALID_CURSOR), m, fuel)
    } else {
        let cur = Machine { pc: m.pc + 1, ..m };
        match ops[m.pc + 1] {
            Op::In => (Action::Read, cur, (fuel - 1) as nat),
            Op::Out => (Action::Write(m.cells[m.ptr]), cur, (fuel - 1) as nat),
            _ => match step(ops, Seq::empty(), m) {
                Outcome::Next(m2) => advance(ops, m2, (fuel - 1) as nat),
                Outcome::Halt(m2) => (Action::Halt, m2, (fuel - 1) as nat),
                Outcome::Fail(e, m2) => (Action::Fail(e), m2, (fuel - 1) as nat),
            },
        }
    }
}

/// Following loop bounds with `chase` is what `advance` does on the same
/// fetches.
pub proof fn lemma_chase_advance(ops: Seq<Op>, m: Machine, fuel: nat)
    ensures
        chase(ops, m.pc, m.cells[m.ptr], fuel).0 is None ==> advance(ops, m, fuel) == (
            if chase(ops, m.pc, m.cells[m.ptr], fuel).2 == 0 {
                Action::Fail(BUDGET_EXCEEDED)
            } else {
                Action::Fail(INVALID_CURSOR)
            },
            Machine { pc: chase(ops, m.pc, m.cells[m.ptr], fuel).1, ..m },
            chase(ops, m.pc, m.cells[m.ptr], fuel).2,
        ),
        chase(ops, m.pc, m.cells[m.ptr], fuel).0 matches Some(op) ==> {
            let pc = chase(ops, m.pc, m.cells[m.ptr], fuel).1;
            let f = chase(ops, m.pc, m.cells[m.ptr], fuel).2;
            &&& 0 <= pc < ops.len()
            &&& ops[pc] == op
            &&& !(op is Forward) && !(op is Back)
            &&& f < fuel
            &&& advance(ops, m, fuel) == advance(ops, Machine { pc: pc - 1, ..m }, f + 1)
        },
    decreases fuel,
{
    if fuel > 0 && 0 <= m.pc + 1 < ops.len() {
        let val = m.cells[m.ptr];
        match ops[m.pc + 1] {
            Op::Forward(t) => {
                let m2 = Machine { pc: if val == 0 { t as int } else { m.pc + 1 }, ..m };
                assert(step(ops, Seq::empty(), m) == Outcome::Next(m2));
                lemma_chase_advance(ops, m2, (fuel - 1) as nat);
                assert(advance(ops, m, fuel) == advance(ops, m2, (fuel - 1) as nat));
                assert(chase(ops, m.pc, val, fuel) == chase(ops, m2.pc, val, (fuel - 1) as nat));
                let pc2 = chase(ops, m2.pc, val, (fuel - 1) as nat).1;
                assert(Machine { pc: pc2, ..m2 } == Machine { pc: pc2, ..m });
                assert(Machine { pc: pc2 - 1, ..m2 } == Machine { pc: pc2 - 1, ..m });
            },
            Op::Back(t) => {
                let m2 = Machine { pc: if val != 0 { t as int } else { m.pc + 1 }, ..m };
                assert(step(ops, Seq::empty(), m) == Outcome::Next(m2));
                lemma_chase_advance(ops, m2, (fuel - 1) as nat);
                assert(advance(ops, m, fuel) == advance(ops, m2, (fuel - 1) as nat));
                assert(chase(ops, m.pc, val, fuel) == chase(ops, m2.pc, val, (fuel - 1) as nat));
                let pc2 = chase(ops, m2.pc, val, (fuel - 1) as nat).1;
                assert(Machine { pc: pc2, ..m2 } == Machine { pc: pc2, ..m });
                assert(Machine { pc: pc2 - 1, ..m2 } == Machine { pc: pc2 - 1, ..m });
            },
            _ => {
                assert(Machine { pc: m.pc + 1 - 1, ..m } == m);
            },
        }
    }
}

/// A compiled program and its instruction cursor.
pub struct BfProgramm {
    ops: Vec<Op>,
    pointer: usize,
}

impl BfProgramm {
    /// The compiled operations.
    pub closed spec fn ops(&self) -> Seq<Op> {
        self.ops@
    }

    /// The instruction cursor.
    pub closed spec fn pc(&self) -> int {
        self.pointer as int
    }

    /// Compiles `text`, with the cursor on the `Start` sentinel.
    pub fn new(text: &String) -> (r: Result<Self, i16>)
        requires
            text@.len() < usize::MAX,
        ensures
            r is Ok <==> brackets_balanced(text@),
            r matches Ok(p) ==> compiles_to(text@, p.ops()) && p.pc() == 0,
            r matches Err(e) ==> e == crate::errors::STRUCTURAL_ERROR,
    {
        match parse_bftext(text) {
            Ok(ops) => Ok(BfProgramm { ops, pointer: 0 }),
            Err(e) => Err(e),
        }
    }

    /// Fetches the next operation that is not a loop bound. Loop bounds are
    /// decided on `tape_val` as they are fetched: a loop start jumps to its
    /// partner when the cell is zero, a loop end when it is not. Each fetch,
    /// of a loop bound or not, spends one unit of `fuel`. Gives the operation,
    /// with the cursor on it, or `None` when the fuel is spent or no operation
    /// follows the cursor.
    pub fn next(&mut self, tape_val: u8, fuel: &mut u64) -> (r: Option<Op>)
        ensures
            final(self).ops() == old(self).ops(),
            r == chase(old(self).ops(), old(self).pc(), tape_val, *old(fuel) as nat).0,
            final(self).pc() == chase(old(self).ops(), old(self).pc(), tape_val, *old(fuel) as nat).1,
            *final(fuel) as nat == chase(old(self).ops(), old(self).pc(), tape_val, *old(fuel) as nat).2,
    {
        loop
            invariant
                self.ops() == old(self).ops(),
                chase(self.ops(), self.pc(), tape_val, *fuel as nat) == chase(
                    old(self).ops(),
                    old(self).pc(),
                    tape_val,
                    *old(fuel) as nat,
                ),
            decreases *fuel,
        {
            if *fuel == 0 {
                return None;
            }
            if self.ops.len() == 0 || self.pointer >= self.ops.len() - 1 {
                return None;
            }
            *fuel = *fuel - 1;
            self.pointer = self.pointer + 1;
            let op = self.ops[self.pointer];
            match op {
                Op::Forward(index) => {
                    if tape_val == 0 {
                        self.pointer = index;
                    }
                },
                Op::Back(index) => {
                    if tape_val != 0 {
                        self.pointer = index;
                    }
                },
                _ => {
                    return Some(op);
                },
            }
        }
    }
}

/// A tape machine loaded with a compiled program and a step budget.
pub struct BFBox {
    tape: Tape,
    programm: BfProgramm,
    budget: u64,
}

impl BFBox {
    /// The compiled program.
    pub closed spec fn ops(&self) -> Seq<Op> {
        self.programm.ops()
    }

    /// The largest number of fetches that one run may make.
    pub closed spec fn budget(&self) -> nat {
        self.budget as nat
    }

    /// The tape, its cursor and the instruction cursor, with no input taken
    /// and no output written.
    pub closed spec fn machine(&self) -> Machine {
        Machine {
            cells: self.tape.cells(),
            ptr: self.tape.pointer(),
            pc: self.programm.pc(),
            consumed: 0,
            output: Seq::empty(),
        }
    }

    /// The tape has its full length and its cursor stands on a cell.
    pub closed spec fn wf(&self) -> bool {
        self.tape.wf()
    }

    /// Compiles `text` into a fresh machine whose runs are bounded by `budget`
    /// fetches.
    pub fn with_budget(text: &String, budget: u64) -> (r: Result<Self, i16>)
        requires
            text@.len() < usize::MAX,
        ensures
            r is Ok <==> brackets_balanced(text@),
            r matches Ok(b) ==> {
                &&& b.wf()
                &&& compiles_to(text@, b.ops())
                &&& b.machine() == initial_machine()
                &&& b.budget() == budget
            },
            r matches Err(e) ==> e == crate::errors::STRUCTURAL_ERROR,
    {
        match BfProgramm::new(text) {
            Ok(programm) => Ok(BFBox { tape: Tape::new(), programm, budget }),
            Err(e) => Err(e),
        }
    }

    /// Compiles `text` into a fresh machine with the largest budget.
    pub fn new(text: &String) -> (r: Result<Self, i16>)
        requires
            text@.len() < usize::MAX,
        ensures
            r is Ok <==> brackets_balanced(text@),
            r matches Ok(b) ==> {
                &&& b.wf()
                &&& compiles_to(text@, b.ops())
                &&& b.machine() == initial_machine()
                &&& b.budget() == u64::MAX
            },
            r matches Err(e) ==> e == crate::errors::STRUCTURAL_ERROR,
    {
        BFBox::with_budget(text, u64::MAX)
    }

    /// Stores a byte read for an input operation in the cell under the
    /// cursor; `None`, for a read that gave no byte, is the input error.
    pub fn read_in(&mut self, got: Option<u8>) -> (r: Result<(), i16>)
        requires
            old(self).wf(),
        ensures
            final(self).wf(),
            final(self).ops() == old(self).ops(),
            final(self).budget() == old(self).budget(),
            got matches Some(b) ==> r is Ok && final(self).machine() == (Machine {
                cells: old(self).machine().cells.update(old(self).machine().ptr, b),
                ..old(self).machine()
            }),
            got is None ==> r == Err::<(), i16>(INPUT_ERROR) && final(self).machine() == old(self).machine(),
    {
        match got {
            Some(b) => {
                let r = self.tape.write(b as i16);
                proof {
                    assert(wrapped(b as i16 as int) == b);
                }
                r
            },
            None => Err(INPUT_ERROR),
        }
    }

    /// Checks how many bytes an output operation's write took: anything but
    /// the one byte is the output error.
    pub fn write_out(&self, written: usize) -> (r: Result<(), i16>)
        ensures
            r == if written == 1 { Ok::<(), i16>(()) } else { Err(OUTPUT_ERROR) },
    {
        if written == 1 {
            Ok(())
        } else {
            Err(OUTPUT_ERROR)
        }
    }

    /// Runs until the program wants a byte, has a byte to write, halts or
    /// fails, spending one unit of `fuel` per fetch. An input or output
    /// operation is left to the caller, who hands a read byte to `read_in`
    /// and the count of a write to `write_out`, and calls this again.
    pub fn next_action(&mut self, fuel: &mut u64) -> (r: Action)
        requires
            old(self).wf(),
        ensures
            final(self).wf(),
            final(self).ops() == old(self).ops(),
            final(self).budget() == old(self).budget(),
            r == advance(old(self).ops(), old(self).machine(), *old(fuel) as nat).0,
            final(self).machine() == advance(old(self).ops(), old(self).machine(), *old(fuel) as nat).1,
            *final(fuel) as nat == advance(old(self).ops(), old(self).machine(), *old(fuel) as nat).2,
    {
        let ghost ops = self.ops();
        let ghost total = advance(ops, self.machine(), *fuel as nat);
        loop
            invariant
                self.tape.wf(),
                self.ops() == ops,
                self.budget == old(self).budget,
                ops == old(self).ops(),
                total == advance(old(self).ops(), old(self).machine(), *old(fuel) as nat),
                advance(ops, self.machine(), *fuel as nat) == total,
            decreases *fuel,
        {
            let ghost cur = self.machine();
            let curr_value = self.tape.read();
            proof {
                lemma_chase_advance(ops, cur, *fuel as nat);
            }
            let op = match self.programm.next(curr_value, fuel) {
                Some(op) => op,
                None => {
                    if *fuel == 0 {
                        return Action::Fail(BUDGET_EXCEEDED);
                    } else {
                        return Action::Fail(INVALID_CURSOR);
                    }
                },
            };
            let ghost before = Machine { pc: self.programm.pc() - 1, ..cur };
            proof {
                assert(Machine { pc: before.pc + 1, ..before } == self.machine());
            }
            let outcome = match op {
                Op::In => {
                    return Action::Read;
                },
                Op::Out => {
                    return Action::Write(curr_value);
                },
                Op::End => {
                    return Action::Halt;
                },
                Op::Start | Op::Forward(_) | Op::Back(_) => {
                    return Action::Fail(INVALID_CURSOR);
                },
                Op::Left(x) => self.tape.left(x),
                Op::Right(x) => self.tape.right(x),
                Op::Add(x) => self.tape.add(x),
                Op::Substract(x) => self.tape.substract(x),
            };
            match outcome {
                Ok(()) => {},
                Err(e) => {
                    return Action::Fail(e);
                },
            }
        }
    }

    /// Runs the program from where its cursors stand, taking bytes from `input`
    /// in order and appending bytes to `output`, until `End` is fetched, an
    /// operation fails or the budget of fetches is spent.
    pub fn run(&mut self, input: &Vec<u8>, output: &mut Vec<u8>) -> (r: Result<(), i16>)
        requires
            old(self).wf(),
        ensures
            r == run_spec(old(self).ops(), input@, old(self).machine(), old(self).budget()).0,
            final(self).wf(),
            final(self).ops() == old(self).ops(),
            final(self).budget() == old(self).budget(),
            final(self).machine() == (Machine {
                consumed: 0,
                output: Seq::empty(),
                ..run_spec(old(self).ops(), input@, old(self).machine(), old(self).budget()).1
            }),
            final(output)@ == old(output)@ + run_spec(old(self).ops(), input@, old(self).machine(), old(self).budget()).1.output,
    {
        let ghost ops = self.ops();
        let ghost m0 = self.machine();
        let ghost out0 = output@;
        let ghost total = run_spec(ops, input@, m0, self.budget());
        let mut consumed: usize = 0;
        let mut fuel: u64 = self.budget;
        proof {
            assert(output@.skip(out0.len() as int) =~= Seq::<u8>::empty());
        }
        loop
            invariant
                self.tape.wf(),
                self.ops() == ops,
                self.budget == old(self).budget,
                ops == old(self).ops(),
                out0 == old(output)@,
                total == run_spec(old(self).ops(), input@, old(self).machine(), old(self).budget()),
                consumed <= input@.len(),
                output@.len() >= out0.len(),
                output@ == out0 + output@.skip(out0.len() as int),
                run_spec(ops, input@, Machine {
                    consumed: consumed as int,
                    output: output@.skip(out0.len() as int),
                    ..self.machine()
                }, fuel as nat) == total,
            decreases fuel,
        {
            let ghost cur = Machine {
                consumed: consumed as int,
                output: output@.skip(out0.len() as int),
                ..self.machine()
            };
            let curr_value = self.tape.read();
            proof {
                lemma_chase(ops, input@, cur, fuel as nat);
            }
            let fetched = self.programm.next(curr_value, &mut fuel);
            let op = match fetched {
                Some(op) => op,
                None => {
                    if fuel == 0 {
                        return Err(BUDGET_EXCEEDED);
                    } else {
                        return Err(INVALID_CURSOR);
                    }
                },
            };
            let ghost before = Machine { pc: self.programm.pc() - 1, ..cur };
            proof {
                assert(total == match step(ops, input@, before) {
                    Outcome::Next(m2) => run_spec(ops, input@, m2, fuel as nat),
                    Outcome::Halt(m2) => (Ok(()), m2),
                    Outcome::Fail(e, m2) => (Err(e), m2),
                });
            }
            let outcome = match op {
                Op::End => {
                    return Ok(());
                },
                Op::Start | Op::Forward(_) | Op::Back(_) => {
                    return Err(INVALID_CURSOR);
                },
                Op::Left(x) => self.tape.left(x),
                Op::Right(x) => self.tape.right(x),
                Op::Add(x) => self.tape.add(x),
                Op::Substract(x) => self.tape.substract(x),
                Op::In => {
                    let got: Option<u8> = if consumed < input.len() {
                        let b = input[consumed];
                        consumed = consumed + 1;
                        Some(b)
                    } else {
                        None
                    };
                    self.read_in(got)
                },
                Op::Out => {
                    output.push(curr_value);
                    self.write_out(1)
                },
            };
            match outcome {
                Ok(()) => {},
                Err(e) => {
                    return Err(e);
                },
            }
            proof {
                let out_now = output@.skip(out0.len() as int);
                if op is Out {
                    assert(out_now =~= cur.output.push(curr_value));
                }
                if op is In {
                    let b = input@[consumed - 1];
                    assert(wrapped(b as i16 as int) == b);
                }
                assert(output@ =~= out0 + out_now);
            }
        }
    }
}

} // verus!
