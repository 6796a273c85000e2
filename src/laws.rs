use vstd::prelude::*;
use crate::compiler::{compiles_to, depth, erase, folded, partners, skeleton, Op};
use crate::errors::{BUDGET_EXCEEDED, OVERFLOW, UNDERFLOW};
use crate::machine::{advance, initial_machine, run_spec, step, Action, Machine, Outcome};
use crate::errors::INPUT_ERROR;
use crate::tape::{wrapped, TAPE_LEN};

verus! {

/// In a compiled program every loop start points at a loop end later in the
/// sequence that points back at it, and every loop end at an earlier loop
/// start that points back at it.
pub proof fn law_loop_partners(text: Seq<char>, ops: Seq<Op>)
    requires
        compiles_to(text, ops),
    ensures
        forall|i: int|
            0 <= i < ops.len() && (#[trigger] ops[i]) is Forward ==> {
                let j = ops[i]->Forward_0 as int;
                &&& i < j < ops.len()
                &&& ops[j] == Op::Back(i as usize)
            },
        forall|j: int|
            0 <= j < ops.len() && (#[trigger] ops[j]) is Back ==> {
                let i = ops[j]->Back_0 as int;
                &&& 0 <= i < j
                &&& ops[i] == Op::Forward(j as usize)
            },
{
}

/// Incrementing a cell that holds 255 by one leaves 0 in it; decrementing a
/// cell that holds 0 by one leaves 255.
pub proof fn law_cell_wraps(ops: Seq<Op>, input: Seq<u8>, m: Machine)
    requires
        0 <= m.pc + 1 < ops.len(),
        0 <= m.ptr < m.cells.len(),
    ensures
        ops[m.pc + 1] == Op::Add(1) && m.cells[m.ptr] == 255 ==> step(ops, input, m) == Outcome::Next(
            Machine { cells: m.cells.update(m.ptr, 0u8), pc: m.pc + 1, ..m },
        ),
        ops[m.pc + 1] == Op::Substract(1) && m.cells[m.ptr] == 0 ==> step(ops, input, m)
            == Outcome::Next(Machine { cells: m.cells.update(m.ptr, 255u8), pc: m.pc + 1, ..m }),
{
    assert(wrapped(255int + 1) == 0u8);
    assert(wrapped(0int - 1) == 255u8);
}

/// Moving left by more than the cursor's position fails with the underflow
/// error, and moving right onto or past the tape's length fails with the
/// overflow error; neither touches the tape.
pub proof fn law_cursor_bounds(ops: Seq<Op>, input: Seq<u8>, m: Machine)
    requires
        0 <= m.pc + 1 < ops.len(),
    ensures
        ops[m.pc + 1] matches Op::Left(n) && n > m.ptr ==> step(ops, input, m) == Outcome::Fail(
            UNDERFLOW,
            Machine { pc: m.pc + 1, ..m },
        ),
        ops[m.pc + 1] matches Op::Right(n) && m.ptr + n >= TAPE_LEN ==> step(ops, input, m)
            == Outcome::Fail(OVERFLOW, Machine { pc: m.pc + 1, ..m }),
{
}

/// What `[-]` compiles to.
pub open spec fn clear_loop() -> Seq<Op> {
    seq![Op::Start, Op::Forward(3), Op::Substract(1), Op::Back(1), Op::End]
}

/// What `+[]` compiles to.
pub open spec fn endless_loop() -> Seq<Op> {
    seq![Op::Start, Op::Add(1), Op::Forward(3), Op::Back(2), Op::End]
}

/// `[-]` compiles to `clear_loop()`.
pub proof fn lemma_clear_loop_compiled(ops: Seq<Op>)
    requires
        compiles_to("[-]"@, ops),
    ensures
        ops == clear_loop(),
{
    reveal_strlit("[-]");
    let s = "[-]"@;
    assert(s.drop_last() =~= seq!['[', '-']);
    assert(seq!['[', '-'].drop_last() =~= seq!['[']);
    assert(seq!['['].drop_last() =~= Seq::<char>::empty());
    assert(folded(Seq::<char>::empty()) == seq![Op::Start]);
    assert(folded(seq!['[']) =~= seq![Op::Start, Op::Forward(0)]);
    assert(folded(seq!['[', '-']) =~= seq![Op::Start, Op::Forward(0), Op::Substract(1)]);
    assert(folded(s) =~= seq![Op::Start, Op::Forward(0), Op::Substract(1), Op::Back(0)]);
    let skel = skeleton(s);
    assert(skel =~= seq![Op::Start, Op::Forward(0), Op::Substract(1), Op::Back(0), Op::End]);
    assert(erase(ops[0]) == skel[0]);
    assert(erase(ops[1]) == skel[1]);
    assert(erase(ops[2]) == skel[2]);
    assert(erase(ops[3]) == skel[3]);
    assert(erase(ops[4]) == skel[4]);
    assert(ops[1] is Forward);
    assert(ops[3] is Back);
    assert(ops =~= clear_loop());
}

/// `+[]` compiles to `endless_loop()`.
pub proof fn lemma_endless_loop_compiled(ops: Seq<Op>)
    requires
        compiles_to("+[]"@, ops),
    ensures
        ops == endless_loop(),
{
    reveal_strlit("+[]");
    let s = "+[]"@;
    assert(s.drop_last() =~= seq!['+', '[']);
    assert(seq!['+', '['].drop_last() =~= seq!['+']);
    assert(seq!['+'].drop_last() =~= Seq::<char>::empty());
    assert(folded(Seq::<char>::empty()) == seq![Op::Start]);
    assert(folded(seq!['+']) =~= seq![Op::Start, Op::Add(1)]);
    assert(folded(seq!['+', '[']) =~= seq![Op::Start, Op::Add(1), Op::Forward(0)]);
    assert(folded(s) =~= seq![Op::Start, Op::Add(1), Op::Forward(0), Op::Back(0)]);
    let skel = skeleton(s);
    assert(skel =~= seq![Op::Start, Op::Add(1), Op::Forward(0), Op::Back(0), Op::End]);
    assert(erase(ops[0]) == skel[0]);
    assert(erase(ops[1]) == skel[1]);
    assert(erase(ops[2]) == skel[2]);
    assert(erase(ops[3]) == skel[3]);
    assert(erase(ops[4]) == skel[4]);
    assert(ops[2] is Forward);
    assert(ops[3] is Back);
    assert(ops =~= endless_loop());
}

proof fn lemma_clear_body(input: Seq<u8>, m: Machine, fuel: nat)
    requires
        m.pc == 1,
        0 <= m.ptr < m.cells.len(),
        m.cells[m.ptr] >= 1,
    ensures
        fuel >= 2 * m.cells[m.ptr] + 1 ==> run_spec(clear_loop(), input, m, fuel) == (
            Ok::<(), i16>(()),
            Machine { cells: m.cells.update(m.ptr, 0u8), pc: 4, ..m },
        ),
        fuel < 2 * m.cells[m.ptr] + 1 ==> run_spec(clear_loop(), input, m, fuel).0 == Err::<(), i16>(
            BUDGET_EXCEEDED,
        ),
    decreases m.cells[m.ptr],
{
    let ops = clear_loop();
    let k = m.cells[m.ptr];
    let m1 = Machine { cells: m.cells.update(m.ptr, (k - 1) as u8), pc: 2, ..m };
    assert(wrapped(k - 1) == (k - 1) as u8);
    if fuel >= 1 {
        assert(step(ops, input, m) == Outcome::Next(m1));
        assert(run_spec(ops, input, m, fuel) == run_spec(ops, input, m1, (fuel - 1) as nat));
        if fuel >= 2 {
            if k - 1 != 0 {
                let m2 = Machine { pc: 1, ..m1 };
                assert(step(ops, input, m1) == Outcome::Next(m2));
                lemma_clear_body(input, m2, (fuel - 2) as nat);
                assert(run_spec(ops, input, m, fuel) == run_spec(ops, input, m1, (fuel - 1) as nat));
                assert(run_spec(ops, input, m1, (fuel - 1) as nat) == run_spec(ops, input, m2, (fuel - 2) as nat));
                assert(m2.cells.update(m.ptr, 0u8) =~= m.cells.update(m.ptr, 0u8));
            } else {
                let m2 = Machine { pc: 3, ..m1 };
                assert(step(ops, input, m1) == Outcome::Next(m2));
                assert(run_spec(ops, input, m, fuel) == run_spec(ops, input, m1, (fuel - 1) as nat));
                assert(run_spec(ops, input, m1, (fuel - 1) as nat) == run_spec(ops, input, m2, (fuel - 2) as nat));
                if fuel >= 3 {
                    assert(step(ops, input, m2) == Outcome::Halt(Machine { pc: 4, ..m2 }));
                    assert(m1.cells =~= m.cells.update(m.ptr, 0u8));
                }
            }
        }
    }
}

/// `[-]` run on a cell holding N takes exactly 2N + 2 fetches: its body runs N
/// times, or not at all when N is 0, and the program halts with the cell at 0
/// and nothing else changed. With fewer fetches the budget is exceeded.
pub proof fn law_clear_loop(ops: Seq<Op>, input: Seq<u8>, m: Machine, fuel: nat)
    requires
        compiles_to("[-]"@, ops),
        m.pc == 0,
        0 <= m.ptr < m.cells.len(),
    ensures
        fuel >= 2 * m.cells[m.ptr] + 2 ==> run_spec(ops, input, m, fuel) == (
            Ok::<(), i16>(()),
            Machine { cells: m.cells.update(m.ptr, 0u8), pc: 4, ..m },
        ),
        fuel < 2 * m.cells[m.ptr] + 2 ==> run_spec(ops, input, m, fuel).0 == Err::<(), i16>(
            BUDGET_EXCEEDED,
        ),
{
    lemma_clear_loop_compiled(ops);
    let n = m.cells[m.ptr];
    if fuel >= 1 {
        if n == 0 {
            let m1 = Machine { pc: 3, ..m };
            assert(step(ops, input, m) == Outcome::Next(m1));
            assert(run_spec(ops, input, m, fuel) == run_spec(ops, input, m1, (fuel - 1) as nat));
            if fuel >= 2 {
                assert(step(ops, input, m1) == Outcome::Halt(Machine { pc: 4, ..m1 }));
                assert(m.cells.update(m.ptr, 0u8) =~= m.cells);
            }
        } else {
            let m1 = Machine { pc: 1, ..m };
            assert(step(ops, input, m) == Outcome::Next(m1));
            lemma_clear_body(input, m1, (fuel - 1) as nat);
            assert(run_spec(ops, input, m, fuel) == run_spec(ops, input, m1, (fuel - 1) as nat));
        }
    }
}

proof fn lemma_spin(input: Seq<u8>, m: Machine, fuel: nat)
    requires
        m.pc == 2,
        m.cells[m.ptr] != 0,
    ensures
        run_spec(endless_loop(), input, m, fuel).0 == Err::<(), i16>(BUDGET_EXCEEDED),
    decreases fuel,
{
    let ops = endless_loop();
    if fuel >= 1 {
        assert(step(ops, input, m) == Outcome::Next(m));
        lemma_spin(input, m, (fuel - 1) as nat);
    }
}

/// `+[]` never halts: from a fresh machine every budget ends in the budget
/// error.
pub proof fn law_endless_loop_exceeds_budget(ops: Seq<Op>, input: Seq<u8>, fuel: nat)
    requires
        compiles_to("+[]"@, ops),
    ensures
        run_spec(ops, input, initial_machine(), fuel).0 == Err::<(), i16>(BUDGET_EXCEEDED),
{
    lemma_endless_loop_compiled(ops);
    let m = initial_machine();
    if fuel >= 1 {
        let m1 = Machine { cells: m.cells.update(0, 1u8), pc: 1, ..m };
        assert(wrapped(0int + 1) == 1u8);
        assert(m.cells[0] == 0u8);
        assert(ops[1] == Op::Add(1));
        assert(step(ops, input, m) == Outcome::Next(m1));
        assert(run_spec(ops, input, m, fuel) == run_spec(ops, input, m1, (fuel - 1) as nat));
        if fuel >= 2 {
            let m2 = Machine { pc: 2, ..m1 };
            assert(step(ops, input, m1) == Outcome::Next(m2));
            lemma_spin(input, m2, (fuel - 2) as nat);
            assert(run_spec(ops, input, m1, (fuel - 1) as nat) == run_spec(ops, input, m2, (fuel - 2) as nat));
        }
    }
}

/// A move or arithmetic operation carrying the run length `n`, of the same
/// kind as `unit`.
pub open spec fn with_count(unit: Op, n: usize) -> Op {
    match unit {
        Op::Left(_) => Op::Left(n),
        Op::Right(_) => Op::Right(n),
        Op::Add(_) => Op::Add(n),
        _ => Op::Substract(n),
    }
}

/// `unit` is one of the four operations that folding merges, with count one.
pub open spec fn is_unit(unit: Op) -> bool {
    ||| unit == Op::Left(1)
    ||| unit == Op::Right(1)
    ||| unit == Op::Add(1)
    ||| unit == Op::Substract(1)
}

proof fn lemma_wrapped_step(c: int, n: int)
    requires
        n >= 1,
    ensures
        wrapped(wrapped(c + 1) + (n - 1)) == wrapped(c + n),
        wrapped(wrapped(c - 1) - (n - 1)) == wrapped(c - n),
{
    vstd::arithmetic::div_mod::lemma_add_mod_noop_right(n - 1, c + 1, 256);
    vstd::arithmetic::div_mod::lemma_add_mod_noop_right(-(n - 1), c - 1, 256);
    assert(wrapped(c + 1) as int == (c + 1) % 256);
    assert(wrapped(c - 1) as int == (c - 1) % 256);
    assert((n - 1) + (c + 1) == c + n);
    assert(-(n - 1) + (c - 1) == c - n);
}

/// A run of `n` unit operations of one kind, fetched one by one from `m`,
/// leaves the tape, the cursor and the output where a single operation of that
/// kind with count `n` leaves them; where the single operation fails, the run
/// fails with the same error, with the tape and the output as they were.
/// This is what makes run-length folding of straight-line code invisible.
pub proof fn law_folded_run(
    unfolded: Seq<Op>,
    folded_ops: Seq<Op>,
    input: Seq<u8>,
    m: Machine,
    mf: Machine,
    unit: Op,
    n: usize,
    fuel: nat,
)
    requires
        is_unit(unit),
        n >= 1,
        0 <= m.pc,
        m.pc + n < unfolded.len(),
        forall|k: int| 1 <= k <= n ==> #[trigger] unfolded[m.pc + k] == unit,
        0 <= mf.pc + 1 < folded_ops.len(),
        folded_ops[mf.pc + 1] == with_count(unit, n),
        m.cells == mf.cells,
        m.ptr == mf.ptr,
        m.consumed == mf.consumed,
        m.output == mf.output,
        0 <= m.ptr < m.cells.len(),
        m.cells.len() == TAPE_LEN,
    ensures
        match step(folded_ops, input, mf) {
            Outcome::Next(m2) => run_spec(unfolded, input, m, (fuel + n) as nat) == run_spec(
                unfolded,
                input,
                Machine { pc: m.pc + n, ..m2 },
                fuel,
            ),
            Outcome::Fail(e, m2) => {
                &&& run_spec(unfolded, input, m, (fuel + n) as nat).0 == Err::<(), i16>(e)
                &&& run_spec(unfolded, input, m, (fuel + n) as nat).1.cells == m2.cells
                &&& run_spec(unfolded, input, m, (fuel + n) as nat).1.output == m2.output
            },
            Outcome::Halt(_) => false,
        },
    decreases n,
{
    let cell = m.cells[m.ptr];
    let m1 = match step(unfolded, input, m) {
        Outcome::Next(x) => x,
        Outcome::Fail(_, x) => x,
        Outcome::Halt(x) => x,
    };
    assert(unfolded[m.pc + 1] == unit);
    assert(run_spec(unfolded, input, m, (fuel + n) as nat) == match step(unfolded, input, m) {
        Outcome::Next(x) => run_spec(unfolded, input, x, (fuel + n - 1) as nat),
        Outcome::Halt(x) => (Ok(()), x),
        Outcome::Fail(e, x) => (Err(e), x),
    });
    if n == 1 {
        if step(unfolded, input, m) is Next {
            assert(m1 == Machine { pc: m.pc + 1, ..m1 });
        }
    } else {
        lemma_wrapped_step(cell as int, n as int);
        let fails_now = (unit == Op::Left(1) && m.ptr < 1) || (unit == Op::Right(1) && m.ptr + 1 >= TAPE_LEN);
        if !fails_now {
            assert(step(unfolded, input, m) is Next);
            let mf1 = Machine { pc: mf.pc, ..m1 };
            let f1 = folded_ops.update(mf.pc + 1, with_count(unit, (n - 1) as usize));
            assert forall|k: int| 1 <= k <= n - 1 implies #[trigger] unfolded[m1.pc + k] == unit by {
                assert(unfolded[m.pc + (k + 1)] == unit);
            }
            law_folded_run(unfolded, f1, input, m1, mf1, unit, (n - 1) as usize, fuel);
            assert((fuel + n - 1) as nat == fuel + (n - 1) as usize);
            if unit == Op::Add(1) {
                assert(m1.cells.update(m.ptr, wrapped(m1.cells[m.ptr] + (n - 1))) =~= m.cells.update(m.ptr, wrapped(cell + n)));
            }
            if unit == Op::Substract(1) {
                assert(m1.cells.update(m.ptr, wrapped(m1.cells[m.ptr] - (n - 1))) =~= m.cells.update(m.ptr, wrapped(cell - n)));
            }
        }
    }
}

/// A session is the run itself: what `run_spec` does from `m` is what
/// `advance` reports, followed, at a read, by storing the next input byte (or
/// failing with the input error when none is left) and, at a write, by
/// appending the byte to the output, then running on with the fuel left.
pub proof fn law_session_is_run(ops: Seq<Op>, input: Seq<u8>, m: Machine, fuel: nat)
    ensures
        ({
            let a = advance(ops, m, fuel);
            match a.0 {
                Action::Halt => run_spec(ops, input, m, fuel) == (Ok::<(), i16>(()), a.1),
                Action::Fail(e) => run_spec(ops, input, m, fuel) == (Err::<(), i16>(e), a.1),
                Action::Read => if 0 <= a.1.consumed < input.len() {
                    run_spec(ops, input, m, fuel) == run_spec(
                        ops,
                        input,
                        Machine {
                            cells: a.1.cells.update(a.1.ptr, input[a.1.consumed]),
                            consumed: a.1.consumed + 1,
                            ..a.1
                        },
                        a.2,
                    )
                } else {
                    a.1.consumed >= 0 ==> run_spec(ops, input, m, fuel) == (Err::<(), i16>(INPUT_ERROR), a.1)
                },
                Action::Write(v) => run_spec(ops, input, m, fuel) == run_spec(
                    ops,
                    input,
                    Machine { output: a.1.output.push(v), ..a.1 },
                    a.2,
                ),
            }
        }),
    decreases fuel,
{
    if fuel > 0 && 0 <= m.pc + 1 < ops.len() {
        match ops[m.pc + 1] {
            Op::In => {},
            Op::Out => {},
            _ => {
                assert(step(ops, input, m) == step(ops, Seq::empty(), m));
                match step(ops, input, m) {
                    Outcome::Next(m2) => {
                        law_session_is_run(ops, input, m2, (fuel - 1) as nat);
                    },
                    _ => {},
                }
            },
        }
    }
}

/// What `[-.]` compiles to.
pub open spec fn countdown_loop() -> Seq<Op> {
    seq![Op::Start, Op::Forward(4), Op::Substract(1), Op::Out, Op::Back(1), Op::End]
}

/// The bytes `n - 1`, `n - 2`, ..., `0`.
pub open spec fn countdown(n: nat) -> Seq<u8>
    decreases n,
{
    if n == 0 {
        Seq::empty()
    } else {
        seq![(n - 1) as u8] + countdown((n - 1) as nat)
    }
}

/// `[-.]` compiles to `countdown_loop()`.
pub proof fn lemma_countdown_loop_compiled(ops: Seq<Op>)
    requires
        compiles_to("[-.]"@, ops),
    ensures
        ops == countdown_loop(),
{
    reveal_strlit("[-.]");
    let s = "[-.]"@;
    assert(s.drop_last() =~= seq!['[', '-', '.']);
    assert(seq!['[', '-', '.'].drop_last() =~= seq!['[', '-']);
    assert(seq!['[', '-'].drop_last() =~= seq!['[']);
    assert(seq!['['].drop_last() =~= Seq::<char>::empty());
    assert(folded(Seq::<char>::empty()) == seq![Op::Start]);
    assert(folded(seq!['[']) =~= seq![Op::Start, Op::Forward(0)]);
    assert(folded(seq!['[', '-']) =~= seq![Op::Start, Op::Forward(0), Op::Substract(1)]);
    assert(folded(seq!['[', '-', '.']) =~= seq![Op::Start, Op::Forward(0), Op::Substract(1), Op::Out]);
    assert(folded(s) =~= seq![Op::Start, Op::Forward(0), Op::Substract(1), Op::Out, Op::Back(0)]);
    let skel = skeleton(s);
    assert(skel =~= seq![Op::Start, Op::Forward(0), Op::Substract(1), Op::Out, Op::Back(0), Op::End]);
    assert(erase(ops[0]) == skel[0]);
    assert(erase(ops[1]) == skel[1]);
    assert(erase(ops[2]) == skel[2]);
    assert(erase(ops[3]) == skel[3]);
    assert(erase(ops[4]) == skel[4]);
    assert(erase(ops[5]) == skel[5]);
    assert(ops[1] is Forward);
    assert(ops[4] is Back);
    assert(ops =~= countdown_loop());
}

proof fn lemma_countdown_body(input: Seq<u8>, m: Machine, fuel: nat)
    requires
        m.pc == 1,
        0 <= m.ptr < m.cells.len(),
        m.cells[m.ptr] >= 1,
        fuel >= 3 * m.cells[m.ptr] + 1,
    ensures
        run_spec(countdown_loop(), input, m, fuel) == (
            Ok::<(), i16>(()),
            Machine {
                cells: m.cells.update(m.ptr, 0u8),
                pc: 5,
                output: m.output + countdown(m.cells[m.ptr] as nat),
                ..m
            },
        ),
    decreases m.cells[m.ptr],
{
    let ops = countdown_loop();
    let k = m.cells[m.ptr];
    assert(wrapped(k - 1) == (k - 1) as u8);
    let m1 = Machine { cells: m.cells.update(m.ptr, (k - 1) as u8), pc: 2, ..m };
    let m2 = Machine { output: m.output.push((k - 1) as u8), pc: 3, ..m1 };
    assert(step(ops, input, m) == Outcome::Next(m1));
    assert(step(ops, input, m1) == Outcome::Next(m2));
    assert(run_spec(ops, input, m, fuel) == run_spec(ops, input, m1, (fuel - 1) as nat));
    assert(run_spec(ops, input, m1, (fuel - 1) as nat) == run_spec(ops, input, m2, (fuel - 2) as nat));
    assert(countdown(k as nat) == seq![(k - 1) as u8] + countdown((k - 1) as nat));
    if k - 1 != 0 {
        let m3 = Machine { pc: 1, ..m2 };
        assert(step(ops, input, m2) == Outcome::Next(m3));
        assert(run_spec(ops, input, m2, (fuel - 2) as nat) == run_spec(ops, input, m3, (fuel - 3) as nat));
        lemma_countdown_body(input, m3, (fuel - 3) as nat);
        assert(m3.cells.update(m.ptr, 0u8) =~= m.cells.update(m.ptr, 0u8));
        assert(m3.output + countdown((k - 1) as nat) =~= m.output + countdown(k as nat));
    } else {
        let m3 = Machine { pc: 4, ..m2 };
        assert(step(ops, input, m2) == Outcome::Next(m3));
        assert(run_spec(ops, input, m2, (fuel - 2) as nat) == run_spec(ops, input, m3, (fuel - 3) as nat));
        assert(step(ops, input, m3) == Outcome::Halt(Machine { pc: 5, ..m3 }));
        assert(m1.cells =~= m.cells.update(m.ptr, 0u8));
        assert(countdown(0) == Seq::<u8>::empty());
        assert(m2.output =~= m.output + countdown(k as nat));
    }
}

/// `[-.]` run on a cell holding N halts within 3N + 2 fetches, having run its
/// body N times: it writes N - 1, N - 2, ..., 0 (nothing when N is 0) and
/// leaves the cell at 0.
pub proof fn law_countdown_loop(ops: Seq<Op>, input: Seq<u8>, m: Machine, fuel: nat)
    requires
        compiles_to("[-.]"@, ops),
        m.pc == 0,
        0 <= m.ptr < m.cells.len(),
        fuel >= 3 * m.cells[m.ptr] + 2,
    ensures
        run_spec(ops, input, m, fuel) == (
            Ok::<(), i16>(()),
            Machine {
                cells: m.cells.update(m.ptr, 0u8),
                pc: 5,
                output: m.output + countdown(m.cells[m.ptr] as nat),
                ..m
            },
        ),
{
    lemma_countdown_loop_compiled(ops);
    let n = m.cells[m.ptr];
    if n == 0 {
        let m1 = Machine { pc: 4, ..m };
        assert(step(ops, input, m) == Outcome::Next(m1));
        assert(run_spec(ops, input, m, fuel) == run_spec(ops, input, m1, (fuel - 1) as nat));
        assert(step(ops, input, m1) == Outcome::Halt(Machine { pc: 5, ..m1 }));
        assert(m.cells.update(m.ptr, 0u8) =~= m.cells);
        assert(countdown(0) == Seq::<u8>::empty());
        assert(m.output + countdown(0) =~= m.output);
    } else {
        let m1 = Machine { pc: 1, ..m };
        assert(step(ops, input, m) == Outcome::Next(m1));
        assert(run_spec(ops, input, m, fuel) == run_spec(ops, input, m1, (fuel - 1) as nat));
        lemma_countdown_body(input, m1, (fuel - 1) as nat);
    }
}

} // verus!
