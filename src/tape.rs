use vstd::prelude::*;
use crate::errors::{OVERFLOW, UNDERFLOW};

verus! {

/// Number of cells on the tape.
pub const TAPE_LEN: usize = 30000;

/// A cell value after a signed result is brought into `0..256`.
pub open spec fn wrapped(v: int) -> u8 {
    (v % 256) as u8
}

/// Brings a signed value into `0..256` by wrapping modulo 256.
pub fn wrap(value: i16) -> (r: i16)
    ensures
        0 <= r < 256,
        r as int == value as int % 256,
{
    let new_value: i16 = value % 256;
    if new_value < 0 {
        new_value + 256
    } else {
        new_value
    }
}

/// A fixed row of byte cells and a cursor into it.
pub struct Tape {
    cells: Vec<u8>,
    pointer: usize,
}

impl Tape {
    /// The cells' contents.
    pub closed spec fn cells(&self) -> Seq<u8> {
        self.cells@
    }

    /// The cursor's position.
    pub closed spec fn pointer(&self) -> int {
        self.pointer as int
    }

    /// The tape has its full length and the cursor stands on a cell.
    pub open spec fn wf(&self) -> bool {
        &&& self.cells().len() == TAPE_LEN
        &&& 0 <= self.pointer() < TAPE_LEN
    }

    /// The value under the cursor.
    pub open spec fn current(&self) -> u8 {
        self.cells()[self.pointer()]
    }

    /// A tape of zero cells with the cursor on the first.
    pub fn new() -> (r: Self)
        ensures
            r.wf(),
            r.pointer() == 0,
            r.cells() == Seq::new(TAPE_LEN as nat, |i: int| 0u8),
    {
        let cells = vec![0u8; TAPE_LEN];
        proof {
            assert(cells@ =~= Seq::new(TAPE_LEN as nat, |i: int| 0u8));
        }
        Tape { cells, pointer: 0 }
    }

    /// The value under the cursor.
    pub fn read(&self) -> (r: u8)
        requires
            self.wf(),
        ensures
            r == self.current(),
    {
        self.cells[self.pointer]
    }

    /// Stores `value` wrapped modulo 256 under the cursor.
    pub fn write(&mut self, value: i16) -> (r: Result<(), i16>)
        requires
            old(self).wf(),
        ensures
            r is Ok,
            final(self).wf(),
            final(self).pointer() == old(self).pointer(),
            final(self).cells() == old(self).cells().update(old(self).pointer(), wrapped(value as int)),
    {
        let w = wrap(value);
        let p = self.pointer;
        self.cells.set(p, w as u8);
        Ok(())
    }

    /// Moves the cursor `count` cells towards the start.
    pub fn left(&mut self, count: usize) -> (r: Result<(), i16>)
        requires
            old(self).wf(),
        ensures
            final(self).wf(),
            final(self).cells() == old(self).cells(),
            count > old(self).pointer() ==> r == Err::<(), i16>(UNDERFLOW) && final(self).pointer() == old(self).pointer(),
            count <= old(self).pointer() ==> r is Ok && final(self).pointer() == old(self).pointer() - count,
    {
        if self.pointer < count {
            return Err(UNDERFLOW);
        }
        self.pointer = self.pointer - count;
        Ok(())
    }

    /// Moves the cursor `count` cells towards the end.
    pub fn right(&mut self, count: usize) -> (r: Result<(), i16>)
        requires
            old(self).wf(),
        ensures
            final(self).wf(),
            final(self).cells() == old(self).cells(),
            old(self).pointer() + count >= TAPE_LEN ==> r == Err::<(), i16>(OVERFLOW) && final(self).pointer() == old(self).pointer(),
            old(self).pointer() + count < TAPE_LEN ==> r is Ok && final(self).pointer() == old(self).pointer() + count,
    {
        if count >= TAPE_LEN - self.pointer {
            return Err(OVERFLOW);
        }
        self.pointer = self.pointer + count;
        Ok(())
    }

    /// Adds `count` to the cell under the cursor, wrapping modulo 256.
    pub fn add(&mut self, count: usize) -> (r: Result<(), i16>)
        requires
            old(self).wf(),
        ensures
            r is Ok,
            final(self).wf(),
            final(self).pointer() == old(self).pointer(),
            final(self).cells() == old(self).cells().update(old(self).pointer(), wrapped(old(self).current() + count)),
    {
        let read = self.read() as i16;
        let step = (count % 256) as i16;
        let new_value: i16 = read + step;
        proof {
            assert((read + step) % 256 == (read + count) % 256) by (nonlinear_arith)
                requires step == count % 256, count >= 0;
        }
        self.write(new_value)
    }

    /// Subtracts `count` from the cell under the cursor, wrapping modulo 256.
    pub fn substract(&mut self, count: usize) -> (r: Result<(), i16>)
        requires
            old(self).wf(),
        ensures
            r is Ok,
            final(self).wf(),
            final(self).pointer() == old(self).pointer(),
            final(self).cells() == old(self).cells().update(old(self).pointer(), wrapped(old(self).current() - count)),
    {
        let read = self.read() as i16;
        let step = (count % 256) as i16;
        let new_value: i16 = read - step;
        proof {
            assert((read - step) % 256 == (read - count) % 256) by (nonlinear_arith)
                requires step == count % 256, count >= 0;
        }
        self.write(new_value)
    }
}

} // verus!
