//! A memory bank: two growable tapes of cells, a pointer into each, and which
//! of the two is active.
use vstd::prelude::*;

verus! {

/// A bank as a mathematical value.
pub struct BankState {
    pub tape0: Seq<u64>,
    pub tape1: Seq<u64>,
    pub pointer0: int,
    pub pointer1: int,
    pub active: int,
}

impl BankState {
    /// Tape `t` (0 or 1).
    pub open spec fn tape(self, t: int) -> Seq<u64> {
        if t == 0 {
            self.tape0
        } else {
            self.tape1
        }
    }

    /// The pointer into tape `t`.
    pub open spec fn pointer(self, t: int) -> int {
        if t == 0 {
            self.pointer0
        } else {
            self.pointer1
        }
    }

    /// Each pointer designates a cell of its tape, and the active tape is 0 or 1.
    pub open spec fn wf(self) -> bool {
        &&& 0 <= self.active < 2
        &&& 0 <= self.pointer0 < self.tape0.len()
        &&& 0 <= self.pointer1 < self.tape1.len()
    }

    /// The active cell: where the active tape's pointer stands.
    pub open spec fn cell(self) -> u64 {
        self.tape(self.active)[self.pointer(self.active)]
    }

    /// The bank with tape `t` replaced by `s` and its pointer set to `p`.
    pub open spec fn with_tape(self, t: int, s: Seq<u64>, p: int) -> BankState {
        if t == 0 {
            BankState { tape0: s, pointer0: p, ..self }
        } else {
            BankState { tape1: s, pointer1: p, ..self }
        }
    }

    /// The bank with its active cell set to `v`.
    pub open spec fn with_cell(self, v: u64) -> BankState {
        let t = self.active;
        self.with_tape(t, self.tape(t).update(self.pointer(t), v), self.pointer(t))
    }

    /// The active pointer one cell to the right, a zero cell appended when it
    /// passes the end.
    pub open spec fn moved_right(self) -> BankState {
        let t = self.active;
        let p = self.pointer(t) + 1;
        let s = if p >= self.tape(t).len() {
            self.tape(t).push(0)
        } else {
            self.tape(t)
        };
        self.with_tape(t, s, p)
    }

    /// The active pointer one cell to the left; at the first cell, a zero cell
    /// is put in front and the pointer stays at 0.
    pub open spec fn moved_left(self) -> BankState {
        let t = self.active;
        if self.pointer(t) == 0 {
            self.with_tape(t, seq![0u64] + self.tape(t), 0)
        } else {
            self.with_tape(t, self.tape(t), self.pointer(t) - 1)
        }
    }

    /// The other tape made active.
    pub open spec fn switched(self) -> BankState {
        BankState { active: 1 - self.active, ..self }
    }
}

/// A bank: two tapes of IEEE-754 doubles (as bit patterns), each with its own
/// pointer, one of them active.
pub struct Bank {
    tape0: Vec<u64>,
    tape1: Vec<u64>,
    pointer0: usize,
    pointer1: usize,
    active: usize,
}

impl View for Bank {
    type V = BankState;

    closed spec fn view(&self) -> BankState {
        BankState {
            tape0: self.tape0@,
            tape1: self.tape1@,
            pointer0: self.pointer0 as int,
            pointer1: self.pointer1 as int,
            active: self.active as int,
        }
    }
}

impl Bank {
    /// A fresh bank: one zero cell on the first tape, one `seed` cell on the
    /// second, both pointers at 0, the first tape active.
    pub fn new(seed: u64) -> (r: Bank)
        ensures
            r@ == (BankState { tape0: seq![0u64], tape1: seq![seed], pointer0: 0, pointer1: 0, active: 0 }),
    {
        let r = Bank { tape0: vec![0u64], tape1: vec![seed], pointer0: 0, pointer1: 0, active: 0 };
        assert(r@.tape0 =~= seq![0u64]);
        assert(r@.tape1 =~= seq![seed]);
        r
    }

    /// The value of the active cell.
    pub fn cell(&self) -> (r: u64)
        requires
            self@.wf(),
        ensures
            r == self@.cell(),
    {
        if self.active == 0 {
            self.tape0[self.pointer0]
        } else {
            self.tape1[self.pointer1]
        }
    }

    /// Sets the active cell to `v`.
    pub fn set_cell(&mut self, v: u64)
        requires
            old(self)@.wf(),
        ensures
            final(self)@ == old(self)@.with_cell(v),
            final(self)@.wf(),
    {
        if self.active == 0 {
            self.tape0.set(self.pointer0, v);
        } else {
            self.tape1.set(self.pointer1, v);
        }
        assert(self@ =~= old(self)@.with_cell(v));
    }

    /// Moves the active pointer right, growing the tape when needed.
    pub fn move_right(&mut self)
        requires
            old(self)@.wf(),
        ensures
            final(self)@ == old(self)@.moved_right(),
            final(self)@.wf(),
    {
        if self.active == 0 {
            let n = self.tape0.len();
            self.pointer0 = self.pointer0 + 1;
            if self.pointer0 >= n {
                self.tape0.push(0);
            }
        } else {
            let n = self.tape1.len();
            self.pointer1 = self.pointer1 + 1;
            if self.pointer1 >= n {
                self.tape1.push(0);
            }
        }
        assert(self@ =~= old(self)@.moved_right());
    }

    /// Moves the active pointer left; at the first cell a zero cell is put in
    /// front instead. Returns whether the tape grew.
    pub fn move_left(&mut self) -> (grew: bool)
        requires
            old(self)@.wf(),
        ensures
            final(self)@ == old(self)@.moved_left(),
            final(self)@.wf(),
            grew == (old(self)@.pointer(old(self)@.active) == 0),
    {
        if self.active == 0 {
            if self.pointer0 == 0 {
                self.tape0.insert(0, 0);
                assert(self.tape0@ =~= seq![0u64] + old(self).tape0@);
                assert(self@ =~= old(self)@.moved_left());
                return true;
            }
            self.pointer0 = self.pointer0 - 1;
        } else {
            if self.pointer1 == 0 {
                self.tape1.insert(0, 0);
                assert(self.tape1@ =~= seq![0u64] + old(self).tape1@);
                assert(self@ =~= old(self)@.moved_left());
                return true;
            }
            self.pointer1 = self.pointer1 - 1;
        }
        assert(self@ =~= old(self)@.moved_left());
        false
    }

    /// Makes the other tape active.
    pub fn switch_tape(&mut self)
        requires
            old(self)@.wf(),
        ensures
            final(self)@ == old(self)@.switched(),
            final(self)@.wf(),
    {
        self.active = 1 - self.active;
        assert(self@ =~= old(self)@.switched());
    }

    /// Which tape is active.
    pub fn active_tape(&self) -> (r: usize)
        ensures
            r == self@.active,
    {
        self.active
    }

    /// The pointer into tape `t` (0 or 1).
    pub fn pointer_of(&self, t: usize) -> (r: usize)
        ensures
            r == self@.pointer(t as int),
    {
        if t == 0 {
            self.pointer0
        } else {
            self.pointer1
        }
    }

    /// The cells of tape `t` (0 or 1).
    pub fn tape_values(&self, t: usize) -> (r: Vec<u64>)
        ensures
            r@ == self@.tape(t as int),
    {
        let src = if t == 0 {
            &self.tape0
        } else {
            &self.tape1
        };
        let mut r: Vec<u64> = Vec::new();
        let mut i: usize = 0;
        while i < src.len()
            invariant
                i <= src@.len(),
                r@ == src@.subrange(0, i as int),
            decreases src@.len() - i,
        {
            r.push(src[i]);
            i = i + 1;
            assert(r@ =~= src@.subrange(0, i as int));
        }
        assert(r@ =~= src@);
        r
    }
}

} // verus!
