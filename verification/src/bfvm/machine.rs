use crate::bfparser::ir::{
    class_of, close_of, lemma_close_bounds, lemma_run_step, net, run_end, Class, Ir,
};
use crate::bfparser::parser::TOKEN;
use crate::bftype::bferror::RuntimeErrorKind;
use vstd::prelude::*;

verus! {

/// The number of cells of the tape.
pub const MEMORY_SIZE: usize = 30000;

/// What is added to a byte that is written and taken from a byte that is
/// read where the engine is set to work on digits: the code of `'0'`.
pub const ASCII_OFFSET: u8 = 48;

/// The state of a run, as the language defines it.
pub struct Machine {
    /// The cells.
    pub tape: Seq<u8>,
    /// The index of the current cell.
    pub ptr: int,
    /// The input that is not read yet.
    pub input: Seq<u8>,
    /// The output written so far.
    pub output: Seq<u8>,
    /// Where the tape pointer stood at each read and write so far.
    pub io_at: Seq<int>,
    /// Whether bytes are shifted by the code of `'0'` on their way in and
    /// out.
    pub ascii_offset: bool,
}

/// How a run ended, with the state it ended in.
pub enum Outcome {
    /// The code ran to its end.
    Done(Machine),
    /// The run was stopped by an error.
    Fault(RuntimeErrorKind, Machine),
    /// The run was cut off: it needed more loop rounds than it was given.
    OutOfFuel(Machine),
}

impl Outcome {
    /// The state the run ended in.
    pub open spec fn machine(self) -> Machine {
        match self {
            Outcome::Done(m) => m,
            Outcome::Fault(_, m) => m,
            Outcome::OutOfFuel(m) => m,
        }
    }

    /// The run ended because the tape pointer would have left the tape.
    pub open spec fn left_tape(self) -> bool {
        self matches Outcome::Fault(kind, _) && kind == RuntimeErrorKind::OutOfRange
    }
}

/// A byte read, as the cell gets it.
pub open spec fn as_read(byte: u8, ascii_offset: bool) -> u8 {
    if ascii_offset {
        ((byte - ASCII_OFFSET) % 256) as u8
    } else {
        byte
    }
}

/// A cell, as the byte that is written for it.
pub open spec fn as_written(cell: u8, ascii_offset: bool) -> u8 {
    if ascii_offset {
        ((cell + ASCII_OFFSET) % 256) as u8
    } else {
        cell
    }
}

impl Machine {
    /// The state a run starts in: every cell zero, the pointer on the first
    /// cell, nothing read or written.
    pub open spec fn start(input: Seq<u8>, ascii_offset: bool) -> Machine {
        Machine {
            tape: Seq::new(MEMORY_SIZE as nat, |i: int| 0u8),
            ptr: 0,
            input,
            output: Seq::empty(),
            io_at: Seq::empty(),
            ascii_offset,
        }
    }

    /// The tape has its size, and the pointer is on it, as it was at every
    /// read and write.
    pub open spec fn wf(self) -> bool {
        &&& self.tape.len() == MEMORY_SIZE
        &&& 0 <= self.ptr < MEMORY_SIZE
        &&& forall|k: int| 0 <= k < self.io_at.len() ==> 0 <= #[trigger] self.io_at[k] < MEMORY_SIZE
    }

    /// The current cell.
    pub open spec fn cell(self) -> u8 {
        self.tape[self.ptr]
    }

    /// The current cell changed by `n`, modulo 256.
    pub open spec fn add(self, n: int) -> Machine {
        Machine { tape: self.tape.update(self.ptr, ((self.cell() + n) % 256) as u8), ..self }
    }

    /// Whether the pointer stays on the tape when moved by `k`.
    pub open spec fn can_move(self, k: int) -> bool {
        0 <= self.ptr + k < MEMORY_SIZE
    }

    /// The pointer moved by `k`.
    pub open spec fn moved(self, k: int) -> Machine {
        Machine { ptr: self.ptr + k, ..self }
    }

    /// One byte of input taken into the current cell.
    pub open spec fn read(self) -> Machine {
        Machine {
            tape: self.tape.update(self.ptr, as_read(self.input[0], self.ascii_offset)),
            input: self.input.drop_first(),
            io_at: self.io_at.push(self.ptr),
            ..self
        }
    }

    /// The current cell written.
    pub open spec fn write(self) -> Machine {
        Machine {
            output: self.output.push(as_written(self.cell(), self.ascii_offset)),
            io_at: self.io_at.push(self.ptr),
            ..self
        }
    }
}

/// Runs code on a machine. Every round of a loop takes one unit of `fuel`
/// from what follows; a run that needs a round with none left is cut off.
pub open spec fn exec_ir(nodes: Seq<Ir>, m: Machine, fuel: nat) -> Outcome
    decreases fuel, nodes.len(),
{
    if nodes.len() == 0 {
        Outcome::Done(m)
    } else {
        let rest = nodes.drop_first();
        match nodes[0] {
            Ir::Add(n) => exec_ir(rest, m.add(n), fuel),
            Ir::Sub(n) => exec_ir(rest, m.add(-n), fuel),
            Ir::MoveRight(k) => if m.can_move(k) {
                exec_ir(rest, m.moved(k), fuel)
            } else {
                Outcome::Fault(RuntimeErrorKind::OutOfRange, m)
            },
            Ir::MoveLeft(k) => if m.can_move(-k) {
                exec_ir(rest, m.moved(-k), fuel)
            } else {
                Outcome::Fault(RuntimeErrorKind::OutOfRange, m)
            },
            Ir::Input => if m.input.len() > 0 {
                exec_ir(rest, m.read(), fuel)
            } else {
                Outcome::Fault(RuntimeErrorKind::IO, m)
            },
            Ir::Output => exec_ir(rest, m.write(), fuel),
            Ir::Loop(body) => if m.cell() == 0 {
                exec_ir(rest, m, fuel)
            } else if fuel == 0 {
                Outcome::OutOfFuel(m)
            } else {
                match exec_ir(body, m, (fuel - 1) as nat) {
                    Outcome::Done(after) => exec_ir(nodes, after, (fuel - 1) as nat),
                    other => other,
                }
            },
        }
    }
}

/// Runs tokens on a machine, one at a time, from `i` to the `]` that ends
/// the loop body they stand in, or to the end. Fuel counts as in
/// [`exec_ir`].
pub open spec fn exec_tokens(t: Seq<TOKEN>, i: int, m: Machine, fuel: nat) -> Outcome
    decreases fuel, t.len() - i,
{
    if i < 0 || i >= t.len() {
        Outcome::Done(m)
    } else {
        match t[i] {
            TOKEN::Increment => exec_tokens(t, i + 1, m.add(1), fuel),
            TOKEN::Decrement => exec_tokens(t, i + 1, m.add(-1), fuel),
            TOKEN::MoveRight => if m.can_move(1) {
                exec_tokens(t, i + 1, m.moved(1), fuel)
            } else {
                Outcome::Fault(RuntimeErrorKind::OutOfRange, m)
            },
            TOKEN::MoveLeft => if m.can_move(-1) {
                exec_tokens(t, i + 1, m.moved(-1), fuel)
            } else {
                Outcome::Fault(RuntimeErrorKind::OutOfRange, m)
            },
            TOKEN::Input => if m.input.len() > 0 {
                exec_tokens(t, i + 1, m.read(), fuel)
            } else {
                Outcome::Fault(RuntimeErrorKind::IO, m)
            },
            TOKEN::Output => exec_tokens(t, i + 1, m.write(), fuel),
            TOKEN::RightLoop => Outcome::Done(m),
            TOKEN::LeftLoop => if m.cell() == 0 {
                proof {
                    lemma_close_bounds(t, i + 1, 0);
                }
                if close_of(t, i) < t.len() {
                    exec_tokens(t, close_of(t, i) + 1, m, fuel)
                } else {
                    Outcome::Done(m)
                }
            } else if fuel == 0 {
                Outcome::OutOfFuel(m)
            } else {
                match exec_tokens(t, i + 1, m, (fuel - 1) as nat) {
                    Outcome::Done(after) => exec_tokens(t, i, after, (fuel - 1) as nat),
                    other => other,
                }
            },
        }
    }
}

/// Runs tokens on a machine as [`exec_tokens`] does, but for one thing: a
/// run of `+` and `-` and a run of `<` and `>` is taken in one step, by what
/// it adds up to. A run of moves takes the pointer off the tape where its
/// sum does, whatever the pointer does on the way.
pub open spec fn exec_runs(t: Seq<TOKEN>, i: int, m: Machine, fuel: nat) -> Outcome
    decreases fuel, t.len() - i,
{
    if i < 0 || i >= t.len() {
        Outcome::Done(m)
    } else {
        match class_of(t[i]) {
            Class::Cell => {
                proof {
                    lemma_run_step(t, i, Class::Cell);
                }
                let e = run_end(t, i, Class::Cell);
                exec_runs(t, e, m.add(net(t, i, e)), fuel)
            },
            Class::Move => {
                proof {
                    lemma_run_step(t, i, Class::Move);
                }
                let e = run_end(t, i, Class::Move);
                if m.can_move(net(t, i, e)) {
                    exec_runs(t, e, m.moved(net(t, i, e)), fuel)
                } else {
                    Outcome::Fault(RuntimeErrorKind::OutOfRange, m)
                }
            },
            Class::Io => if t[i] == TOKEN::Output {
                exec_runs(t, i + 1, m.write(), fuel)
            } else if m.input.len() > 0 {
                exec_runs(t, i + 1, m.read(), fuel)
            } else {
                Outcome::Fault(RuntimeErrorKind::IO, m)
            },
            Class::Close => Outcome::Done(m),
            Class::Open => if m.cell() == 0 {
                proof {
                    lemma_close_bounds(t, i + 1, 0);
                }
                if close_of(t, i) < t.len() {
                    exec_runs(t, close_of(t, i) + 1, m, fuel)
                } else {
                    Outcome::Done(m)
                }
            } else if fuel == 0 {
                Outcome::OutOfFuel(m)
            } else {
                match exec_runs(t, i + 1, m, (fuel - 1) as nat) {
                    Outcome::Done(after) => exec_runs(t, i, after, (fuel - 1) as nat),
                    other => other,
                }
            },
        }
    }
}

/// Whatever code runs, and however it ends, the tape pointer is on the tape:
/// in the state the run ends in, and at every read and write on the way.
pub proof fn lemma_pointer_stays_on_tape(nodes: Seq<Ir>, m: Machine, fuel: nat)
    requires
        m.wf(),
    ensures
        exec_ir(nodes, m, fuel).machine().wf(),
    decreases fuel, nodes.len(),
{
    if nodes.len() > 0 {
        let rest = nodes.drop_first();
        match nodes[0] {
            Ir::Add(n) => lemma_pointer_stays_on_tape(rest, m.add(n), fuel),
            Ir::Sub(n) => lemma_pointer_stays_on_tape(rest, m.add(-n), fuel),
            Ir::MoveRight(k) => if m.can_move(k) {
                lemma_pointer_stays_on_tape(rest, m.moved(k), fuel)
            },
            Ir::MoveLeft(k) => if m.can_move(-k) {
                lemma_pointer_stays_on_tape(rest, m.moved(-k), fuel)
            },
            Ir::Input => if m.input.len() > 0 {
                lemma_pointer_stays_on_tape(rest, m.read(), fuel)
            },
            Ir::Output => lemma_pointer_stays_on_tape(rest, m.write(), fuel),
            Ir::Loop(body) => if m.cell() == 0 {
                lemma_pointer_stays_on_tape(rest, m, fuel)
            } else if fuel > 0 {
                lemma_pointer_stays_on_tape(body, m, (fuel - 1) as nat);
                match exec_ir(body, m, (fuel - 1) as nat) {
                    Outcome::Done(after) => lemma_pointer_stays_on_tape(
                        nodes,
                        after,
                        (fuel - 1) as nat,
                    ),
                    _ => {},
                }
            },
        }
    }
}

/// From its start to its end, a run keeps the tape pointer on the tape.
pub proof fn lemma_run_stays_on_tape(
    nodes: Seq<Ir>,
    input: Seq<u8>,
    ascii_offset: bool,
    fuel: nat,
)
    ensures
        Machine::start(input, ascii_offset).wf(),
        exec_ir(nodes, Machine::start(input, ascii_offset), fuel).machine().wf(),
{
    lemma_pointer_stays_on_tape(nodes, Machine::start(input, ascii_offset), fuel);
}

} // verus!
