use crate::bfparser::ir::{
    close_from, close_of, lemma_close_bounds, lemma_views_index, lemma_views_len, views, Ir, BFIR,
};
use crate::bfparser::parser::TOKEN;
use crate::bftype::bferror::RuntimeErrorKind;
use crate::bfvm::machine::{exec_ir, exec_tokens, Machine, Outcome, ASCII_OFFSET, MEMORY_SIZE};
use vstd::prelude::*;

verus! {

/// The state of a run by the interpreter.
#[derive(Debug, PartialEq, Eq)]
pub struct Run {
    /// The cells.
    pub memory: Vec<u8>,
    /// The index of the current cell.
    pub ptr: usize,
    /// How many bytes of the input are read.
    pub consumed: usize,
    /// The output written so far.
    pub output: Vec<u8>,
    /// Where the tape pointer stood at each read and write so far.
    pub io_at: Vec<usize>,
    /// Whether bytes are shifted by the code of `'0'` on their way in and
    /// out.
    pub ascii_offset: bool,
}

/// How a run by the interpreter ended.
#[derive(Clone, Copy, Debug, PartialEq, Eq, Structural)]
pub enum Status {
    /// The code ran to its end.
    Done,
    /// The run was stopped by an error.
    Fault(RuntimeErrorKind),
    /// The run was cut off: it needed more loop rounds than it was given.
    OutOfFuel,
}

impl Run {
    /// The machine that the state stands for, reading `input`.
    pub open spec fn machine(self, input: Seq<u8>) -> Machine {
        Machine {
            tape: self.memory@,
            ptr: self.ptr as int,
            input: input.skip(self.consumed as int),
            output: self.output@,
            io_at: Seq::new(self.io_at@.len(), |k: int| self.io_at@[k] as int),
            ascii_offset: self.ascii_offset,
        }
    }

    /// The state stands for a machine whose pointer is on the tape, and has
    /// read no more than there is.
    pub open spec fn wf(self, input: Seq<u8>) -> bool {
        self.machine(input).wf() && self.consumed <= input.len()
    }

    /// The state a run starts in.
    pub fn new(ascii_offset: bool) -> (r: Self)
        ensures
            forall|input: Seq<u8>| #[trigger] r.machine(input) == Machine::start(input, ascii_offset),
            forall|input: Seq<u8>| #[trigger] r.wf(input),
    {
        let mut memory: Vec<u8> = Vec::new();
        let mut i: usize = 0;
        while i < MEMORY_SIZE
            invariant
                i <= MEMORY_SIZE,
                memory@ == Seq::new(i as nat, |k: int| 0u8),
            decreases MEMORY_SIZE - i,
        {
            memory.push(0);
            proof {
                assert(memory@ =~= Seq::new((i + 1) as nat, |k: int| 0u8));
            }
            i += 1;
        }
        let r = Run {
            memory,
            ptr: 0,
            consumed: 0,
            output: Vec::new(),
            io_at: Vec::new(),
            ascii_offset,
        };
        proof {
            assert forall|input: Seq<u8>| #[trigger]
                r.machine(input) == Machine::start(input, ascii_offset) by {
                assert(input.skip(0) =~= input);
                assert(r.machine(input).io_at =~= Seq::<int>::empty());
            }
        }
        r
    }

    fn add(&mut self, n: u8, Ghost(input): Ghost<Seq<u8>>)
        requires
            old(self).wf(input),
        ensures
            final(self).wf(input),
            final(self).machine(input) == old(self).machine(input).add(n as int),
    {
        let cell = self.memory[self.ptr];
        self.memory.set(self.ptr, cell.wrapping_add(n));
        proof {
            assert(final(self).machine(input).io_at =~= old(self).machine(input).io_at);
        }
    }

    fn sub(&mut self, n: u8, Ghost(input): Ghost<Seq<u8>>)
        requires
            old(self).wf(input),
        ensures
            final(self).wf(input),
            final(self).machine(input) == old(self).machine(input).add(-(n as int)),
    {
        let cell = self.memory[self.ptr];
        self.memory.set(self.ptr, cell.wrapping_sub(n));
        proof {
            assert(final(self).machine(input).io_at =~= old(self).machine(input).io_at);
        }
    }

    fn right(&mut self, k: u32, Ghost(input): Ghost<Seq<u8>>) -> (moved: bool)
        requires
            old(self).wf(input),
        ensures
            final(self).wf(input),
            moved == old(self).machine(input).can_move(k as int),
            final(self).machine(input) == if moved {
                old(self).machine(input).moved(k as int)
            } else {
                old(self).machine(input)
            },
    {
        if k as usize <= MEMORY_SIZE - 1 - self.ptr {
            self.ptr = self.ptr + k as usize;
            proof {
                assert(final(self).machine(input).io_at =~= old(self).machine(input).io_at);
            }
            true
        } else {
            false
        }
    }

    fn left(&mut self, k: u32, Ghost(input): Ghost<Seq<u8>>) -> (moved: bool)
        requires
            old(self).wf(input),
        ensures
            final(self).wf(input),
            moved == old(self).machine(input).can_move(-(k as int)),
            final(self).machine(input) == if moved {
                old(self).machine(input).moved(-(k as int))
            } else {
                old(self).machine(input)
            },
    {
        if k as usize <= self.ptr {
            self.ptr = self.ptr - k as usize;
            proof {
                assert(final(self).machine(input).io_at =~= old(self).machine(input).io_at);
            }
            true
        } else {
            false
        }
    }

    fn read(&mut self, input: &Vec<u8>) -> (read: bool)
        requires
            old(self).wf(input@),
        ensures
            final(self).wf(input@),
            read == (old(self).machine(input@).input.len() > 0),
            final(self).machine(input@) == if read {
                old(self).machine(input@).read()
            } else {
                old(self).machine(input@)
            },
    {
        if self.consumed < input.len() {
            let byte = input[self.consumed];
            let cell = if self.ascii_offset {
                byte.wrapping_sub(ASCII_OFFSET)
            } else {
                byte
            };
            self.memory.set(self.ptr, cell);
            self.io_at.push(self.ptr);
            self.consumed = self.consumed + 1;
            proof {
                let before = old(self).machine(input@);
                assert(final(self).machine(input@).io_at =~= before.io_at.push(before.ptr));
                assert(final(self).machine(input@).input =~= before.input.drop_first());
            }
            true
        } else {
            false
        }
    }

    fn write(&mut self, Ghost(input): Ghost<Seq<u8>>)
        requires
            old(self).wf(input),
        ensures
            final(self).wf(input),
            final(self).machine(input) == old(self).machine(input).write(),
    {
        let cell = self.memory[self.ptr];
        let byte = if self.ascii_offset {
            cell.wrapping_add(ASCII_OFFSET)
        } else {
            cell
        };
        self.output.push(byte);
        self.io_at.push(self.ptr);
        proof {
            let before = old(self).machine(input);
            assert(final(self).machine(input).io_at =~= before.io_at.push(before.ptr));
        }
    }
}

/// How a run ended, with the machine it ended in.
pub open spec fn outcome(status: Status, run: Run, input: Seq<u8>) -> Outcome {
    match status {
        Status::Done => Outcome::Done(run.machine(input)),
        Status::Fault(kind) => Outcome::Fault(kind, run.machine(input)),
        Status::OutOfFuel => Outcome::OutOfFuel(run.machine(input)),
    }
}

/// Runs code on `input`, from the state `run`, with `fuel` loop rounds to
/// spend.
pub fn run_ir(irs: &Vec<BFIR>, input: &Vec<u8>, run: &mut Run, fuel: u64) -> (status: Status)
    requires
        old(run).wf(input@),
    ensures
        final(run).wf(input@),
        outcome(status, *final(run), input@) == exec_ir(
            views(irs@),
            old(run).machine(input@),
            fuel as nat,
        ),
    decreases fuel, irs.len(),
{
    let ghost nodes = views(irs@);
    let ghost target = exec_ir(nodes, run.machine(input@), fuel as nat);
    let mut left: u64 = fuel;
    let mut index: usize = 0;
    proof {
        lemma_views_len(irs@);
        assert(nodes.skip(0) =~= nodes);
    }
    while index < irs.len()
        invariant
            index <= irs.len(),
            left <= fuel,
            nodes == views(irs@),
            nodes.len() == irs.len(),
            run.wf(input@),
            target == exec_ir(nodes, old(run).machine(input@), fuel as nat),
            exec_ir(nodes.skip(index as int), run.machine(input@), left as nat) == target,
        decreases irs.len() - index, left,
    {
        proof {
            lemma_views_index(irs@, index as int);
            assert(nodes.skip(index as int).drop_first() =~= nodes.skip(index + 1));
            assert(nodes.skip(index as int)[0] == irs@[index as int]@);
        }
        match &irs[index] {
            BFIR::Add(n) => run.add(*n, Ghost(input@)),
            BFIR::Sub(n) => run.sub(*n, Ghost(input@)),
            BFIR::MoveRight(k) => {
                if !run.right(*k, Ghost(input@)) {
                    return Status::Fault(RuntimeErrorKind::OutOfRange);
                }
            },
            BFIR::MoveLeft(k) => {
                if !run.left(*k, Ghost(input@)) {
                    return Status::Fault(RuntimeErrorKind::OutOfRange);
                }
            },
            BFIR::Input => {
                if !run.read(input) {
                    return Status::Fault(RuntimeErrorKind::IO);
                }
            },
            BFIR::Output => run.write(Ghost(input@)),
            BFIR::Loop(body) => {
                if run.memory[run.ptr] != 0 {
                    if left == 0 {
                        return Status::OutOfFuel;
                    }
                    left = left - 1;
                    match run_ir(body, input, run, left) {
                        Status::Done => {},
                        other => {
                            return other;
                        },
                    }
                    continue ;
                }
            },
        }
        index += 1;
    }
    proof {
        assert(nodes.skip(irs.len() as int) =~= Seq::<Ir>::empty());
    }
    Status::Done
}

/// Finds the `]` that closes the `[` at `index`; the number of tokens where
/// none does.
pub fn find_close(tokens: &Vec<TOKEN>, index: usize) -> (r: usize)
    requires
        index < tokens.len(),
    ensures
        r == close_of(tokens@, index as int),
        index < r <= tokens.len(),
{
    let mut at: usize = index + 1;
    let mut open: usize = 0;
    proof {
        lemma_close_bounds(tokens@, index + 1, 0);
    }
    while at < tokens.len()
        invariant
            index < at <= tokens.len(),
            open <= at - index - 1,
            close_from(tokens@, at as int, open as nat) == close_of(tokens@, index as int),
        decreases tokens.len() - at,
    {
        match tokens[at] {
            TOKEN::RightLoop => {
                if open == 0 {
                    return at;
                }
                open = open - 1;
            },
            TOKEN::LeftLoop => {
                open = open + 1;
            },
            _ => {},
        }
        at += 1;
    }
    at
}

/// Runs tokens on `input`, one at a time, from `start` to the `]` that ends
/// the loop body they stand in, or to the end, from the state `run`, with
/// `fuel` loop rounds to spend.
pub fn run_tokens(
    tokens: &Vec<TOKEN>,
    start: usize,
    input: &Vec<u8>,
    run: &mut Run,
    fuel: u64,
) -> (status: Status)
    requires
        old(run).wf(input@),
    ensures
        final(run).wf(input@),
        outcome(status, *final(run), input@) == exec_tokens(
            tokens@,
            start as int,
            old(run).machine(input@),
            fuel as nat,
        ),
    decreases fuel, tokens.len() - start,
{
    let ghost t = tokens@;
    let ghost target = exec_tokens(t, start as int, run.machine(input@), fuel as nat);
    let mut left: u64 = fuel;
    let mut at: usize = start;
    while at < tokens.len()
        invariant
            left <= fuel,
            t == tokens@,
            run.wf(input@),
            target == exec_tokens(t, start as int, old(run).machine(input@), fuel as nat),
            exec_tokens(t, at as int, run.machine(input@), left as nat) == target,
        decreases tokens.len() - at, left,
    {
        match tokens[at] {
            TOKEN::Increment => run.add(1, Ghost(input@)),
            TOKEN::Decrement => run.sub(1, Ghost(input@)),
            TOKEN::MoveRight => {
                if !run.right(1, Ghost(input@)) {
                    return Status::Fault(RuntimeErrorKind::OutOfRange);
                }
            },
            TOKEN::MoveLeft => {
                if !run.left(1, Ghost(input@)) {
                    return Status::Fault(RuntimeErrorKind::OutOfRange);
                }
            },
            TOKEN::Input => {
                if !run.read(input) {
                    return Status::Fault(RuntimeErrorKind::IO);
                }
            },
            TOKEN::Output => run.write(Ghost(input@)),
            TOKEN::RightLoop => {
                return Status::Done;
            },
            TOKEN::LeftLoop => {
                if run.memory[run.ptr] != 0 {
                    if left == 0 {
                        return Status::OutOfFuel;
                    }
                    left = left - 1;
                    match run_tokens(tokens, at + 1, input, run, left) {
                        Status::Done => {},
                        other => {
                            return other;
                        },
                    }
                    continue ;
                }
                let close = find_close(tokens, at);
                if close >= tokens.len() {
                    return Status::Done;
                }
                at = close;
            },
        }
        at += 1;
    }
    Status::Done
}

} // verus!
