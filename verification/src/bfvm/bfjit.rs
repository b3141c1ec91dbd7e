use crate::bftype::bfcate::VMArchType;
use crate::bftype::bferror::{RuntimeError, RuntimeErrorKind};
use crate::bfvm::machine::{as_read, as_written, ASCII_OFFSET, MEMORY_SIZE};
use vstd::prelude::*;

verus! {

/// Where an engine is in its one run.
#[derive(Clone, Copy, Debug, PartialEq, Eq, Structural)]
pub enum VMState {
    /// Made, not run yet.
    Ready,
    /// Inside the generated code.
    Running,
    /// The code returned null.
    Done,
    /// The run was refused, or the code returned an error.
    Error,
}

/// What the engine owns besides the code and the streams: the tape, the
/// architecture it is to run on, whether bytes are shifted by the code of
/// `'0'`, and how far its one run has come.
pub struct VMStruct {
    memory: Vec<u8>,
    vm_arch_type: VMArchType,
    add_48: bool,
    state: VMState,
}

impl VMStruct {
    /// The tape.
    pub closed spec fn tape(self) -> Seq<u8> {
        self.memory@
    }

    /// The architecture the engine is to run on.
    pub closed spec fn arch(self) -> VMArchType {
        self.vm_arch_type
    }

    /// Whether bytes are shifted by the code of `'0'`.
    pub closed spec fn ascii_offset(self) -> bool {
        self.add_48
    }

    /// How far the run has come.
    pub closed spec fn state(self) -> VMState {
        self.state
    }

    /// The error that generated code reports where the tape pointer would
    /// leave the tape.
    pub fn overflow_error() -> (r: RuntimeError)
        ensures
            r == (RuntimeError { index: 1, kind: RuntimeErrorKind::OutOfRange }),
    {
        RuntimeError { index: 1, kind: RuntimeErrorKind::OutOfRange }
    }

    /// An engine that is ready to run, with a tape of zeros.
    pub fn new(vm_arch_type: VMArchType, add_48: bool) -> (r: Result<Self, RuntimeError>)
        ensures
            r matches Ok(vm) && {
                &&& vm.tape() == Seq::new(MEMORY_SIZE as nat, |i: int| 0u8)
                &&& vm.arch() == vm_arch_type
                &&& vm.ascii_offset() == add_48
                &&& vm.state() == VMState::Ready
            },
    {
        let mut memory: Vec<u8> = Vec::new();
        let mut i: usize = 0;
        while i < MEMORY_SIZE
            invariant
                i <= MEMORY_SIZE,
                memory@ == Seq::new(i as nat, |k: int| 0u8),
            decreases MEMORY_SIZE - i,
        {
            memory.push(0);
            proof {
                assert(memory@ =~= Seq::new((i + 1) as nat, |k: int| 0u8));
            }
            i += 1;
        }
        Ok(VMStruct { memory, vm_arch_type, add_48, state: VMState::Ready })
    }

    /// Starts the run. A ready engine for x86-64 enters its code; a ready
    /// engine for another architecture ends in the error state. An engine
    /// that is not ready stays as it is. Whatever does not start the run is
    /// refused as unknown.
    pub fn run(&mut self) -> (r: Result<(), RuntimeError>)
        ensures
            final(self).tape() == old(self).tape(),
            final(self).arch() == old(self).arch(),
            final(self).ascii_offset() == old(self).ascii_offset(),
            r is Ok <==> old(self).arch().supported() && old(self).state() == VMState::Ready,
            r matches Err(e) ==> e == (RuntimeError { index: 1, kind: RuntimeErrorKind::Unknown }),
            final(self).state() == if old(self).state() != VMState::Ready {
                old(self).state()
            } else if old(self).arch().supported() {
                VMState::Running
            } else {
                VMState::Error
            },
    {
        match (self.state, self.vm_arch_type) {
            (VMState::Ready, VMArchType::X64) => {
                self.state = VMState::Running;
                Ok(())
            },
            (VMState::Ready, _) => {
                self.state = VMState::Error;
                Err(RuntimeError { index: 1, kind: RuntimeErrorKind::Unknown })
            },
            _ => Err(RuntimeError { index: 1, kind: RuntimeErrorKind::Unknown }),
        }
    }

    /// Ends the run with what the code returned: nothing, or an error. An
    /// engine that is not running stays as it is and is refused as unknown.
    pub fn finish(&mut self, returned: Option<RuntimeError>) -> (r: Result<(), RuntimeError>)
        ensures
            final(self).tape() == old(self).tape(),
            final(self).arch() == old(self).arch(),
            final(self).ascii_offset() == old(self).ascii_offset(),
            r == if old(self).state() != VMState::Running {
                Err::<(), RuntimeError>(
                    RuntimeError { index: 1, kind: RuntimeErrorKind::Unknown },
                )
            } else {
                match returned {
                    None => Ok(()),
                    Some(e) => Err(e),
                }
            },
            final(self).state() == if old(self).state() != VMState::Running {
                old(self).state()
            } else if returned is None {
                VMState::Done
            } else {
                VMState::Error
            },
    {
        match self.state {
            VMState::Running => match returned {
                None => {
                    self.state = VMState::Done;
                    Ok(())
                },
                Some(e) => {
                    self.state = VMState::Error;
                    Err(e)
                },
            },
            _ => Err(RuntimeError { index: 1, kind: RuntimeErrorKind::Unknown }),
        }
    }

    /// What a read puts into the cell: the byte that was read, shifted where
    /// the engine is set so. A read that gave no byte is an `IO` error.
    pub fn put_x64_byte(&self, read: Option<u8>) -> (r: Result<u8, RuntimeError>)
        ensures
            r == match read {
                Some(byte) => Ok::<u8, RuntimeError>(as_read(byte, self.ascii_offset())),
                None => Err(RuntimeError { index: 1, kind: RuntimeErrorKind::IO }),
            },
    {
        match read {
            Some(byte) => Ok(
                if self.add_48 {
                    byte.wrapping_sub(ASCII_OFFSET)
                } else {
                    byte
                },
            ),
            None => Err(RuntimeError { index: 1, kind: RuntimeErrorKind::IO }),
        }
    }

    /// The byte that is written for a cell, shifted where the engine is set
    /// so.
    pub fn get_x64_byte(&self, cell: u8) -> (r: u8)
        ensures
            r == as_written(cell, self.ascii_offset()),
    {
        if self.add_48 {
            cell.wrapping_add(ASCII_OFFSET)
        } else {
            cell
        }
    }

    /// What a write comes to: anything but exactly one byte written is an
    /// `IO` error.
    pub fn written(count: Option<usize>) -> (r: Result<(), RuntimeError>)
        ensures
            r == if count == Some(1usize) {
                Ok::<(), RuntimeError>(())
            } else {
                Err(RuntimeError { index: 1, kind: RuntimeErrorKind::IO })
            },
    {
        match count {
            Some(1) => Ok(()),
            _ => Err(RuntimeError { index: 1, kind: RuntimeErrorKind::IO }),
        }
    }

    /// The cells of the tape, to hand to the generated code. Cells can be
    /// written through what is returned; their number stays.
    pub fn memory_mut(&mut self) -> (r: &mut [u8])
        ensures
            r@ == old(self).tape(),
            final(self).tape() == final(r)@,
            final(self).arch() == old(self).arch(),
            final(self).ascii_offset() == old(self).ascii_offset(),
            final(self).state() == old(self).state(),
    {
        self.memory.as_mut_slice()
    }

    /// The tape.
    pub fn memory(&self) -> (r: &Vec<u8>)
        ensures
            r@ == self.tape(),
    {
        &self.memory
    }

    /// The architecture the engine is to run on.
    pub fn vm_arch_type(&self) -> (r: VMArchType)
        ensures
            r == self.arch(),
    {
        self.vm_arch_type
    }

    /// Whether bytes are shifted by the code of `'0'`.
    pub fn add_48(&self) -> (r: bool)
        ensures
            r == self.ascii_offset(),
    {
        self.add_48
    }

    /// How far the run has come.
    pub fn vm_state(&self) -> (r: VMState)
        ensures
            r == self.state(),
    {
        self.state
    }
}

} // verus!
