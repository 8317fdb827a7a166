use vstd::prelude::*;

use crate::error::VMError;
use crate::primitives::{Address, H32, U256};

verus! {

/// Maximum depth of the interpreter's operand stack.
pub const STACK_LIMIT: usize = 1024;

/// Byte that marks a valid jump destination in bytecode.
pub const OP_JUMPDEST: u8 = 0x5b;

/// One decoded instruction byte.
#[derive(Debug, Clone, Copy, PartialEq, Eq, Structural, Hash)]
pub struct Opcode {
    pub code: u8,
}

impl Opcode {
    pub fn from_byte(code: u8) -> (r: Opcode)
        ensures
            r.code == code,
    {
        Opcode { code }
    }

    pub fn is_jumpdest(&self) -> (r: bool)
        ensures
            r == (self.code == OP_JUMPDEST),
    {
        self.code == OP_JUMPDEST
    }
}

/// Word-addressed scratch storage cleared at the end of each transaction,
/// kept as a list of ((address, slot), value) entries.
pub type TransientStorage = Vec<((Address, U256), U256)>;

/// Data record produced during the execution of a transaction.
#[derive(Debug, Clone)]
pub struct Log {
    pub address: Address,
    pub topics: Vec<H32>,
    pub data: Vec<u8>,
}

impl Default for Log {
    fn default() -> (r: Log)
        ensures
            r.address.wf(),
            r.topics@.len() == 0,
            r.data@.len() == 0,
    {
        Log { address: Address::default(), topics: Vec::new(), data: Vec::new() }
    }
}

/// The interpreter's operand stack of 256-bit words.
#[derive(Debug, Clone)]
pub struct Stack {
    pub stack: Vec<U256>,
}

impl Stack {
    pub fn pop(&mut self) -> (r: Result<U256, VMError>)
        ensures
            old(self).stack@.len() == 0 ==> r == Err::<U256, VMError>(VMError::StackUnderflow)
                && final(self).stack@ == old(self).stack@,
            old(self).stack@.len() > 0 ==> r == Ok::<U256, VMError>(old(self).stack@.last())
                && final(self).stack@ == old(self).stack@.drop_last(),
    {
        match self.stack.pop() {
            Some(value) => Ok(value),
            None => Err(VMError::StackUnderflow),
        }
    }

    pub fn push(&mut self, value: U256) -> (r: Result<(), VMError>)
        ensures
            old(self).stack@.len() >= STACK_LIMIT ==> r == Err::<(), VMError>(
                VMError::StackOverflow,
            ) && final(self).stack@ == old(self).stack@,
            old(self).stack@.len() < STACK_LIMIT ==> r == Ok::<(), VMError>(())
                && final(self).stack@ == old(self).stack@.push(value),
    {
        if self.stack.len() >= STACK_LIMIT {
            return Err(VMError::StackOverflow);
        }
        self.stack.push(value);
        Ok(())
    }

    pub fn len(&self) -> (r: usize)
        ensures
            r == self.stack@.len(),
    {
        self.stack.len()
    }

    pub fn is_empty(&self) -> (r: bool)
        ensures
            r == (self.stack@.len() == 0),
    {
        self.stack.is_empty()
    }

    pub fn get(&self, index: usize) -> (r: Option<&U256>)
        ensures
            index < self.stack@.len() ==> r == Some(&self.stack@[index as int]),
            index >= self.stack@.len() ==> r is None,
    {
        if index < self.stack.len() {
            Some(&self.stack[index])
        } else {
            None
        }
    }

    pub fn swap(&mut self, a: usize, b: usize)
        requires
            a < old(self).stack@.len(),
            b < old(self).stack@.len(),
        ensures
            final(self).stack@ == old(self).stack@.update(a as int, old(self).stack@[b as int]).update(
                b as int,
                old(self).stack@[a as int],
            ),
    {
        let va = self.stack[a];
        let vb = self.stack[b];
        self.stack[a] = vb;
        self.stack[b] = va;
    }
}

impl Default for Stack {
    fn default() -> (r: Stack)
        ensures
            r.stack@.len() == 0,
    {
        Stack { stack: Vec::new() }
    }
}

/// One frame of the interpreter's call stack: code, program counter and
/// the per-call execution context, all held as plain values.
#[derive(Debug, Clone)]
pub struct CallFrame {
    pub gas: U256,
    pub pc: usize,
    pub msg_sender: Address,
    pub callee: Address,
    pub bytecode: Vec<u8>,
    pub delegate: Option<Address>,
    pub msg_value: U256,
    pub stack: Stack,
    pub memory: Vec<u8>,
    pub calldata: Vec<u8>,
    pub returndata: Vec<u8>,
    pub return_data_offset: Option<usize>,
    pub return_data_size: Option<usize>,
    pub transient_storage: TransientStorage,
    pub logs: Vec<Log>,
    pub is_static: bool,
}

impl CallFrame {
    /// The instruction byte at `offset`, if the bytecode reaches it.
    pub open spec fn spec_opcode_at(self, offset: int) -> Option<Opcode> {
        if 0 <= offset < self.bytecode@.len() {
            Some(Opcode { code: self.bytecode@[offset] })
        } else {
            None
        }
    }

    pub fn new(bytecode: Vec<u8>) -> (r: CallFrame)
        ensures
            r.bytecode@ == bytecode@,
            r.pc == 0,
            r.stack.stack@.len() == 0,
            r.gas.value() == 0,
            r.msg_value.value() == 0,
            r.delegate is None,
            r.memory@.len() == 0,
            r.calldata@.len() == 0,
            r.returndata@.len() == 0,
            r.return_data_offset is None,
            r.return_data_size is None,
            r.transient_storage@.len() == 0,
            r.logs@.len() == 0,
            !r.is_static,
    {
        let mut frame = CallFrame::default();
        frame.bytecode = bytecode;
        frame
    }

    pub fn next_opcode(&mut self) -> (r: Option<Opcode>)
        requires
            old(self).pc < usize::MAX,
        ensures
            r == old(self).spec_opcode_at(old(self).pc as int),
            final(self).pc == old(self).pc + 1,
            final(self).bytecode@ == old(self).bytecode@,
            final(self).stack.stack@ == old(self).stack.stack@,
    {
        let opcode = self.opcode_at(self.pc);
        self.increment_pc();
        opcode
    }

    pub fn increment_pc_by(&mut self, count: usize)
        requires
            old(self).pc + count <= usize::MAX,
        ensures
            final(self).pc == old(self).pc + count,
            final(self).bytecode@ == old(self).bytecode@,
            final(self).stack.stack@ == old(self).stack.stack@,
    {
        self.pc = self.pc + count;
    }

    pub fn increment_pc(&mut self)
        requires
            old(self).pc < usize::MAX,
        ensures
            final(self).pc == old(self).pc + 1,
            final(self).bytecode@ == old(self).bytecode@,
            final(self).stack.stack@ == old(self).stack.stack@,
    {
        self.increment_pc_by(1);
    }

    pub fn pc(&self) -> (r: usize)
        ensures
            r == self.pc,
    {
        self.pc
    }

    /// Jump to the given address; returns false (and moves nothing) if the
    /// jump target is not a JUMPDEST instruction.
    pub fn jump(&mut self, jump_address: U256) -> (r: bool)
        requires
            jump_address.value() <= usize::MAX,
        ensures
            r == (old(self).spec_opcode_at(jump_address.value()) == Some(
                Opcode { code: OP_JUMPDEST },
            )),
            r ==> final(self).pc == jump_address.value() + 1,
            !r ==> final(self).pc == old(self).pc,
            final(self).bytecode@ == old(self).bytecode@,
            final(self).stack.stack@ == old(self).stack.stack@,
    {
        if !self.valid_jump(jump_address) {
            return false;
        }
        let code_len = self.bytecode.len();
        proof {
            assert(jump_address.value() < code_len);
        }
        self.pc = jump_address.as_usize() + 1;
        true
    }

    fn valid_jump(&self, jump_address: U256) -> (r: bool)
        requires
            jump_address.value() <= usize::MAX,
        ensures
            r == (self.spec_opcode_at(jump_address.value()) == Some(
                Opcode { code: OP_JUMPDEST },
            )),
    {
        match self.opcode_at(jump_address.as_usize()) {
            Some(opcode) => opcode.is_jumpdest(),
            None => false,
        }
    }

    fn opcode_at(&self, offset: usize) -> (r: Option<Opcode>)
        ensures
            r == self.spec_opcode_at(offset as int),
    {
        if offset < self.bytecode.len() {
            Some(Opcode::from_byte(self.bytecode[offset]))
        } else {
            None
        }
    }
}

impl Default for CallFrame {
    fn default() -> (r: CallFrame)
        ensures
            r.bytecode@.len() == 0,
            r.pc == 0,
            r.stack.stack@.len() == 0,
            r.gas.value() == 0,
            r.msg_value.value() == 0,
            r.delegate is None,
            r.memory@.len() == 0,
            r.calldata@.len() == 0,
            r.returndata@.len() == 0,
            r.return_data_offset is None,
            r.return_data_size is None,
            r.transient_storage@.len() == 0,
            r.logs@.len() == 0,
            !r.is_static,
    {
        CallFrame {
            gas: U256::zero(),
            pc: 0,
            msg_sender: Address::default(),
            callee: Address::default(),
            bytecode: Vec::new(),
            delegate: None,
            msg_value: U256::zero(),
            stack: Stack::default(),
            memory: Vec::new(),
            calldata: Vec::new(),
            returndata: Vec::new(),
            return_data_offset: None,
            return_data_size: None,
            transient_storage: Vec::new(),
            logs: Vec::new(),
            is_static: false,
        }
    }
}

} // verus!
