//! Bytecode chunks: code, the per-byte line table and the constant pool.
use vstd::prelude::*;
use crate::opcode;
use crate::value::Value;

verus! {

/// The most constants one chunk can hold: an index must fit in one byte.
pub const MAX_CONSTANTS: usize = 256;

/// Bytecode with the source line of each byte and the constants it refers to.
#[derive(Debug)]
pub struct Chunk {
    pub code: Vec<u8>,
    pub constants: Vec<Value>,
    pub lines: Vec<u32>,
}

/// The length of the instruction at the front of `code`: two bytes for a
/// `CONSTANT` with its operand, one for anything else (or for a `CONSTANT`
/// that has lost its operand).
pub open spec fn instruction_len(code: Seq<u8>) -> nat {
    if code.len() >= 2 && code[0] == opcode::CONSTANT {
        2
    } else {
        1
    }
}

/// Whether `code` is a run of whole instructions: no `CONSTANT` at an
/// instruction boundary lacks its operand.
pub open spec fn complete_code(code: Seq<u8>) -> bool
    decreases code.len(),
{
    if code.len() == 0 {
        true
    } else if code[0] == opcode::CONSTANT {
        code.len() >= 2 && complete_code(code.skip(2))
    } else {
        complete_code(code.skip(1))
    }
}

/// How many instructions a disassembly of `code` lists.
pub open spec fn instruction_count(code: Seq<u8>) -> nat
    decreases code.len(),
{
    if code.len() == 0 {
        0
    } else {
        1 + instruction_count(code.skip(instruction_len(code) as int))
    }
}

/// Two runs of whole instructions make one.
pub proof fn lemma_complete_append(a: Seq<u8>, b: Seq<u8>)
    requires
        complete_code(a),
        complete_code(b),
    ensures
        complete_code(a + b),
    decreases a.len(),
{
    if a.len() > 0 {
        let k: int = if a[0] == opcode::CONSTANT { 2 } else { 1 };
        assert((a + b)[0] == a[0]);
        assert((a + b).skip(k) =~= a.skip(k) + b);
        lemma_complete_append(a.skip(k), b);
    } else {
        assert(a + b =~= b);
    }
}

/// Whether each `CONSTANT` at an instruction boundary of `code` has its
/// operand, and the operand indexes a pool of `n` constants.
pub open spec fn operands_below(code: Seq<u8>, n: nat) -> bool
    decreases code.len(),
{
    if code.len() == 0 {
        true
    } else if code[0] == opcode::CONSTANT {
        code.len() >= 2 && (code[1] as nat) < n && operands_below(code.skip(2), n)
    } else {
        operands_below(code.skip(1), n)
    }
}

/// Two runs whose operands index the pool make one; a larger pool keeps
/// them in range.
pub proof fn lemma_operands_append(a: Seq<u8>, b: Seq<u8>, n: nat, m: nat)
    requires
        operands_below(a, n),
        operands_below(b, m),
        n <= m,
    ensures
        operands_below(a + b, m),
    decreases a.len(),
{
    if a.len() > 0 {
        let k: int = if a[0] == opcode::CONSTANT { 2 } else { 1 };
        assert((a + b)[0] == a[0]);
        if k == 2 {
            assert((a + b)[1] == a[1]);
        }
        assert((a + b).skip(k) =~= a.skip(k) + b);
        lemma_operands_append(a.skip(k), b, n, m);
    } else {
        assert(a + b =~= b);
    }
}

impl Chunk {
    /// Whether the line table runs parallel to the code and the pool fits
    /// one-byte indices.
    pub open spec fn wf(&self) -> bool {
        &&& self.code@.len() == self.lines@.len()
        &&& self.constants@.len() <= MAX_CONSTANTS
    }

    /// An empty chunk.
    pub fn new() -> (r: Chunk)
        ensures
            r.code@.len() == 0,
            r.lines@.len() == 0,
            r.constants@.len() == 0,
            r.wf(),
    {
        Chunk { code: Vec::new(), constants: Vec::new(), lines: Vec::new() }
    }

    /// Appends a constant and returns its index.
    pub fn add_constant(&mut self, value: Value) -> (r: usize)
        requires
            old(self).constants@.len() < MAX_CONSTANTS,
        ensures
            final(self).constants@ == old(self).constants@.push(value),
            final(self).code@ == old(self).code@,
            final(self).lines@ == old(self).lines@,
            r == old(self).constants@.len(),
    {
        self.constants.push(value);
        self.constants.len() - 1
    }

    /// Appends one byte of code that came from source line `line`.
    pub fn write(&mut self, byte: u8, line: u32)
        ensures
            final(self).code@ == old(self).code@.push(byte),
            final(self).lines@ == old(self).lines@.push(line),
            final(self).constants@ == old(self).constants@,
            old(self).wf() ==> final(self).wf(),
    {
        self.code.push(byte);
        self.lines.push(line);
    }
}

/// The mnemonic of an opcode, as a disassembly prints it.
pub open spec fn mnemonic(op: u8) -> Seq<char> {
    if op == opcode::RETURN {
        "OPCODE::RETURN"@
    } else if op == opcode::CONSTANT {
        "OPCODE::CONSTANT"@
    } else if op == opcode::NEGATE {
        "OPCODE::NEGATE"@
    } else if op == opcode::ADD {
        "OPCODE::ADD"@
    } else if op == opcode::SUB {
        "OPCODE::SUB"@
    } else if op == opcode::MUL {
        "OPCODE::MUL"@
    } else if op == opcode::DIV {
        "OPCODE::DIV"@
    } else if op == opcode::NIL {
        "OPCODE::NIL"@
    } else if op == opcode::TRUE {
        "OPCODE::TRUE"@
    } else if op == opcode::FALSE {
        "OPCODE::FALSE"@
    } else if op == opcode::NOT {
        "OPCODE::NOT"@
    } else if op == opcode::EQUAL {
        "OPCODE::EQUAL"@
    } else if op == opcode::GREATER {
        "OPCODE::GREATER"@
    } else if op == opcode::LESS {
        "OPCODE::LESS"@
    } else {
        "UNKNOWN OPCODE"@
    }
}

/// The mnemonic of an opcode; bytes that are no opcode are `UNKNOWN OPCODE`.
pub fn opcode_name(op: u8) -> (r: String)
    ensures
        r@ == mnemonic(op),
{
    if op == opcode::RETURN {
        String::from_str("OPCODE::RETURN")
    } else if op == opcode::CONSTANT {
        String::from_str("OPCODE::CONSTANT")
    } else if op == opcode::NEGATE {
        String::from_str("OPCODE::NEGATE")
    } else if op == opcode::ADD {
        String::from_str("OPCODE::ADD")
    } else if op == opcode::SUB {
        String::from_str("OPCODE::SUB")
    } else if op == opcode::MUL {
        String::from_str("OPCODE::MUL")
    } else if op == opcode::DIV {
        String::from_str("OPCODE::DIV")
    } else if op == opcode::NIL {
        String::from_str("OPCODE::NIL")
    } else if op == opcode::TRUE {
        String::from_str("OPCODE::TRUE")
    } else if op == opcode::FALSE {
        String::from_str("OPCODE::FALSE")
    } else if op == opcode::NOT {
        String::from_str("OPCODE::NOT")
    } else if op == opcode::EQUAL {
        String::from_str("OPCODE::EQUAL")
    } else if op == opcode::GREATER {
        String::from_str("OPCODE::GREATER")
    } else if op == opcode::LESS {
        String::from_str("OPCODE::LESS")
    } else {
        String::from_str("UNKNOWN OPCODE")
    }
}

/// One line of a disassembly.
#[derive(Debug)]
pub struct Instruction {
    /// Where the instruction starts.
    pub offset: usize,
    /// Its source line, or `None` where it is the line of the byte before.
    pub line: Option<u32>,
    /// The opcode byte.
    pub op: u8,
    /// The mnemonic of the opcode.
    pub name: String,
    /// The constant-pool index that follows a `CONSTANT`.
    pub constant: Option<u8>,
    /// Where the next instruction starts.
    pub next: usize,
}

impl Chunk {
    /// Whether `ins` is the decoding of the instruction at `offset`: its
    /// opcode and mnemonic, its line (`None` where the byte before has the
    /// same line), the operand of a `CONSTANT`, and where the next begins.
    pub open spec fn decodes_at(&self, offset: int, ins: Instruction) -> bool {
        &&& 0 <= offset < self.code@.len()
        &&& ins.offset == offset
        &&& ins.op == self.code@[offset]
        &&& ins.name@ == mnemonic(ins.op)
        &&& ins.line == if offset > 0 && self.lines@[offset] == self.lines@[offset - 1] {
            None
        } else {
            Some(self.lines@[offset])
        }
        &&& ins.next == offset + instruction_len(self.code@.skip(offset))
        &&& ins.constant == if ins.next == offset + 2 {
            Some(self.code@[offset + 1])
        } else {
            None::<u8>
        }
    }

    /// Whether `listing` decodes the whole code, instruction after
    /// instruction from offset 0 to the end.
    pub open spec fn is_disassembly(&self, listing: Seq<Instruction>) -> bool {
        &&& listing.len() == instruction_count(self.code@)
        &&& listing.len() > 0 ==> listing[0].offset == 0
        &&& forall|i: int| 0 <= i < listing.len() ==> self.decodes_at(#[trigger] listing[i].offset as int, listing[i])
        &&& forall|i: int| 0 <= i < listing.len() - 1 ==> #[trigger] listing[i + 1].offset == listing[i].next
        &&& listing.len() > 0 ==> listing[listing.len() - 1].next == self.code@.len()
    }

    /// Decodes the instruction that starts at `offset`.
    pub fn disassemble_instruction(&self, offset: usize) -> (r: Instruction)
        requires
            self.wf(),
            offset < self.code@.len(),
        ensures
            self.decodes_at(offset as int, r),
    {
        let line = if offset > 0 && self.lines[offset] == self.lines[offset - 1] {
            None
        } else {
            Some(self.lines[offset])
        };
        let op = self.code[offset];
        let n = self.code.len();
        if op == opcode::CONSTANT && offset + 1 < n {
            Instruction {
                offset,
                line,
                op,
                name: opcode_name(op),
                constant: Some(self.code[offset + 1]),
                next: offset + 2,
            }
        } else {
            Instruction { offset, line, op, name: opcode_name(op), constant: None, next: offset + 1 }
        }
    }

    /// Decodes the whole chunk, one entry per instruction, in order.
    pub fn disassemble(&self) -> (r: Vec<Instruction>)
        requires
            self.wf(),
        ensures
            self.is_disassembly(r@),
    {
        let mut r: Vec<Instruction> = Vec::new();
        let mut i: usize = 0;
        assert(self.code@.skip(0) =~= self.code@);
        while i < self.code.len()
            invariant
                self.wf(),
                i <= self.code@.len(),
                instruction_count(self.code@) == r@.len() + instruction_count(self.code@.skip(i as int)),
                r@.len() > 0 ==> r@[0].offset == 0,
                r@.len() == 0 ==> i == 0,
                r@.len() > 0 ==> r@[r@.len() - 1].next == i,
                forall|k: int| 0 <= k < r@.len() ==> self.decodes_at(#[trigger] r@[k].offset as int, r@[k]),
                forall|k: int| 0 <= k < r@.len() - 1 ==> #[trigger] r@[k + 1].offset == r@[k].next,
            decreases self.code@.len() - i,
        {
            let ins = self.disassemble_instruction(i);
            proof {
                let rest = self.code@.skip(i as int);
                assert(rest.skip(instruction_len(rest) as int) =~= self.code@.skip(ins.next as int));
            }
            i = ins.next;
            r.push(ins);
        }
        proof {
            assert(self.code@.skip(i as int).len() == 0);
        }
        r
    }
}

} // verus!
