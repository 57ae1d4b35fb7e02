//! The stack machine that runs a chunk.
//!
//! Arithmetic on numbers (`+ - * /`) needs IEEE-754 rounding, which the
//! machine leaves to its caller: when it reaches such an instruction with
//! two numbers on the stack it pops them and halts with
//! `Halt::Arithmetic`; the caller computes the result and hands it back
//! with `resume`, and then runs the machine on.
use vstd::prelude::*;
use crate::chunks::Chunk;
use crate::error::push_char;
use crate::object::{free_objects, RawObject};
use crate::opcode;
use crate::value::{falsey, num_lt, num_neg, number_lt, number_neg, values_equal, Value};

verus! {

/// The most values the stack holds, the reserved bottom slot included.
pub const STACK_MAX: usize = 256;

/// How a run ended, as the command line reports it.
#[derive(Debug, Clone, Copy, PartialEq, Eq, Structural)]
pub enum VMResult {
    RuntimeError,
    Success,
}

/// The arithmetic instructions, whose results the caller computes.
#[derive(Debug, Clone, Copy, PartialEq, Eq, Structural)]
pub enum BinaryOp {
    Add,
    Sub,
    Mul,
    Div,
}

/// What went wrong at run time.
#[derive(Debug, Clone, Copy, PartialEq, Eq, Structural)]
pub enum ErrorKind {
    /// `NEGATE` on something that is not a number.
    NegateOperand,
    /// An arithmetic or comparison instruction, given by its opcode, on
    /// something that is not a number.
    NumberOperands(u8),
    UnknownOpcode(u8),
    StackOverflow,
    StackUnderflow,
    /// A `CONSTANT` at the very end of the code.
    MissingOperand,
    /// A `CONSTANT` whose index is past the end of the pool.
    BadConstant,
    /// The code ended without `RETURN`.
    EndOfCode,
}

/// A runtime error and the source line it is attributed to.
#[derive(Debug, Clone, Copy, PartialEq, Eq, Structural)]
pub struct RuntimeError {
    pub line: u32,
    pub kind: ErrorKind,
}

/// Why the machine stopped.
#[derive(Debug)]
pub enum Halt {
    /// `RETURN` popped this value.
    Return(Value),
    /// An arithmetic instruction popped these two numbers (left, right):
    /// `resume` with the result.
    Arithmetic(BinaryOp, u32, u32),
    Error(RuntimeError),
}

/// The symbol of an arithmetic or comparison opcode.
pub open spec fn op_symbol(op: u8) -> Seq<char> {
    if op == opcode::ADD {
        "+"@
    } else if op == opcode::SUB {
        "-"@
    } else if op == opcode::MUL {
        "*"@
    } else if op == opcode::DIV {
        "/"@
    } else if op == opcode::GREATER {
        ">"@
    } else {
        "<"@
    }
}

/// The message of a runtime error.
pub open spec fn error_message(kind: ErrorKind) -> Seq<char> {
    match kind {
        ErrorKind::NegateOperand => "Unary `-` operand must be a number."@,
        ErrorKind::NumberOperands(op) => "`"@ + op_symbol(op) + "` operands must be numbers."@,
        ErrorKind::UnknownOpcode(_) => "Unknown opcode."@,
        ErrorKind::StackOverflow => "Stack overflow."@,
        ErrorKind::StackUnderflow => "Stack underflow."@,
        ErrorKind::MissingOperand => "Missing constant operand."@,
        ErrorKind::BadConstant => "Constant index out of range."@,
        ErrorKind::EndOfCode => "Ran past the end of the code."@,
    }
}

/// The decimal digit for `d < 10`.
pub open spec fn digit_char(d: nat) -> char {
    if d == 0 { '0' } else if d == 1 { '1' } else if d == 2 { '2' } else if d == 3 { '3' }
    else if d == 4 { '4' } else if d == 5 { '5' } else if d == 6 { '6' } else if d == 7 { '7' }
    else if d == 8 { '8' } else { '9' }
}

/// `n` in decimal, without leading zeros.
pub open spec fn decimal_spec(n: nat) -> Seq<char>
    decreases n,
{
    if n < 10 {
        seq![digit_char(n)]
    } else {
        decimal_spec(n / 10).push(digit_char(n % 10))
    }
}

/// `n` in decimal.
pub fn decimal(n: u32) -> (r: String)
    ensures
        r@ == decimal_spec(n as nat),
    decreases n,
{
    let d = n % 10;
    let c = if d == 0 { '0' } else if d == 1 { '1' } else if d == 2 { '2' } else if d == 3 { '3' }
        else if d == 4 { '4' } else if d == 5 { '5' } else if d == 6 { '6' } else if d == 7 { '7' }
        else if d == 8 { '8' } else { '9' };
    if n < 10 {
        let mut s = String::new();
        push_char(&mut s, c);
        proof {
            assert(s@ =~= seq![digit_char(n as nat)]);
        }
        s
    } else {
        let mut s = decimal(n / 10);
        push_char(&mut s, c);
        s
    }
}

impl RuntimeError {
    /// The message of this error.
    pub fn message(&self) -> (r: String)
        ensures
            r@ == error_message(self.kind),
    {
        match self.kind {
            ErrorKind::NegateOperand => String::from_str("Unary `-` operand must be a number."),
            ErrorKind::NumberOperands(op) => {
                let mut s = String::from_str("`");
                let sym = if op == opcode::ADD {
                    "+"
                } else if op == opcode::SUB {
                    "-"
                } else if op == opcode::MUL {
                    "*"
                } else if op == opcode::DIV {
                    "/"
                } else if op == opcode::GREATER {
                    ">"
                } else {
                    "<"
                };
                s.append(sym);
                s.append("` operands must be numbers.");
                s
            },
            ErrorKind::UnknownOpcode(_) => String::from_str("Unknown opcode."),
            ErrorKind::StackOverflow => String::from_str("Stack overflow."),
            ErrorKind::StackUnderflow => String::from_str("Stack underflow."),
            ErrorKind::MissingOperand => String::from_str("Missing constant operand."),
            ErrorKind::BadConstant => String::from_str("Constant index out of range."),
            ErrorKind::EndOfCode => String::from_str("Ran past the end of the code."),
        }
    }

    /// The error as printed: `[line L] error: M`.
    pub fn describe(&self) -> (r: String)
        ensures
            r@ == "[line "@ + decimal_spec(self.line as nat) + "] error: "@ + error_message(self.kind),
    {
        let mut s = String::from_str("[line ");
        let l = decimal(self.line);
        s.append(l.as_str());
        s.append("] error: ");
        let m = self.message();
        s.append(m.as_str());
        s
    }
}

/// The line a runtime error is attributed to, once the instruction's bytes
/// up to `ip` have been read: `lines[|code| - ip]`.
pub open spec fn error_line(code: Seq<u8>, lines: Seq<u32>, ip: nat) -> u32 {
    if 0 < ip <= code.len() && code.len() - ip < lines.len() {
        lines[code.len() - ip]
    } else {
        0
    }
}

/// A halt with a runtime error of kind `kind`.
pub open spec fn fail(code: Seq<u8>, lines: Seq<u32>, ip: nat, kind: ErrorKind) -> Option<Halt> {
    Some(Halt::Error(RuntimeError { line: error_line(code, lines, ip), kind }))
}

/// Whether an opcode needs two numbers: arithmetic or an order comparison.
pub open spec fn is_numeric_op(op: u8) -> bool {
    op == opcode::ADD || op == opcode::SUB || op == opcode::MUL || op == opcode::DIV || op
        == opcode::GREATER || op == opcode::LESS
}

/// The arithmetic instruction an opcode stands for.
pub open spec fn binary_op_of(op: u8) -> BinaryOp {
    if op == opcode::ADD {
        BinaryOp::Add
    } else if op == opcode::SUB {
        BinaryOp::Sub
    } else if op == opcode::MUL {
        BinaryOp::Mul
    } else {
        BinaryOp::Div
    }
}

/// The value `NIL`, `TRUE` or `FALSE` pushes.
pub open spec fn literal_value(op: u8) -> Value {
    if op == opcode::TRUE {
        Value::Bool(true)
    } else if op == opcode::FALSE {
        Value::Bool(false)
    } else {
        Value::Nil
    }
}

/// One instruction at `ip` on the stack `st` (bottom first; the bottom slot
/// is reserved): why the machine halts, if it does, the next `ip`, and the
/// new stack.
pub open spec fn step_spec(
    code: Seq<u8>,
    consts: Seq<Value>,
    lines: Seq<u32>,
    ip: nat,
    st: Seq<Value>,
) -> (Option<Halt>, nat, Seq<Value>) {
    if ip >= code.len() {
        (fail(code, lines, ip, ErrorKind::EndOfCode), ip, st)
    } else {
        let op = code[ip as int];
        let next = ip + 1;
        if op == opcode::RETURN {
            if st.len() < 2 {
                (fail(code, lines, next, ErrorKind::StackUnderflow), next, st)
            } else {
                (Some(Halt::Return(st.last())), next, st.drop_last())
            }
        } else if op == opcode::CONSTANT {
            if next >= code.len() {
                (fail(code, lines, next, ErrorKind::MissingOperand), next, st)
            } else if code[next as int] as nat >= consts.len() {
                (fail(code, lines, next + 1, ErrorKind::BadConstant), next + 1, st)
            } else if st.len() >= STACK_MAX {
                (fail(code, lines, next + 1, ErrorKind::StackOverflow), next + 1, st)
            } else {
                (None, next + 1, st.push(consts[code[next as int] as int]))
            }
        } else if op == opcode::NIL || op == opcode::TRUE || op == opcode::FALSE {
            if st.len() >= STACK_MAX {
                (fail(code, lines, next, ErrorKind::StackOverflow), next, st)
            } else {
                (None, next, st.push(literal_value(op)))
            }
        } else if op == opcode::NEGATE {
            if st.len() < 2 {
                (fail(code, lines, next, ErrorKind::StackUnderflow), next, st)
            } else if !(st.last() is Number) {
                (fail(code, lines, next, ErrorKind::NegateOperand), next, st)
            } else {
                (None, next, st.drop_last().push(Value::Number(num_neg(st.last()->Number_0))))
            }
        } else if op == opcode::NOT {
            if st.len() < 2 {
                (fail(code, lines, next, ErrorKind::StackUnderflow), next, st)
            } else {
                (None, next, st.drop_last().push(Value::Bool(falsey(st.last()))))
            }
        } else if op == opcode::EQUAL {
            if st.len() < 3 {
                (fail(code, lines, next, ErrorKind::StackUnderflow), next, st)
            } else {
                let b = st.last();
                let a = st[st.len() - 2];
                (None, next, st.take(st.len() - 2).push(Value::Bool(values_equal(a, b))))
            }
        } else if is_numeric_op(op) {
            if st.len() < 3 {
                (fail(code, lines, next, ErrorKind::StackUnderflow), next, st)
            } else {
                let b = st.last();
                let a = st[st.len() - 2];
                if !(a is Number) || !(b is Number) {
                    (fail(code, lines, next, ErrorKind::NumberOperands(op)), next, st)
                } else if op == opcode::GREATER {
                    (None, next, st.take(st.len() - 2).push(Value::Bool(num_lt(b->Number_0, a->Number_0))))
                } else if op == opcode::LESS {
                    (None, next, st.take(st.len() - 2).push(Value::Bool(num_lt(a->Number_0, b->Number_0))))
                } else {
                    (Some(Halt::Arithmetic(binary_op_of(op), a->Number_0, b->Number_0)), next,
                        st.take(st.len() - 2))
                }
            }
        } else {
            (fail(code, lines, next, ErrorKind::UnknownOpcode(op)), next, st)
        }
    }
}

/// Instructions from `ip` until the machine halts: why it halts, and the
/// `ip` and stack it halts with.
pub open spec fn run_spec(
    code: Seq<u8>,
    consts: Seq<Value>,
    lines: Seq<u32>,
    ip: nat,
    st: Seq<Value>,
) -> (Halt, nat, Seq<Value>)
    decreases (code.len() - ip) as nat,
{
    let s = step_spec(code, consts, lines, ip, st);
    match s.0 {
        Some(h) => (h, s.1, s.2),
        None => if ip < s.1 && s.1 <= code.len() {
            run_spec(code, consts, lines, s.1, s.2)
        } else {
            (Halt::Error(RuntimeError { line: 0, kind: ErrorKind::EndOfCode }), s.1, s.2)
        },
    }
}

/// The machine: the chunk it runs, the instruction pointer, the operand
/// stack (its bottom slot is reserved) and the object list it owns.
pub struct VM<'a> {
    pub chunk: &'a Chunk,
    pub stack: Vec<Value>,
    pub ip: usize,
    pub objects: RawObject,
}

impl<'a> VM<'a> {
    /// The chunk is well formed, `ip` is within its code, and the stack
    /// holds its reserved slot and no more than `STACK_MAX` values.
    pub open spec fn wf(&self) -> bool {
        &&& self.chunk.wf()
        &&& self.ip <= self.chunk.code@.len()
        &&& 1 <= self.stack@.len() <= STACK_MAX
    }

    /// One instruction of this machine's chunk from `ip` on `st`.
    pub open spec fn step_at(&self, ip: nat, st: Seq<Value>) -> (Option<Halt>, nat, Seq<Value>) {
        step_spec(self.chunk.code@, self.chunk.constants@, self.chunk.lines@, ip, st)
    }

    /// This machine's chunk run from `ip` on `st` until it halts.
    pub open spec fn run_from(&self, ip: nat, st: Seq<Value>) -> (Halt, nat, Seq<Value>) {
        run_spec(self.chunk.code@, self.chunk.constants@, self.chunk.lines@, ip, st)
    }

    /// A machine at the start of `chunk`, with an empty stack, owning `objects`.
    pub fn new(chunk: &'a Chunk, objects: RawObject) -> (r: VM<'a>)
        requires
            chunk.wf(),
        ensures
            r.wf(),
            r.chunk == chunk,
            r.ip == 0,
            r.stack@ == seq![Value::Nil],
            r.objects == objects,
    {
        let mut stack: Vec<Value> = Vec::new();
        stack.push(Value::Nil);
        proof {
            assert(stack@ =~= seq![Value::Nil]);
        }
        VM { chunk, ip: 0, stack, objects }
    }

    /// The byte at `ip`, moving past it.
    fn read_byte(&mut self) -> (r: u8)
        requires
            old(self).ip < old(self).chunk.code@.len(),
        ensures
            r == old(self).chunk.code@[old(self).ip as int],
            final(self).ip == old(self).ip + 1,
            final(self).chunk == old(self).chunk,
            final(self).stack == old(self).stack,
            final(self).objects == old(self).objects,
    {
        let byte = self.chunk.code[self.ip];
        proof {
            vstd::std_specs::vec::axiom_spec_len(&self.chunk.code);
        }
        self.ip = self.ip + 1;
        byte
    }

    /// The constant at `index`.
    fn read_constant(&self, index: u8) -> (r: Value)
        requires
            (index as int) < self.chunk.constants@.len(),
        ensures
            r == self.chunk.constants@[index as int],
    {
        self.chunk.constants[index as usize].duplicate()
    }

    /// The value `distance` slots down from the top; `peek(1)` is the top.
    fn peek(&self, distance: usize) -> (r: &Value)
        requires
            1 <= distance <= self.stack@.len(),
        ensures
            *r == self.stack@[self.stack@.len() - distance],
    {
        &self.stack[self.stack.len() - distance]
    }

    /// Puts `value` on top of the stack.
    fn push(&mut self, value: Value)
        ensures
            final(self).stack@ == old(self).stack@.push(value),
            final(self).ip == old(self).ip,
            final(self).chunk == old(self).chunk,
            final(self).objects == old(self).objects,
    {
        self.stack.push(value);
    }

    /// Takes the top value off the stack.
    fn pop(&mut self) -> (r: Value)
        requires
            old(self).stack@.len() > 0,
        ensures
            r == old(self).stack@.last(),
            final(self).stack@ == old(self).stack@.drop_last(),
            final(self).ip == old(self).ip,
            final(self).chunk == old(self).chunk,
            final(self).objects == old(self).objects,
    {
        self.stack.pop().unwrap()
    }

    /// A runtime error of kind `kind` at the current `ip`.
    fn runtime_error(&self, kind: ErrorKind) -> (r: Option<Halt>)
        requires
            self.wf(),
        ensures
            r == fail(self.chunk.code@, self.chunk.lines@, self.ip as nat, kind),
    {
        let n = self.chunk.code.len();
        let line = if 0 < self.ip && self.ip <= n {
            self.chunk.lines[n - self.ip]
        } else {
            0
        };
        Some(Halt::Error(RuntimeError { line, kind }))
    }

    /// Runs one instruction.
    #[verifier::rlimit(40)]
    pub fn step(&mut self) -> (r: Option<Halt>)
        requires
            old(self).wf(),
        ensures
            final(self).wf(),
            final(self).chunk == old(self).chunk,
            final(self).objects == old(self).objects,
            (r, final(self).ip as nat, final(self).stack@) == old(self).step_at(old(self).ip as nat, old(self).stack@),
            r is None ==> old(self).ip < final(self).ip,
    {
        if self.ip >= self.chunk.code.len() {
            return self.runtime_error(ErrorKind::EndOfCode);
        }
        let op = self.read_byte();
        if op == opcode::RETURN {
            if self.stack.len() < 2 {
                return self.runtime_error(ErrorKind::StackUnderflow);
            }
            let v = self.pop();
            Some(Halt::Return(v))
        } else if op == opcode::CONSTANT {
            if self.ip >= self.chunk.code.len() {
                return self.runtime_error(ErrorKind::MissingOperand);
            }
            let index = self.read_byte();
            if index as usize >= self.chunk.constants.len() {
                return self.runtime_error(ErrorKind::BadConstant);
            }
            if self.stack.len() >= STACK_MAX {
                return self.runtime_error(ErrorKind::StackOverflow);
            }
            let constant = self.read_constant(index);
            self.push(constant);
            None
        } else if op == opcode::NIL || op == opcode::TRUE || op == opcode::FALSE {
            if self.stack.len() >= STACK_MAX {
                return self.runtime_error(ErrorKind::StackOverflow);
            }
            let v = if op == opcode::TRUE {
                Value::bool(true)
            } else if op == opcode::FALSE {
                Value::bool(false)
            } else {
                Value::nil()
            };
            self.push(v);
            None
        } else if op == opcode::NEGATE {
            if self.stack.len() < 2 {
                return self.runtime_error(ErrorKind::StackUnderflow);
            }
            if !self.peek(1).is_number() {
                return self.runtime_error(ErrorKind::NegateOperand);
            }
            let n = self.pop().as_number();
            self.push(Value::number(number_neg(n)));
            None
        } else if op == opcode::NOT {
            if self.stack.len() < 2 {
                return self.runtime_error(ErrorKind::StackUnderflow);
            }
            let v = self.pop();
            self.push(Value::bool(v.is_falsey()));
            None
        } else if op == opcode::EQUAL {
            if self.stack.len() < 3 {
                return self.runtime_error(ErrorKind::StackUnderflow);
            }
            let ghost st = self.stack@;
            let b = self.pop();
            let a = self.pop();
            proof {
                assert(st.drop_last().drop_last() =~= st.take(st.len() - 2));
            }
            self.push(Value::bool(a.is_equal(&b)));
            None
        } else if op == opcode::ADD || op == opcode::SUB || op == opcode::MUL || op == opcode::DIV
            || op == opcode::GREATER || op == opcode::LESS {
            if self.stack.len() < 3 {
                return self.runtime_error(ErrorKind::StackUnderflow);
            }
            if !self.peek(1).is_number() || !self.peek(2).is_number() {
                return self.runtime_error(ErrorKind::NumberOperands(op));
            }
            let ghost st = self.stack@;
            let b = self.pop().as_number();
            let a = self.pop().as_number();
            proof {
                assert(st.drop_last().drop_last() =~= st.take(st.len() - 2));
            }
            if op == opcode::GREATER {
                self.push(Value::bool(number_lt(b, a)));
                None
            } else if op == opcode::LESS {
                self.push(Value::bool(number_lt(a, b)));
                None
            } else {
                let bop = if op == opcode::ADD {
                    BinaryOp::Add
                } else if op == opcode::SUB {
                    BinaryOp::Sub
                } else if op == opcode::MUL {
                    BinaryOp::Mul
                } else {
                    BinaryOp::Div
                };
                Some(Halt::Arithmetic(bop, a, b))
            }
        } else {
            self.runtime_error(ErrorKind::UnknownOpcode(op))
        }
    }

    /// Runs instructions until the machine halts: at `RETURN`, at an
    /// arithmetic instruction that waits for `resume`, or at an error.
    pub fn run(&mut self) -> (r: Halt)
        requires
            old(self).wf(),
        ensures
            final(self).wf(),
            final(self).chunk == old(self).chunk,
            final(self).objects == old(self).objects,
            (r, final(self).ip as nat, final(self).stack@) == old(self).run_from(old(self).ip as nat, old(self).stack@),
    {
        loop
            invariant
                self.wf(),
                self.chunk == old(self).chunk,
                self.objects == old(self).objects,
                self.run_from(self.ip as nat, self.stack@) == old(self).run_from(old(self).ip as nat, old(self).stack@),
            decreases self.chunk.code@.len() - self.ip,
        {
            match self.step() {
                Some(h) => return h,
                None => {},
            }
        }
    }

    /// Pushes the number an arithmetic halt asked for, if the stack has room.
    pub fn resume(&mut self, result: u32) -> (r: bool)
        requires
            old(self).wf(),
        ensures
            final(self).wf(),
            final(self).chunk == old(self).chunk,
            final(self).ip == old(self).ip,
            final(self).objects == old(self).objects,
            r == (old(self).stack@.len() < STACK_MAX),
            r ==> final(self).stack@ == old(self).stack@.push(Value::Number(result)),
            !r ==> final(self).stack@ == old(self).stack@,
    {
        if self.stack.len() < STACK_MAX {
            self.push(Value::number(result));
            true
        } else {
            false
        }
    }

    /// Releases the object list, one object at a time.
    pub fn free_objects(&mut self)
        ensures
            final(self).objects is None,
            final(self).chunk == old(self).chunk,
            final(self).ip == old(self).ip,
            final(self).stack == old(self).stack,
        opens_invariants none
        no_unwind
    {
        let mut list: RawObject = None;
        core::mem::swap(&mut self.objects, &mut list);
        free_objects(list);
    }
}

/// Whether a halt is a runtime error.
pub open spec fn is_error(h: Option<Halt>) -> bool {
    h is Some && h->0 is Error
}

/// The machine walks the code exactly as a disassembly does: an instruction
/// that does not fail moves `ip` to the start of the next instruction of the
/// disassembly (one byte on, two for `CONSTANT`).
pub proof fn lemma_step_follows_disassembly(
    code: Seq<u8>,
    consts: Seq<Value>,
    lines: Seq<u32>,
    ip: nat,
    st: Seq<Value>,
)
    requires
        ip < code.len(),
        !is_error(step_spec(code, consts, lines, ip, st).0),
    ensures
        step_spec(code, consts, lines, ip, st).1 == ip + crate::chunks::instruction_len(
            code.skip(ip as int),
        ),
{
    assert(code.skip(ip as int)[0] == code[ip as int]);
}

impl<'a> Drop for VM<'a> {
    /// Walks the object list on teardown, releasing each object.
    fn drop(&mut self)
        opens_invariants none
        no_unwind
    {
        self.free_objects();
    }
}

/// A run of the machine from `ip` to its end, where each arithmetic halt is
/// resumed with the result `arith` gives: how it ends, the `ip` it ends at,
/// and how many instructions it executed.
pub open spec fn complete_run(
    code: Seq<u8>,
    consts: Seq<Value>,
    lines: Seq<u32>,
    ip: nat,
    st: Seq<Value>,
    arith: spec_fn(BinaryOp, u32, u32) -> u32,
) -> (Halt, nat, nat)
    decreases (code.len() - ip) as nat,
{
    let s = step_spec(code, consts, lines, ip, st);
    if ip < s.1 && s.1 <= code.len() {
        match s.0 {
            None => {
                let r = complete_run(code, consts, lines, s.1, s.2, arith);
                (r.0, r.1, r.2 + 1)
            },
            Some(Halt::Arithmetic(op, a, b)) => {
                let r = complete_run(code, consts, lines, s.1, s.2.push(Value::Number(arith(op, a, b))), arith);
                (r.0, r.1, r.2 + 1)
            },
            Some(h) => (h, s.1, 1),
        }
    } else {
        match s.0 {
            Some(h) => (h, s.1, 1),
            None => (Halt::Error(RuntimeError { line: 0, kind: ErrorKind::EndOfCode }), s.1, 1),
        }
    }
}

/// A program that runs to completion, returning at the last byte of its
/// code, executes exactly as many instructions as its disassembly lists.
pub proof fn lemma_executed_equals_disassembled(
    code: Seq<u8>,
    consts: Seq<Value>,
    lines: Seq<u32>,
    st: Seq<Value>,
    arith: spec_fn(BinaryOp, u32, u32) -> u32,
)
    requires
        complete_run(code, consts, lines, 0, st, arith).0 is Return,
        complete_run(code, consts, lines, 0, st, arith).1 == code.len(),
    ensures
        complete_run(code, consts, lines, 0, st, arith).2 == crate::chunks::instruction_count(code),
{
    lemma_run_count(code, consts, lines, 0, st, arith);
    assert(code.skip(0) =~= code);
}

#[verifier::rlimit(40)]
proof fn lemma_run_count(
    code: Seq<u8>,
    consts: Seq<Value>,
    lines: Seq<u32>,
    ip: nat,
    st: Seq<Value>,
    arith: spec_fn(BinaryOp, u32, u32) -> u32,
)
    requires
        complete_run(code, consts, lines, ip, st, arith).0 is Return,
        complete_run(code, consts, lines, ip, st, arith).1 == code.len(),
    ensures
        complete_run(code, consts, lines, ip, st, arith).2 == crate::chunks::instruction_count(code.skip(ip as int)),
    decreases (code.len() - ip) as nat,
{
    let s = step_spec(code, consts, lines, ip, st);
    if ip >= code.len() {
        assert(false);
    }
    lemma_step_follows_disassembly(code, consts, lines, ip, st);
    let rest = code.skip(ip as int);
    let n = crate::chunks::instruction_len(rest);
    assert(rest.len() > 0);
    assert(rest.skip(n as int) =~= code.skip(s.1 as int));
    assert(crate::chunks::instruction_count(rest) == 1 + crate::chunks::instruction_count(
        code.skip(s.1 as int),
    ));
    let whole = complete_run(code, consts, lines, ip, st, arith);
    if ip < s.1 && s.1 <= code.len() {
        match s.0 {
            None => {
                lemma_run_count(code, consts, lines, s.1, s.2, arith);
                assert(whole.2 == complete_run(code, consts, lines, s.1, s.2, arith).2 + 1);
            },
            Some(Halt::Arithmetic(op, a, b)) => {
                let st2 = s.2.push(Value::Number(arith(op, a, b)));
                lemma_run_count(code, consts, lines, s.1, st2, arith);
                assert(whole.2 == complete_run(code, consts, lines, s.1, st2, arith).2 + 1);
            },
            Some(h) => {
                assert(whole.2 == 1);
                assert(code.skip(s.1 as int).len() == 0);
                assert(crate::chunks::instruction_count(code.skip(s.1 as int)) == 0);
            },
        }
    } else {
        assert(whole.2 == 1);
        assert(code.skip(s.1 as int).len() == 0);
        assert(crate::chunks::instruction_count(code.skip(s.1 as int)) == 0);
    }
}

} // verus!
