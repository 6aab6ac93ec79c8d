//! The interpreter: a stack machine over the flat op list.
//!
//! `run_step` is the specification of one machine step; `run_ops` executes
//! up to `fuel` steps and its result is pinned, case by case, to the state
//! the step function reaches. Output is buffered: `Print` renders values to
//! lines which the caller may write out.

use vstd::prelude::*;
use vstd::string::StringExecFns;

use crate::common::{Error, SourceLocation, push_char};
use crate::ops::{Op, op_location};
use crate::types::{SpecType, Type, sty_of, sty_of_seq, type_eq};

verus! {

broadcast use vstd::seq::axiom_seq_index_decreases;

// ------------------------------------------------------------------
// Runtime values
// ------------------------------------------------------------------

/// A runtime value: one variant per type of the language. Types are runtime
/// values because procedure signatures are computed by running code.
#[derive(Debug, PartialEq)]
pub enum Value {
    Integer(isize),
    Bool(bool),
    FunctionPointer(usize),
    Type(Type),
}

/// The ghost image of a runtime value.
pub ghost enum SpecValue {
    Integer(int),
    Bool(bool),
    FunctionPointer(int),
    TypeValue(SpecType),
}

/// The ghost image of one value.
pub open spec fn sval_of(v: Value) -> SpecValue {
    match v {
        Value::Integer(i) => SpecValue::Integer(i as int),
        Value::Bool(b) => SpecValue::Bool(b),
        Value::FunctionPointer(p) => SpecValue::FunctionPointer(p as int),
        Value::Type(t) => SpecValue::TypeValue(sty_of(t)),
    }
}

/// The ghost image of an operand stack.
pub open spec fn svals_of(vs: Seq<Value>) -> Seq<SpecValue> {
    Seq::new(vs.len(), |i: int| sval_of(vs[i]))
}

/// The ghost image of a return stack.
pub open spec fn ints_of(vs: Seq<usize>) -> Seq<int> {
    Seq::new(vs.len(), |i: int| vs[i] as int)
}

/// The ghost image of the output lines.
pub open spec fn strs_of(vs: Seq<String>) -> Seq<Seq<char>> {
    Seq::new(vs.len(), |i: int| vs[i]@)
}

impl Clone for Value {
    /// Structure-preserving deep copy.
    fn clone(&self) -> (r: Value)
        ensures
            sval_of(r) == sval_of(*self),
    {
        match self {
            Value::Integer(i) => Value::Integer(*i),
            Value::Bool(b) => Value::Bool(*b),
            Value::FunctionPointer(p) => Value::FunctionPointer(*p),
            Value::Type(t) => Value::Type(t.clone()),
        }
    }
}

impl Value {
    /// The integer inside; only integer values carry one.
    pub fn integer(self: Value) -> (r: isize)
        requires
            self is Integer,
        ensures
            self == Value::Integer(r),
    {
        if let Value::Integer(value) = self {
            value
        } else {
            vstd::pervasive::unreached()
        }
    }

    /// The boolean inside; only boolean values carry one.
    pub fn bool(self: Value) -> (r: bool)
        requires
            self is Bool,
        ensures
            self == Value::Bool(r),
    {
        if let Value::Bool(value) = self {
            value
        } else {
            vstd::pervasive::unreached()
        }
    }

    /// The code position inside; only function-pointer values carry one.
    pub fn function_pointer(self: Value) -> (r: usize)
        requires
            self is FunctionPointer,
        ensures
            self == Value::FunctionPointer(r),
    {
        if let Value::FunctionPointer(value) = self {
            value
        } else {
            vstd::pervasive::unreached()
        }
    }
}

// ------------------------------------------------------------------
// Rendering printed values
// ------------------------------------------------------------------

/// The decimal digit character for `d`.
pub open spec fn digit_char(d: int) -> char {
    if d == 0 {
        '0'
    } else if d == 1 {
        '1'
    } else if d == 2 {
        '2'
    } else if d == 3 {
        '3'
    } else if d == 4 {
        '4'
    } else if d == 5 {
        '5'
    } else if d == 6 {
        '6'
    } else if d == 7 {
        '7'
    } else if d == 8 {
        '8'
    } else {
        '9'
    }
}

/// The decimal digits of a non-negative number, most significant first.
pub open spec fn dec_digits(n: int) -> Seq<char>
    decreases n,
{
    if n < 10 {
        seq![digit_char(n)]
    } else {
        dec_digits(n / 10).push(digit_char(n % 10))
    }
}

/// The decimal rendering of an integer.
pub open spec fn render_int(i: int) -> Seq<char> {
    if i < 0 {
        seq!['-'] + dec_digits(-i)
    } else {
        dec_digits(i)
    }
}

/// The rendering of a boolean: a literal `true`/`false` token.
pub open spec fn render_bool(b: bool) -> Seq<char> {
    if b {
        "true"@
    } else {
        "false"@
    }
}

/// The rendering of a type value.
pub open spec fn render_ty(t: SpecType) -> Seq<char>
    decreases t, 0int,
{
    match t {
        SpecType::Type => "type"@,
        SpecType::Integer => "int"@,
        SpecType::Bool => "bool"@,
        SpecType::Procedure { parameters, return_types } => "proc("@ + render_ty_list(
            parameters,
            0,
        ) + ")("@ + render_ty_list(return_types, 0) + ")"@,
    }
}

/// The space-separated renderings of the types from index `i` on.
pub open spec fn render_ty_list(ts: Seq<SpecType>, i: int) -> Seq<char>
    decreases ts, ts.len() - i,
{
    if i < 0 || i >= ts.len() {
        Seq::empty()
    } else if i == 0 {
        render_ty(ts[0]) + render_ty_list(ts, 1)
    } else {
        seq![' '] + render_ty(ts[i]) + render_ty_list(ts, i + 1)
    }
}

/// The rendering of any runtime value, as `Print` writes it: integers in
/// decimal, booleans as `true`/`false`, function pointers as their numeric
/// address, types in signature notation.
pub open spec fn render_value(v: SpecValue) -> Seq<char> {
    match v {
        SpecValue::Integer(i) => render_int(i),
        SpecValue::Bool(b) => render_bool(b),
        SpecValue::FunctionPointer(p) => render_int(p),
        SpecValue::TypeValue(t) => render_ty(t),
    }
}

/// The character for a digit below ten.
fn digit_char_c(d: u64) -> (c: char)
    requires
        d < 10,
    ensures
        c == digit_char(d as int),
{
    if d == 0 {
        '0'
    } else if d == 1 {
        '1'
    } else if d == 2 {
        '2'
    } else if d == 3 {
        '3'
    } else if d == 4 {
        '4'
    } else if d == 5 {
        '5'
    } else if d == 6 {
        '6'
    } else if d == 7 {
        '7'
    } else if d == 8 {
        '8'
    } else {
        '9'
    }
}

/// Render a non-negative number in decimal.
fn render_magnitude(n: u64) -> (r: String)
    ensures
        r@ == dec_digits(n as int),
    decreases n,
{
    if n < 10 {
        let mut s = String::new();
        push_char(&mut s, digit_char_c(n));
        proof {
            assert(s@ =~= dec_digits(n as int));
        }
        s
    } else {
        let mut s = render_magnitude(n / 10);
        push_char(&mut s, digit_char_c(n % 10));
        s
    }
}

/// Render a signed integer in decimal.
pub fn render_integer(v: isize) -> (r: String)
    ensures
        r@ == render_int(v as int),
{
    if v < 0 {
        let m: u64 = (-(v as i128)) as u64;
        let mut s: String = "-".to_owned();
        let digits = render_magnitude(m);
        s.append(digits.as_str());
        proof {
            reveal_strlit("-");
            assert(s@ =~= render_int(v as int));
        }
        s
    } else {
        render_magnitude(v as u64)
    }
}

/// Render a code position in decimal.
pub fn render_position(p: usize) -> (r: String)
    ensures
        r@ == render_int(p as int),
{
    render_magnitude(p as u64)
}

/// Render a type value in signature notation.
pub fn render_type(t: &Type) -> (r: String)
    ensures
        r@ == render_ty(sty_of(*t)),
    decreases *t, 0int,
{
    match t {
        Type::Type => "type".to_owned(),
        Type::Integer => "int".to_owned(),
        Type::Bool => "bool".to_owned(),
        Type::Procedure { parameters, return_types } => {
            let mut s: String = "proc(".to_owned();
            let ps = render_type_list(parameters, 0);
            s.append(ps.as_str());
            s.append(")(");
            let rs = render_type_list(return_types, 0);
            s.append(rs.as_str());
            s.append(")");
            proof {
                broadcast use crate::types::lemma_sty_of_seq;

                assert(s@ =~= render_ty(sty_of(*t)));
            }
            s
        },
    }
}

/// Render the types from index `i` on, space separated.
fn render_type_list(ts: &Vec<Type>, i: usize) -> (r: String)
    ensures
        r@ == render_ty_list(sty_of_seq(ts@), i as int),
    decreases *ts, ts@.len() - i,
{
    proof {
        broadcast use crate::types::lemma_sty_of_seq;

    }
    if i >= ts.len() {
        String::new()
    } else {
        proof {
            assert(decreases_to!(*ts => ts@));
            assert(decreases_to!(ts@ => ts@[i as int]));
        }
        let mut s: String = if i == 0 {
            String::new()
        } else {
            " ".to_owned()
        };
        let one = render_type(&ts[i]);
        s.append(one.as_str());
        let rest = render_type_list(ts, i + 1);
        s.append(rest.as_str());
        proof {
            reveal_strlit(" ");
            assert(s@ =~= render_ty_list(sty_of_seq(ts@), i as int));
        }
        s
    }
}

/// Render any runtime value as `Print` writes it.
pub fn render_value_line(v: &Value) -> (r: String)
    ensures
        r@ == render_value(sval_of(*v)),
{
    match v {
        Value::Integer(i) => render_integer(*i),
        Value::Bool(b) => {
            if *b {
                "true".to_owned()
            } else {
                "false".to_owned()
            }
        },
        Value::FunctionPointer(p) => render_position(*p),
        Value::Type(t) => render_type(t),
    }
}

// ------------------------------------------------------------------
// The machine, as specification
// ------------------------------------------------------------------

/// The machine state: instruction pointer, operand stack, return-address
/// stack, and the lines printed so far.
pub ghost struct RunState {
    pub ip: int,
    pub stack: Seq<SpecValue>,
    pub rstack: Seq<int>,
    pub output: Seq<Seq<char>>,
}

/// The outcome of stepping the machine: it continues, halted at `Exit`, or
/// trapped on a runtime fault (bad instruction pointer, stack underflow, tag
/// mismatch, division by zero, overflow).
pub ghost enum RunStep {
    Next(RunState),
    Halted(RunState),
    Trapped(RunState),
}

/// The machine's starting state.
pub open spec fn init_state() -> RunState {
    RunState { ip: 0, stack: Seq::empty(), rstack: Seq::empty(), output: Seq::empty() }
}

/// The two integers a binary op consumes, if the stack holds them:
/// `(a, b)` with `b` on top.
pub open spec fn int2(s: RunState) -> Option<(int, int)> {
    if s.stack.len() >= 2 && s.stack[s.stack.len() - 2] is Integer && s.stack.last() is Integer {
        Some((s.stack[s.stack.len() - 2]->Integer_0, s.stack.last()->Integer_0))
    } else {
        None
    }
}

/// The state after a binary op replaced its two operands by `v`.
pub open spec fn after_bin(s: RunState, v: SpecValue) -> RunState {
    RunState {
        ip: s.ip + 1,
        stack: s.stack.drop_last().drop_last().push(v),
        rstack: s.rstack,
        output: s.output,
    }
}

/// The state after one value was pushed.
pub open spec fn after_push(s: RunState, v: SpecValue) -> RunState {
    RunState { ip: s.ip + 1, stack: s.stack.push(v), rstack: s.rstack, output: s.output }
}

/// Truncating division, as the machine's division op computes it.
pub open spec fn div_trunc(x: int, d: int) -> int {
    if x == 0 {
        0
    } else if x > 0 && d > 0 {
        x / d
    } else if x < 0 && d < 0 {
        (x * -1) / (d * -1)
    } else if x < 0 {
        ((x * -1) / d) * -1
    } else {
        (x / (d * -1)) * -1
    }
}

/// An integer result fits the machine's cells.
pub open spec fn fits(i: int) -> bool {
    isize::MIN <= i <= isize::MAX
}

/// One step of the machine at state `s` over the (immutable) op list.
pub open spec fn run_step(ops: Seq<Op>, s: RunState) -> RunStep {
    if s.ip < 0 || s.ip >= ops.len() {
        RunStep::Trapped(s)
    } else {
        match ops[s.ip] {
            Op::Exit { .. } => RunStep::Halted(s),
            Op::PushInteger { value, .. } => RunStep::Next(
                after_push(s, SpecValue::Integer(value as int)),
            ),
            Op::PushFunctionPointer { value, .. } => RunStep::Next(
                after_push(s, SpecValue::FunctionPointer(value as int)),
            ),
            Op::PushType { value, .. } => RunStep::Next(
                after_push(s, SpecValue::TypeValue(sty_of(value))),
            ),
            Op::AddInteger { .. } => match int2(s) {
                Some((a, b)) => if fits(a + b) {
                    RunStep::Next(after_bin(s, SpecValue::Integer(a + b)))
                } else {
                    RunStep::Trapped(s)
                },
                None => RunStep::Trapped(s),
            },
            Op::SubtractInteger { .. } => match int2(s) {
                Some((a, b)) => if fits(a - b) {
                    RunStep::Next(after_bin(s, SpecValue::Integer(a - b)))
                } else {
                    RunStep::Trapped(s)
                },
                None => RunStep::Trapped(s),
            },
            Op::MultiplyInteger { .. } => match int2(s) {
                Some((a, b)) => if fits(a * b) {
                    RunStep::Next(after_bin(s, SpecValue::Integer(a * b)))
                } else {
                    RunStep::Trapped(s)
                },
                None => RunStep::Trapped(s),
            },
            Op::DivideInteger { .. } => match int2(s) {
                Some((a, b)) => if b != 0 && fits(div_trunc(a, b)) {
                    RunStep::Next(after_bin(s, SpecValue::Integer(div_trunc(a, b))))
                } else {
                    RunStep::Trapped(s)
                },
                None => RunStep::Trapped(s),
            },
            Op::LessThanInteger { .. } => match int2(s) {
                Some((a, b)) => RunStep::Next(after_bin(s, SpecValue::Bool(a < b))),
                None => RunStep::Trapped(s),
            },
            Op::GreaterThanInteger { .. } => match int2(s) {
                Some((a, b)) => RunStep::Next(after_bin(s, SpecValue::Bool(a > b))),
                None => RunStep::Trapped(s),
            },
            Op::LessThanEqualInteger { .. } => match int2(s) {
                Some((a, b)) => RunStep::Next(after_bin(s, SpecValue::Bool(a <= b))),
                None => RunStep::Trapped(s),
            },
            Op::GreaterThanEqualInteger { .. } => match int2(s) {
                Some((a, b)) => RunStep::Next(after_bin(s, SpecValue::Bool(a >= b))),
                None => RunStep::Trapped(s),
            },
            Op::Equal { .. } => if s.stack.len() >= 2 && same_tag(
                s.stack[s.stack.len() - 2],
                s.stack.last(),
            ) {
                RunStep::Next(
                    after_bin(s, SpecValue::Bool(s.stack[s.stack.len() - 2] == s.stack.last())),
                )
            } else {
                RunStep::Trapped(s)
            },
            Op::NotEqual { .. } => if s.stack.len() >= 2 && same_tag(
                s.stack[s.stack.len() - 2],
                s.stack.last(),
            ) {
                RunStep::Next(
                    after_bin(s, SpecValue::Bool(s.stack[s.stack.len() - 2] != s.stack.last())),
                )
            } else {
                RunStep::Trapped(s)
            },
            Op::Not { .. } => if s.stack.len() >= 1 && s.stack.last() is Bool {
                RunStep::Next(
                    RunState {
                        ip: s.ip + 1,
                        stack: s.stack.drop_last().push(SpecValue::Bool(!s.stack.last()->Bool_0)),
                        rstack: s.rstack,
                        output: s.output,
                    },
                )
            } else {
                RunStep::Trapped(s)
            },
            Op::Dup { .. } => if s.stack.len() >= 1 {
                RunStep::Next(after_push(s, s.stack.last()))
            } else {
                RunStep::Trapped(s)
            },
            Op::Drop { .. } => if s.stack.len() >= 1 {
                RunStep::Next(
                    RunState {
                        ip: s.ip + 1,
                        stack: s.stack.drop_last(),
                        rstack: s.rstack,
                        output: s.output,
                    },
                )
            } else {
                RunStep::Trapped(s)
            },
            Op::Swap { .. } => if s.stack.len() >= 2 {
                RunStep::Next(
                    RunState {
                        ip: s.ip + 1,
                        stack: s.stack.drop_last().drop_last().push(s.stack.last()).push(
                            s.stack[s.stack.len() - 2],
                        ),
                        rstack: s.rstack,
                        output: s.output,
                    },
                )
            } else {
                RunStep::Trapped(s)
            },
            Op::Jump { position, .. } => RunStep::Next(
                RunState { ip: position as int, stack: s.stack, rstack: s.rstack, output: s.output },
            ),
            Op::ConditonalJump { position, .. } => if s.stack.len() >= 1 && s.stack.last() is Bool {
                RunStep::Next(
                    RunState {
                        ip: if s.stack.last()->Bool_0 {
                            position as int
                        } else {
                            s.ip + 1
                        },
                        stack: s.stack.drop_last(),
                        rstack: s.rstack,
                        output: s.output,
                    },
                )
            } else {
                RunStep::Trapped(s)
            },
            Op::Print { .. } => if s.stack.len() >= 1 {
                RunStep::Next(
                    RunState {
                        ip: s.ip + 1,
                        stack: s.stack.drop_last(),
                        rstack: s.rstack,
                        output: s.output.push(render_value(s.stack.last())),
                    },
                )
            } else {
                RunStep::Trapped(s)
            },
            Op::SkipProc { position, .. } => RunStep::Next(
                RunState { ip: position as int, stack: s.stack, rstack: s.rstack, output: s.output },
            ),
            Op::Call { .. } => if s.stack.len() >= 1 && s.stack.last() is FunctionPointer {
                RunStep::Next(
                    RunState {
                        ip: s.stack.last()->FunctionPointer_0,
                        stack: s.stack.drop_last(),
                        rstack: s.rstack.push(s.ip + 1),
                        output: s.output,
                    },
                )
            } else {
                RunStep::Trapped(s)
            },
            Op::Return { .. } => if s.rstack.len() >= 1 {
                RunStep::Next(
                    RunState {
                        ip: s.rstack.last(),
                        stack: s.stack,
                        rstack: s.rstack.drop_last(),
                        output: s.output,
                    },
                )
            } else {
                RunStep::Trapped(s)
            },
        }
    }
}

/// Two values carry the same runtime tag, so `Equal` can compare them.
pub open spec fn same_tag(a: SpecValue, b: SpecValue) -> bool {
    ||| (a is Integer && b is Integer)
    ||| (a is Bool && b is Bool)
    ||| (a is FunctionPointer && b is FunctionPointer)
    ||| (a is TypeValue && b is TypeValue)
}

/// The machine's situation after `n` steps from the start.
pub open spec fn run_steps(ops: Seq<Op>, n: int) -> RunStep
    decreases n,
{
    if n <= 0 {
        RunStep::Next(init_state())
    } else {
        match run_steps(ops, n - 1) {
            RunStep::Next(s) => run_step(ops, s),
            done => done,
        }
    }
}


/// Pushing a value commutes with taking the stack's ghost image.
proof fn lemma_svals_push(vs: Seq<Value>, v: Value)
    ensures
        svals_of(vs.push(v)) == svals_of(vs).push(sval_of(v)),
{
    assert(svals_of(vs.push(v)) =~= svals_of(vs).push(sval_of(v)));
}

/// Popping a value commutes with taking the stack's ghost image.
proof fn lemma_svals_drop(vs: Seq<Value>)
    requires
        vs.len() >= 1,
    ensures
        svals_of(vs.drop_last()) == svals_of(vs).drop_last(),
        svals_of(vs).last() == sval_of(vs.last()),
        svals_of(vs).len() == vs.len(),
{
    assert(svals_of(vs.drop_last()) =~= svals_of(vs).drop_last());
}

/// Pushing an address commutes with taking the return stack's ghost image.
proof fn lemma_ints_push(vs: Seq<usize>, v: usize)
    ensures
        ints_of(vs.push(v)) == ints_of(vs).push(v as int),
{
    assert(ints_of(vs.push(v)) =~= ints_of(vs).push(v as int));
}

/// Popping an address commutes with taking the return stack's ghost image.
proof fn lemma_ints_drop(vs: Seq<usize>)
    requires
        vs.len() >= 1,
    ensures
        ints_of(vs.drop_last()) == ints_of(vs).drop_last(),
        ints_of(vs).last() == vs.last() as int,
        ints_of(vs).len() == vs.len(),
{
    assert(ints_of(vs.drop_last()) =~= ints_of(vs).drop_last());
}

/// Appending a line commutes with taking the output's ghost image.
proof fn lemma_strs_push(vs: Seq<String>, v: String)
    ensures
        strs_of(vs.push(v)) == strs_of(vs).push(v@),
{
    assert(strs_of(vs.push(v)) =~= strs_of(vs).push(v@));
}

// ------------------------------------------------------------------
// The interpreter
// ------------------------------------------------------------------

/// How a run ended: the program halted at `Exit` leaving this operand
/// stack; it trapped on a runtime fault; or the step budget ran out first.
#[derive(Debug)]
pub enum RunStatus {
    Halted(Vec<Value>),
    Trapped(Error),
    OutOfFuel,
}

/// The result of a run: how it ended, and the lines printed on the way.
#[derive(Debug)]
pub struct RunResult {
    pub status: RunStatus,
    pub output: Vec<String>,
}

/// A runtime fault at op `ip`.
fn trap_at(ops: &Vec<Op>, ip: usize, msg: &str) -> (e: Error)
    requires
        ip < ops@.len(),
    ensures
        e.location == op_location(ops@[ip as int]),
{
    Error { location: ops[ip].get_location(), message: msg.to_owned() }
}

/// Execute `ops` from position 0 for at most `fuel` steps.
///
/// The result is exactly what the step function `run_steps` reaches: a halt
/// hands back the final operand stack, a trap carries the faulting op's
/// location, and in every case the output lines are those the machine
/// printed.
#[verifier::rlimit(100)]
pub fn run_ops(ops: &Vec<Op>, fuel: u64) -> (r: RunResult)
    ensures
        match r.status {
            RunStatus::Halted(stack) => exists|n: int|
                0 <= n <= fuel && ((#[trigger] run_steps(ops@, n)) matches RunStep::Halted(s)
                    && svals_of(stack@) == s.stack && strs_of(r.output@) == s.output),
            RunStatus::Trapped(e) => exists|n: int|
                0 <= n <= fuel && ((#[trigger] run_steps(ops@, n)) matches RunStep::Trapped(s)
                    && strs_of(r.output@) == s.output && (0 <= s.ip < ops@.len() ==> e.location
                    == op_location(ops@[s.ip]))),
            RunStatus::OutOfFuel => run_steps(ops@, fuel as int) matches RunStep::Next(s)
                && strs_of(r.output@) == s.output,
        },
{
    let mut ip: usize = 0;
    let mut stack: Vec<Value> = Vec::new();
    let mut return_stack: Vec<usize> = Vec::new();
    let mut output: Vec<String> = Vec::new();
    let mut steps: u64 = 0;
    proof {
        assert(svals_of(stack@) =~= Seq::<SpecValue>::empty());
        assert(ints_of(return_stack@) =~= Seq::<int>::empty());
        assert(strs_of(output@) =~= Seq::<Seq<char>>::empty());
    }
    loop
        invariant
            steps <= fuel,
            run_steps(ops@, steps as int) == RunStep::Next(
                RunState {
                    ip: ip as int,
                    stack: svals_of(stack@),
                    rstack: ints_of(return_stack@),
                    output: strs_of(output@),
                },
            ),
        decreases fuel - steps,
    {
        let ghost st = RunState {
            ip: ip as int,
            stack: svals_of(stack@),
            rstack: ints_of(return_stack@),
            output: strs_of(output@),
        };
        if steps == fuel {
            return RunResult { status: RunStatus::OutOfFuel, output };
        }
        if ip >= ops.len() {
            proof {
                assert(run_steps(ops@, steps as int + 1) == RunStep::Trapped(st));
            }
            // No op to point at: this trap carries the sentinel location.
            return RunResult {
                status: RunStatus::Trapped(
                    Error {
                        location: SourceLocation {
                            filepath: String::new(),
                            position: 0,
                            line: 0,
                            column: 0,
                        },
                        message: "instruction pointer out of range".to_owned(),
                    },
                ),
                output,
            };
        }
        let ghost os = stack@;
        let ghost ors = return_stack@;
        match &ops[ip] {
            Op::Exit { .. } => {
                proof {
                    assert(run_steps(ops@, steps as int + 1) == RunStep::Halted(st));
                }
                return RunResult { status: RunStatus::Halted(stack), output };
            },
            Op::PushInteger { value, .. } => {
                stack.push(Value::Integer(*value));
                proof {
                    lemma_svals_push(os, Value::Integer(*value));
                }
                ip = ip + 1;
            },
            Op::PushFunctionPointer { value, .. } => {
                stack.push(Value::FunctionPointer(*value));
                proof {
                    lemma_svals_push(os, Value::FunctionPointer(*value));
                }
                ip = ip + 1;
            },
            Op::PushType { value, .. } => {
                let v = Value::Type(value.clone());
                stack.push(v);
                proof {
                    lemma_svals_push(os, stack@.last());
                    assert(svals_of(stack@) =~= st.stack.push(SpecValue::TypeValue(sty_of(*value))));
                }
                ip = ip + 1;
            },
            Op::AddInteger { .. } => {
                let b = stack.pop();
                let a = stack.pop();
                proof {
                    if os.len() >= 1 {
                        lemma_svals_drop(os);
                    }
                    if os.len() >= 2 {
                        lemma_svals_drop(os.drop_last());
                    }
                }
                match (a, b) {
                    (Some(Value::Integer(x)), Some(Value::Integer(y))) => {
                        match x.checked_add(y) {
                            Some(z) => {
                                stack.push(Value::Integer(z));
                                proof {
                                    lemma_svals_push(os.drop_last().drop_last(), Value::Integer(z));
                                }
                                ip = ip + 1;
                            },
                            None => {
                                return RunResult {
                                    status: RunStatus::Trapped(
                                        trap_at(ops, ip, "integer overflow"),
                                    ),
                                    output,
                                };
                            },
                        }
                    },
                    _ => {
                        return RunResult {
                            status: RunStatus::Trapped(
                                trap_at(ops, ip, "two integers expected on the stack"),
                            ),
                            output,
                        };
                    },
                }
            },
            Op::SubtractInteger { .. } => {
                let b = stack.pop();
                let a = stack.pop();
                proof {
                    if os.len() >= 1 {
                        lemma_svals_drop(os);
                    }
                    if os.len() >= 2 {
                        lemma_svals_drop(os.drop_last());
                    }
                }
                match (a, b) {
                    (Some(Value::Integer(x)), Some(Value::Integer(y))) => {
                        match x.checked_sub(y) {
                            Some(z) => {
                                stack.push(Value::Integer(z));
                                proof {
                                    lemma_svals_push(os.drop_last().drop_last(), Value::Integer(z));
                                }
                                ip = ip + 1;
                            },
                            None => {
                                return RunResult {
                                    status: RunStatus::Trapped(
                                        trap_at(ops, ip, "integer overflow"),
                                    ),
                                    output,
                                };
                            },
                        }
                    },
                    _ => {
                        return RunResult {
                            status: RunStatus::Trapped(
                                trap_at(ops, ip, "two integers expected on the stack"),
                            ),
                            output,
                        };
                    },
                }
            },
            Op::MultiplyInteger { .. } => {
                let b = stack.pop();
                let a = stack.pop();
                proof {
                    if os.len() >= 1 {
                        lemma_svals_drop(os);
                    }
                    if os.len() >= 2 {
                        lemma_svals_drop(os.drop_last());
                    }
                }
                match (a, b) {
                    (Some(Value::Integer(x)), Some(Value::Integer(y))) => {
                        match x.checked_mul(y) {
                            Some(z) => {
                                stack.push(Value::Integer(z));
                                proof {
                                    lemma_svals_push(os.drop_last().drop_last(), Value::Integer(z));
                                }
                                ip = ip + 1;
                            },
                            None => {
                                return RunResult {
                                    status: RunStatus::Trapped(
                                        trap_at(ops, ip, "integer overflow"),
                                    ),
                                    output,
                                };
                            },
                        }
                    },
                    _ => {
                        return RunResult {
                            status: RunStatus::Trapped(
                                trap_at(ops, ip, "two integers expected on the stack"),
                            ),
                            output,
                        };
                    },
                }
            },
            Op::DivideInteger { .. } => {
                let b = stack.pop();
                let a = stack.pop();
                proof {
                    if os.len() >= 1 {
                        lemma_svals_drop(os);
                    }
                    if os.len() >= 2 {
                        lemma_svals_drop(os.drop_last());
                    }
                }
                match (a, b) {
                    (Some(Value::Integer(x)), Some(Value::Integer(y))) => {
                        match x.checked_div(y) {
                            Some(z) => {
                                stack.push(Value::Integer(z));
                                proof {
                                    lemma_svals_push(os.drop_last().drop_last(), Value::Integer(z));
                                }
                                ip = ip + 1;
                            },
                            None => {
                                return RunResult {
                                    status: RunStatus::Trapped(
                                        trap_at(ops, ip, "division by zero or overflow"),
                                    ),
                                    output,
                                };
                            },
                        }
                    },
                    _ => {
                        return RunResult {
                            status: RunStatus::Trapped(
                                trap_at(ops, ip, "two integers expected on the stack"),
                            ),
                            output,
                        };
                    },
                }
            },
            Op::LessThanInteger { .. } => {
                let b = stack.pop();
                let a = stack.pop();
                proof {
                    if os.len() >= 1 {
                        lemma_svals_drop(os);
                    }
                    if os.len() >= 2 {
                        lemma_svals_drop(os.drop_last());
                    }
                }
                match (a, b) {
                    (Some(Value::Integer(x)), Some(Value::Integer(y))) => {
                        stack.push(Value::Bool(x < y));
                        proof {
                            lemma_svals_push(os.drop_last().drop_last(), Value::Bool(x < y));
                        }
                        ip = ip + 1;
                    },
                    _ => {
                        return RunResult {
                            status: RunStatus::Trapped(
                                trap_at(ops, ip, "two integers expected on the stack"),
                            ),
                            output,
                        };
                    },
                }
            },
            Op::GreaterThanInteger { .. } => {
                let b = stack.pop();
                let a = stack.pop();
                proof {
                    if os.len() >= 1 {
                        lemma_svals_drop(os);
                    }
                    if os.len() >= 2 {
                        lemma_svals_drop(os.drop_last());
                    }
                }
                match (a, b) {
                    (Some(Value::Integer(x)), Some(Value::Integer(y))) => {
                        stack.push(Value::Bool(x > y));
                        proof {
                            lemma_svals_push(os.drop_last().drop_last(), Value::Bool(x > y));
                        }
                        ip = ip + 1;
                    },
                    _ => {
                        return RunResult {
                            status: RunStatus::Trapped(
                                trap_at(ops, ip, "two integers expected on the stack"),
                            ),
                            output,
                        };
                    },
                }
            },
            Op::LessThanEqualInteger { .. } => {
                let b = stack.pop();
                let a = stack.pop();
                proof {
                    if os.len() >= 1 {
                        lemma_svals_drop(os);
                    }
                    if os.len() >= 2 {
                        lemma_svals_drop(os.drop_last());
                    }
                }
                match (a, b) {
                    (Some(Value::Integer(x)), Some(Value::Integer(y))) => {
                        stack.push(Value::Bool(x <= y));
                        proof {
                            lemma_svals_push(os.drop_last().drop_last(), Value::Bool(x <= y));
                        }
                        ip = ip + 1;
                    },
                    _ => {
                        return RunResult {
                            status: RunStatus::Trapped(
                                trap_at(ops, ip, "two integers expected on the stack"),
                            ),
                            output,
                        };
                    },
                }
            },
            Op::GreaterThanEqualInteger { .. } => {
                let b = stack.pop();
                let a = stack.pop();
                proof {
                    if os.len() >= 1 {
                        lemma_svals_drop(os);
                    }
                    if os.len() >= 2 {
                        lemma_svals_drop(os.drop_last());
                    }
                }
                match (a, b) {
                    (Some(Value::Integer(x)), Some(Value::Integer(y))) => {
                        stack.push(Value::Bool(x >= y));
                        proof {
                            lemma_svals_push(os.drop_last().drop_last(), Value::Bool(x >= y));
                        }
                        ip = ip + 1;
                    },
                    _ => {
                        return RunResult {
                            status: RunStatus::Trapped(
                                trap_at(ops, ip, "two integers expected on the stack"),
                            ),
                            output,
                        };
                    },
                }
            },
            Op::Equal { .. } => {
                let b = stack.pop();
                let a = stack.pop();
                proof {
                    if os.len() >= 1 {
                        lemma_svals_drop(os);
                    }
                    if os.len() >= 2 {
                        lemma_svals_drop(os.drop_last());
                    }
                }
                let eq: bool = match (&a, &b) {
                    (Some(Value::Integer(x)), Some(Value::Integer(y))) => *x == *y,
                    (Some(Value::Bool(x)), Some(Value::Bool(y))) => *x == *y,
                    (Some(Value::FunctionPointer(x)), Some(Value::FunctionPointer(y))) => *x == *y,
                    (Some(Value::Type(t1)), Some(Value::Type(t2))) => type_eq(t1, t2),
                    _ => {
                        return RunResult {
                            status: RunStatus::Trapped(
                                trap_at(ops, ip, "equality needs two values of one type"),
                            ),
                            output,
                        };
                    },
                };
                stack.push(Value::Bool(eq));
                proof {
                    lemma_svals_push(os.drop_last().drop_last(), Value::Bool(eq));
                }
                ip = ip + 1;
            },
            Op::NotEqual { .. } => {
                let b = stack.pop();
                let a = stack.pop();
                proof {
                    if os.len() >= 1 {
                        lemma_svals_drop(os);
                    }
                    if os.len() >= 2 {
                        lemma_svals_drop(os.drop_last());
                    }
                }
                let eq: bool = match (&a, &b) {
                    (Some(Value::Integer(x)), Some(Value::Integer(y))) => *x == *y,
                    (Some(Value::Bool(x)), Some(Value::Bool(y))) => *x == *y,
                    (Some(Value::FunctionPointer(x)), Some(Value::FunctionPointer(y))) => *x == *y,
                    (Some(Value::Type(t1)), Some(Value::Type(t2))) => type_eq(t1, t2),
                    _ => {
                        return RunResult {
                            status: RunStatus::Trapped(
                                trap_at(ops, ip, "inequality needs two values of one type"),
                            ),
                            output,
                        };
                    },
                };
                stack.push(Value::Bool(!eq));
                proof {
                    lemma_svals_push(os.drop_last().drop_last(), Value::Bool(!eq));
                }
                ip = ip + 1;
            },
            Op::Not { .. } => {
                match stack.pop() {
                    Some(Value::Bool(v)) => {
                        proof {
                            lemma_svals_drop(os);
                        }
                        stack.push(Value::Bool(!v));
                        proof {
                            lemma_svals_push(os.drop_last(), Value::Bool(!v));
                        }
                        ip = ip + 1;
                    },
                    _ => {
                        return RunResult {
                            status: RunStatus::Trapped(
                                trap_at(ops, ip, "a boolean expected on the stack"),
                            ),
                            output,
                        };
                    },
                }
            },
            Op::Dup { .. } => {
                if stack.len() == 0 {
                    return RunResult {
                        status: RunStatus::Trapped(trap_at(ops, ip, "empty stack")),
                        output,
                    };
                }
                let v = stack[stack.len() - 1].clone();
                stack.push(v);
                proof {
                    lemma_svals_drop(os);
                    lemma_svals_push(os, stack@.last());
                    assert(svals_of(stack@) =~= st.stack.push(st.stack.last()));
                }
                ip = ip + 1;
            },
            Op::Drop { .. } => {
                match stack.pop() {
                    Some(_) => {
                        proof {
                            lemma_svals_drop(os);
                        }
                        ip = ip + 1;
                    },
                    None => {
                        return RunResult {
                            status: RunStatus::Trapped(trap_at(ops, ip, "empty stack")),
                            output,
                        };
                    },
                }
            },
            Op::Swap { .. } => {
                let b = stack.pop();
                let a = stack.pop();
                proof {
                    if os.len() >= 1 {
                        lemma_svals_drop(os);
                    }
                    if os.len() >= 2 {
                        lemma_svals_drop(os.drop_last());
                    }
                }
                match (a, b) {
                    (Some(x), Some(y)) => {
                        let ghost sy = sval_of(y);
                        stack.push(y);
                        stack.push(x);
                        proof {
                            lemma_svals_push(os.drop_last().drop_last(), os.last());
                            lemma_svals_push(
                                os.drop_last().drop_last().push(os.last()),
                                os.drop_last().last(),
                            );
                            assert(svals_of(stack@) =~= st.stack.drop_last().drop_last().push(
                                st.stack.last(),
                            ).push(st.stack[st.stack.len() - 2]));
                        }
                        ip = ip + 1;
                    },
                    _ => {
                        return RunResult {
                            status: RunStatus::Trapped(
                                trap_at(ops, ip, "two values expected on the stack"),
                            ),
                            output,
                        };
                    },
                }
            },
            Op::Jump { position, .. } => {
                ip = *position;
            },
            Op::ConditonalJump { position, .. } => {
                match stack.pop() {
                    Some(Value::Bool(condition)) => {
                        proof {
                            lemma_svals_drop(os);
                        }
                        if condition {
                            ip = *position;
                        } else {
                            ip = ip + 1;
                        }
                    },
                    _ => {
                        return RunResult {
                            status: RunStatus::Trapped(
                                trap_at(ops, ip, "a boolean expected on the stack"),
                            ),
                            output,
                        };
                    },
                }
            },
            Op::Print { .. } => {
                match stack.pop() {
                    Some(v) => {
                        proof {
                            lemma_svals_drop(os);
                        }
                        let ghost oo = output@;
                        let line = render_value_line(&v);
                        output.push(line);
                        proof {
                            lemma_strs_push(oo, output@.last());
                            assert(strs_of(output@) =~= st.output.push(
                                render_value(st.stack.last()),
                            ));
                        }
                        ip = ip + 1;
                    },
                    None => {
                        return RunResult {
                            status: RunStatus::Trapped(trap_at(ops, ip, "empty stack")),
                            output,
                        };
                    },
                }
            },
            Op::SkipProc { position, .. } => {
                ip = *position;
            },
            Op::Call { .. } => {
                match stack.pop() {
                    Some(Value::FunctionPointer(position)) => {
                        proof {
                            lemma_svals_drop(os);
                            lemma_ints_push(ors, (ip + 1) as usize);
                        }
                        return_stack.push(ip + 1);
                        ip = position;
                    },
                    _ => {
                        return RunResult {
                            status: RunStatus::Trapped(
                                trap_at(ops, ip, "a function pointer expected on the stack"),
                            ),
                            output,
                        };
                    },
                }
            },
            Op::Return { .. } => {
                match return_stack.pop() {
                    Some(position) => {
                        proof {
                            lemma_ints_drop(ors);
                        }
                        ip = position;
                    },
                    None => {
                        return RunResult {
                            status: RunStatus::Trapped(trap_at(ops, ip, "empty return stack")),
                            output,
                        };
                    },
                }
            },
        }
        steps = steps + 1;
    }
}

} // verus!
