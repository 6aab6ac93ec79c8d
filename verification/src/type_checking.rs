//! The type checker: symbolic execution of the bytecode along every
//! control-flow path.
//!
//! `check_step` is the specification of one step of the forking simulation:
//! a work-stack of contexts, each with its own instruction pointer, symbolic
//! stack and branch-visit table. `type_check_ops` implements it, and its
//! verdict is pinned to the state the step function reaches.

use vstd::prelude::*;

use vstd::string::StringExecFns;

use crate::common::{Error, SourceLocation, push_char};
use crate::execution::{RunState, RunStep, SpecValue, dec_digits, render_position, run_step};
use crate::ops::{Op, op_location};
use crate::types::{SpecType, Type, sty_of, sty_of_seq, type_eq};

verus! {

/// How a conditional jump has been explored on the current path: only its
/// jump side, only its fallthrough side, or both.
#[derive(Debug, Clone, Copy, PartialEq, Eq, Structural)]
pub enum JumpType {
    Jump,
    Fallthrough,
    Both,
}

/// One simulation thread: instruction pointer, symbolic operand stack of
/// (type, origin location) pairs, the branch-visit table, and, inside a
/// procedure body, the procedure's declared type.
struct Context {
    pub ip: usize,
    pub stack: Vec<(Type, SourceLocation)>,
    pub condtional_jump_list: Vec<(usize, JumpType)>,
    pub procedure_info: Option<Type>,
}

/// The ghost image of a simulation thread.
pub ghost struct SpecCtx {
    pub ip: int,
    pub stack: Seq<SpecType>,
    pub visits: Seq<(int, JumpType)>,
    pub proc_info: Option<SpecType>,
}

/// The ghost image of a symbolic stack.
pub open spec fn stys_of(entries: Seq<(Type, SourceLocation)>) -> Seq<SpecType> {
    Seq::new(entries.len(), |i: int| sty_of(entries[i].0))
}

/// The ghost image of a branch-visit table.
pub open spec fn visits_of(l: Seq<(usize, JumpType)>) -> Seq<(int, JumpType)> {
    Seq::new(l.len(), |i: int| (l[i].0 as int, l[i].1))
}

/// The ghost image of one simulation thread.
spec fn ctx_of(c: Context) -> SpecCtx {
    SpecCtx {
        ip: c.ip as int,
        stack: stys_of(c.stack@),
        visits: visits_of(c.condtional_jump_list@),
        proc_info: match c.procedure_info {
            Option::None => Option::None,
            Option::Some(t) => Option::Some(sty_of(t)),
        },
    }
}

/// The ghost image of the whole work-stack.
spec fn ctxs_of(cs: Seq<Context>) -> Seq<SpecCtx> {
    Seq::new(cs.len(), |i: int| ctx_of(cs[i]))
}

/// The outcome of one checker step: the simulation continues, every context
/// ended cleanly (the program is accepted), or a type error was found.
pub ghost enum CheckStep {
    Next(Seq<SpecCtx>),
    Accepted,
    Rejected,
}

/// The stack's top `ts.len()` entries are exactly `ts`.
pub open spec fn suffix_matches(stack: Seq<SpecType>, ts: Seq<SpecType>) -> bool {
    &&& stack.len() >= ts.len()
    &&& forall|i: int| 0 <= i < ts.len() ==> stack[stack.len() - ts.len() + i] == #[trigger] ts[i]
}

/// The stack with its top `n` entries removed.
pub open spec fn drop_top(stack: Seq<SpecType>, n: int) -> Seq<SpecType> {
    stack.subrange(0, stack.len() - n)
}

/// A context advanced to `ip` with a new stack.
pub open spec fn ctx_at(c: SpecCtx, ip: int, stack: Seq<SpecType>) -> SpecCtx {
    SpecCtx { ip, stack, visits: c.visits, proc_info: c.proc_info }
}

/// The first entry of the visit table for branch site `ip`.
pub open spec fn find_visit(vs: Seq<(int, JumpType)>, ip: int) -> Option<int>
    decreases vs.len(),
{
    if vs.len() == 0 {
        None
    } else if vs[0].0 == ip {
        Some(0)
    } else {
        match find_visit(vs.drop_first(), ip) {
            Some(j) => Some(j + 1),
            None => None,
        }
    }
}

/// `find_visit` returns the first index whose site is `ip`.
pub proof fn lemma_find_visit(vs: Seq<(int, JumpType)>, ip: int)
    ensures
        find_visit(vs, ip) matches Some(j) ==> 0 <= j < vs.len() && vs[j].0 == ip && (forall|k: int|
            0 <= k < j ==> (#[trigger] vs[k]).0 != ip),
        find_visit(vs, ip) is None ==> forall|k: int| 0 <= k < vs.len() ==> (#[trigger] vs[k]).0
            != ip,
    decreases vs.len(),
{
    if vs.len() > 0 && vs[0].0 != ip {
        lemma_find_visit(vs.drop_first(), ip);
        match find_visit(vs.drop_first(), ip) {
            Some(j) => {
                assert(vs.drop_first()[j] == vs[j + 1]);
                assert(forall|k: int| 1 <= k < j + 1 ==> vs[k] == vs.drop_first()[k - 1]);
            },
            None => {
                assert(forall|k: int| 1 <= k < vs.len() ==> vs[k] == vs.drop_first()[k - 1]);
            },
        }
    }
}

/// One step of the checker over the (immutable) op list: step the topmost
/// context of the work-stack.
pub open spec fn check_step(ops: Seq<Op>, ctxs: Seq<SpecCtx>) -> CheckStep {
    if ctxs.len() == 0 {
        CheckStep::Accepted
    } else {
        let c = ctxs.last();
        let rest = ctxs.drop_last();
        if c.ip < 0 || c.ip >= ops.len() {
            CheckStep::Rejected
        } else {
            match ops[c.ip] {
                Op::Exit { .. } => if c.stack.len() == 0 {
                    CheckStep::Next(rest)
                } else {
                    CheckStep::Rejected
                },
                Op::PushFunctionPointer { value, .. } => if 1 <= value <= ops.len() {
                    match ops[value - 1] {
                        Op::SkipProc { parameters, return_types, .. } => CheckStep::Next(
                            rest.push(
                                ctx_at(
                                    c,
                                    c.ip + 1,
                                    c.stack.push(
                                        SpecType::Procedure {
                                            parameters: sty_of_seq(parameters@),
                                            return_types: sty_of_seq(return_types@),
                                        },
                                    ),
                                ),
                            ),
                        ),
                        _ => CheckStep::Rejected,
                    }
                } else {
                    CheckStep::Rejected
                },
                Op::PushInteger { .. } => CheckStep::Next(
                    rest.push(ctx_at(c, c.ip + 1, c.stack.push(SpecType::Integer))),
                ),
                Op::PushType { .. } => CheckStep::Next(
                    rest.push(ctx_at(c, c.ip + 1, c.stack.push(SpecType::Type))),
                ),
                Op::AddInteger { .. } | Op::SubtractInteger { .. } | Op::MultiplyInteger { .. }
                    | Op::DivideInteger { .. } => if suffix_matches(
                    c.stack,
                    seq![SpecType::Integer, SpecType::Integer],
                ) {
                    CheckStep::Next(
                        rest.push(
                            ctx_at(c, c.ip + 1, drop_top(c.stack, 2).push(SpecType::Integer)),
                        ),
                    )
                } else {
                    CheckStep::Rejected
                },
                Op::LessThanInteger { .. } | Op::GreaterThanInteger { .. }
                    | Op::LessThanEqualInteger { .. } | Op::GreaterThanEqualInteger { .. } => {
                    if suffix_matches(c.stack, seq![SpecType::Integer, SpecType::Integer]) {
                        CheckStep::Next(
                            rest.push(
                                ctx_at(c, c.ip + 1, drop_top(c.stack, 2).push(SpecType::Bool)),
                            ),
                        )
                    } else {
                        CheckStep::Rejected
                    }
                },
                Op::Equal { .. } | Op::NotEqual { .. } => if c.stack.len() >= 2 && c.stack[
                    c.stack.len() - 1
                ] == c.stack[c.stack.len() - 2] {
                    CheckStep::Next(
                        rest.push(ctx_at(c, c.ip + 1, drop_top(c.stack, 2).push(SpecType::Bool))),
                    )
                } else {
                    CheckStep::Rejected
                },
                Op::Not { .. } => if suffix_matches(c.stack, seq![SpecType::Bool]) {
                    CheckStep::Next(
                        rest.push(ctx_at(c, c.ip + 1, drop_top(c.stack, 1).push(SpecType::Bool))),
                    )
                } else {
                    CheckStep::Rejected
                },
                Op::Dup { .. } => if c.stack.len() >= 1 {
                    CheckStep::Next(rest.push(ctx_at(c, c.ip + 1, c.stack.push(c.stack.last()))))
                } else {
                    CheckStep::Rejected
                },
                Op::Drop { .. } => if c.stack.len() >= 1 {
                    CheckStep::Next(rest.push(ctx_at(c, c.ip + 1, drop_top(c.stack, 1))))
                } else {
                    CheckStep::Rejected
                },
                Op::Swap { .. } => if c.stack.len() >= 2 {
                    CheckStep::Next(
                        rest.push(
                            ctx_at(
                                c,
                                c.ip + 1,
                                drop_top(c.stack, 2).push(c.stack.last()).push(
                                    c.stack[c.stack.len() - 2],
                                ),
                            ),
                        ),
                    )
                } else {
                    CheckStep::Rejected
                },
                Op::Jump { position, .. } => CheckStep::Next(
                    rest.push(ctx_at(c, position as int, c.stack)),
                ),
                Op::ConditonalJump { position, .. } => if suffix_matches(
                    c.stack,
                    seq![SpecType::Bool],
                ) {
                    let popped = drop_top(c.stack, 1);
                    match find_visit(c.visits, c.ip) {
                        Some(j) => {
                            match c.visits[j].1 {
                                JumpType::Jump => CheckStep::Next(
                                    rest.push(
                                        SpecCtx {
                                            ip: c.ip + 1,
                                            stack: popped,
                                            visits: c.visits.update(j, (c.ip, JumpType::Both)),
                                            proc_info: c.proc_info,
                                        },
                                    ),
                                ),
                                JumpType::Fallthrough => CheckStep::Next(
                                    rest.push(
                                        SpecCtx {
                                            ip: position as int,
                                            stack: popped,
                                            visits: c.visits.update(j, (c.ip, JumpType::Both)),
                                            proc_info: c.proc_info,
                                        },
                                    ),
                                ),
                                JumpType::Both => CheckStep::Rejected,
                            }
                        },
                        None => {
                            // First visit: continue on the jump side, defer a
                            // fallthrough sibling on top of the work-stack.
                            let jump_side = SpecCtx {
                                ip: position as int,
                                stack: popped,
                                visits: c.visits.push((c.ip, JumpType::Jump)),
                                proc_info: c.proc_info,
                            };
                            let fall_side = SpecCtx {
                                ip: c.ip + 1,
                                stack: popped,
                                visits: c.visits.push((c.ip, JumpType::Fallthrough)),
                                proc_info: c.proc_info,
                            };
                            CheckStep::Next(rest.push(jump_side).push(fall_side))
                        },
                    }
                } else {
                    CheckStep::Rejected
                },
                Op::Print { .. } => if c.stack.len() >= 1 {
                    CheckStep::Next(rest.push(ctx_at(c, c.ip + 1, drop_top(c.stack, 1))))
                } else {
                    CheckStep::Rejected
                },
                Op::SkipProc { position, parameters, return_types, .. } => {
                    // The body is checked once, here, against its own
                    // signature; ordinary control flow skips past it.
                    let body = SpecCtx {
                        ip: c.ip + 1,
                        stack: sty_of_seq(parameters@),
                        visits: Seq::empty(),
                        proc_info: Some(
                            SpecType::Procedure {
                                parameters: sty_of_seq(parameters@),
                                return_types: sty_of_seq(return_types@),
                            },
                        ),
                    };
                    CheckStep::Next(rest.push(ctx_at(c, position as int, c.stack)).push(body))
                },
                Op::Call { .. } => if c.stack.len() >= 1 {
                    match c.stack.last() {
                        SpecType::Procedure { parameters, return_types } => if suffix_matches(
                            drop_top(c.stack, 1),
                            parameters,
                        ) {
                            CheckStep::Next(
                                rest.push(
                                    ctx_at(
                                        c,
                                        c.ip + 1,
                                        drop_top(c.stack, 1 + parameters.len() as int) + return_types,
                                    ),
                                ),
                            )
                        } else {
                            CheckStep::Rejected
                        },
                        _ => CheckStep::Rejected,
                    }
                } else {
                    CheckStep::Rejected
                },
                Op::Return { .. } => match c.proc_info {
                    Some(SpecType::Procedure { return_types, .. }) => if c.stack == return_types {
                        CheckStep::Next(rest)
                    } else {
                        CheckStep::Rejected
                    },
                    _ => CheckStep::Rejected,
                },
            }
        }
    }
}

/// The checker's starting work-stack: one context at position 0 with an
/// empty stack and an empty visit table.
pub open spec fn init_ctxs() -> Seq<SpecCtx> {
    seq![
        SpecCtx {
            ip: 0,
            stack: Seq::empty(),
            visits: Seq::empty(),
            proc_info: None,
        },
    ]
}

/// The checker's situation after `n` steps from the start.
pub open spec fn check_steps(ops: Seq<Op>, n: int) -> CheckStep
    decreases n,
{
    if n <= 0 {
        CheckStep::Next(init_ctxs())
    } else {
        match check_steps(ops, n - 1) {
            CheckStep::Next(ctxs) => check_step(ops, ctxs),
            done => done,
        }
    }
}

/// Pushing an entry commutes with taking the symbolic stack's ghost image.
proof fn lemma_stys_push(es: Seq<(Type, SourceLocation)>, e: (Type, SourceLocation))
    ensures
        stys_of(es.push(e)) == stys_of(es).push(sty_of(e.0)),
{
    assert(stys_of(es.push(e)) =~= stys_of(es).push(sty_of(e.0)));
}

/// Truncating commutes with taking the symbolic stack's ghost image.
proof fn lemma_stys_subrange(es: Seq<(Type, SourceLocation)>, k: int)
    requires
        0 <= k <= es.len(),
    ensures
        stys_of(es.subrange(0, k)) == stys_of(es).subrange(0, k),
{
    assert(stys_of(es.subrange(0, k)) =~= stys_of(es).subrange(0, k));
}

/// Extending the visit table commutes with its ghost image.
proof fn lemma_visits_push(l: Seq<(usize, JumpType)>, e: (usize, JumpType))
    ensures
        visits_of(l.push(e)) == visits_of(l).push((e.0 as int, e.1)),
{
    assert(visits_of(l.push(e)) =~= visits_of(l).push((e.0 as int, e.1)));
}

/// Updating one visit entry commutes with its ghost image.
proof fn lemma_visits_update(l: Seq<(usize, JumpType)>, j: int, e: (usize, JumpType))
    requires
        0 <= j < l.len(),
    ensures
        visits_of(l.update(j, e)) == visits_of(l).update(j, (e.0 as int, e.1)),
{
    assert(visits_of(l.update(j, e)) =~= visits_of(l).update(j, (e.0 as int, e.1)));
}

/// Pushing a context commutes with taking the work-stack's ghost image.
proof fn lemma_ctxs_push(cs: Seq<Context>, c: Context)
    ensures
        ctxs_of(cs.push(c)) == ctxs_of(cs).push(ctx_of(c)),
{
    assert(ctxs_of(cs.push(c)) =~= ctxs_of(cs).push(ctx_of(c)));
}

/// Popping a context commutes with taking the work-stack's ghost image.
proof fn lemma_ctxs_drop(cs: Seq<Context>)
    requires
        cs.len() >= 1,
    ensures
        ctxs_of(cs.drop_last()) == ctxs_of(cs).drop_last(),
        ctxs_of(cs).last() == ctx_of(cs.last()),
        ctxs_of(cs).len() == cs.len(),
{
    assert(ctxs_of(cs.drop_last()) =~= ctxs_of(cs).drop_last());
}

/// Fail unless the symbolic stack holds at least `count` entries.
pub fn expect_type_count(
    stack: &Vec<(Type, SourceLocation)>,
    location: &SourceLocation,
    count: usize,
) -> (r: Result<(), Error>)
    ensures
        r is Ok <==> stack@.len() >= count,
        r matches Err(e) ==> e.location == *location,
{
    if stack.len() < count {
        Err(
            Error {
                location: location.clone(),
                message: "too few values on the stack".to_owned(),
            },
        )
    } else {
        Ok(())
    }
}

/// The diagnostic a type mismatch carries: it names where the offending
/// value on the stack came from.
pub open spec fn origin_note(origin: SourceLocation) -> Seq<char> {
    "mismatched type on the stack; the offending value came from "@ + origin.filepath@ + seq![':']
        + dec_digits(origin.line as int) + seq![':'] + dec_digits(origin.column as int)
}

/// Fail unless the symbolic stack's top entries are exactly `types`; on
/// success, consume them. A mismatch reports the failing op's location and
/// names the offending value's origin, first mismatch first.
pub fn expect_types(
    stack: &mut Vec<(Type, SourceLocation)>,
    location: &SourceLocation,
    types: &Vec<Type>,
) -> (r: Result<(), Error>)
    ensures
        r is Ok <==> suffix_matches(stys_of(old(stack)@), sty_of_seq(types@)),
        r is Ok ==> final(stack)@ == old(stack)@.subrange(
            0,
            old(stack)@.len() - types@.len(),
        ),
        r matches Err(e) ==> final(stack)@ == old(stack)@ && e.location == *location,
        r is Err && old(stack)@.len() >= types@.len() ==> exists|i: int|
            0 <= i < types@.len() && sty_of(
                #[trigger] old(stack)@[old(stack)@.len() - types@.len() + i].0,
            ) != sty_of(types@[i]) && (forall|j: int|
                0 <= j < i ==> sty_of(
                    #[trigger] old(stack)@[old(stack)@.len() - types@.len() + j].0,
                ) == sty_of(types@[j])) && (r->Err_0).message@ == origin_note(
                old(stack)@[old(stack)@.len() - types@.len() + i].1,
            ),
{
    proof {
        broadcast use crate::types::lemma_sty_of_seq;

    }
    match expect_type_count(stack, location, types.len()) {
        Ok(()) => {},
        Err(e) => {
            return Err(e);
        },
    }
    let n = stack.len();
    let tlen = types.len();
    let mut index: usize = 0;
    while index < tlen
        invariant
            tlen == types@.len() <= n == stack@.len(),
            index <= tlen,
            forall|i: int|
                0 <= i < index ==> sty_of(
                    #[trigger] stack@[n - tlen + i].0,
                ) == sty_of(types@[i]),
        decreases tlen - index,
    {
        if !type_eq(&stack[n - tlen + index].0, &types[index]) {
            proof {
                broadcast use crate::types::lemma_sty_of_seq;

                assert(stys_of(stack@)[n - tlen + index] != sty_of_seq(types@)[index as int]);
            }
            let origin = &stack[n - tlen + index].1;
            let mut message: String =
                "mismatched type on the stack; the offending value came from ".to_owned();
            message.append(origin.filepath.as_str());
            push_char(&mut message, ':');
            let line = render_position(origin.line);
            message.append(line.as_str());
            push_char(&mut message, ':');
            let column = render_position(origin.column);
            message.append(column.as_str());
            proof {
                assert(message@ =~= origin_note(stack@[n - tlen + index].1));
            }
            return Err(Error { location: location.clone(), message });
        }
        index += 1;
    }
    proof {
        broadcast use crate::types::lemma_sty_of_seq;

        assert(suffix_matches(stys_of(stack@), sty_of_seq(types@)));
    }
    let ghost start = stack@;
    let mut popped: usize = 0;
    while popped < tlen
        invariant
            popped <= tlen <= start.len(),
            stack@ == start.subrange(0, start.len() - popped),
        decreases tlen - popped,
    {
        let ghost before = stack@;
        let _ = stack.pop();
        proof {
            assert(stack@ =~= start.subrange(0, start.len() - popped - 1));
        }
        popped += 1;
    }
    Ok(())
}

/// A list holding the types two integer operands must have.
fn two_integer_types() -> (r: Vec<Type>)
    ensures
        sty_of_seq(r@) == seq![SpecType::Integer, SpecType::Integer],
{
    let mut v: Vec<Type> = Vec::new();
    v.push(Type::Integer);
    v.push(Type::Integer);
    proof {
        broadcast use crate::types::lemma_sty_of_seq;

        assert(sty_of_seq(v@) =~= seq![SpecType::Integer, SpecType::Integer]);
    }
    v
}

/// A list holding the type a boolean operand must have.
fn one_bool_type() -> (r: Vec<Type>)
    ensures
        sty_of_seq(r@) == seq![SpecType::Bool],
{
    let mut v: Vec<Type> = Vec::new();
    v.push(Type::Bool);
    proof {
        broadcast use crate::types::lemma_sty_of_seq;

        assert(sty_of_seq(v@) =~= seq![SpecType::Bool]);
    }
    v
}

/// Deep copy of a symbolic stack.
fn clone_type_stack(es: &Vec<(Type, SourceLocation)>) -> (r: Vec<(Type, SourceLocation)>)
    ensures
        stys_of(r@) == stys_of(es@),
{
    let mut r: Vec<(Type, SourceLocation)> = Vec::new();
    let mut i: usize = 0;
    while i < es.len()
        invariant
            i <= es@.len(),
            r@.len() == i,
            forall|j: int| 0 <= j < i ==> sty_of(#[trigger] r@[j].0) == sty_of(es@[j].0),
        decreases es@.len() - i,
    {
        let entry = &es[i];
        r.push((entry.0.clone(), entry.1.clone()));
        i += 1;
    }
    proof {
        assert(stys_of(r@) =~= stys_of(es@));
    }
    r
}

/// Copy of a visit table.
fn clone_visits(l: &Vec<(usize, JumpType)>) -> (r: Vec<(usize, JumpType)>)
    ensures
        r@ == l@,
{
    let mut r: Vec<(usize, JumpType)> = Vec::new();
    let mut i: usize = 0;
    while i < l.len()
        invariant
            i <= l@.len(),
            r@ == l@.subrange(0, i as int),
        decreases l@.len() - i,
    {
        r.push(l[i]);
        proof {
            assert(r@ =~= l@.subrange(0, i + 1));
        }
        i += 1;
    }
    proof {
        assert(r@ =~= l@);
    }
    r
}


/// Symbolically execute `ops` along every control-flow path, for at most
/// `fuel` checker steps.
///
/// Acceptance means every simulation context ended cleanly at `Exit` or
/// `Return`: the verdict is exactly what the step function `check_steps`
/// reaches. An `Err` is either a rejection (a type error, stack-shape
/// mismatch, or a branch site visited a third time), or the budget ran out
/// with the simulation still going. The contract pins the verdict; the
/// diagnostic's location follows the failing op or the offending value's
/// origin, which the location-free step machine does not model.
#[verifier::rlimit(100)]
pub fn type_check_ops(ops: &Vec<Op>, fuel: u64) -> (r: Result<(), Error>)
    ensures
        r is Ok ==> exists|n: int|
            0 <= n <= fuel + 1 && #[trigger] check_steps(ops@, n) == CheckStep::Accepted,
        r is Err ==> (exists|n: int|
            0 <= n <= fuel && #[trigger] check_steps(ops@, n) == CheckStep::Rejected)
            || check_steps(ops@, fuel as int) is Next,
{
    let mut contexts: Vec<Context> = Vec::new();
    contexts.push(
        Context {
            ip: 0,
            stack: Vec::new(),
            condtional_jump_list: Vec::new(),
            procedure_info: Option::None,
        },
    );
    proof {
        assert(stys_of(Seq::<(Type, SourceLocation)>::empty()) =~= Seq::<SpecType>::empty());
        assert(visits_of(Seq::<(usize, JumpType)>::empty()) =~= Seq::<(int, JumpType)>::empty());
        assert(ctxs_of(contexts@) =~= init_ctxs());
    }
    let mut steps: u64 = 0;
    loop
        invariant
            steps <= fuel,
            contexts@.len() > 0,
            check_steps(ops@, steps as int) == CheckStep::Next(ctxs_of(contexts@)),
        decreases fuel - steps,
    {
        if steps == fuel {
            // No op to point at: this fault carries the sentinel location.
            return Err(
                Error {
                    location: SourceLocation {
                        filepath: String::new(),
                        position: 0,
                        line: 0,
                        column: 0,
                    },
                    message: "type checking did not finish within its budget".to_owned(),
                },
            );
        }
        let ghost all0 = ctxs_of(contexts@);
        proof {
            lemma_ctxs_drop(contexts@);
        }
        let mut ctx = match contexts.pop() {
            Some(c) => c,
            None => vstd::pervasive::unreached(),
        };
        let ghost c = ctx_of(ctx);
        let ghost rest_spec = ctxs_of(contexts@);
        if ctx.ip >= ops.len() {
            proof {
                assert(check_steps(ops@, steps as int + 1) == CheckStep::Rejected);
            }
            // No op to point at: this fault carries the sentinel location.
            return Err(
                Error {
                    location: SourceLocation {
                        filepath: String::new(),
                        position: 0,
                        line: 0,
                        column: 0,
                    },
                    message: "control flow leaves the program".to_owned(),
                },
            );
        }
        match &ops[ctx.ip] {
            Op::Exit { .. } => {
                if ctx.stack.len() > 0 {
                    let last = ctx.stack.len() - 1;
                    return Err(
                        Error {
                            location: ctx.stack[last].1.clone(),
                            message: "unexpected values on the stack at the end of the program"
                                .to_owned(),
                        },
                    );
                }
                if contexts.len() == 0 {
                    proof {
                        assert(check_steps(ops@, steps as int + 1) == CheckStep::Next(rest_spec));
                        assert(check_steps(ops@, steps as int + 2) == CheckStep::Accepted);
                    }
                    return Ok(());
                }
            },
            Op::PushFunctionPointer { location, value } => {
                let v = *value;
                if !(v >= 1 && v <= ops.len()) {
                    return Err(
                        Error {
                            location: location.clone(),
                            message: "function pointer outside the program".to_owned(),
                        },
                    );
                }
                match &ops[v - 1] {
                    Op::SkipProc { parameters, return_types, .. } => {
                        let pt = Type::Procedure {
                            parameters: crate::types::clone_type_vec(parameters),
                            return_types: crate::types::clone_type_vec(return_types),
                        };
                        let ghost st0 = ctx.stack@;
                        ctx.stack.push((pt, location.clone()));
                        ctx.ip = ctx.ip + 1;
                        proof {
                            lemma_stys_push(st0, ctx.stack@.last());
                        }
                    },
                    _ => {
                        return Err(
                            Error {
                                location: location.clone(),
                                message: "function pointer does not enter a procedure".to_owned(),
                            },
                        );
                    },
                }
                let ghost cs_b = contexts@;
                contexts.push(ctx);
                proof {
                    assert(check_steps(ops@, steps as int + 1) == CheckStep::Next(
                        ctxs_of(contexts@),
                    )) by {
                            broadcast use crate::types::lemma_sty_of_seq;

                            lemma_ctxs_push(cs_b, contexts@.last());
                            assert(ctx_of(contexts@.last()) == ctx_at(c, c.ip + 1, c.stack.push(SpecType::Procedure { parameters: sty_of_seq(ops@[v - 1]->SkipProc_parameters@), return_types: sty_of_seq(ops@[v - 1]->SkipProc_return_types@) })));
                            assert(check_step(ops@, all0) == CheckStep::Next(ctxs_of(contexts@)));
                    }
                }
            },
            Op::PushInteger { location, .. } => {
                let ghost st0 = ctx.stack@;
                ctx.stack.push((Type::Integer, location.clone()));
                ctx.ip = ctx.ip + 1;
                proof {
                    lemma_stys_push(st0, ctx.stack@.last());
                }
                let ghost cs_b = contexts@;
                contexts.push(ctx);
                proof {
                    assert(check_steps(ops@, steps as int + 1) == CheckStep::Next(
                        ctxs_of(contexts@),
                    )) by {
                            broadcast use crate::types::lemma_sty_of_seq;

                            lemma_ctxs_push(cs_b, contexts@.last());
                            assert(ctx_of(contexts@.last()) == ctx_at(c, c.ip + 1, c.stack.push(SpecType::Integer)));
                            assert(check_step(ops@, all0) == CheckStep::Next(ctxs_of(contexts@)));
                    }
                }
            },
            Op::PushType { location, .. } => {
                let ghost st0 = ctx.stack@;
                ctx.stack.push((Type::Type, location.clone()));
                ctx.ip = ctx.ip + 1;
                proof {
                    lemma_stys_push(st0, ctx.stack@.last());
                }
                let ghost cs_b = contexts@;
                contexts.push(ctx);
                proof {
                    assert(check_steps(ops@, steps as int + 1) == CheckStep::Next(
                        ctxs_of(contexts@),
                    )) by {
                            broadcast use crate::types::lemma_sty_of_seq;

                            lemma_ctxs_push(cs_b, contexts@.last());
                            assert(ctx_of(contexts@.last()) == ctx_at(c, c.ip + 1, c.stack.push(SpecType::Type)));
                            assert(check_step(ops@, all0) == CheckStep::Next(ctxs_of(contexts@)));
                    }
                }
            },
            Op::AddInteger { location } | Op::SubtractInteger { location } | Op::MultiplyInteger {
                location,
            } | Op::DivideInteger { location } => {
                let ghost st0 = ctx.stack@;
                let expected = two_integer_types();
                match expect_types(&mut ctx.stack, location, &expected) {
                    Ok(()) => {},
                    Err(e) => {
                        return Err(e);
                    },
                }
                proof {
                    lemma_stys_subrange(st0, st0.len() - 2);
                }
                let ghost st1 = ctx.stack@;
                ctx.stack.push((Type::Integer, location.clone()));
                ctx.ip = ctx.ip + 1;
                proof {
                    lemma_stys_push(st1, ctx.stack@.last());
                }
                let ghost cs_b = contexts@;
                contexts.push(ctx);
                proof {
                    assert(check_steps(ops@, steps as int + 1) == CheckStep::Next(
                        ctxs_of(contexts@),
                    )) by {
                            broadcast use crate::types::lemma_sty_of_seq;

                            lemma_ctxs_push(cs_b, contexts@.last());
                            assert(expected@.len() == 2);
                            assert(st1 == st0.subrange(0, st0.len() - 2));
                            assert(stys_of(st1) == drop_top(c.stack, 2));
                            assert(ctx_of(contexts@.last()).stack == drop_top(c.stack, 2).push(SpecType::Integer));
                            assert(ctx_of(contexts@.last()) == ctx_at(c, c.ip + 1, drop_top(c.stack, 2).push(SpecType::Integer)));
                            assert(check_step(ops@, all0) == CheckStep::Next(ctxs_of(contexts@)));
                    }
                }
            },
            Op::LessThanInteger { location } | Op::GreaterThanInteger { location }
                | Op::LessThanEqualInteger { location } | Op::GreaterThanEqualInteger {
                location,
            } => {
                let ghost st0 = ctx.stack@;
                let expected = two_integer_types();
                match expect_types(&mut ctx.stack, location, &expected) {
                    Ok(()) => {},
                    Err(e) => {
                        return Err(e);
                    },
                }
                proof {
                    lemma_stys_subrange(st0, st0.len() - 2);
                }
                let ghost st1 = ctx.stack@;
                ctx.stack.push((Type::Bool, location.clone()));
                ctx.ip = ctx.ip + 1;
                proof {
                    lemma_stys_push(st1, ctx.stack@.last());
                }
                let ghost cs_b = contexts@;
                contexts.push(ctx);
                proof {
                    assert(check_steps(ops@, steps as int + 1) == CheckStep::Next(
                        ctxs_of(contexts@),
                    )) by {
                            broadcast use crate::types::lemma_sty_of_seq;

                            lemma_ctxs_push(cs_b, contexts@.last());
                            assert(expected@.len() == 2);
                            assert(st1 == st0.subrange(0, st0.len() - 2));
                            assert(stys_of(st1) == drop_top(c.stack, 2));
                            assert(ctx_of(contexts@.last()).stack == drop_top(c.stack, 2).push(SpecType::Bool));
                            assert(ctx_of(contexts@.last()) == ctx_at(c, c.ip + 1, drop_top(c.stack, 2).push(SpecType::Bool)));
                            assert(check_step(ops@, all0) == CheckStep::Next(ctxs_of(contexts@)));
                    }
                }
            },
            Op::Equal { location } | Op::NotEqual { location } => {
                match expect_type_count(&ctx.stack, location, 2) {
                    Ok(()) => {},
                    Err(e) => {
                        return Err(e);
                    },
                }
                let ghost st0 = ctx.stack@;
                let second = ctx.stack.len() - 2;
                let typ = ctx.stack[second].0.clone();
                let mut expected: Vec<Type> = Vec::new();
                expected.push(typ.clone());
                expected.push(typ);
                proof {
                    broadcast use crate::types::lemma_sty_of_seq;

                }
                match expect_types(&mut ctx.stack, location, &expected) {
                    Ok(()) => {},
                    Err(e) => {
                        return Err(e);
                    },
                }
                proof {
                    lemma_stys_subrange(st0, st0.len() - 2);
                }
                let ghost st1 = ctx.stack@;
                ctx.stack.push((Type::Bool, location.clone()));
                ctx.ip = ctx.ip + 1;
                proof {
                    lemma_stys_push(st1, ctx.stack@.last());
                }
                let ghost cs_b = contexts@;
                contexts.push(ctx);
                proof {
                    assert(check_steps(ops@, steps as int + 1) == CheckStep::Next(
                        ctxs_of(contexts@),
                    )) by {
                            broadcast use crate::types::lemma_sty_of_seq;

                            lemma_ctxs_push(cs_b, contexts@.last());
                            assert(expected@.len() == 2);
                            assert(sty_of_seq(expected@)[0] == sty_of_seq(expected@)[1]);
                            assert(c.stack[c.stack.len() - 1] == c.stack[c.stack.len() - 2]);
                            assert(st1 == st0.subrange(0, st0.len() - 2));
                            assert(stys_of(st1) == drop_top(c.stack, 2));
                            assert(ctx_of(contexts@.last()).stack == drop_top(c.stack, 2).push(SpecType::Bool));
                            assert(ctx_of(contexts@.last()) == ctx_at(c, c.ip + 1, drop_top(c.stack, 2).push(SpecType::Bool)));
                            assert(check_step(ops@, all0) == CheckStep::Next(ctxs_of(contexts@)));
                    }
                }
            },
            Op::Not { location } => {
                let ghost st0 = ctx.stack@;
                let expected = one_bool_type();
                match expect_types(&mut ctx.stack, location, &expected) {
                    Ok(()) => {},
                    Err(e) => {
                        return Err(e);
                    },
                }
                proof {
                    lemma_stys_subrange(st0, st0.len() - 1);
                }
                let ghost st1 = ctx.stack@;
                ctx.stack.push((Type::Bool, location.clone()));
                ctx.ip = ctx.ip + 1;
                proof {
                    lemma_stys_push(st1, ctx.stack@.last());
                }
                let ghost cs_b = contexts@;
                contexts.push(ctx);
                proof {
                    assert(check_steps(ops@, steps as int + 1) == CheckStep::Next(
                        ctxs_of(contexts@),
                    )) by {
                            broadcast use crate::types::lemma_sty_of_seq;

                            lemma_ctxs_push(cs_b, contexts@.last());
                            assert(expected@.len() == 1);
                            assert(st1 == st0.subrange(0, st0.len() - 1));
                            assert(stys_of(st1) == drop_top(c.stack, 1));
                            assert(ctx_of(contexts@.last()) == ctx_at(c, c.ip + 1, drop_top(c.stack, 1).push(SpecType::Bool)));
                            assert(check_step(ops@, all0) == CheckStep::Next(ctxs_of(contexts@)));
                    }
                }
            },
            Op::Dup { location } => {
                match expect_type_count(&ctx.stack, location, 1) {
                    Ok(()) => {},
                    Err(e) => {
                        return Err(e);
                    },
                }
                let ghost st0 = ctx.stack@;
                let last = ctx.stack.len() - 1;
                let typ = ctx.stack[last].0.clone();
                ctx.stack.push((typ, location.clone()));
                ctx.ip = ctx.ip + 1;
                proof {
                    lemma_stys_push(st0, ctx.stack@.last());
                }
                let ghost cs_b = contexts@;
                contexts.push(ctx);
                proof {
                    assert(check_steps(ops@, steps as int + 1) == CheckStep::Next(
                        ctxs_of(contexts@),
                    )) by {
                            broadcast use crate::types::lemma_sty_of_seq;

                            lemma_ctxs_push(cs_b, contexts@.last());
                            assert(ctx_of(contexts@.last()) == ctx_at(c, c.ip + 1, c.stack.push(c.stack.last())));
                            assert(check_step(ops@, all0) == CheckStep::Next(ctxs_of(contexts@)));
                    }
                }
            },
            Op::Drop { location } => {
                match expect_type_count(&ctx.stack, location, 1) {
                    Ok(()) => {},
                    Err(e) => {
                        return Err(e);
                    },
                }
                let ghost st0 = ctx.stack@;
                let _ = ctx.stack.pop();
                ctx.ip = ctx.ip + 1;
                proof {
                    assert(stys_of(ctx.stack@) =~= drop_top(stys_of(st0), 1));
                }
                let ghost cs_b = contexts@;
                contexts.push(ctx);
                proof {
                    assert(check_steps(ops@, steps as int + 1) == CheckStep::Next(
                        ctxs_of(contexts@),
                    )) by {
                            broadcast use crate::types::lemma_sty_of_seq;

                            lemma_ctxs_push(cs_b, contexts@.last());
                            assert(ctx_of(contexts@.last()) == ctx_at(c, c.ip + 1, drop_top(c.stack, 1)));
                            assert(check_step(ops@, all0) == CheckStep::Next(ctxs_of(contexts@)));
                    }
                }
            },
            Op::Swap { location } => {
                match expect_type_count(&ctx.stack, location, 2) {
                    Ok(()) => {},
                    Err(e) => {
                        return Err(e);
                    },
                }
                let ghost st0 = ctx.stack@;
                let a = match ctx.stack.pop() {
                    Some(p) => p,
                    None => vstd::pervasive::unreached(),
                };
                let b = match ctx.stack.pop() {
                    Some(p) => p,
                    None => vstd::pervasive::unreached(),
                };
                ctx.stack.push((a.0, location.clone()));
                ctx.stack.push((b.0, location.clone()));
                ctx.ip = ctx.ip + 1;
                proof {
                    assert(stys_of(ctx.stack@) =~= drop_top(stys_of(st0), 2).push(
                        stys_of(st0).last(),
                    ).push(stys_of(st0)[st0.len() - 2]));
                }
                let ghost cs_b = contexts@;
                contexts.push(ctx);
                proof {
                    assert(check_steps(ops@, steps as int + 1) == CheckStep::Next(
                        ctxs_of(contexts@),
                    )) by {
                            broadcast use crate::types::lemma_sty_of_seq;

                            lemma_ctxs_push(cs_b, contexts@.last());
                            assert(ctx_of(contexts@.last()) == ctx_at(c, c.ip + 1, drop_top(c.stack, 2).push(c.stack.last()).push(c.stack[c.stack.len() - 2])));
                            assert(check_step(ops@, all0) == CheckStep::Next(ctxs_of(contexts@)));
                    }
                }
            },
            Op::Jump { position, .. } => {
                ctx.ip = *position;
                let ghost cs_b = contexts@;
                contexts.push(ctx);
                proof {
                    assert(check_steps(ops@, steps as int + 1) == CheckStep::Next(
                        ctxs_of(contexts@),
                    )) by {
                            broadcast use crate::types::lemma_sty_of_seq;

                            lemma_ctxs_push(cs_b, contexts@.last());
                            assert(ctx_of(contexts@.last()) == ctx_at(c, ops@[c.ip]->Jump_position as int, c.stack));
                            assert(check_step(ops@, all0) == CheckStep::Next(ctxs_of(contexts@)));
                    }
                }
            },
            Op::ConditonalJump { location, position } => {
                let ghost st0 = ctx.stack@;
                let expected = one_bool_type();
                match expect_types(&mut ctx.stack, location, &expected) {
                    Ok(()) => {},
                    Err(e) => {
                        return Err(e);
                    },
                }
                proof {
                    lemma_stys_subrange(st0, st0.len() - 1);
                }
                let site = ctx.ip;
                // Look this branch site up in the visit table (first entry).
                let mut found: Option<usize> = Option::None;
                let mut idx: usize = 0;
                while idx < ctx.condtional_jump_list.len() && found.is_none()
                    invariant
                        idx <= ctx.condtional_jump_list@.len(),
                        found is None ==> forall|k: int|
                            0 <= k < idx ==> (#[trigger] ctx.condtional_jump_list@[k]).0 != site,
                        found matches Some(j) ==> 0 <= j < ctx.condtional_jump_list@.len()
                            && ctx.condtional_jump_list@[j as int].0 == site && (forall|k: int|
                            0 <= k < j ==> (#[trigger] ctx.condtional_jump_list@[k]).0 != site),
                    decreases ctx.condtional_jump_list@.len() - idx, (if found is None {
                        1int
                    } else {
                        0int
                    }),
                {
                    if ctx.condtional_jump_list[idx].0 == site {
                        found = Option::Some(idx);
                    } else {
                        idx += 1;
                    }
                }
                proof {
                    lemma_find_visit(visits_of(ctx.condtional_jump_list@), site as int);
                    match found {
                        Some(j) => {
                            assert(visits_of(ctx.condtional_jump_list@)[j as int].0
                                == site as int);
                            match find_visit(visits_of(ctx.condtional_jump_list@), site as int) {
                                Some(j2) => {
                                    if j2 < j {
                                        assert(ctx.condtional_jump_list@[j2].0 != site);
                                        assert(visits_of(ctx.condtional_jump_list@)[j2].0
                                            != site as int);
                                        assert(false);
                                    }
                                    if (j as int) < j2 {
                                        assert(false);
                                    }
                                },
                                None => {
                                    assert(false);
                                },
                            }
                        },
                        None => {
                            assert(forall|k: int|
                                0 <= k < visits_of(ctx.condtional_jump_list@).len() ==> (
                                #[trigger] visits_of(ctx.condtional_jump_list@)[k]).0
                                    != site as int);
                            assert(find_visit(visits_of(ctx.condtional_jump_list@), site as int)
                                is None);
                        },
                    }
                }
                match found {
                    Option::Some(j) => {
                        let visit = ctx.condtional_jump_list[j].1;
                        let ghost vl0 = ctx.condtional_jump_list@;
                        match visit {
                            JumpType::Jump => {
                                ctx.ip = ctx.ip + 1;
                            },
                            JumpType::Fallthrough => {
                                ctx.ip = *position;
                            },
                            JumpType::Both => {
                                return Err(
                                    Error {
                                        location: location.clone(),
                                        message: "a branch site was reached a third time on one path"
                                            .to_owned(),
                                    },
                                );
                            },
                        }
                        ctx.condtional_jump_list.set(j, (site, JumpType::Both));
                        proof {
                            lemma_visits_update(vl0, j as int, (site, JumpType::Both));
                        }
                        let ghost cs_b = contexts@;
                        contexts.push(ctx);
                        proof {
                            assert(check_steps(ops@, steps as int + 1) == CheckStep::Next(
                                ctxs_of(contexts@),
                            )) by {
                                    broadcast use crate::types::lemma_sty_of_seq;

                                    lemma_ctxs_push(cs_b, contexts@.last());
                                    assert(ctx_of(contexts@.last()) == (SpecCtx { ip: (if c.visits[j as int].1 is Jump { c.ip + 1 } else { ops@[c.ip]->ConditonalJump_position as int }), stack: drop_top(c.stack, 1), visits: c.visits.update(j as int, (c.ip, JumpType::Both)), proc_info: c.proc_info }));
                                    assert(check_step(ops@, all0) == CheckStep::Next(
                                        ctxs_of(contexts@),
                                    ));
                            }
                        }
                    },
                    Option::None => {
                        let sibling_stack = clone_type_stack(&ctx.stack);
                        let mut sibling_visits = clone_visits(&ctx.condtional_jump_list);
                        sibling_visits.push((site, JumpType::Fallthrough));
                        let sibling_info: Option<Type> = match &ctx.procedure_info {
                            Option::None => Option::None,
                            Option::Some(t) => Option::Some(t.clone()),
                        };
                        let sibling = Context {
                            ip: site + 1,
                            stack: sibling_stack,
                            condtional_jump_list: sibling_visits,
                            procedure_info: sibling_info,
                        };
                        let ghost vl0 = ctx.condtional_jump_list@;
                        ctx.condtional_jump_list.push((site, JumpType::Jump));
                        ctx.ip = *position;
                        proof {
                            lemma_visits_push(vl0, (site, JumpType::Jump));
                            lemma_visits_push(vl0, (site, JumpType::Fallthrough));
                        }
                        let ghost cs_b = contexts@;
                        contexts.push(ctx);
                        proof {
                            lemma_ctxs_push(cs_b, contexts@.last());
                        }
                        let ghost cs_b2 = contexts@;
                        contexts.push(sibling);
                        proof {
                            assert(check_steps(ops@, steps as int + 1) == CheckStep::Next(
                                ctxs_of(contexts@),
                            )) by {
                                broadcast use crate::types::lemma_sty_of_seq;

                                lemma_ctxs_push(cs_b2, contexts@.last());
                                assert(expected@.len() == 1);
                                assert(ctx_of(contexts@[contexts@.len() - 2]) == (SpecCtx {
                                    ip: ops@[c.ip]->ConditonalJump_position as int,
                                    stack: drop_top(c.stack, 1),
                                    visits: c.visits.push((c.ip, JumpType::Jump)),
                                    proc_info: c.proc_info,
                                }));
                                assert(ctx_of(contexts@.last()) == (SpecCtx {
                                    ip: c.ip + 1,
                                    stack: drop_top(c.stack, 1),
                                    visits: c.visits.push((c.ip, JumpType::Fallthrough)),
                                    proc_info: c.proc_info,
                                }));
                                assert(ctxs_of(contexts@) =~= all0.drop_last().push(
                                    ctx_of(contexts@[contexts@.len() - 2]),
                                ).push(ctx_of(contexts@.last())));
                                assert(check_step(ops@, all0) == CheckStep::Next(
                                    ctxs_of(contexts@),
                                ));
                            }
                        }
                    },
                }
            },
            Op::Print { location } => {
                match expect_type_count(&ctx.stack, location, 1) {
                    Ok(()) => {},
                    Err(e) => {
                        return Err(e);
                    },
                }
                let ghost st0 = ctx.stack@;
                let last = ctx.stack.len() - 1;
                let typ = ctx.stack[last].0.clone();
                let mut expected: Vec<Type> = Vec::new();
                expected.push(typ);
                proof {
                    broadcast use crate::types::lemma_sty_of_seq;

                }
                match expect_types(&mut ctx.stack, location, &expected) {
                    Ok(()) => {},
                    Err(e) => {
                        proof {
                            assert(false);
                        }
                        return Err(e);
                    },
                }
                ctx.ip = ctx.ip + 1;
                proof {
                    lemma_stys_subrange(st0, st0.len() - 1);
                }
                let ghost cs_b = contexts@;
                contexts.push(ctx);
                proof {
                    assert(check_steps(ops@, steps as int + 1) == CheckStep::Next(
                        ctxs_of(contexts@),
                    )) by {
                            broadcast use crate::types::lemma_sty_of_seq;

                            lemma_ctxs_push(cs_b, contexts@.last());
                            assert(ctx_of(contexts@.last()) == ctx_at(c, c.ip + 1, drop_top(c.stack, 1)));
                            assert(check_step(ops@, all0) == CheckStep::Next(ctxs_of(contexts@)));
                    }
                }
            },
            Op::SkipProc { location, position, parameters, return_types } => {
                let mut body_stack: Vec<(Type, SourceLocation)> = Vec::new();
                let mut i: usize = 0;
                proof {
                    broadcast use crate::types::lemma_sty_of_seq;

                }
                while i < parameters.len()
                    invariant
                        i <= parameters@.len(),
                        body_stack@.len() == i,
                        forall|j: int|
                            0 <= j < i ==> sty_of(#[trigger] body_stack@[j].0) == sty_of(
                                parameters@[j],
                            ),
                    decreases parameters@.len() - i,
                {
                    body_stack.push((parameters[i].clone(), location.clone()));
                    i += 1;
                }
                proof {
                    broadcast use crate::types::lemma_sty_of_seq;

                    assert(stys_of(body_stack@) =~= sty_of_seq(parameters@));
                }
                let body = Context {
                    ip: ctx.ip + 1,
                    stack: body_stack,
                    condtional_jump_list: Vec::new(),
                    procedure_info: Option::Some(
                        Type::Procedure {
                            parameters: crate::types::clone_type_vec(parameters),
                            return_types: crate::types::clone_type_vec(return_types),
                        },
                    ),
                };
                ctx.ip = *position;
                proof {
                    assert(visits_of(Seq::<(usize, JumpType)>::empty()) =~= Seq::<
                        (int, JumpType),
                    >::empty());
                }
                let ghost cs_b = contexts@;
                contexts.push(ctx);
                proof {
                    lemma_ctxs_push(cs_b, contexts@.last());
                }
                let ghost cs_b2 = contexts@;
                contexts.push(body);
                proof {
                    assert(check_steps(ops@, steps as int + 1) == CheckStep::Next(
                        ctxs_of(contexts@),
                    )) by {
                            broadcast use crate::types::lemma_sty_of_seq;

                            lemma_ctxs_push(cs_b2, contexts@.last());
                            assert(ctx_of(contexts@[contexts@.len() - 2]) == ctx_at(
                                c,
                                ops@[c.ip]->SkipProc_position as int,
                                c.stack,
                            ));
                            assert(ctx_of(contexts@.last()).stack == sty_of_seq(
                                ops@[c.ip]->SkipProc_parameters@,
                            ));
                            assert(ctx_of(contexts@.last()) == (SpecCtx {
                                ip: c.ip + 1,
                                stack: sty_of_seq(ops@[c.ip]->SkipProc_parameters@),
                                visits: Seq::empty(),
                                proc_info: Some(SpecType::Procedure {
                                    parameters: sty_of_seq(ops@[c.ip]->SkipProc_parameters@),
                                    return_types: sty_of_seq(ops@[c.ip]->SkipProc_return_types@),
                                }),
                            }));
                            assert(ctxs_of(contexts@) =~= all0.drop_last().push(
                                ctx_of(contexts@[contexts@.len() - 2]),
                            ).push(ctx_of(contexts@.last())));
                            assert(check_step(ops@, all0) == CheckStep::Next(ctxs_of(contexts@)));
                    }
                }
            },
            Op::Call { location } => {
                match expect_type_count(&ctx.stack, location, 1) {
                    Ok(()) => {},
                    Err(e) => {
                        return Err(e);
                    },
                }
                let ghost st0 = ctx.stack@;
                let top = match ctx.stack.pop() {
                    Some(p) => p,
                    None => vstd::pervasive::unreached(),
                };
                proof {
                    assert(stys_of(ctx.stack@) =~= drop_top(stys_of(st0), 1));
                }
                match top.0 {
                    Type::Procedure { parameters, return_types } => {
                        let ghost ps = parameters@;
                        let ghost rs = return_types@;
                        let ghost st1 = ctx.stack@;
                        match expect_types(&mut ctx.stack, location, &parameters) {
                            Ok(()) => {},
                            Err(e) => {
                                return Err(e);
                            },
                        }
                        proof {
                            broadcast use crate::types::lemma_sty_of_seq;

                            lemma_stys_subrange(st1, st1.len() - parameters@.len());
                        }
                        let ghost st2 = stys_of(ctx.stack@);
                        let ghost ip0 = ctx.ip;
                        let ghost vl0 = ctx.condtional_jump_list@;
                        let ghost pi0 = ctx.procedure_info;
                        let mut k: usize = 0;
                        while k < return_types.len()
                            invariant
                                k <= return_types@.len(),
                                ctx.ip == ip0,
                                ctx.condtional_jump_list@ == vl0,
                                ctx.procedure_info == pi0,
                                stys_of(ctx.stack@) =~= st2 + sty_of_seq(return_types@).subrange(
                                    0,
                                    k as int,
                                ),
                            decreases return_types@.len() - k,
                        {
                            let ghost stb = ctx.stack@;
                            ctx.stack.push((return_types[k].clone(), location.clone()));
                            proof {
                                broadcast use crate::types::lemma_sty_of_seq;

                                lemma_stys_push(stb, ctx.stack@.last());
                                assert(stys_of(ctx.stack@) =~= st2 + sty_of_seq(
                                    return_types@,
                                ).subrange(0, k + 1));
                            }
                            k += 1;
                        }
                        ctx.ip = ctx.ip + 1;
                        proof {
                            broadcast use crate::types::lemma_sty_of_seq;

                            assert(stys_of(ctx.stack@) =~= st2 + sty_of_seq(return_types@));
                        }
                        let ghost cs_b = contexts@;
                        contexts.push(ctx);
                        proof {
                            assert(check_steps(ops@, steps as int + 1) == CheckStep::Next(
                                ctxs_of(contexts@),
                            )) by {
                                    broadcast use crate::types::lemma_sty_of_seq;

                                    lemma_ctxs_push(cs_b, contexts@.last());
                                    assert(c.stack.last() is Procedure);
                                    assert(c.stack.last()->Procedure_parameters == sty_of_seq(ps));
                                    assert(c.stack.last()->Procedure_return_types == sty_of_seq(rs));
                                    assert(stys_of(st1) == drop_top(c.stack, 1));
                                    assert(st2 == stys_of(st1).subrange(
                                        0,
                                        st1.len() - sty_of_seq(ps).len(),
                                    ));
                                    assert(st2 =~= drop_top(c.stack, 1 + sty_of_seq(ps).len() as int));
                                    assert(ctx_of(contexts@.last()).stack == drop_top(
                                        c.stack,
                                        1 + c.stack.last()->Procedure_parameters.len() as int,
                                    ) + c.stack.last()->Procedure_return_types);
                                    assert(ctx_of(contexts@.last()) == ctx_at(
                                        c,
                                        c.ip + 1,
                                        drop_top(
                                            c.stack,
                                            1 + c.stack.last()->Procedure_parameters.len() as int,
                                        ) + c.stack.last()->Procedure_return_types,
                                    ));
                                    assert(check_step(ops@, all0) == CheckStep::Next(
                                        ctxs_of(contexts@),
                                    ));
                            }
                        }
                    },
                    _ => {
                        return Err(
                            Error {
                                location: top.1,
                                message: "a procedure value is needed to call".to_owned(),
                            },
                        );
                    },
                }
            },
            Op::Return { location } => {
                match &ctx.procedure_info {
                    Option::Some(Type::Procedure { return_types, .. }) => {
                        let ghost st0 = ctx.stack@;
                        match expect_types(&mut ctx.stack, location, return_types) {
                            Ok(()) => {},
                            Err(e) => {
                                proof {
                                    broadcast use crate::types::lemma_sty_of_seq;

                                    if c.stack == sty_of_seq(return_types@) {
                                        assert(suffix_matches(
                                            stys_of(st0),
                                            sty_of_seq(return_types@),
                                        ));
                                    }
                                }
                                return Err(e);
                            },
                        }
                        if ctx.stack.len() > 0 {
                            proof {
                                broadcast use crate::types::lemma_sty_of_seq;

                                assert(stys_of(st0).len() > sty_of_seq(return_types@).len());
                            }
                            let last = ctx.stack.len() - 1;
                            return Err(
                                Error {
                                    location: ctx.stack[last].1.clone(),
                                    message: "unexpected values on the stack at the end of the procedure"
                                        .to_owned(),
                                },
                            );
                        }
                        proof {
                            broadcast use crate::types::lemma_sty_of_seq;

                            assert(stys_of(st0) =~= sty_of_seq(return_types@));
                        }
                        if contexts.len() == 0 {
                            proof {
                                assert(check_steps(ops@, steps as int + 1) == CheckStep::Next(
                                    rest_spec,
                                ));
                                assert(check_steps(ops@, steps as int + 2)
                                    == CheckStep::Accepted);
                            }
                            return Ok(());
                        }
                    },
                    _ => {
                        return Err(
                            Error {
                                location: location.clone(),
                                message: "return outside a procedure".to_owned(),
                            },
                        );
                    },
                }
            },
        }
        steps = steps + 1;
    }
}


/// Modularity of calls: checking a `Call` consults the called signature
/// alone. The step spawns no context and never moves into a procedure body:
/// it continues the same context at the next op, with the callee's effect on
/// the symbolic stack taken from its declared parameter and return lists.
pub proof fn lemma_call_checked_against_signature(ops: Seq<Op>, ctxs: Seq<SpecCtx>)
    requires
        ctxs.len() > 0,
        0 <= ctxs.last().ip < ops.len(),
        ops[ctxs.last().ip] is Call,
    ensures
        check_step(ops, ctxs) matches CheckStep::Next(cs2) ==> cs2.len() == ctxs.len()
            && cs2.drop_last() == ctxs.drop_last() && cs2.last().ip == ctxs.last().ip + 1
            && cs2.last().visits == ctxs.last().visits && cs2.last().proc_info == ctxs.last().proc_info,
{
    match check_step(ops, ctxs) {
        CheckStep::Next(cs2) => {
            assert(cs2.drop_last() =~= ctxs.drop_last());
        },
        _ => {
        },
    }
}

/// A procedure body is entered for checking only at its declaration: the
/// work-stack grows only when the step reads a `SkipProc` (spawning the one
/// body context) or takes the first visit of a conditional jump.
pub proof fn lemma_forks_only_at_declarations_and_branches(ops: Seq<Op>, ctxs: Seq<SpecCtx>)
    requires
        ctxs.len() > 0,
    ensures
        (check_step(ops, ctxs) matches CheckStep::Next(cs2) && cs2.len() > ctxs.len()) ==> 0
            <= ctxs.last().ip < ops.len() && (ops[ctxs.last().ip] is SkipProc || ops[
            ctxs.last().ip
        ] is ConditonalJump),
{
}

/// A verdict, once reached, never changes with more steps.
pub proof fn lemma_verdict_stays(ops: Seq<Op>, n: int, m: int)
    requires
        0 <= n <= m,
    ensures
        check_steps(ops, n) == CheckStep::Accepted ==> check_steps(ops, m)
            == CheckStep::Accepted,
        check_steps(ops, n) == CheckStep::Rejected ==> check_steps(ops, m)
            == CheckStep::Rejected,
    decreases m - n,
{
    if n < m {
        lemma_verdict_stays(ops, n, m - 1);
    }
}

/// The checker's verdict is unambiguous: a program accepted at some step is
/// never rejected at another.
pub proof fn lemma_verdict_unique(ops: Seq<Op>, n: int, m: int)
    requires
        0 <= n,
        0 <= m,
    ensures
        check_steps(ops, n) == CheckStep::Accepted ==> check_steps(ops, m)
            != CheckStep::Rejected,
{
    if check_steps(ops, n) == CheckStep::Accepted {
        if n <= m {
            lemma_verdict_stays(ops, n, m);
        } else {
            lemma_verdict_stays(ops, m, n);
        }
    }
}


/// A runtime value carries the tag the symbolic type promises.
pub open spec fn value_matches_type(v: SpecValue, t: SpecType) -> bool {
    match v {
        SpecValue::Integer(_) => t == SpecType::Integer,
        SpecValue::Bool(_) => t == SpecType::Bool,
        SpecValue::FunctionPointer(_) => t is Procedure,
        SpecValue::TypeValue(_) => t == SpecType::Type,
    }
}

/// A runtime operand stack has exactly the shape of a symbolic stack.
pub open spec fn stack_matches(vs: Seq<SpecValue>, ts: Seq<SpecType>) -> bool {
    &&& vs.len() == ts.len()
    &&& forall|i: int| 0 <= i < vs.len() ==> value_matches_type(#[trigger] vs[i], ts[i])
}

/// One step of type-checker soundness: at an op the checker passes against a
/// symbolic stack the machine's operand stack matches, the machine's step
/// does not trap on an operand-stack underflow or a tag mismatch. The only
/// traps left open are numeric faults in the four arithmetic ops (overflow,
/// division by zero) and an empty return stack at `Return`, which the
/// symbolic stack says nothing about.
pub proof fn lemma_checked_op_steps_safely(ops: Seq<Op>, s: RunState, c: SpecCtx)
    requires
        s.ip == c.ip,
        0 <= s.ip < ops.len(),
        stack_matches(s.stack, c.stack),
        !(check_step(ops, seq![c]) is Rejected),
    ensures
        run_step(ops, s) is Trapped ==> (ops[s.ip] is AddInteger || ops[s.ip] is SubtractInteger
            || ops[s.ip] is MultiplyInteger || ops[s.ip] is DivideInteger || ops[s.ip] is Return),
{
    let ctxs = seq![c];
    assert(ctxs.last() == c);
    let l = s.stack.len() as int;
    match ops[s.ip] {
        Op::AddInteger { .. } | Op::SubtractInteger { .. } | Op::MultiplyInteger { .. }
            | Op::DivideInteger { .. } => {
        },
        Op::LessThanInteger { .. } | Op::GreaterThanInteger { .. } | Op::LessThanEqualInteger {
            ..
        } | Op::GreaterThanEqualInteger { .. } => {
            assert(suffix_matches(c.stack, seq![SpecType::Integer, SpecType::Integer]));
            assert(c.stack[l - 2] == SpecType::Integer && c.stack[l - 1] == SpecType::Integer);
            assert(value_matches_type(s.stack[l - 2], c.stack[l - 2]));
            assert(value_matches_type(s.stack[l - 1], c.stack[l - 1]));
        },
        Op::Equal { .. } | Op::NotEqual { .. } => {
            assert(c.stack[l - 1] == c.stack[l - 2]);
            assert(value_matches_type(s.stack[l - 2], c.stack[l - 2]));
            assert(value_matches_type(s.stack[l - 1], c.stack[l - 1]));
            assert(crate::execution::same_tag(s.stack[l - 2], s.stack.last()));
        },
        Op::Not { .. } => {
            if !suffix_matches(c.stack, seq![SpecType::Bool]) {
                assert(check_step(ops, ctxs) is Rejected);
            }
            assert(seq![SpecType::Bool][0] == SpecType::Bool);
            assert(c.stack[l - 1] == SpecType::Bool);
            assert(value_matches_type(s.stack[l - 1], c.stack[l - 1]));
        },
        Op::ConditonalJump { .. } => {
            if !suffix_matches(c.stack, seq![SpecType::Bool]) {
                assert(check_step(ops, ctxs) is Rejected);
            }
            assert(seq![SpecType::Bool][0] == SpecType::Bool);
            assert(c.stack[l - 1] == SpecType::Bool);
            assert(value_matches_type(s.stack[l - 1], c.stack[l - 1]));
        },
        Op::Dup { .. } | Op::Drop { .. } | Op::Print { .. } => {
            assert(c.stack.len() >= 1);
        },
        Op::Swap { .. } => {
            assert(c.stack.len() >= 2);
        },
        Op::Call { .. } => {
            assert(c.stack.last() is Procedure);
            assert(value_matches_type(s.stack[l - 1], c.stack[l - 1]));
        },
        _ => {
        },
    }
}


} // verus!
