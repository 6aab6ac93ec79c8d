//! The per-procedure compiler: a single forward pass emitting `IR` with
//! relative, back-patched jumps, one instruction list per procedure.

use vstd::prelude::*;
use vstd::string::StringExecFns;

use crate::common::{Error, SourceLocation};
use crate::ir::{IR, IRKind, ir_ok, irs_wf};
use crate::token::{TokenData, TokenKind};
use crate::tokenizer::Tokenizer;

verus! {

/// An open lexical scope, with what must be patched or emitted at its close.
enum Scope {
    While { position: usize },
    WhileBody { while_position: usize, conditional_jump_position: usize },
    If { conditional_jump_position: usize },
    Else { end_of_then_jump_position: usize },
    Proc { id: usize },
    Block,
    Global,
}

/// A name a scope declares.
enum Decl {
    Proc { id: usize },
}

/// Every procedure a scope or declaration names exists.
spec fn scopes_ok(ss: Seq<(Vec<(String, Decl)>, Scope)>, n: int) -> bool {
    &&& forall|j: int|
        0 <= j < ss.len() ==> ((#[trigger] ss[j]).1 matches Scope::Proc { id } ==> id < n)
    &&& forall|j: int, k: int|
        0 <= j < ss.len() && 0 <= k < ss[j].0@.len() ==> ((#[trigger] ss[j].0@[k]).1 matches
            Decl::Proc { id } ==> id < n)
}

/// Procedure `k`'s body is still open on the scope stack.
spec fn open_proc(ss: Seq<(Vec<(String, Decl)>, Scope)>, k: int) -> bool {
    exists|j: int| (#[trigger] ss[j]).1 matches Scope::Proc { id } && 0 <= j < ss.len() && id == k
}

/// The instruction list ends in `Return`.
pub open spec fn ends_in_return(body: Seq<IR>) -> bool {
    body.len() >= 1 && body.last().kind is Return
}

/// Every procedure other than the global one is either still open or has
/// been sealed with its closing `Return`.
spec fn procs_closed(procs: Seq<Vec<IR>>, ss: Seq<(Vec<(String, Decl)>, Scope)>) -> bool {
    forall|k: int|
        1 <= k < procs.len() ==> open_proc(ss, k) || ends_in_return(#[trigger] procs[k]@)
}

/// An open procedure stays open when a scope is appended.
proof fn lemma_open_push(
    ss0: Seq<(Vec<(String, Decl)>, Scope)>,
    x: (Vec<(String, Decl)>, Scope),
    k: int,
)
    requires
        open_proc(ss0, k),
    ensures
        open_proc(ss0.push(x), k),
{
    let j = choose|j: int|
        (#[trigger] ss0[j]).1 matches Scope::Proc { id } && 0 <= j < ss0.len() && id == k;
    assert(ss0.push(x)[j] == ss0[j]);
}

/// An open procedure stays open when a scope that is not a procedure body is
/// dropped.
proof fn lemma_open_pop(ss0: Seq<(Vec<(String, Decl)>, Scope)>, k: int)
    requires
        open_proc(ss0, k),
        ss0.len() >= 1,
        !(ss0.last().1 is Proc),
    ensures
        open_proc(ss0.drop_last(), k),
{
    let j = choose|j: int|
        (#[trigger] ss0[j]).1 matches Scope::Proc { id } && 0 <= j < ss0.len() && id == k;
    assert(j < ss0.len() - 1);
    assert(ss0.drop_last()[j] == ss0[j]);
}

/// `scopes_ok` follows a scope push whose entries are in bounds.
proof fn lemma_scopes_ok_push(
    ss0: Seq<(Vec<(String, Decl)>, Scope)>,
    x: (Vec<(String, Decl)>, Scope),
    n: int,
)
    requires
        scopes_ok(ss0, n),
        x.1 matches Scope::Proc { id } ==> id < n,
        forall|k: int|
            0 <= k < x.0@.len() ==> ((#[trigger] x.0@[k]).1 matches Decl::Proc { id } ==> id < n),
    ensures
        scopes_ok(ss0.push(x), n),
{
    let ss1 = ss0.push(x);
    assert forall|j: int|
        0 <= j < ss1.len() implies ((#[trigger] ss1[j]).1 matches Scope::Proc { id } ==> id
        < n) by {
        if j < ss0.len() {
            assert(ss1[j] == ss0[j]);
        }
    }
    assert forall|j: int, k: int|
        0 <= j < ss1.len() && 0 <= k < ss1[j].0@.len() implies ((#[trigger] ss1[j].0@[k]).1
        matches Decl::Proc { id } ==> id < n) by {
        if j < ss0.len() {
            assert(ss1[j] == ss0[j]);
        }
    }
}

/// `scopes_ok` survives dropping the innermost scope.
proof fn lemma_scopes_ok_pop(ss0: Seq<(Vec<(String, Decl)>, Scope)>, n: int)
    requires
        scopes_ok(ss0, n),
        ss0.len() >= 1,
    ensures
        scopes_ok(ss0.drop_last(), n),
{
    let ss1 = ss0.drop_last();
    assert forall|j: int|
        0 <= j < ss1.len() implies ((#[trigger] ss1[j]).1 matches Scope::Proc { id } ==> id
        < n) by {
        assert(ss1[j] == ss0[j]);
    }
    assert forall|j: int, k: int|
        0 <= j < ss1.len() && 0 <= k < ss1[j].0@.len() implies ((#[trigger] ss1[j].0@[k]).1
        matches Decl::Proc { id } ==> id < n) by {
        assert(ss1[j] == ss0[j]);
    }
}

/// `scopes_ok` is monotone in the number of procedures.
proof fn lemma_scopes_ok_mono(ss: Seq<(Vec<(String, Decl)>, Scope)>, n: int, m: int)
    requires
        scopes_ok(ss, n),
        n <= m,
    ensures
        scopes_ok(ss, m),
{
}

/// Touching only the current procedure (the global one, or one that is still
/// open) keeps every other procedure sealed.
proof fn lemma_closed_touch(
    procs0: Seq<Vec<IR>>,
    procs1: Seq<Vec<IR>>,
    ss: Seq<(Vec<(String, Decl)>, Scope)>,
    cp: int,
)
    requires
        procs_closed(procs0, ss),
        0 <= cp < procs0.len(),
        cp == 0 || open_proc(ss, cp),
        procs1.len() == procs0.len(),
        forall|q: int| 0 <= q < procs0.len() && q != cp ==> procs1[q] == procs0[q],
    ensures
        procs_closed(procs1, ss),
{
    assert forall|k: int|
        1 <= k < procs1.len() implies open_proc(ss, k) || ends_in_return(
        #[trigger] procs1[k]@,
    ) by {
        if k != cp {
            assert(procs1[k] == procs0[k]);
            assert(open_proc(ss, k) || ends_in_return(procs0[k]@));
        }
    }
}

/// Appending a scope keeps every open procedure open.
proof fn lemma_closed_scope_push(
    procs: Seq<Vec<IR>>,
    ss0: Seq<(Vec<(String, Decl)>, Scope)>,
    x: (Vec<(String, Decl)>, Scope),
)
    requires
        procs_closed(procs, ss0),
    ensures
        procs_closed(procs, ss0.push(x)),
{
    assert forall|k: int|
        1 <= k < procs.len() implies open_proc(ss0.push(x), k) || ends_in_return(
        #[trigger] procs[k]@,
    ) by {
        if open_proc(ss0, k) {
            let j = choose|j: int|
                (#[trigger] ss0[j]).1 matches Scope::Proc { id } && 0 <= j < ss0.len() && id
                    == k;
            assert(ss0.push(x)[j] == ss0[j]);
        }
    }
}

/// Dropping a scope that is not a procedure body keeps every open procedure
/// open.
proof fn lemma_closed_scope_pop(procs: Seq<Vec<IR>>, ss0: Seq<(Vec<(String, Decl)>, Scope)>)
    requires
        procs_closed(procs, ss0),
        ss0.len() >= 1,
        !(ss0.last().1 is Proc),
    ensures
        procs_closed(procs, ss0.drop_last()),
{
    assert forall|k: int|
        1 <= k < procs.len() implies open_proc(ss0.drop_last(), k) || ends_in_return(
        #[trigger] procs[k]@,
    ) by {
        if open_proc(ss0, k) {
            let j = choose|j: int|
                (#[trigger] ss0[j]).1 matches Scope::Proc { id } && 0 <= j < ss0.len() && id
                    == k;
            assert(j < ss0.len() - 1);
            assert(ss0.drop_last()[j] == ss0[j]);
        }
    }
}

/// Appending one instruction preserves well-formedness, provided the new
/// instruction is in bounds at its index.
proof fn lemma_irs_push(procs0: Seq<Vec<IR>>, procs1: Seq<Vec<IR>>, p: int)
    requires
        irs_wf(procs0),
        0 <= p < procs0.len(),
        procs1.len() == procs0.len(),
        forall|q: int| 0 <= q < procs0.len() && q != p ==> procs1[q] == procs0[q],
        procs1[p]@.len() == procs0[p]@.len() + 1,
        forall|i: int| 0 <= i < procs0[p]@.len() ==> procs1[p]@[i] == procs0[p]@[i],
        ir_ok(procs1, p, procs0[p]@.len() as int),
    ensures
        irs_wf(procs1),
{
    assert forall|q: int, i: int|
        0 <= q < procs1.len() && 0 <= i < procs1[q]@.len() implies #[trigger] ir_ok(
        procs1,
        q,
        i,
    ) by {
        if q != p {
            assert(ir_ok(procs0, q, i));
            assert(procs1[q] == procs0[q]);
        } else if i < procs0[p]@.len() {
            assert(ir_ok(procs0, p, i));
        }
    }
}

/// Patching one instruction preserves well-formedness, provided the patched
/// instruction is in bounds at its index.
proof fn lemma_irs_patch(procs0: Seq<Vec<IR>>, procs1: Seq<Vec<IR>>, p: int, j: int)
    requires
        irs_wf(procs0),
        0 <= p < procs0.len(),
        0 <= j < procs0[p]@.len(),
        procs1.len() == procs0.len(),
        forall|q: int| 0 <= q < procs0.len() && q != p ==> procs1[q] == procs0[q],
        procs1[p]@.len() == procs0[p]@.len(),
        forall|i: int| 0 <= i < procs0[p]@.len() && i != j ==> procs1[p]@[i] == procs0[p]@[i],
        ir_ok(procs1, p, j),
    ensures
        irs_wf(procs1),
{
    assert forall|q: int, i: int|
        0 <= q < procs1.len() && 0 <= i < procs1[q]@.len() implies #[trigger] ir_ok(
        procs1,
        q,
        i,
    ) by {
        if q != p {
            assert(ir_ok(procs0, q, i));
            assert(procs1[q] == procs0[q]);
        } else if i != j {
            assert(ir_ok(procs0, p, i));
        }
    }
}

/// Append one instruction to procedure `p`.
fn emit(procs: &mut Vec<Vec<IR>>, p: usize, ir: IR)
    requires
        p < old(procs)@.len(),
        irs_wf(old(procs)@),
        match ir.kind {
            IRKind::Jump { relative_position } => 0 <= old(procs)@[p as int]@.len()
                + relative_position <= old(procs)@[p as int]@.len() + 1,
            IRKind::JumpFalse { relative_position } => 0 <= old(procs)@[p as int]@.len()
                + relative_position <= old(procs)@[p as int]@.len() + 1,
            IRKind::PushProc { id } => id < old(procs)@.len(),
            _ => true,
        },
    ensures
        irs_wf(final(procs)@),
        final(procs)@.len() == old(procs)@.len(),
        forall|q: int|
            0 <= q < old(procs)@.len() && q != p ==> final(procs)@[q] == old(procs)@[q],
        final(procs)@[p as int]@ == old(procs)@[p as int]@.push(ir),
{
    let ghost procs0 = procs@;
    procs[p].push(ir);
    proof {
        lemma_irs_push(procs0, procs@, p as int);
    }
}

/// Resolve the relative distance from instruction `j` to `target`.
fn relative_to(j: usize, target: usize) -> (r: Result<isize, Error>)
    ensures
        r matches Ok(rel) ==> j + rel == target,
{
    if target >= j {
        let d = target - j;
        if d > (isize::MAX as usize) {
            return Err(
                Error {
                    location: SourceLocation {
                        filepath: String::new(),
                        position: 0,
                        line: 0,
                        column: 0,
                    },
                    message: "procedure too large".to_owned(),
                },
            );
        }
        Ok(d as isize)
    } else {
        let d = j - target;
        if d > (isize::MAX as usize) {
            return Err(
                Error {
                    location: SourceLocation {
                        filepath: String::new(),
                        position: 0,
                        line: 0,
                        column: 0,
                    },
                    message: "procedure too large".to_owned(),
                },
            );
        }
        Ok(-(d as isize))
    }
}

/// Back-patch the `JumpFalse` at `(p, j)` so it lands on `target`. The error
/// paths guard index arithmetic that the scope stack this compiler builds
/// never produces; they keep the patch total and carry the sentinel
/// location.
fn patch_jump_false(procs: &mut Vec<Vec<IR>>, p: usize, j: usize, target: usize) -> (r: Result<
    (),
    Error,
>)
    requires
        p < old(procs)@.len(),
        irs_wf(old(procs)@),
        target <= old(procs)@[p as int]@.len(),
    ensures
        irs_wf(final(procs)@),
        final(procs)@.len() == old(procs)@.len(),
        forall|q: int|
            0 <= q < old(procs)@.len() && q != p ==> final(procs)@[q] == old(procs)@[q],
        final(procs)@[p as int]@.len() == old(procs)@[p as int]@.len(),
{
    let ghost procs0 = procs@;
    if j >= procs[p].len() {
        return Err(
            Error {
                location: SourceLocation {
                    filepath: String::new(),
                    position: 0,
                    line: 0,
                    column: 0,
                },
                message: "internal compiler error: bad back-patch".to_owned(),
            },
        );
    }
    let rel = match relative_to(j, target) {
        Ok(rel) => rel,
        Err(e) => {
            return Err(e);
        },
    };
    let entry = &mut procs[p][j];
    let patched: bool = match &mut entry.kind {
        IRKind::JumpFalse { relative_position } => {
            *relative_position = rel;
            true
        },
        _ => false,
    };
    proof {
        if patched {
            assert(ir_ok(procs@, p as int, j as int));
        } else {
            assert(procs@[p as int]@[j as int] == procs0[p as int]@[j as int]);
            assert(ir_ok(procs0, p as int, j as int));
        }
        lemma_irs_patch(procs0, procs@, p as int, j as int);
    }
    if patched {
        Ok(())
    } else {
        Err(
            Error {
                location: SourceLocation {
                    filepath: String::new(),
                    position: 0,
                    line: 0,
                    column: 0,
                },
                message: "internal compiler error: bad back-patch".to_owned(),
            },
        )
    }
}

/// Back-patch the `Jump` at `(p, j)` so it lands on `target`. The error
/// paths guard index arithmetic that the scope stack this compiler builds
/// never produces; they keep the patch total and carry the sentinel
/// location.
fn patch_jump(procs: &mut Vec<Vec<IR>>, p: usize, j: usize, target: usize) -> (r: Result<
    (),
    Error,
>)
    requires
        p < old(procs)@.len(),
        irs_wf(old(procs)@),
        target <= old(procs)@[p as int]@.len(),
    ensures
        irs_wf(final(procs)@),
        final(procs)@.len() == old(procs)@.len(),
        forall|q: int|
            0 <= q < old(procs)@.len() && q != p ==> final(procs)@[q] == old(procs)@[q],
        final(procs)@[p as int]@.len() == old(procs)@[p as int]@.len(),
{
    let ghost procs0 = procs@;
    if j >= procs[p].len() {
        return Err(
            Error {
                location: SourceLocation {
                    filepath: String::new(),
                    position: 0,
                    line: 0,
                    column: 0,
                },
                message: "internal compiler error: bad back-patch".to_owned(),
            },
        );
    }
    let rel = match relative_to(j, target) {
        Ok(rel) => rel,
        Err(e) => {
            return Err(e);
        },
    };
    let entry = &mut procs[p][j];
    let patched: bool = match &mut entry.kind {
        IRKind::Jump { relative_position } => {
            *relative_position = rel;
            true
        },
        _ => false,
    };
    proof {
        if patched {
            assert(ir_ok(procs@, p as int, j as int));
        } else {
            assert(procs@[p as int]@[j as int] == procs0[p as int]@[j as int]);
            assert(ir_ok(procs0, p as int, j as int));
        }
        lemma_irs_patch(procs0, procs@, p as int, j as int);
    }
    if patched {
        Ok(())
    } else {
        Err(
            Error {
                location: SourceLocation {
                    filepath: String::new(),
                    position: 0,
                    line: 0,
                    column: 0,
                },
                message: "internal compiler error: bad back-patch".to_owned(),
            },
        )
    }
}

/// The procedure the next instruction belongs to: the innermost enclosing
/// procedure scope, or the global procedure 0.
fn current_procedure(scopes: &Vec<(Vec<(String, Decl)>, Scope)>, Ghost(plen): Ghost<int>) -> (r:
    usize)
    requires
        plen >= 1,
        scopes_ok(scopes@, plen),
    ensures
        r < plen,
        r == 0 || open_proc(scopes@, r as int),
{
    let mut i = scopes.len();
    while i > 0
        invariant
            i <= scopes@.len(),
            plen >= 1,
            scopes_ok(scopes@, plen),
        decreases i,
    {
        i = i - 1;
        match &scopes[i].1 {
            Scope::Proc { id } => {
                proof {
                    assert(scopes@[i as int].1 matches Scope::Proc { id: pid } && pid < plen);
                }
                return *id;
            },
            Scope::Global => {
                return 0;
            },
            _ => {},
        }
    }
    0
}

/// Compile everything the tokenizer yields into per-procedure instruction
/// lists: procedure 0 is the program, terminated by one `Exit` stamped with
/// the end-of-file location; every other procedure ends in `Return`.
///
/// On success every relative jump lands inside its own procedure and every
/// procedure reference names an existing procedure (`irs_wf`), and the whole
/// token stream was consumed. An empty stream owes exactly one procedure
/// holding `[Exit]`; a stream opening on a stray closing brace owes
/// failure.
pub fn compile_ir<T: Tokenizer>(tokenizer: &mut T, procedures: &mut Vec<Vec<IR>>) -> (r: Result<
    (),
    Error,
>)
    requires
        old(tokenizer).wf(),
        old(procedures)@.len() == 0,
    ensures
        final(tokenizer).wf(),
        r is Ok ==> {
            &&& irs_wf(final(procedures)@)
            &&& final(procedures)@.len() >= 1
            &&& final(procedures)@[0]@.len() >= 1
            &&& final(procedures)@[0]@.last().kind is Exit
            &&& forall|k: int|
                1 <= k < final(procedures)@.len() ==> ends_in_return(
                    #[trigger] final(procedures)@[k]@,
                )
            &&& (final(tokenizer).front() matches Ok(tv) && tv.kind == TokenKind::EndOfFile
                && crate::common::loc_view(final(procedures)@[0]@.last().location) == tv.loc)
        },
        (old(tokenizer).front() matches Ok(tv) && tv.kind == TokenKind::EndOfFile) ==> (r is Ok
            && final(tokenizer).front() == old(tokenizer).front() && final(procedures)@.len() == 1
            && final(procedures)@[0]@.len() == 1 && final(procedures)@[0]@[0].kind is Exit),
        (old(tokenizer).front() matches Ok(tv) && tv.kind == TokenKind::CloseBrace) ==> r is Err,
{
    let ghost entry_eof: bool = old(tokenizer).front() matches Ok(tv) && tv.kind
        == TokenKind::EndOfFile;
    let ghost entry_close: bool = old(tokenizer).front() matches Ok(tv) && tv.kind
        == TokenKind::CloseBrace;
    let mut scopes: Vec<(Vec<(String, Decl)>, Scope)> = Vec::new();
    scopes.push((Vec::new(), Scope::Global));
    procedures.push(Vec::new());
    loop
        invariant
            tokenizer.wf(),
            procedures@.len() >= 1,
            irs_wf(procedures@),
            scopes@.len() >= 1,
            scopes@[0].1 is Global,
            scopes_ok(scopes@, procedures@.len() as int),
            procs_closed(procedures@, scopes@),
            entry_eof == (old(tokenizer).front() matches Ok(tv) && tv.kind
                == TokenKind::EndOfFile),
            entry_eof ==> procedures@.len() == 1 && procedures@[0]@.len() == 0 && scopes@.len()
                == 1 && tokenizer.front() == old(tokenizer).front(),
            entry_close == (old(tokenizer).front() matches Ok(tv) && tv.kind
                == TokenKind::CloseBrace),
            entry_close ==> scopes@.len() == 1 && tokenizer.front() == old(tokenizer).front(),
        ensures
            tokenizer.wf(),
            procedures@.len() >= 1,
            irs_wf(procedures@),
            scopes@.len() == 1,
            scopes@[0].1 is Global,
            procs_closed(procedures@, scopes@),
            tokenizer.front() matches Ok(tv) && tv.kind == TokenKind::EndOfFile,
            entry_eof ==> procedures@.len() == 1 && procedures@[0]@.len() == 0
                && tokenizer.front() == old(tokenizer).front(),
            !entry_close,
        decreases tokenizer.measure(),
    {
        let ghost ss0 = scopes@;
        let ghost gprocs0 = procedures@;
        let cp = current_procedure(&scopes, Ghost(procedures@.len() as int));
        let token = match tokenizer.next_token() {
            Ok(t) => t,
            Err(e) => {
                return Err(e);
            },
        };
        match token.kind {
            TokenKind::EndOfFile => {
                if scopes.len() > 1 {
                    return Err(
                        Error {
                            location: token.location,
                            message: "missing closing brace".to_owned(),
                        },
                    );
                }
                break;
            },
            TokenKind::Integer => {
                let value = token.data.get_integer();
                emit(procedures, cp, IR { location: token.location, kind: IRKind::PushInt { value } });
                proof {
                    lemma_closed_touch(gprocs0, procedures@, scopes@, cp as int);
                }
            },
            TokenKind::Name => {
                let name = token.data.get_string();
                if crate::common::str_is(&name, "true") || crate::common::str_is(&name, "false") {
                    // Boolean literals compile to a comparison with the
                    // fitting outcome.
                    emit(
                        procedures,
                        cp,
                        IR { location: token.location.clone(), kind: IRKind::PushInt { value: 1 } },
                    );
                    emit(
                        procedures,
                        cp,
                        IR { location: token.location.clone(), kind: IRKind::PushInt { value: 1 } },
                    );
                    if crate::common::str_is(&name, "true") {
                        emit(procedures, cp, IR { location: token.location, kind: IRKind::Equal });
                    } else {
                        emit(
                            procedures,
                            cp,
                            IR { location: token.location, kind: IRKind::NotEqual },
                        );
                    }
                    proof {
                        lemma_closed_touch(gprocs0, procedures@, scopes@, cp as int);
                    }
                    continue;
                }
                let mut found: Option<usize> = Option::None;
                let mut si = scopes.len();
                while si > 0 && found.is_none()
                    invariant
                        si <= scopes@.len(),
                        scopes_ok(scopes@, procedures@.len() as int),
                        found matches Some(id) ==> id < procedures@.len(),
                    decreases si,
                {
                    si = si - 1;
                    let mut ki = scopes[si].0.len();
                    while ki > 0 && found.is_none()
                        invariant
                            si < scopes@.len(),
                            ki <= scopes@[si as int].0@.len(),
                            scopes_ok(scopes@, procedures@.len() as int),
                            found matches Some(id) ==> id < procedures@.len(),
                        decreases ki,
                    {
                        ki = ki - 1;
                        proof {
                            assert((scopes@[si as int].0@[ki as int].1 matches Decl::Proc { id }
                                ==> id < procedures@.len()));
                        }
                        if scopes[si].0[ki].0.eq(&name) {
                            match &scopes[si].0[ki].1 {
                                Decl::Proc { id } => {
                                    found = Option::Some(*id);
                                },
                            }
                        }
                    }
                }
                match found {
                    Option::Some(id) => {
                        emit(
                            procedures,
                            cp,
                            IR { location: token.location, kind: IRKind::PushProc { id } },
                        );
                        proof {
                            lemma_closed_touch(gprocs0, procedures@, scopes@, cp as int);
                        }
                    },
                    Option::None => {
                        let mut message: String = "unable to find name ".to_owned();
                        message.append(name.as_str());
                        return Err(Error { location: token.location, message });
                    },
                }
            },
            TokenKind::Print => {
                emit(procedures, cp, IR { location: token.location, kind: IRKind::Print });
                proof {
                    lemma_closed_touch(gprocs0, procedures@, scopes@, cp as int);
                }
            },
            TokenKind::If => {
                match tokenizer.expect_token(TokenKind::OpenBrace) {
                    Ok(_) => {},
                    Err(e) => {
                        return Err(e);
                    },
                }
                scopes.push(
                    (
                        Vec::new(),
                        Scope::If { conditional_jump_position: procedures[cp].len() },
                    ),
                );
                proof {
                    lemma_scopes_ok_push(ss0, scopes@.last(), procedures@.len() as int);
                    lemma_closed_scope_push(procedures@, ss0, scopes@.last());
                    assert(scopes@ =~= ss0.push(scopes@.last()));
                    if cp != 0 {
                        lemma_open_push(ss0, scopes@.last(), cp as int);
                    }
                }
                emit(
                    procedures,
                    cp,
                    IR {
                        location: token.location,
                        kind: IRKind::JumpFalse { relative_position: 0 },
                    },
                );
                proof {
                    lemma_closed_touch(gprocs0, procedures@, scopes@, cp as int);
                }
            },
            TokenKind::While => {
                scopes.push((Vec::new(), Scope::While { position: procedures[cp].len() }));
                proof {
                    lemma_scopes_ok_push(ss0, scopes@.last(), procedures@.len() as int);
                    lemma_closed_scope_push(procedures@, ss0, scopes@.last());
                    assert(scopes@ =~= ss0.push(scopes@.last()));
                }
            },
            TokenKind::Proc => {
                let has_name = {
                    let k = match tokenizer.peek_kind() {
                        Ok(k) => k,
                        Err(e) => {
                            return Err(e);
                        },
                    };
                    k != TokenKind::OpenParenthesis
                };
                let name_token = if has_name {
                    match tokenizer.expect_token(TokenKind::Name) {
                        Ok(t) => Some(t),
                        Err(e) => {
                            return Err(e);
                        },
                    }
                } else {
                    None
                };
                match tokenizer.expect_token(TokenKind::OpenParenthesis) {
                    Ok(_) => {},
                    Err(e) => {
                        return Err(e);
                    },
                }
                match tokenizer.expect_token(TokenKind::CloseParenthesis) {
                    Ok(_) => {},
                    Err(e) => {
                        return Err(e);
                    },
                }
                match tokenizer.expect_token(TokenKind::OpenBrace) {
                    Ok(_) => {},
                    Err(e) => {
                        return Err(e);
                    },
                }
                match name_token {
                    Some(name_token) => {
                        let name = name_token.data.get_string();
                        let id = procedures.len();
                        let li = scopes.len() - 1;
                        scopes[li].0.push((name, Decl::Proc { id }));
                        let ghost ss1 = scopes@;
                        scopes.push((Vec::new(), Scope::Proc { id }));
                        let ghost procs0 = procedures@;
                        procedures.push(Vec::new());
                        proof {
                            let n1 = procedures@.len() as int;
                            assert forall|q: int, i: int|
                                0 <= q < procedures@.len() && 0 <= i < procedures@[q]@.len()
                                implies #[trigger] ir_ok(procedures@, q, i) by {
                                if q < procs0.len() {
                                    assert(ir_ok(procs0, q, i));
                                    assert(procedures@[q] == procs0[q]);
                                }
                            }
                            // Scope bookkeeping: the updated scope keeps its
                            // kind, the new declaration and scope name the
                            // procedure just created.
                            assert forall|j: int|
                                0 <= j < scopes@.len() implies ((#[trigger] scopes@[j]).1 matches
                            Scope::Proc { id: pid } ==> pid < n1) by {
                                if j < ss1.len() {
                                    if j != li {
                                        assert(ss1[j] == ss0[j]);
                                    }
                                    assert(ss1[j].1 == ss0[j].1);
                                    assert(scopes@[j] == ss1[j]);
                                }
                            }
                            assert forall|j: int, k: int|
                                0 <= j < scopes@.len() && 0 <= k < scopes@[j].0@.len() implies ((
                            #[trigger] scopes@[j].0@[k]).1 matches Decl::Proc { id: pid } ==> pid
                                < n1) by {
                                if j < ss1.len() {
                                    assert(scopes@[j] == ss1[j]);
                                    if j != li {
                                        assert(ss1[j] == ss0[j]);
                                    } else {
                                        assert(ss1[li as int].0@ == ss0[li as int].0@.push(
                                            ss1[li as int].0@.last(),
                                        ));
                                        if k < ss0[li as int].0@.len() {
                                            assert(ss1[j].0@[k] == ss0[j].0@[k]);
                                        }
                                    }
                                }
                            }
                            assert(scopes@[0].1 == ss0[0].1);
                            // Every sealed procedure stays sealed; the new one
                            // is open through the scope just pushed.
                            assert forall|k: int|
                                1 <= k < procedures@.len() implies open_proc(scopes@, k)
                                || ends_in_return(#[trigger] procedures@[k]@) by {
                                if k < procs0.len() {
                                    assert(procedures@[k] == procs0[k]);
                                    if open_proc(ss0, k) {
                                        let j = choose|j: int|
                                            (#[trigger] ss0[j]).1 matches Scope::Proc { id: pid }
                                                && 0 <= j < ss0.len() && pid == k;
                                        assert(ss1[j].1 == ss0[j].1);
                                        assert(scopes@[j] == ss1[j]);
                                        assert(open_proc(scopes@, k));
                                    } else {
                                        assert(ends_in_return(procs0[k]@));
                                    }
                                } else {
                                    assert(scopes@.last().1 matches Scope::Proc { id: pid }
                                        && pid == k);
                                    assert(open_proc(scopes@, k));
                                }
                            }
                        }
                    },
                    None => {
                        return Err(
                            Error {
                                location: token.location,
                                message: "anonymous procedures are not supported here".to_owned(),
                            },
                        );
                    },
                }
            },
            TokenKind::Call => {
                emit(procedures, cp, IR { location: token.location, kind: IRKind::Call });
                proof {
                    lemma_closed_touch(gprocs0, procedures@, scopes@, cp as int);
                }
            },
            TokenKind::Dup => {
                emit(procedures, cp, IR { location: token.location, kind: IRKind::Dup });
                proof {
                    lemma_closed_touch(gprocs0, procedures@, scopes@, cp as int);
                }
            },
            TokenKind::Drop => {
                emit(procedures, cp, IR { location: token.location, kind: IRKind::Drop });
                proof {
                    lemma_closed_touch(gprocs0, procedures@, scopes@, cp as int);
                }
            },
            TokenKind::Swap => {
                emit(procedures, cp, IR { location: token.location, kind: IRKind::Swap });
                proof {
                    lemma_closed_touch(gprocs0, procedures@, scopes@, cp as int);
                }
            },
            TokenKind::Memory => {
                return Err(
                    Error {
                        location: token.location,
                        message: "memory regions are not supported".to_owned(),
                    },
                );
            },
            TokenKind::OpenBrace => {
                let mut while_position: Option<usize> = Option::None;
                let li = scopes.len() - 1;
                match &scopes[li].1 {
                    Scope::While { position } => {
                        while_position = Option::Some(*position);
                    },
                    _ => {},
                }
                match while_position {
                    Option::Some(position) => {
                        let _ = scopes.pop();
                        proof {
                            lemma_scopes_ok_pop(ss0, procedures@.len() as int);
                            lemma_closed_scope_pop(procedures@, ss0);
                            assert(scopes@ =~= ss0.drop_last());
                            if cp != 0 {
                                lemma_open_pop(ss0, cp as int);
                            }
                        }
                        let ghost ss1 = scopes@;
                        scopes.push(
                            (
                                Vec::new(),
                                Scope::WhileBody {
                                    while_position: position,
                                    conditional_jump_position: procedures[cp].len(),
                                },
                            ),
                        );
                        proof {
                            lemma_scopes_ok_push(ss1, scopes@.last(), procedures@.len() as int);
                            lemma_closed_scope_push(procedures@, ss1, scopes@.last());
                            assert(scopes@ =~= ss1.push(scopes@.last()));
                            if cp != 0 {
                                lemma_open_push(ss1, scopes@.last(), cp as int);
                            }
                        }
                        emit(
                            procedures,
                            cp,
                            IR {
                                location: token.location,
                                kind: IRKind::JumpFalse { relative_position: 0 },
                            },
                        );
                        proof {
                            lemma_closed_touch(gprocs0, procedures@, scopes@, cp as int);
                        }
                    },
                    Option::None => {
                        scopes.push((Vec::new(), Scope::Block));
                        proof {
                            lemma_scopes_ok_push(ss0, scopes@.last(), procedures@.len() as int);
                            lemma_closed_scope_push(procedures@, ss0, scopes@.last());
                            assert(scopes@ =~= ss0.push(scopes@.last()));
                        }
                    },
                }
            },
            TokenKind::CloseBrace => {
                if scopes.len() <= 1 {
                    return Err(
                        Error {
                            location: token.location,
                            message: "unexpected token".to_owned(),
                        },
                    );
                }
                let scope = match scopes.pop() {
                    Some(s) => s.1,
                    None => vstd::pervasive::unreached(),
                };
                match scope {
                    Scope::WhileBody { while_position, conditional_jump_position } => {
                        proof {
                            assert(!(ss0.last().1 is Proc));
                            lemma_scopes_ok_pop(ss0, procedures@.len() as int);
                            lemma_closed_scope_pop(procedures@, ss0);
                            assert(scopes@ =~= ss0.drop_last());
                            if cp != 0 {
                                lemma_open_pop(ss0, cp as int);
                            }
                        }
                        if while_position > procedures[cp].len() {
                            return Err(
                                Error {
                                    location: token.location,
                                    message: "internal compiler error: bad back-patch".to_owned(),
                                },
                            );
                        }
                        let back = match relative_to(procedures[cp].len(), while_position) {
                            Ok(rel) => rel,
                            Err(e) => {
                                return Err(e);
                            },
                        };
                        emit(
                            procedures,
                            cp,
                            IR {
                                location: token.location,
                                kind: IRKind::Jump { relative_position: back },
                            },
                        );
                        proof {
                            lemma_closed_touch(gprocs0, procedures@, scopes@, cp as int);
                        }
                        let ghost g1 = procedures@;
                        let target = procedures[cp].len();
                        match patch_jump_false(procedures, cp, conditional_jump_position, target) {
                            Ok(()) => {},
                            Err(e) => {
                                return Err(e);
                            },
                        }
                        proof {
                            lemma_closed_touch(g1, procedures@, scopes@, cp as int);
                        }
                    },
                    Scope::If { conditional_jump_position } => {
                        proof {
                            assert(!(ss0.last().1 is Proc));
                            lemma_scopes_ok_pop(ss0, procedures@.len() as int);
                            lemma_closed_scope_pop(procedures@, ss0);
                            assert(scopes@ =~= ss0.drop_last());
                            if cp != 0 {
                                lemma_open_pop(ss0, cp as int);
                            }
                        }
                        let peeked = match tokenizer.peek_kind() {
                            Ok(k) => k,
                            Err(e) => {
                                return Err(e);
                            },
                        };
                        if peeked == TokenKind::Else {
                            let else_token = match tokenizer.next_token() {
                                Ok(t) => t,
                                Err(e) => {
                                    return Err(e);
                                },
                            };
                            match tokenizer.expect_token(TokenKind::OpenBrace) {
                                Ok(_) => {},
                                Err(e) => {
                                    return Err(e);
                                },
                            }
                            let ghost ss1 = scopes@;
                            scopes.push(
                                (
                                    Vec::new(),
                                    Scope::Else {
                                        end_of_then_jump_position: procedures[cp].len(),
                                    },
                                ),
                            );
                            proof {
                                lemma_scopes_ok_push(ss1, scopes@.last(), procedures@.len() as int);
                                lemma_closed_scope_push(procedures@, ss1, scopes@.last());
                                assert(scopes@ =~= ss1.push(scopes@.last()));
                                if cp != 0 {
                                    lemma_open_push(ss1, scopes@.last(), cp as int);
                                }
                            }
                            emit(
                                procedures,
                                cp,
                                IR {
                                    location: else_token.location,
                                    kind: IRKind::Jump { relative_position: 0 },
                                },
                            );
                            proof {
                                lemma_closed_touch(gprocs0, procedures@, scopes@, cp as int);
                            }
                        }
                        let ghost g1 = procedures@;
                        let target = procedures[cp].len();
                        match patch_jump_false(procedures, cp, conditional_jump_position, target) {
                            Ok(()) => {},
                            Err(e) => {
                                return Err(e);
                            },
                        }
                        proof {
                            lemma_closed_touch(g1, procedures@, scopes@, cp as int);
                        }
                    },
                    Scope::Else { end_of_then_jump_position } => {
                        proof {
                            assert(!(ss0.last().1 is Proc));
                            lemma_scopes_ok_pop(ss0, procedures@.len() as int);
                            lemma_closed_scope_pop(procedures@, ss0);
                            assert(scopes@ =~= ss0.drop_last());
                            if cp != 0 {
                                lemma_open_pop(ss0, cp as int);
                            }
                        }
                        let ghost g1 = procedures@;
                        let target = procedures[cp].len();
                        match patch_jump(procedures, cp, end_of_then_jump_position, target) {
                            Ok(()) => {},
                            Err(e) => {
                                return Err(e);
                            },
                        }
                        proof {
                            lemma_closed_touch(g1, procedures@, scopes@, cp as int);
                        }
                    },
                    Scope::Proc { id } => {
                        proof {
                            assert((ss0.last().1 matches Scope::Proc { id: pid } ==> pid
                                < procedures@.len()));
                            lemma_scopes_ok_pop(ss0, procedures@.len() as int);
                            assert(scopes@ =~= ss0.drop_last());
                        }
                        emit(procedures, id, IR { location: token.location, kind: IRKind::Return });
                        proof {
                            assert forall|k: int|
                                1 <= k < procedures@.len() implies open_proc(scopes@, k)
                                || ends_in_return(#[trigger] procedures@[k]@) by {
                                if k == id {
                                    assert(procedures@[k]@.last().kind is Return);
                                } else {
                                    assert(procedures@[k] == gprocs0[k]);
                                    if open_proc(ss0, k) {
                                        let j = choose|j: int|
                                            (#[trigger] ss0[j]).1 matches Scope::Proc { id: pid }
                                                && 0 <= j < ss0.len() && pid == k;
                                        assert(j < ss0.len() - 1);
                                        assert(scopes@[j] == ss0[j]);
                                        assert(open_proc(scopes@, k));
                                    } else {
                                        assert(ends_in_return(gprocs0[k]@));
                                    }
                                }
                            }
                        }
                    },
                    Scope::Block => {
                        proof {
                            assert(!(ss0.last().1 is Proc));
                            lemma_scopes_ok_pop(ss0, procedures@.len() as int);
                            lemma_closed_scope_pop(procedures@, ss0);
                            assert(scopes@ =~= ss0.drop_last());
                        }
                    },
                    _ => {
                        return Err(
                            Error {
                                location: token.location,
                                message: "unexpected token".to_owned(),
                            },
                        );
                    },
                }
            },
            TokenKind::Not => {
                emit(procedures, cp, IR { location: token.location, kind: IRKind::Not });
                proof {
                    lemma_closed_touch(gprocs0, procedures@, scopes@, cp as int);
                }
            },
            TokenKind::Plus => {
                emit(procedures, cp, IR { location: token.location, kind: IRKind::Add });
                proof {
                    lemma_closed_touch(gprocs0, procedures@, scopes@, cp as int);
                }
            },
            TokenKind::Minus => {
                emit(procedures, cp, IR { location: token.location, kind: IRKind::Sub });
                proof {
                    lemma_closed_touch(gprocs0, procedures@, scopes@, cp as int);
                }
            },
            TokenKind::Asterisk => {
                emit(procedures, cp, IR { location: token.location, kind: IRKind::Mul });
                proof {
                    lemma_closed_touch(gprocs0, procedures@, scopes@, cp as int);
                }
            },
            TokenKind::Slash => {
                emit(procedures, cp, IR { location: token.location, kind: IRKind::Div });
                proof {
                    lemma_closed_touch(gprocs0, procedures@, scopes@, cp as int);
                }
            },
            TokenKind::LessThan => {
                emit(procedures, cp, IR { location: token.location, kind: IRKind::LessThan });
                proof {
                    lemma_closed_touch(gprocs0, procedures@, scopes@, cp as int);
                }
            },
            TokenKind::GreaterThan => {
                emit(procedures, cp, IR { location: token.location, kind: IRKind::GreaterThan });
                proof {
                    lemma_closed_touch(gprocs0, procedures@, scopes@, cp as int);
                }
            },
            TokenKind::LessThanEqual => {
                emit(
                    procedures,
                    cp,
                    IR { location: token.location, kind: IRKind::LessThanEqual },
                );
            },
            TokenKind::GreaterThanEqual => {
                emit(
                    procedures,
                    cp,
                    IR { location: token.location, kind: IRKind::GreaterThanEqual },
                );
            },
            TokenKind::Equal => {
                emit(procedures, cp, IR { location: token.location, kind: IRKind::Equal });
                proof {
                    lemma_closed_touch(gprocs0, procedures@, scopes@, cp as int);
                }
            },
            TokenKind::NotEqual => {
                emit(procedures, cp, IR { location: token.location, kind: IRKind::NotEqual });
                proof {
                    lemma_closed_touch(gprocs0, procedures@, scopes@, cp as int);
                }
            },
            _ => {
                return Err(
                    Error { location: token.location, message: "unexpected token".to_owned() },
                );
            },
        }
    }
    let eof_token = match tokenizer.next_token() {
        Ok(t) => t,
        Err(e) => {
            return Err(e);
        },
    };
    emit(procedures, 0, IR { location: eof_token.location, kind: IRKind::Exit });
    Ok(())
}


} // verus!
