//! The tree-walking interpreter: operand-stack evaluation of function
//! bodies, argument binding with optional type guards, `if`/`else` blocks
//! with their own heaps, `while` loops, assignments under the tiered scope
//! rule, function invocation over the caller's stack, and the built-in
//! operations. Each run is bounded by a step allowance (fuel): recursion
//! consumes it and a run that outlives it stops with a fault, so every
//! verified entry point provably terminates.
//!
//! The interpreter's behaviour is specified by `sim_body`, a spec-level
//! interpretation of a body stepped token by token: wherever it is known —
//! everywhere but inside a `while` construct, a call of a named function,
//! a skipped `if` branch, or a value the host's floating point computes —
//! a run's final state, printed lines and outcome are proved equal to it.
//! Around that sit the safety clauses: every value stays well-formed,
//! output only grows, and fuel strictly decreases into every nested run.

use vstd::prelude::*;

use crate::env::{assign_name, BlockKind, Frame, frames_wf, heap_wf, lookup_name, NameMap};
use crate::floats::FloatArith;
use crate::head::{all_wf, arr_view, Function, FunV, lemma_all_wf_push, lemma_arr_view, lemma_arr_view_push,
    lemma_wf_at, obj_wf, Object, ObjV, TokId, Value, ValV};
use crate::ops::{bi_carry, bi_clear, bi_copy, bi_drop, bi_pop, bi_push, bi_rot, bi_swap,
    cast2string, do_arith, do_assert, do_compare, do_equals, do_is, do_print, do_sqrt, InterpError,
    Stop};
use crate::parser::fmap_wf;
use crate::text::str_eq;

verus! {

broadcast use lemma_arr_view, lemma_arr_view_push;

/// The second output sequence extends the first: old lines stay, in place.
pub open spec fn out_extends(a: Seq<String>, b: Seq<String>) -> bool {
    b.len() >= a.len() && forall|i: int| 0 <= i < a.len() ==> a[i] == #[trigger] b[i]
}

proof fn lemma_out_extends_trans(a: Seq<String>, b: Seq<String>, c: Seq<String>)
    requires
        out_extends(a, b),
        out_extends(b, c),
    ensures
        out_extends(a, c),
{
}

/// Scans forward over a body for the terminator of a construct, keeping
/// count of nested `if`/`while` openings against `end` closings: the
/// terminator is the first `do` (for a `while` head) or `end` — or `else`,
/// where one is accepted — seen at level zero. Running off the body's end
/// is a fault.
fn scan_pos(body: &Vec<Object>, start: usize, until_do: bool, allow_else: bool) -> (r: Result<
    (usize, bool),
    InterpError,
>)
    ensures
        match r {
            Ok(p) => start <= p.0 < body@.len() && (p.1 ==> allow_else),
            Err(e) => e == InterpError::MissingToken,
        },
{
    let mut i: usize = start;
    let mut count: i128 = 0;
    let n = body.len();
    while i < n
        invariant
            start <= i,
            n == body@.len(),
            -(i as int) <= count as int <= i as int,
        decreases n - i,
    {
        let id = body[i].id;
        if count == 0 {
            if until_do && id == TokId::DO {
                return Ok((i, false));
            }
            if !until_do && id == TokId::END {
                return Ok((i, false));
            }
            if allow_else && id == TokId::ELSE {
                return Ok((i, true));
            }
        }
        if id == TokId::IF || id == TokId::WHILE {
            count = count + 1;
        } else if id == TokId::END {
            count = count - 1;
        }
        i = i + 1;
    }
    Err(InterpError::MissingToken)
}

/// Copies the objects of a body range.
fn copy_range(body: &Vec<Object>, start: usize, stop: usize) -> (r: Vec<Object>)
    requires
        start <= stop <= body@.len(),
        all_wf(arr_view(body@)),
    ensures
        arr_view(r@) == arr_view(body@).subrange(start as int, stop as int),
        all_wf(arr_view(r@)),
{
    let mut r: Vec<Object> = Vec::new();
    let mut i: usize = start;
    proof {
        assert(arr_view(r@) =~= arr_view(body@).subrange(start as int, start as int));
    }
    while i < stop
        invariant
            start <= i <= stop <= body@.len(),
            arr_view(r@) == arr_view(body@).subrange(start as int, i as int),
        decreases stop - i,
    {
        r.push(body[i].duplicate());
        proof {
            assert(arr_view(r@) =~= arr_view(body@).subrange(start as int, i + 1 as int));
        }
        i = i + 1;
    }
    proof {
        assert(all_wf(arr_view(r@))) by {
            assert(forall|k: int|
                0 <= k < arr_view(r@).len() ==> #[trigger] arr_view(r@)[k] == arr_view(body@)[k
                    + start]);
        }
    }
    r
}

/// Pushes a well-formed object: the new stack is the old one with exactly
/// that value on top. This is also how a literal token executes — the
/// dispatcher hands it a copy of the token, so after a literal the top of
/// the operand stack equals the literal's value.
pub fn push_value(stack: &mut Vec<Object>, o: Object)
    requires
        all_wf(arr_view(old(stack)@)),
        obj_wf(o@),
    ensures
        all_wf(arr_view(final(stack)@)),
        arr_view(final(stack)@) == arr_view(old(stack)@).push(o@),
{
    let ghost s0 = stack@;
    let ghost ov = o;
    stack.push(o);
    proof {
        lemma_arr_view_push(s0, ov);
        lemma_all_wf_push(arr_view(s0), ov@);
    }
}

/// Pops an operand from a well-formed stack.
fn pop_wf(stack: &mut Vec<Object>) -> (r: Option<Object>)
    requires
        all_wf(arr_view(old(stack)@)),
    ensures
        all_wf(arr_view(final(stack)@)),
        match r {
            Some(o) => old(stack)@.len() > 0 && o@ == arr_view(old(stack)@).last() && obj_wf(o@)
                && arr_view(final(stack)@) == arr_view(old(stack)@).drop_last(),
            None => old(stack)@.len() == 0 && final(stack)@ == old(stack)@,
        },
{
    let ghost s0 = stack@;
    match stack.pop() {
        Some(o) => {
            proof {
                lemma_wf_at(s0, s0.len() - 1);
                assert(arr_view(stack@) =~= arr_view(s0).drop_last());
                assert forall|j: int| 0 <= j < arr_view(stack@).len() implies obj_wf(
                    #[trigger] arr_view(stack@)[j],
                ) by {
                    assert(stack@[j] == s0[j]);
                    assert(arr_view(stack@)[j] == crate::head::obj_view(stack@[j]));
                    assert(arr_view(s0)[j] == crate::head::obj_view(s0[j]));
                    assert(obj_wf(arr_view(s0)[j]));
                }
            }
            Some(o)
        },
        None => None,
    }
}

/// The text of an object known to carry text.
fn text_of(o: &Object) -> (r: Result<String, InterpError>)
    ensures
        match r {
            Ok(s) => o@.rep is Str && s@ == o@.rep->Str_0,
            Err(e) => o@.rep is Arr && e == InterpError::ArrayAsText,
        },
{
    match &o.rep {
        Value::STR(s) => Ok(s.clone()),
        Value::ARR(_) => Err(InterpError::ArrayAsText),
    }
}

/// Binds arguments on entry to a function: for each parameter descriptor
/// in order, one value is popped from the caller's stack; a name binds it
/// in the invocation's heap; a type guard pushes it onto the fresh operand
/// stack only where its kind matches, and silently drops it otherwise.
#[verifier::loop_isolation(false)]
fn bind_args(
    args: &Vec<Object>,
    parent: &mut Vec<Object>,
    live: &mut NameMap<Object>,
    live_stack: &mut Vec<Object>,
) -> (r: Result<(), Stop>)
    requires
        all_wf(arr_view(args@)),
        all_wf(arr_view(old(parent)@)),
        old(live).wf(),
        heap_wf(old(live)@),
        all_wf(arr_view(old(live_stack)@)),
    ensures
        all_wf(arr_view(final(parent)@)),
        final(live).wf(),
        heap_wf(final(live)@),
        all_wf(arr_view(final(live_stack)@)),
{
    let mut k: usize = 0;
    while k < args.len()
        invariant
            k <= args@.len(),
            live.wf(),
            heap_wf(live@),
            all_wf(arr_view(parent@)),
            all_wf(arr_view(live_stack@)),
        decreases args@.len() - k,
    {
        let ghost pv0 = parent@;
        let value = match parent.pop() {
            Some(v) => v,
            None => {
                return Err(Stop::Fail(InterpError::ArgShortfall));
            },
        };
        proof {
            lemma_wf_at(pv0, pv0.len() - 1);
            assert(obj_wf(value@));
            assert forall|j: int| 0 <= j < arr_view(parent@).len() implies obj_wf(
                #[trigger] arr_view(parent@)[j],
            ) by {
                assert(parent@[j] == pv0[j]);
                assert(arr_view(parent@)[j] == crate::head::obj_view(parent@[j]));
                assert(arr_view(pv0)[j] == crate::head::obj_view(pv0[j]));
                assert(obj_wf(arr_view(pv0)[j]));
            }
        }
        let arg = &args[k];
        proof {
            lemma_wf_at(args@, k as int);
            assert(obj_wf(arg@));
        }
        if arg.id == TokId::UNKNOWN {
            let name = match text_of(arg) {
                Ok(s) => s,
                Err(e) => {
                    return Err(Stop::Fail(e));
                },
            };
            live.insert(name, value);
        } else if arg.id == TokId::TINT {
            if value.id == TokId::INT {
                push_value(live_stack, value);
            }
        } else if arg.id == TokId::TFLOAT {
            if value.id == TokId::FLOAT {
                push_value(live_stack, value);
            }
        } else if arg.id == TokId::TSTRING {
            if value.id == TokId::STRING {
                push_value(live_stack, value);
            }
        } else if arg.id == TokId::TBOOL {
            if value.id == TokId::BOOLEAN {
                push_value(live_stack, value);
            }
        } else {
            return Err(Stop::Fail(InterpError::BadParameter));
        }
        k = k + 1;
    }
    Ok(())
}

/// The names of the built-in operations.
pub open spec fn is_builtin_name(s: Seq<char>) -> bool {
    ||| s == "print"@
    ||| s == "assert"@
    ||| s == "swap"@
    ||| s == "drop"@
    ||| s == "clear"@
    ||| s == "rot"@
    ||| s == "copy"@
    ||| s == "carry"@
    ||| s == "sqrt"@
    ||| s == "push"@
    ||| s == "pop"@
}

/// The output lines at the view level: each line's characters.
pub open spec fn outs(s: Seq<String>) -> Seq<Seq<char>> {
    Seq::new(s.len(), |i: int| s[i]@)
}

/// What one built-in does to the operand stack and the output, as a
/// function of its name and the state: the next stack and output, a stop
/// (with the output as of the stop), or `Host` where the result is
/// computed by the host's floating point and lies outside these
/// specifications. This mirrors, case for case, the exact contracts of the
/// operation functions.
pub enum BuiltinOut {
    Next(Seq<ObjV>, Seq<Seq<char>>),
    Stopped(Stop, Seq<Seq<char>>),
    Host,
}

/// The effect of a built-in, per its name.
#[verifier::opaque]
pub open spec fn builtin_run(name: Seq<char>, s: Seq<ObjV>, o: Seq<Seq<char>>) -> BuiltinOut {
    let n = s.len() as int;
    if name == "print"@ {
        if n < 1 {
            BuiltinOut::Stopped(Stop::Fail(InterpError::Underflow), o)
        } else if crate::ops::printable(s[n - 1].id) {
            BuiltinOut::Next(s.drop_last(), o.push(crate::ops::display_text(s[n - 1])))
        } else {
            BuiltinOut::Stopped(Stop::Fail(InterpError::TypeMismatch), o)
        }
    } else if name == "assert"@ {
        if n < 2 {
            BuiltinOut::Stopped(Stop::Fail(InterpError::Underflow), o)
        } else if s[n - 2] == s[n - 1] {
            BuiltinOut::Next(s.subrange(0, n - 2), o)
        } else {
            BuiltinOut::Stopped(
                Stop::Assert,
                o.push(
                    "\""@ + crate::ops::display_text(s[n - 2]) + "\" != \""@
                        + crate::ops::display_text(s[n - 1]) + "\""@,
                ),
            )
        }
    } else if name == "swap"@ {
        if n < 2 {
            BuiltinOut::Stopped(Stop::Fail(InterpError::Underflow), o)
        } else {
            BuiltinOut::Next(crate::ops::swapped(s), o)
        }
    } else if name == "drop"@ {
        if n < 1 {
            BuiltinOut::Stopped(Stop::Fail(InterpError::Underflow), o)
        } else {
            BuiltinOut::Next(s.drop_last(), o)
        }
    } else if name == "clear"@ {
        BuiltinOut::Next(Seq::empty(), o)
    } else if name == "rot"@ {
        if n < 3 {
            BuiltinOut::Stopped(Stop::Fail(InterpError::Underflow), o)
        } else {
            BuiltinOut::Next(crate::ops::rotated(s), o)
        }
    } else if name == "copy"@ {
        if n < 1 {
            BuiltinOut::Stopped(Stop::Fail(InterpError::Underflow), o)
        } else {
            BuiltinOut::Next(s.push(s.last()), o)
        }
    } else if name == "carry"@ {
        if n < 2 {
            BuiltinOut::Stopped(Stop::Fail(InterpError::Underflow), o)
        } else {
            BuiltinOut::Next(s.push(s[n - 2]), o)
        }
    } else if name == "sqrt"@ {
        if n < 1 {
            BuiltinOut::Stopped(Stop::Fail(InterpError::Underflow), o)
        } else if s[n - 1].id == TokId::INT {
            BuiltinOut::Next(
                s.drop_last().push(crate::ops::int_obj(crate::ops::int_sqrt(crate::ops::int_of(s[n - 1])))),
                o,
            )
        } else if s[n - 1].id == TokId::FLOAT {
            BuiltinOut::Host
        } else {
            BuiltinOut::Stopped(Stop::Fail(InterpError::TypeMismatch), o)
        }
    } else if name == "push"@ {
        if n < 2 {
            BuiltinOut::Stopped(Stop::Fail(InterpError::Underflow), o)
        } else {
            let first = s[n - 2];
            let second = s[n - 1];
            if first.id == TokId::ARRAY && crate::ops::base_kind(second.id) {
                BuiltinOut::Next(
                    s.subrange(0, n - 2).push(
                        ObjV { id: TokId::ARRAY, rep: ValV::Arr(first.rep->Arr_0.push(second)) },
                    ),
                    o,
                )
            } else if second.id == TokId::ARRAY && crate::ops::base_kind(first.id) {
                BuiltinOut::Next(
                    s.subrange(0, n - 2).push(
                        ObjV { id: TokId::ARRAY, rep: ValV::Arr(second.rep->Arr_0.push(first)) },
                    ),
                    o,
                )
            } else {
                BuiltinOut::Stopped(Stop::Fail(InterpError::TypeMismatch), o)
            }
        }
    } else if name == "pop"@ {
        if n < 1 {
            BuiltinOut::Stopped(Stop::Fail(InterpError::Underflow), o)
        } else {
            let top = s[n - 1];
            if top.id == TokId::ARRAY && top.rep->Arr_0.len() > 0 {
                BuiltinOut::Next(
                    s.drop_last().push(
                        ObjV { id: TokId::ARRAY, rep: ValV::Arr(top.rep->Arr_0.drop_last()) },
                    ).push(top.rep->Arr_0.last()),
                    o,
                )
            } else {
                BuiltinOut::Next(s.drop_last(), o)
            }
        }
    } else {
        BuiltinOut::Next(s, o)
    }
}

/// Dispatches an identifier to its built-in operation, if it names one.
/// Yields whether the name was a built-in; a name that is none leaves
/// stack and output untouched.
#[verifier::rlimit(100)]
#[verifier::spinoff_prover]
fn run_builtin<F: FloatArith>(
    nm: &str,
    live_stack: &mut Vec<Object>,
    out: &mut Vec<String>,
    fops: &F,
) -> (r: Result<bool, Stop>)
    requires
        all_wf(arr_view(old(live_stack)@)),
    ensures
        all_wf(arr_view(final(live_stack)@)),
        out_extends(old(out)@, final(out)@),
        r matches Ok(handled) ==> handled == is_builtin_name(nm@),
        r is Err ==> is_builtin_name(nm@),
        r matches Ok(handled) && !handled ==> final(live_stack)@ == old(live_stack)@ && final(out)@
            == old(out)@,
        is_builtin_name(nm@) ==> match builtin_run(
            nm@,
            arr_view(old(live_stack)@),
            outs(old(out)@),
        ) {
            BuiltinOut::Next(s1, o1) => r == Ok::<bool, Stop>(true) && arr_view(
                final(live_stack)@,
            ) == s1 && outs(final(out)@) == o1,
            BuiltinOut::Stopped(stop, o1) => r == Err::<bool, Stop>(stop) && outs(final(out)@)
                == o1,
            BuiltinOut::Host => true,
        },
{
    proof {
        reveal(builtin_run);
    }
    if str_eq(nm, "print") {
        match do_print(live_stack, out) {
            Ok(()) => {},
            Err(e) => {
                proof {
                    out_push_extends(old(out)@, out@);
                }
                return Err(Stop::Fail(e));
            },
        }
        proof {
            out_push_extends(old(out)@, out@);
        }
        Ok(true)
    } else if str_eq(nm, "assert") {
        match do_assert(live_stack, out) {
            Ok(()) => {},
            Err(stop) => {
                proof {
                    out_push_extends(old(out)@, out@);
                }
                return Err(stop);
            },
        }
        Ok(true)
    } else if str_eq(nm, "swap") {
        match bi_swap(live_stack) {
            Ok(()) => Ok(true),
            Err(e) => Err(Stop::Fail(e)),
        }
    } else if str_eq(nm, "drop") {
        match bi_drop(live_stack) {
            Ok(()) => Ok(true),
            Err(e) => Err(Stop::Fail(e)),
        }
    } else if str_eq(nm, "clear") {
        bi_clear(live_stack);
        Ok(true)
    } else if str_eq(nm, "rot") {
        match bi_rot(live_stack) {
            Ok(()) => Ok(true),
            Err(e) => Err(Stop::Fail(e)),
        }
    } else if str_eq(nm, "copy") {
        match bi_copy(live_stack) {
            Ok(()) => Ok(true),
            Err(e) => Err(Stop::Fail(e)),
        }
    } else if str_eq(nm, "carry") {
        match bi_carry(live_stack) {
            Ok(()) => Ok(true),
            Err(e) => Err(Stop::Fail(e)),
        }
    } else if str_eq(nm, "sqrt") {
        match do_sqrt(live_stack, fops) {
            Ok(()) => Ok(true),
            Err(e) => Err(Stop::Fail(e)),
        }
    } else if str_eq(nm, "push") {
        match bi_push(live_stack) {
            Ok(()) => Ok(true),
            Err(e) => Err(Stop::Fail(e)),
        }
    } else if str_eq(nm, "pop") {
        match bi_pop(live_stack) {
            Ok(()) => Ok(true),
            Err(e) => Err(Stop::Fail(e)),
        }
    } else {
        Ok(false)
    }
}

/// Output that grew by at most one pushed line extends the old output.
proof fn out_push_extends(a: Seq<String>, b: Seq<String>)
    requires
        b == a || (b.len() == a.len() + 1 && b.subrange(0, a.len() as int) == a),
    ensures
        out_extends(a, b),
{
    if b != a {
        assert(forall|i: int| 0 <= i < a.len() ==> a[i] == #[trigger] b.subrange(
            0,
            a.len() as int,
        )[i]);
    }
}


/// Runs one `while` construct: evaluates the collected condition body and,
/// while it leaves `true` on top, runs the collected loop body, splicing
/// the loop body's final operand stack back onto the current stack top
/// first. Every nested run consumes fuel, so the loop ends or faults.
#[verifier::loop_isolation(false)]
fn run_while<F: FloatArith>(

    fmap: &NameMap<Function>,
    fname: &String,
    while_cond: &Vec<Object>,
    do_stack: &Vec<Object>,
    global: &mut NameMap<Object>,
    parent: &mut Vec<Object>,
    has_parent: bool,
    live: &mut NameMap<Object>,
    live_stack: &mut Vec<Object>,
    out: &mut Vec<String>,
    fops: &F,
    fuel: u64,
) -> (r: Result<u64, Stop>)
    requires
        fmap.wf(),
        fmap_wf(fmap@),
        old(global).wf(),
        heap_wf(old(global)@),
        old(live).wf(),
        heap_wf(old(live)@),
        all_wf(arr_view(old(parent)@)),
        all_wf(arr_view(old(live_stack)@)),
        all_wf(arr_view(while_cond@)),
        all_wf(arr_view(do_stack@)),
    ensures
        final(global).wf(),
        heap_wf(final(global)@),
        final(live).wf(),
        heap_wf(final(live)@),
        all_wf(arr_view(final(parent)@)),
        all_wf(arr_view(final(live_stack)@)),
        out_extends(old(out)@, final(out)@),
        r matches Ok(f) ==> f <= fuel,
    decreases fuel, 1int,
{
    let no_args: Vec<Object> = Vec::new();
    proof {
        assert(arr_view(no_args@) =~= Seq::<ObjV>::empty());
    }
    let mut cur_fuel = fuel;
    let ghost out_before = out@;
    let (mut res, f2) = match interpret_func(
        fmap,
        fname,
        while_cond,
        &no_args,
        global,
        parent,
        has_parent,
        live,
        out,
        fops,
        cur_fuel,
    ) {
        Ok(p) => p,
        Err(stop) => {
            return Err(stop);
        },
    };
    cur_fuel = f2;
    let mut go: bool;
    {
        let cond = match res.pop() {
            Some(c) => c,
            None => {
                return Err(Stop::Fail(InterpError::Underflow));
            },
        };
        let ct = match cast2string(&cond.rep) {
            Ok(s) => s.clone(),
            Err(e) => {
                return Err(Stop::Fail(e));
            },
        };
        go = str_eq(ct.as_str(), "true");
    }
    while go
        invariant
            cur_fuel < fuel,
            global.wf(),
            heap_wf(global@),
            live.wf(),
            heap_wf(live@),
            all_wf(arr_view(parent@)),
            all_wf(arr_view(live_stack@)),
            all_wf(arr_view(while_cond@)),
            all_wf(arr_view(do_stack@)),
            all_wf(arr_view(no_args@)),
            out_extends(old(out)@, out@),
        decreases cur_fuel,
    {
        let ghost out_at = out@;
        let (mut runned, f3) = match interpret_func(
            fmap,
            fname,
            do_stack,
            &no_args,
            global,
            parent,
            has_parent,
            live,
            out,
            fops,
            cur_fuel,
        ) {
            Ok(p) => p,
            Err(stop) => {
                proof {
                    lemma_out_extends_trans(old(out)@, out_at, out@);
                }
                return Err(stop);
            },
        };
        cur_fuel = f3;
        proof {
            lemma_out_extends_trans(old(out)@, out_at, out@);
        }
        // splice the loop body's stack back, top first
        loop
            invariant
                all_wf(arr_view(runned@)),
                all_wf(arr_view(live_stack@)),
            decreases runned@.len(),
        {
            match pop_wf(&mut runned) {
                Some(item) => {
                    push_value(live_stack, item);
                },
                None => {
                    break ;
                },
            }
        }
        let ghost out_at2 = out@;
        let (mut res2, f4) = match interpret_func(
            fmap,
            fname,
            while_cond,
            &no_args,
            global,
            parent,
            has_parent,
            live,
            out,
            fops,
            cur_fuel,
        ) {
            Ok(p) => p,
            Err(stop) => {
                proof {
                    lemma_out_extends_trans(old(out)@, out_at2, out@);
                }
                return Err(stop);
            },
        };
        cur_fuel = f4;
        proof {
            lemma_out_extends_trans(old(out)@, out_at2, out@);
        }
        let cond = match res2.pop() {
            Some(c) => c,
            None => {
                return Err(Stop::Fail(InterpError::Underflow));
            },
        };
        let ct = match cast2string(&cond.rep) {
            Ok(s) => s.clone(),
            Err(e) => {
                return Err(Stop::Fail(e));
            },
        };
        go = str_eq(ct.as_str(), "true");
    }
    Ok(cur_fuel)
}

/// Runs one body. `body` and `args` are the function's token sequence and
/// parameter descriptors (a `while` construct re-enters with the collected
/// condition or loop body and no parameters). With a parent stack the
/// arguments are popped from it and bound first, and `ret` pushes to it.
/// `live` is this invocation's heap, shared with nested `while` runs. The
/// result is the final operand stack and the remaining fuel.
#[verifier::loop_isolation(false)]
#[verifier::rlimit(100)]
#[verifier::spinoff_prover]
pub fn interpret_func<F: FloatArith>(
    fmap: &NameMap<Function>,
    fname: &String,
    body: &Vec<Object>,
    args: &Vec<Object>,
    global: &mut NameMap<Object>,
    parent: &mut Vec<Object>,
    has_parent: bool,
    live: &mut NameMap<Object>,
    out: &mut Vec<String>,
    fops: &F,
    fuel: u64,
) -> (r: Result<(Vec<Object>, u64), Stop>)
    requires
        fmap.wf(),
        fmap_wf(fmap@),
        old(global).wf(),
        heap_wf(old(global)@),
        old(live).wf(),
        heap_wf(old(live)@),
        all_wf(arr_view(old(parent)@)),
        all_wf(arr_view(body@)),
        all_wf(arr_view(args@)),
    ensures
        final(global).wf(),
        heap_wf(final(global)@),
        final(live).wf(),
        heap_wf(final(live)@),
        all_wf(arr_view(final(parent)@)),
        out_extends(old(out)@, final(out)@),
        r matches Ok(p) ==> all_wf(arr_view(p.0@)) && p.1 < fuel,
        fuel > 0 && !has_parent ==> match sim_body(
            fmap@,
            fname@ == "_global"@,
            arr_view(body@),
            0,
            (FrameSt {
                stack: Seq::empty(),
                blocks: Seq::empty(),
                live: old(live)@,
                global: old(global)@,
                parent: arr_view(old(parent)@),
                out: outs(old(out)@),
            }),
        ) {
            SimOut::Known(fin, stop) => {
                &&& final(live)@ == fin.live
                &&& final(global)@ == fin.global
                &&& arr_view(final(parent)@) == fin.parent
                &&& outs(final(out)@) == fin.out
                &&& match stop {
                    None => r matches Ok(p) && arr_view(p.0@) == fin.stack,
                    Some(sp) => r == Err::<(Vec<Object>, u64), Stop>(sp),
                }
            },
            SimOut::Unknown => true,
        },
    decreases fuel, 0int,
{
    if fuel == 0 {
        return Err(Stop::Fail(InterpError::FuelOut));
    }
    let mut cur_fuel: u64 = fuel - 1;
    let mut live_stack: Vec<Object> = Vec::new();
    proof {
        assert(arr_view(live_stack@) =~= Seq::<ObjV>::empty());
    }
    // argument binding: pop one caller operand per parameter descriptor
    if has_parent {
        match bind_args(args, parent, live, &mut live_stack) {
            Ok(()) => {},
            Err(stop) => {
                return Err(stop);
            },
        }
    }
    let in_global = str_eq(fname.as_str(), "_global");
    let mut blocks: Vec<Frame> = Vec::new();
    let no_args: Vec<Object> = Vec::new();
    let ghost bodyv = arr_view(body@);
    let ghost ig = (fname@ == "_global"@);
    let ghost st_entry = (FrameSt {
        stack: Seq::empty(),
        blocks: Seq::empty(),
        live: old(live)@,
        global: old(global)@,
        parent: arr_view(old(parent)@),
        out: outs(old(out)@),
    });
    let ghost simw = sim_body(fmap@, ig, bodyv, 0, st_entry);
    proof {
        assert(arr_view(no_args@) =~= Seq::<ObjV>::empty());
        if !has_parent {
            assert(blocks_view(blocks@) =~= Seq::<BlockV>::empty());
            assert(st_entry == (FrameSt {
                stack: arr_view(live_stack@),
                blocks: blocks_view(blocks@),
                live: live@,
                global: global@,
                parent: arr_view(parent@),
                out: outs(out@),
            }));
        }
    }
    let mut pos: usize = 0;
    while pos < body.len()
        invariant
            cur_fuel < fuel,
            global.wf(),
            heap_wf(global@),
            live.wf(),
            heap_wf(live@),
            all_wf(arr_view(parent@)),
            all_wf(arr_view(live_stack@)),
            frames_wf(blocks@),
            out_extends(old(out)@, out@),
            !has_parent && simw is Known ==> simw == sim_body(
                fmap@,
                ig,
                bodyv,
                pos as int,
                (FrameSt {
                    stack: arr_view(live_stack@),
                    blocks: blocks_view(blocks@),
                    live: live@,
                    global: global@,
                    parent: arr_view(parent@),
                    out: outs(out@),
                }),
            ),
        decreases body@.len() - pos,
    {
        let ghost fr0 = (FrameSt {
            stack: arr_view(live_stack@),
            blocks: blocks_view(blocks@),
            live: live@,
            global: global@,
            parent: arr_view(parent@),
            out: outs(out@),
        });
        let tok = &body[pos];
        proof {
            lemma_wf_at(body@, pos as int);
            assert(obj_wf(tok@));
        }
        // an open block intercepts `else` and `end`
        if blocks.len() > 0 {
            let innermost = blocks[blocks.len() - 1].kind;
            if innermost == BlockKind::Taken {
                if tok.id == TokId::ELSE {
                    proof {
                        if !has_parent && simw is Known {
                            reveal(sim_body);
                            assert(fr0.blocks.last().kind == BlockKind::Taken);
                            assert(false);
                        }
                    }
                    blocks.pop();
                    // skip the untaken `else` branch
                    let (stop, _) = match scan_pos(body, pos + 1, false, false) {
                        Ok(p) => p,
                        Err(e) => {
                            return Err(Stop::Fail(e));
                        },
                    };
                    pos = stop + 1;
                    continue ;
                } else if tok.id == TokId::END {
                    blocks.pop();
                    proof {
                        if !has_parent && simw is Known {
                            reveal(sim_body);
                            assert(blocks_view(blocks@) =~= fr0.blocks.drop_last());
                            assert(simw == sim_body(fmap@, ig, bodyv, pos + 1 as int, (FrameSt {
                                stack: arr_view(live_stack@),
                                blocks: blocks_view(blocks@),
                                live: live@,
                                global: global@,
                                parent: arr_view(parent@),
                                out: outs(out@),
                            })));
                        }
                    }
                    pos = pos + 1;
                    continue ;
                }
            } else {
                if tok.id == TokId::END {
                    blocks.pop();
                    proof {
                        if !has_parent && simw is Known {
                            reveal(sim_body);
                            assert(blocks_view(blocks@) =~= fr0.blocks.drop_last());
                            assert(simw == sim_body(fmap@, ig, bodyv, pos + 1 as int, (FrameSt {
                                stack: arr_view(live_stack@),
                                blocks: blocks_view(blocks@),
                                live: live@,
                                global: global@,
                                parent: arr_view(parent@),
                                out: outs(out@),
                            })));
                        }
                    }
                    pos = pos + 1;
                    continue ;
                }
            }
        }
        if tok.id == TokId::LINEBREAK || tok.id == TokId::IMPORT {
            proof {
                if !has_parent && simw is Known {
                    reveal(sim_body);
                    assert(simw == sim_body(fmap@, ig, bodyv, pos + 1 as int, fr0));
                }
            }
            pos = pos + 1;
            continue ;
        }
        if tok.id == TokId::FUNCTION {
            proof {
                if !has_parent && simw is Known {
                    reveal(sim_body);
                    assert(simw == frame_stop(fr0, Stop::Fail(InterpError::BadToken)));
                }
            }
            return Err(Stop::Fail(InterpError::BadToken));
        }
        if tok.id == TokId::WHILE {
            proof {
                if !has_parent && simw is Known {
                    reveal(sim_body);
                    assert(false);
                }
            }
            // collect the condition up to `do` and the loop body up to `end`
            let (do_pos, _) = match scan_pos(body, pos + 1, true, false) {
                Ok(p) => p,
                Err(e) => {
                    return Err(Stop::Fail(e));
                },
            };
            let while_cond = copy_range(body, pos + 1, do_pos);
            let (end_pos, _) = match scan_pos(body, do_pos + 1, false, false) {
                Ok(p) => p,
                Err(e) => {
                    return Err(Stop::Fail(e));
                },
            };
            let do_stack = copy_range(body, do_pos + 1, end_pos);
            let ghost out_before = out@;
            match run_while(
                fmap,
                fname,
                &while_cond,
                &do_stack,
                global,
                parent,
                has_parent,
                live,
                &mut live_stack,
                out,
                fops,
                cur_fuel,
            ) {
                Ok(f2) => {
                    cur_fuel = f2;
                },
                Err(stop) => {
                    proof {
                        lemma_out_extends_trans(old(out)@, out_before, out@);
                    }
                    return Err(stop);
                },
            }
            proof {
                lemma_out_extends_trans(old(out)@, out_before, out@);
            }
            pos = end_pos + 1;
            continue ;
        }
        if tok.id == TokId::IF {
            let cond = match pop_wf(&mut live_stack) {
                Some(c) => c,
                None => {
                    proof {
                        if !has_parent && simw is Known {
                            reveal(sim_body);
                            assert(simw == frame_stop(fr0, Stop::Fail(InterpError::Underflow)));
                        }
                    }
                    return Err(Stop::Fail(InterpError::Underflow));
                },
            };
            if cond.id != TokId::BOOLEAN {
                proof {
                    if !has_parent && simw is Known {
                        reveal(sim_body);
                        assert(cond@ == fr0.stack.last());
                        assert(simw == frame_stop(fr0, Stop::Fail(InterpError::NotBoolean)));
                    }
                }
                return Err(Stop::Fail(InterpError::NotBoolean));
            }
            let ct = match cast2string(&cond.rep) {
                Ok(s) => s,
                Err(e) => {
                    return Err(Stop::Fail(e));
                },
            };
            if str_eq(ct.as_str(), "true") {
                blocks.push(Frame { kind: BlockKind::Taken, heap: NameMap::new() });
                proof {
                    assert(frames_wf(blocks@));
                    if !has_parent && simw is Known {
                        reveal(sim_body);
                        assert(cond@ == fr0.stack.last());
                        assert(cond@.rep == ValV::Str("true"@));
                        assert(blocks_view(blocks@) =~= fr0.blocks.push(
                            BlockV { kind: BlockKind::Taken, heap: Map::empty() },
                        ));
                        assert(simw == sim_body(fmap@, ig, bodyv, pos + 1 as int, (FrameSt {
                            stack: arr_view(live_stack@),
                            blocks: blocks_view(blocks@),
                            live: live@,
                            global: global@,
                            parent: arr_view(parent@),
                            out: outs(out@),
                        })));
                    }
                }
                pos = pos + 1;
                continue ;
            } else {
                proof {
                    if !has_parent && simw is Known {
                        reveal(sim_body);
                        assert(cond@ == fr0.stack.last());
                        assert(cond@.rep != ValV::Str("true"@));
                        assert(false);
                    }
                }
                // skip to the matching `else` or `end`
                let (stop, was_else) = match scan_pos(body, pos + 1, false, true) {
                    Ok(p) => p,
                    Err(e) => {
                        return Err(Stop::Fail(e));
                    },
                };
                if was_else {
                    blocks.push(Frame { kind: BlockKind::Otherwise, heap: NameMap::new() });
                    proof {
                        assert(frames_wf(blocks@));
                    }
                }
                pos = stop + 1;
                continue ;
            }
        }
        if tok.id == TokId::PLUS || tok.id == TokId::MINUS || tok.id == TokId::MULTIPLY || tok.id
            == TokId::DIVIDE || tok.id == TokId::MOD || tok.id == TokId::BIGGER || tok.id
            == TokId::SMALLER || tok.id == TokId::BIGGEREQUALS || tok.id == TokId::SMALLEREQUALS
            || tok.id == TokId::EQUALS || tok.id == TokId::IS {
            match run_op(tok.id, &mut live_stack, fops) {
                Ok(()) => {
                    proof {
                        if !has_parent && simw is Known {
                            reveal(sim_body);
                            match op_run(tok.id, fr0.stack) {
                                OpOut::Next(s1) => {
                                    assert(simw == sim_body(
                                        fmap@,
                                        ig,
                                        bodyv,
                                        pos + 1 as int,
                                        (FrameSt {
                                            stack: arr_view(live_stack@),
                                            blocks: blocks_view(blocks@),
                                            live: live@,
                                            global: global@,
                                            parent: arr_view(parent@),
                                            out: outs(out@),
                                        }),
                                    ));
                                },
                                OpOut::Stopped(_) => {
                                    assert(false);
                                },
                                OpOut::Host => {
                                    assert(false);
                                },
                            }
                        }
                    }
                },
                Err(e) => {
                    proof {
                        if !has_parent && simw is Known {
                            reveal(sim_body);
                            match op_run(tok.id, fr0.stack) {
                                OpOut::Next(_) => {
                                    assert(false);
                                },
                                OpOut::Stopped(e2) => {
                                    assert(e2 == e);
                                    assert(simw == frame_stop(fr0, Stop::Fail(e)));
                                },
                                OpOut::Host => {
                                    assert(false);
                                },
                            }
                        }
                    }
                    return Err(Stop::Fail(e));
                },
            }
            pos = pos + 1;
            continue ;
        }
        if tok.id == TokId::ASSIGNMENT || tok.id == TokId::RETURNINGASSIGNMENT {
            let returning = tok.id == TokId::RETURNINGASSIGNMENT;
            let ghost blocks0 = blocks@;
            proof {
                assert(heaps(fr0.blocks) =~= crate::env::heaps_of(blocks0));
            }
            match run_assign(
                body,
                pos,
                returning,
                &mut blocks,
                live,
                global,
                in_global,
                &mut live_stack,
            ) {
                Ok(np) => {
                    proof {
                        if !has_parent && simw is Known {
                            reveal(sim_body);
                            let step = assign_step(
                                bodyv,
                                pos as int,
                                returning,
                                heaps(fr0.blocks),
                                fr0.live,
                                fr0.global,
                                in_global,
                                fr0.stack,
                            );
                            assert(step is Ok);
                            let t = step->Ok_0;
                            assert(blocks_view(blocks@) =~= with_heaps(fr0.blocks, t.1)) by {
                                assert(crate::env::heaps_of(blocks@) == t.1);
                                assert(forall|i: int|
                                    0 <= i < blocks@.len() ==> #[trigger] blocks_view(blocks@)[i]
                                        == (BlockV {
                                        kind: blocks0[i].kind,
                                        heap: crate::env::heaps_of(blocks@)[i],
                                    }));
                            }
                            assert(simw == sim_body(fmap@, ig, bodyv, t.0, (FrameSt {
                                stack: arr_view(live_stack@),
                                blocks: blocks_view(blocks@),
                                live: live@,
                                global: global@,
                                parent: arr_view(parent@),
                                out: outs(out@),
                            })));
                        }
                    }
                    pos = np;
                },
                Err(stop) => {
                    proof {
                        if !has_parent && simw is Known {
                            reveal(sim_body);
                            assert(simw == frame_stop(fr0, stop));
                        }
                    }
                    return Err(stop);
                },
            }
            continue ;
        }
        if tok.id == TokId::RET {
            if has_parent {
                let v = match pop_wf(&mut live_stack) {
                    Some(v) => v,
                    None => {
                        return Err(Stop::Fail(InterpError::Underflow));
                    },
                };
                push_value(parent, v);
            }
            proof {
                if !has_parent && simw is Known {
                    reveal(sim_body);
                    assert(simw == sim_body(fmap@, ig, bodyv, pos + 1 as int, fr0));
                }
            }
            pos = pos + 1;
            continue ;
        }
        if tok.id == TokId::UNKNOWN {
            let name = match text_of(tok) {
                Ok(s) => s,
                Err(e) => {
                    return Err(Stop::Fail(e));
                },
            };
            let ghost out_at = out@;
            proof {
                assert(heaps(fr0.blocks) =~= crate::env::heaps_of(blocks@));
            }
            match run_ident(fmap, &name, &blocks, live, global, &mut live_stack, out, fops, cur_fuel) {
                Ok(f2) => {
                    cur_fuel = f2;
                    proof {
                        if !has_parent && simw is Known {
                            reveal(sim_body);
                            if is_builtin_name(name@) {
                                match builtin_run(name@, fr0.stack, fr0.out) {
                                    BuiltinOut::Next(s1, o1) => {
                                        assert(simw == sim_body(
                                            fmap@,
                                            ig,
                                            bodyv,
                                            pos + 1 as int,
                                            (FrameSt {
                                                stack: arr_view(live_stack@),
                                                blocks: blocks_view(blocks@),
                                                live: live@,
                                                global: global@,
                                                parent: arr_view(parent@),
                                                out: outs(out@),
                                            }),
                                        ));
                                    },
                                    BuiltinOut::Stopped(_, _) => {
                                        assert(false);
                                    },
                                    BuiltinOut::Host => {
                                        assert(false);
                                    },
                                }
                            } else {
                                match crate::env::resolve(heaps(fr0.blocks), fr0.live, fr0.global, name@) {
                                    Some(v) => {
                                        assert(simw == sim_body(
                                            fmap@,
                                            ig,
                                            bodyv,
                                            pos + 1 as int,
                                            (FrameSt {
                                                stack: arr_view(live_stack@),
                                                blocks: blocks_view(blocks@),
                                                live: live@,
                                                global: global@,
                                                parent: arr_view(parent@),
                                                out: outs(out@),
                                            }),
                                        ));
                                    },
                                    None => {
                                        if fmap@.contains_key(name@) {
                                            assert(false);
                                        } else {
                                            assert(simw == sim_body(
                                                fmap@,
                                                ig,
                                                bodyv,
                                                pos + 1 as int,
                                                (FrameSt {
                                                    stack: arr_view(live_stack@),
                                                    blocks: blocks_view(blocks@),
                                                    live: live@,
                                                    global: global@,
                                                    parent: arr_view(parent@),
                                                    out: outs(out@),
                                                }),
                                            ));
                                        }
                                    },
                                }
                            }
                        }
                    }
                },
                Err(stop) => {
                    proof {
                        lemma_out_extends_trans(old(out)@, out_at, out@);
                        if !has_parent && simw is Known {
                            reveal(sim_body);
                            if is_builtin_name(name@) {
                                match builtin_run(name@, fr0.stack, fr0.out) {
                                    BuiltinOut::Next(_, _) => {
                                        assert(false);
                                    },
                                    BuiltinOut::Stopped(sp, o1) => {
                                        assert(sp == stop);
                                        assert(simw == SimOut::Known(
                                            (FrameSt { stack: Seq::empty(), out: o1, ..fr0 }),
                                            Some(stop),
                                        ));
                                    },
                                    BuiltinOut::Host => {
                                        assert(false);
                                    },
                                }
                            } else {
                                match crate::env::resolve(heaps(fr0.blocks), fr0.live, fr0.global, name@) {
                                    Some(_) => {
                                        assert(false);
                                    },
                                    None => {
                                        assert(fmap@.contains_key(name@));
                                        assert(false);
                                    },
                                }
                            }
                        }
                    }
                    return Err(stop);
                },
            }
            proof {
                lemma_out_extends_trans(old(out)@, out_at, out@);
            }
            pos = pos + 1;
            continue ;
        }
        if tok.id == TokId::BLOCK || tok.id == TokId::LOOP {
            // an inert scope marker: it opens a block with its own heap,
            // which the matching `end` pops
            blocks.push(Frame { kind: BlockKind::Otherwise, heap: NameMap::new() });
            proof {
                assert(frames_wf(blocks@));
                if !has_parent && simw is Known {
                    reveal(sim_body);
                    assert(blocks_view(blocks@) =~= fr0.blocks.push(
                        BlockV { kind: BlockKind::Otherwise, heap: Map::empty() },
                    ));
                    assert(simw == sim_body(fmap@, ig, bodyv, pos + 1 as int, (FrameSt {
                        stack: arr_view(live_stack@),
                        blocks: blocks_view(blocks@),
                        live: live@,
                        global: global@,
                        parent: arr_view(parent@),
                        out: outs(out@),
                    })));
                }
            }
            pos = pos + 1;
            continue ;
        }
        if tok.id == TokId::INT || tok.id == TokId::FLOAT || tok.id == TokId::STRING || tok.id
            == TokId::BOOLEAN || tok.id == TokId::TINT || tok.id == TokId::TFLOAT || tok.id
            == TokId::TSTRING || tok.id == TokId::TBOOL || tok.id == TokId::ARRAY {
            // a literal pushes itself: the new top of the operand stack is
            // exactly the literal's value
            let copy = tok.duplicate();
            push_value(&mut live_stack, copy);
            proof {
                if !has_parent && simw is Known {
                    reveal(sim_body);
                    assert(simw == sim_body(fmap@, ig, bodyv, pos + 1 as int, (FrameSt {
                        stack: arr_view(live_stack@),
                        blocks: blocks_view(blocks@),
                        live: live@,
                        global: global@,
                        parent: arr_view(parent@),
                        out: outs(out@),
                    })));
                }
            }
            pos = pos + 1;
            continue ;
        }
        // any remaining control token out of place does nothing
        proof {
            if !has_parent && simw is Known {
                reveal(sim_body);
                assert(simw == sim_body(fmap@, ig, bodyv, pos + 1 as int, fr0));
            }
        }
        pos = pos + 1;
    }
    proof {
        if !has_parent && simw is Known {
            reveal(sim_body);
            assert(simw == SimOut::Known((FrameSt {
                stack: arr_view(live_stack@),
                blocks: blocks_view(blocks@),
                live: live@,
                global: global@,
                parent: arr_view(parent@),
                out: outs(out@),
            }), None));
        }
    }
    Ok((live_stack, cur_fuel))
}

/// Executes one identifier token: a built-in name runs its operation; any
/// other name is read per the resolution path — the innermost block heap
/// that binds it, then the invocation's heap, then the global heap — and
/// pushed; a name bound nowhere invokes the function of that name over
/// this invocation's operand stack, or does nothing at all where no such
/// function exists.
#[verifier::loop_isolation(false)]
fn run_ident<F: FloatArith>(
    fmap: &NameMap<Function>,
    name: &String,
    blocks: &Vec<Frame>,
    live: &NameMap<Object>,
    global: &mut NameMap<Object>,
    live_stack: &mut Vec<Object>,
    out: &mut Vec<String>,
    fops: &F,
    fuel: u64,
) -> (r: Result<u64, Stop>)
    requires
        fmap.wf(),
        fmap_wf(fmap@),
        old(global).wf(),
        heap_wf(old(global)@),
        live.wf(),
        heap_wf(live@),
        frames_wf(blocks@),
        all_wf(arr_view(old(live_stack)@)),
    ensures
        final(global).wf(),
        heap_wf(final(global)@),
        all_wf(arr_view(final(live_stack)@)),
        out_extends(old(out)@, final(out)@),
        r matches Ok(f) ==> f <= fuel,
        is_builtin_name(name@) ==> match builtin_run(
            name@,
            arr_view(old(live_stack)@),
            outs(old(out)@),
        ) {
            BuiltinOut::Next(s1, o1) => r == Ok::<u64, Stop>(fuel) && arr_view(
                final(live_stack)@,
            ) == s1 && outs(final(out)@) == o1 && final(global)@ == old(global)@,
            BuiltinOut::Stopped(stop, o1) => r == Err::<u64, Stop>(stop) && outs(final(out)@)
                == o1 && final(global)@ == old(global)@,
            BuiltinOut::Host => true,
        },
        !is_builtin_name(name@) ==> match crate::env::resolve(
            crate::env::heaps_of(blocks@),
            live@,
            old(global)@,
            name@,
        ) {
            Some(v) => r == Ok::<u64, Stop>(fuel) && arr_view(final(live_stack)@) == arr_view(
                old(live_stack)@,
            ).push(v) && final(out)@ == old(out)@ && final(global)@ == old(global)@,
            None => !fmap@.contains_key(name@) ==> r == Ok::<u64, Stop>(fuel)
                && final(live_stack)@ == old(live_stack)@ && final(out)@ == old(out)@
                && final(global)@ == old(global)@,
        },
    decreases fuel, 1int,
{
    let nm = name.as_str();
    let handled = match run_builtin(nm, live_stack, out, fops) {
        Ok(h) => h,
        Err(stop) => {
            return Err(stop);
        },
    };
    if !handled {
        // a variable read, innermost block heap outward, then a function
        // call over this invocation's stack
        match lookup_name(blocks, live, global, nm) {
            Some(value) => {
                proof {
                    lemma_resolve_wf(
                        crate::env::heaps_of(blocks@),
                        live@,
                        global@,
                        nm@,
                        value@,
                    );
                }
                push_value(live_stack, value);
            },
            None => {
                match fmap.get(nm) {
                    Some(callee) => {
                        let mut fresh: NameMap<Object> = NameMap::new();
                        proof {
                            assert(heap_wf(fresh@));
                            assert(all_wf(callee@.body) && all_wf(callee@.arguments));
                        }
                        match interpret_func(
                            fmap,
                            name,
                            &callee.stack,
                            &callee.arguments,
                            global,
                            live_stack,
                            true,
                            &mut fresh,
                            out,
                            fops,
                            fuel,
                        ) {
                            Ok(p) => {
                                return Ok(p.1);
                            },
                            Err(stop) => {
                                return Err(stop);
                            },
                        }
                    },
                    None => {
                        // an unbound identifier is silently ignored
                    },
                }
            },
        }
    }
    Ok(fuel)
}

/// What one assignment token does, as a function of the body, the
/// position of the token and the state: the next position and the state
/// after the write, or a stop. The token's target is the next lexeme, one
/// line break being allowed in between; it must be an identifier; the
/// assigned value is popped from the operand stack (a returning assignment
/// leaves a copy) and written per the assignment rule.
#[verifier::opaque]
pub open spec fn assign_step(
    body: Seq<ObjV>,
    pos: int,
    returning: bool,
    blocks: Seq<Map<Seq<char>, ObjV>>,
    live: Map<Seq<char>, ObjV>,
    global: Map<Seq<char>, ObjV>,
    in_global: bool,
    stack: Seq<ObjV>,
) -> Result<(int, Seq<Map<Seq<char>, ObjV>>, Map<Seq<char>, ObjV>, Map<Seq<char>, ObjV>, Seq<ObjV>), Stop> {
    let vpos = if pos + 1 < body.len() && body[pos + 1].id == TokId::LINEBREAK {
        pos + 2
    } else {
        pos + 1
    };
    if vpos >= body.len() {
        Err(Stop::Fail(InterpError::MissingToken))
    } else if body[vpos].id != TokId::UNKNOWN {
        Err(Stop::Fail(InterpError::AssignTarget))
    } else if stack.len() == 0 {
        Err(Stop::Fail(InterpError::Underflow))
    } else {
        let name = body[vpos].rep->Str_0;
        let popped = stack.last();
        let stack1 = if returning {
            stack
        } else {
            stack.drop_last()
        };
        let (b2, l2, g2) = crate::env::assign_model(blocks, live, global, in_global, name, popped);
        Ok((vpos + 1, b2, l2, g2, stack1))
    }
}

/// Executes one assignment token, exactly as `assign_step` describes.
#[verifier::loop_isolation(false)]
fn run_assign(
    body: &Vec<Object>,
    pos: usize,
    returning: bool,
    blocks: &mut Vec<Frame>,
    live: &mut NameMap<Object>,
    global: &mut NameMap<Object>,
    in_global: bool,
    live_stack: &mut Vec<Object>,
) -> (r: Result<usize, Stop>)
    requires
        pos < body@.len(),
        all_wf(arr_view(body@)),
        frames_wf(old(blocks)@),
        old(live).wf(),
        heap_wf(old(live)@),
        old(global).wf(),
        heap_wf(old(global)@),
        all_wf(arr_view(old(live_stack)@)),
    ensures
        frames_wf(final(blocks)@),
        final(live).wf(),
        heap_wf(final(live)@),
        final(global).wf(),
        heap_wf(final(global)@),
        all_wf(arr_view(final(live_stack)@)),
        final(blocks)@.len() == old(blocks)@.len(),
        r matches Ok(np) ==> pos < np <= body@.len(),
        forall|i: int|
            0 <= i < final(blocks)@.len() ==> (#[trigger] final(blocks)@[i]).kind == old(
                blocks,
            )@[i].kind,
        ({
            let step = assign_step(
                arr_view(body@),
                pos as int,
                returning,
                crate::env::heaps_of(old(blocks)@),
                old(live)@,
                old(global)@,
                in_global,
                arr_view(old(live_stack)@),
            );
            match r {
                Ok(np) => step matches Ok(t) && np == t.0 && crate::env::heaps_of(final(blocks)@)
                    == t.1 && final(live)@ == t.2 && final(global)@ == t.3 && arr_view(
                    final(live_stack)@,
                ) == t.4,
                Err(stop) => step == Err::<
                    (int, Seq<Map<Seq<char>, ObjV>>, Map<Seq<char>, ObjV>, Map<Seq<char>, ObjV>, Seq<ObjV>),
                    Stop,
                >(stop) && final(blocks)@ == old(blocks)@ && final(live)@ == old(live)@
                    && final(global)@ == old(global)@,
            }
        }),
{
    proof {
        reveal(assign_step);
    }
    let n = body.len();
    let mut vpos = pos + 1;
    if vpos < n && body[vpos].id == TokId::LINEBREAK {
        vpos = vpos + 1;
    }
    if vpos >= n {
        return Err(Stop::Fail(InterpError::MissingToken));
    }
    let var = &body[vpos];
    proof {
        lemma_wf_at(body@, vpos as int);
        assert(obj_wf(var@));
    }
    if var.id != TokId::UNKNOWN {
        return Err(Stop::Fail(InterpError::AssignTarget));
    }
    let name = match text_of(var) {
        Ok(s) => s,
        Err(e) => {
            proof {
                assert(false);
            }
            return Err(Stop::Fail(e));
        },
    };
    let popped = match pop_wf(live_stack) {
        Some(v) => v,
        None => {
            return Err(Stop::Fail(InterpError::Underflow));
        },
    };
    if returning {
        let back = popped.duplicate();
        push_value(live_stack, back);
        proof {
            assert(arr_view(live_stack@) =~= arr_view(old(live_stack)@));
        }
    }
    assign_name(blocks, live, global, in_global, name, popped);
    Ok(vpos + 1)
}

/// What an arithmetic, comparison, equality or type-guard token does to
/// the operand stack, as a function of the token and the stack: the next
/// stack, a fault, or `Host` where the result is computed by the host's
/// floating point. This mirrors, case for case, the exact contracts of the
/// operation functions.
pub enum OpOut {
    Next(Seq<ObjV>),
    Stopped(InterpError),
    Host,
}

/// The effect of an operator token on the stack.
#[verifier::opaque]
pub open spec fn op_run(op: TokId, s: Seq<ObjV>) -> OpOut {
    let n = s.len() as int;
    if crate::ops::is_arith_op(op) {
        if n < 2 {
            OpOut::Stopped(InterpError::Underflow)
        } else {
            let first = s[n - 2];
            let second = s[n - 1];
            let base = s.subrange(0, n - 2);
            if first.id == TokId::INT && second.id == TokId::INT {
                if (op == TokId::DIVIDE || op == TokId::MOD) && crate::ops::int_of(second) == 0 {
                    OpOut::Stopped(InterpError::Arith)
                } else if !crate::ops::fits_i32(
                    crate::ops::int_op_val(op, crate::ops::int_of(first), crate::ops::int_of(second)),
                ) {
                    OpOut::Stopped(InterpError::Arith)
                } else {
                    OpOut::Next(
                        base.push(
                            crate::ops::int_obj(
                                crate::ops::int_op_val(
                                    op,
                                    crate::ops::int_of(first),
                                    crate::ops::int_of(second),
                                ),
                            ),
                        ),
                    )
                }
            } else if crate::ops::num_id(first) && crate::ops::num_id(second) {
                OpOut::Host
            } else if op == TokId::PLUS && first.id == TokId::STRING && second.id
                == TokId::STRING {
                OpOut::Next(
                    base.push(
                        ObjV {
                            id: TokId::STRING,
                            rep: ValV::Str(first.rep->Str_0 + second.rep->Str_0),
                        },
                    ),
                )
            } else if op == TokId::PLUS && first.id == TokId::ARRAY && second.id == TokId::ARRAY {
                OpOut::Next(
                    base.push(
                        ObjV {
                            id: TokId::ARRAY,
                            rep: ValV::Arr(first.rep->Arr_0 + second.rep->Arr_0),
                        },
                    ),
                )
            } else {
                OpOut::Stopped(InterpError::TypeMismatch)
            }
        }
    } else if crate::ops::is_cmp_op(op) {
        if n < 2 {
            OpOut::Stopped(InterpError::Underflow)
        } else {
            let first = s[n - 2];
            let second = s[n - 1];
            let base = s.subrange(0, n - 2);
            if first.id == TokId::INT && second.id == TokId::INT {
                OpOut::Next(
                    base.push(
                        crate::ops::bool_obj(
                            crate::ops::cmp_val(
                                op,
                                crate::ops::int_of(first),
                                crate::ops::int_of(second),
                            ),
                        ),
                    ),
                )
            } else if crate::ops::num_id(first) && crate::ops::num_id(second) {
                OpOut::Host
            } else if crate::ops::num_id(first) {
                OpOut::Next(base.push(crate::ops::bool_obj(false)))
            } else {
                OpOut::Stopped(InterpError::TypeMismatch)
            }
        }
    } else if op == TokId::EQUALS {
        if n < 2 {
            OpOut::Stopped(InterpError::Underflow)
        } else {
            OpOut::Next(s.subrange(0, n - 2).push(crate::ops::bool_obj(s[n - 2] == s[n - 1])))
        }
    } else if op == TokId::IS {
        if n < 2 {
            OpOut::Stopped(InterpError::Underflow)
        } else {
            OpOut::Next(
                s.subrange(0, n - 2).push(crate::ops::bool_obj(crate::ops::guard_match(s[n - 2], s[n - 1]))),
            )
        }
    } else {
        OpOut::Next(s)
    }
}

/// An operator token an `op_run` case covers.
pub open spec fn is_op_token(op: TokId) -> bool {
    crate::ops::is_arith_op(op) || crate::ops::is_cmp_op(op) || op == TokId::EQUALS || op
        == TokId::IS
}

/// Executes one operator token, exactly as `op_run` describes.
fn run_op<F: FloatArith>(op: TokId, stack: &mut Vec<Object>, fops: &F) -> (r: Result<
    (),
    InterpError,
>)
    requires
        is_op_token(op),
        all_wf(arr_view(old(stack)@)),
    ensures
        all_wf(arr_view(final(stack)@)),
        match op_run(op, arr_view(old(stack)@)) {
            OpOut::Next(s1) => r is Ok && arr_view(final(stack)@) == s1,
            OpOut::Stopped(e) => r == Err::<(), InterpError>(e),
            OpOut::Host => true,
        },
{
    proof {
        reveal(op_run);
    }
    if op == TokId::PLUS || op == TokId::MINUS || op == TokId::MULTIPLY || op == TokId::DIVIDE
        || op == TokId::MOD {
        do_arith(op, stack, fops)
    } else if op == TokId::BIGGER || op == TokId::SMALLER || op == TokId::BIGGEREQUALS || op
        == TokId::SMALLEREQUALS {
        do_compare(op, stack, fops)
    } else if op == TokId::EQUALS {
        do_equals(stack)
    } else {
        do_is(stack)
    }
}

/// One open block at the view level: its kind and its heap.
pub struct BlockV {
    pub kind: BlockKind,
    pub heap: Map<Seq<char>, ObjV>,
}

/// The views of a stack of open blocks.
pub open spec fn blocks_view(frames: Seq<Frame>) -> Seq<BlockV> {
    frames.map_values(|f: Frame| BlockV { kind: f.kind, heap: f.heap@ })
}

/// The heaps of a stack of block views, outermost first.
pub open spec fn heaps(bs: Seq<BlockV>) -> Seq<Map<Seq<char>, ObjV>> {
    bs.map_values(|b: BlockV| b.heap)
}

/// Block views with their heaps replaced in place, kinds kept.
pub open spec fn with_heaps(bs: Seq<BlockV>, hs: Seq<Map<Seq<char>, ObjV>>) -> Seq<BlockV> {
    Seq::new(bs.len(), |i: int| BlockV { kind: bs[i].kind, heap: hs[i] })
}

/// A frame's full state between two tokens: the operand stack, the open
/// blocks, the invocation's heap, the global heap, the caller's stack and
/// the output so far.
pub struct FrameSt {
    pub stack: Seq<ObjV>,
    pub blocks: Seq<BlockV>,
    pub live: Map<Seq<char>, ObjV>,
    pub global: Map<Seq<char>, ObjV>,
    pub parent: Seq<ObjV>,
    pub out: Seq<Seq<char>>,
}

/// The interpretation of a body from a state: the final state — with the
/// stop, if the run stopped — or `Unknown` where the behaviour passes
/// outside the tracked fragment: a `while` construct, a call of a named
/// function, an `if` that must skip its branch, or a value the host's
/// floating point computes.
pub enum SimOut {
    Known(FrameSt, Option<Stop>),
    Unknown,
}

/// A run that stopped: the state at the stop, the operand stack discarded.
pub open spec fn frame_stop(st: FrameSt, stop: Stop) -> SimOut {
    SimOut::Known(FrameSt { stack: Seq::empty(), ..st }, Some(stop))
}

/// The spec-level interpretation of a body without a caller, one token at
/// a time from the given position, exactly as the dispatcher executes it:
/// a literal pushes itself; open blocks intercept `end` (and an `else`
/// leaves the fragment); operators, assignments and built-ins act per
/// `op_run`, `assign_step` and `builtin_run`; an identifier resolves
/// innermost block heap first, then the invocation's heap, then the global
/// heap, a name bound nowhere and naming no function doing nothing; `ret`
/// without a caller does nothing; `block` and `loop` open inert scope
/// blocks; any remaining control token is inert.
#[verifier::opaque]
pub open spec fn sim_body(
    fmap: Map<Seq<char>, FunV>,
    in_global: bool,
    body: Seq<ObjV>,
    pos: int,
    st: FrameSt,
) -> SimOut
    decreases body.len() - pos,
    via sim_body_dec
{
    if pos < 0 {
        SimOut::Unknown
    } else if pos >= body.len() {
        SimOut::Known(st, None)
    } else {
        let tok = body[pos];
        if st.blocks.len() > 0 && st.blocks.last().kind == BlockKind::Taken && tok.id
            == TokId::ELSE {
            SimOut::Unknown
        } else if st.blocks.len() > 0 && tok.id == TokId::END {
            sim_body(fmap, in_global, body, pos + 1, FrameSt { blocks: st.blocks.drop_last(), ..st })
        } else if tok.id == TokId::LINEBREAK || tok.id == TokId::IMPORT {
            sim_body(fmap, in_global, body, pos + 1, st)
        } else if tok.id == TokId::FUNCTION {
            frame_stop(st, Stop::Fail(InterpError::BadToken))
        } else if tok.id == TokId::WHILE {
            SimOut::Unknown
        } else if tok.id == TokId::IF {
            if st.stack.len() == 0 {
                frame_stop(st, Stop::Fail(InterpError::Underflow))
            } else {
                let cond = st.stack.last();
                if cond.id != TokId::BOOLEAN {
                    frame_stop(st, Stop::Fail(InterpError::NotBoolean))
                } else if cond.rep == ValV::Str("true"@) {
                    sim_body(
                        fmap,
                        in_global,
                        body,
                        pos + 1,
                        FrameSt {
                            stack: st.stack.drop_last(),
                            blocks: st.blocks.push(
                                BlockV { kind: BlockKind::Taken, heap: Map::empty() },
                            ),
                            ..st
                        },
                    )
                } else {
                    SimOut::Unknown
                }
            }
        } else if is_op_token(tok.id) {
            match op_run(tok.id, st.stack) {
                OpOut::Next(s1) => sim_body(
                    fmap,
                    in_global,
                    body,
                    pos + 1,
                    FrameSt { stack: s1, ..st },
                ),
                OpOut::Stopped(e) => frame_stop(st, Stop::Fail(e)),
                OpOut::Host => SimOut::Unknown,
            }
        } else if tok.id == TokId::ASSIGNMENT || tok.id == TokId::RETURNINGASSIGNMENT {
            match assign_step(
                body,
                pos,
                tok.id == TokId::RETURNINGASSIGNMENT,
                heaps(st.blocks),
                st.live,
                st.global,
                in_global,
                st.stack,
            ) {
                Ok(t) => sim_body(
                    fmap,
                    in_global,
                    body,
                    t.0,
                    FrameSt {
                        stack: t.4,
                        blocks: with_heaps(st.blocks, t.1),
                        live: t.2,
                        global: t.3,
                        ..st
                    },
                ),
                Err(stop) => frame_stop(st, stop),
            }
        } else if tok.id == TokId::RET {
            sim_body(fmap, in_global, body, pos + 1, st)
        } else if tok.id == TokId::UNKNOWN {
            let name = tok.rep->Str_0;
            if is_builtin_name(name) {
                match builtin_run(name, st.stack, st.out) {
                    BuiltinOut::Next(s1, o1) => sim_body(
                        fmap,
                        in_global,
                        body,
                        pos + 1,
                        FrameSt { stack: s1, out: o1, ..st },
                    ),
                    BuiltinOut::Stopped(stop, o1) => SimOut::Known(
                        FrameSt { stack: Seq::empty(), out: o1, ..st },
                        Some(stop),
                    ),
                    BuiltinOut::Host => SimOut::Unknown,
                }
            } else {
                match crate::env::resolve(heaps(st.blocks), st.live, st.global, name) {
                    Some(v) => sim_body(
                        fmap,
                        in_global,
                        body,
                        pos + 1,
                        FrameSt { stack: st.stack.push(v), ..st },
                    ),
                    None => if fmap.contains_key(name) {
                        SimOut::Unknown
                    } else {
                        sim_body(fmap, in_global, body, pos + 1, st)
                    },
                }
            }
        } else if tok.id == TokId::BLOCK || tok.id == TokId::LOOP {
            sim_body(
                fmap,
                in_global,
                body,
                pos + 1,
                FrameSt {
                    blocks: st.blocks.push(BlockV { kind: BlockKind::Otherwise, heap: Map::empty() }),
                    ..st
                },
            )
        } else if tok.id == TokId::INT || tok.id == TokId::FLOAT || tok.id == TokId::STRING
            || tok.id == TokId::BOOLEAN || tok.id == TokId::TINT || tok.id == TokId::TFLOAT
            || tok.id == TokId::TSTRING || tok.id == TokId::TBOOL || tok.id == TokId::ARRAY {
            sim_body(fmap, in_global, body, pos + 1, FrameSt { stack: st.stack.push(tok), ..st })
        } else {
            sim_body(fmap, in_global, body, pos + 1, st)
        }
    }
}

#[via_fn]
proof fn sim_body_dec(fmap: Map<Seq<char>, FunV>, in_global: bool, body: Seq<ObjV>, pos: int, st: FrameSt) {
    reveal(assign_step);
}

/// Executing a literal token leaves the top of the operand stack equal to
/// that literal's value: the interpretation of a body continues from the
/// same state with exactly the token pushed.
pub proof fn lemma_literal_executes_itself(
    fmap: Map<Seq<char>, FunV>,
    in_global: bool,
    body: Seq<ObjV>,
    pos: int,
    st: FrameSt,
)
    requires
        0 <= pos < body.len(),
        crate::ops::printable(body[pos].id) || body[pos].id == TokId::TINT || body[pos].id
            == TokId::TFLOAT || body[pos].id == TokId::TSTRING || body[pos].id == TokId::TBOOL,
        !(st.blocks.len() > 0 && body[pos].id == TokId::END),
    ensures
        sim_body(fmap, in_global, body, pos, st) == sim_body(
            fmap,
            in_global,
            body,
            pos + 1,
            (FrameSt { stack: st.stack.push(body[pos]), ..st }),
        ),
{
    reveal(sim_body);
}

/// A resolved value comes from one of the heaps, which hold only
/// well-formed values.
proof fn lemma_resolve_wf(
    blocks: Seq<Map<Seq<char>, ObjV>>,
    live: Map<Seq<char>, ObjV>,
    global: Map<Seq<char>, ObjV>,
    name: Seq<char>,
    v: ObjV,
)
    requires
        crate::env::resolve(blocks, live, global, name) == Some(v),
        forall|i: int| 0 <= i < blocks.len() ==> heap_wf(#[trigger] blocks[i]),
        heap_wf(live),
        heap_wf(global),
    ensures
        crate::head::obj_wf(v),
    decreases blocks.len(),
{
    if blocks.len() > 0 {
        if blocks.last().contains_key(name) {
        } else {
            lemma_resolve_wf(blocks.drop_last(), live, global, name, v);
        }
    }
}

/// How a run ended.
#[derive(PartialEq, Eq, Structural, Clone, Copy, Debug)]
pub enum Outcome {
    /// Both the global body and `main` ran to completion.
    Finished,
    /// An `assert` found unequal operands; its message is the last output
    /// line.
    AssertFailed,
    /// A fatal fault.
    Fault(InterpError),
}

/// What a run produced: the printed lines, in order, and how it ended.
pub struct RunResult {
    pub output: Vec<String>,
    pub outcome: Outcome,
}


/// What a whole run must satisfy, as a function of the function map, the
/// fuel and the result: a map without `_global` faults at once with no
/// output; one without `main` never finishes; and wherever the spec-level
/// interpretation of the `_global` body — and then of the `main` body,
/// from the global heap and output the first run left — is known, the
/// run's outcome and printed lines are exactly the interpretation's.
pub open spec fn run_agrees(m: Map<Seq<char>, FunV>, fuel: u64, r: RunResult) -> bool {
    &&& (!m.contains_key("_global"@) ==> r.outcome == Outcome::Fault(InterpError::MissingFunction)
        && r.output@ == Seq::<String>::empty())
    &&& (!m.contains_key("main"@) ==> r.outcome != Outcome::Finished)
    &&& (fuel > 0 && m.contains_key("_global"@) ==> match sim_body(
        m,
        true,
        m["_global"@].body,
        0,
        (FrameSt {
            stack: Seq::empty(),
            blocks: Seq::empty(),
            live: Map::empty(),
            global: Map::empty(),
            parent: Seq::empty(),
            out: Seq::empty(),
        }),
    ) {
        SimOut::Known(fin1, stop1) => match stop1 {
            Some(Stop::Assert) => r.outcome == Outcome::AssertFailed && outs(r.output@)
                == fin1.out,
            Some(Stop::Fail(e)) => r.outcome == Outcome::Fault(e) && outs(r.output@) == fin1.out,
            None => if !m.contains_key("main"@) {
                r.outcome == Outcome::Fault(InterpError::MissingFunction) && outs(r.output@)
                    == fin1.out
            } else {
                match sim_body(
                    m,
                    "main"@ == "_global"@,
                    m["main"@].body,
                    0,
                    (FrameSt {
                        stack: Seq::empty(),
                        blocks: Seq::empty(),
                        live: Map::empty(),
                        global: fin1.global,
                        parent: fin1.parent,
                        out: fin1.out,
                    }),
                ) {
                    SimOut::Known(fin2, stop2) => match stop2 {
                        None => r.outcome == Outcome::Finished && outs(r.output@) == fin2.out,
                        Some(Stop::Assert) => r.outcome == Outcome::AssertFailed && outs(
                            r.output@,
                        ) == fin2.out,
                        Some(Stop::Fail(e)) => r.outcome == Outcome::Fault(e) && outs(r.output@)
                            == fin2.out,
                    },
                    SimOut::Unknown => true,
                }
            },
        },
        SimOut::Unknown => true,
    })
}

/// Runs a parsed program: the synthetic `_global` body first, against a
/// fresh global heap, then the body named `main`; either missing is a
/// fault. Each run is bounded by the given fuel.
pub fn interpret<F: FloatArith>(function_map: NameMap<Function>, fops: &F, fuel: u64) -> (r:
    RunResult)
    requires
        function_map.wf(),
        fmap_wf(function_map@),
    ensures
        run_agrees(function_map@, fuel, r),
{
    let mut out: Vec<String> = Vec::new();
    let mut global_heap: NameMap<Object> = NameMap::new();
    let mut dummy_parent: Vec<Object> = Vec::new();
    let ghost entry1 = (FrameSt {
        stack: Seq::empty(),
        blocks: Seq::empty(),
        live: Map::empty(),
        global: Map::empty(),
        parent: Seq::empty(),
        out: Seq::empty(),
    });
    let ghost gsim = sim_body(function_map@, true, function_map@["_global"@].body, 0, entry1);
    proof {
        assert(arr_view(dummy_parent@) =~= Seq::<ObjV>::empty());
        assert(outs(out@) =~= Seq::<Seq<char>>::empty());
        assert(heap_wf(global_heap@));
    }
    let gname = String::from_str("_global");
    let outcome: Outcome;
    match function_map.get(gname.as_str()) {
        None => {
            outcome = Outcome::Fault(InterpError::MissingFunction);
            return RunResult { output: out, outcome };
        },
        Some(gfun) => {
            let mut live: NameMap<Object> = NameMap::new();
            proof {
                assert(heap_wf(live@));
                assert(all_wf(gfun@.body) && all_wf(gfun@.arguments));
                assert(gname@ == "_global"@);
                assert(arr_view(gfun.stack@) == function_map@["_global"@].body);
            }
            match interpret_func(
                &function_map,
                &gname,
                &gfun.stack,
                &gfun.arguments,
                &mut global_heap,
                &mut dummy_parent,
                false,
                &mut live,
                &mut out,
                fops,
                fuel,
            ) {
                Ok(_) => {
                    proof {
                        if fuel > 0 {
                            match gsim {
                                SimOut::Known(fin1, stop1) => {
                                    assert(stop1 is None);
                                    assert(global_heap@ == fin1.global);
                                    assert(outs(out@) == fin1.out);
                                    assert(arr_view(dummy_parent@) == fin1.parent);
                                },
                                SimOut::Unknown => {},
                            }
                        }
                    }
                },
                Err(Stop::Assert) => {
                    outcome = Outcome::AssertFailed;
                    return RunResult { output: out, outcome };
                },
                Err(Stop::Fail(e)) => {
                    outcome = Outcome::Fault(e);
                    return RunResult { output: out, outcome };
                },
            }
        },
    }
    let mname = String::from_str("main");
    match function_map.get(mname.as_str()) {
        None => {
            outcome = Outcome::Fault(InterpError::MissingFunction);
            RunResult { output: out, outcome }
        },
        Some(mfun) => {
            let mut live: NameMap<Object> = NameMap::new();
            let ghost entry2 = (FrameSt {
                stack: Seq::empty(),
                blocks: Seq::empty(),
                live: Map::empty(),
                global: global_heap@,
                parent: arr_view(dummy_parent@),
                out: outs(out@),
            });
            proof {
                assert(heap_wf(live@));
                assert(all_wf(mfun@.body) && all_wf(mfun@.arguments));
                assert(mname@ == "main"@);
                assert(arr_view(mfun.stack@) == function_map@["main"@].body);
            }
            match interpret_func(
                &function_map,
                &mname,
                &mfun.stack,
                &mfun.arguments,
                &mut global_heap,
                &mut dummy_parent,
                false,
                &mut live,
                &mut out,
                fops,
                fuel,
            ) {
                Ok(_) => RunResult { output: out, outcome: Outcome::Finished },
                Err(Stop::Assert) => RunResult { output: out, outcome: Outcome::AssertFailed },
                Err(Stop::Fail(e)) => RunResult { output: out, outcome: Outcome::Fault(e) },
            }
        },
    }
}

/// Lexes, parses and runs a source text, with the given fuel bound: the
/// whole pipeline from characters to printed lines. A parse error is
/// returned as such; anything the parser accepts is run.
pub fn run_source<F: FloatArith>(source: &String, fops: &F, fuel: u64) -> (r: Result<
    RunResult,
    crate::parser::ParseErr,
>)
    ensures
        match r {
            Ok(rr) => crate::parser::parse_from(
                crate::parser::retag(crate::lexer::lex_spec(source@)),
                0,
                crate::parser::parse_init(),
            ) matches Ok(m) && run_agrees(m, fuel, rr),
            Err(e) => crate::parser::parse_from(
                crate::parser::retag(crate::lexer::lex_spec(source@)),
                0,
                crate::parser::parse_init(),
            ) == Err::<Map<Seq<char>, crate::head::FunV>, crate::parser::ParseErr>(e),
        },
{
    let lexed = crate::lexer::lexer_file(source);
    proof {
        crate::lexer::lemma_lex_spec_wf(source@);
    }
    match crate::parser::parse_file(lexed) {
        Err(e) => Err(e),
        Ok(fmap) => {
            proof {
                crate::parser::lemma_retag_wf(crate::lexer::lex_spec(source@));
                assert(crate::parser::parse_init().fmap.contains_key("_global"@));
                assert(fmap_wf(crate::parser::parse_init().fmap)) by {
                    let m = crate::parser::parse_init().fmap;
                    assert(forall|k: Seq<char>| #[trigger] m.contains_key(k) ==> k == "_global"@);
                }
                crate::parser::lemma_parse_wf(
                    crate::parser::retag(crate::lexer::lex_spec(source@)),
                    0,
                    crate::parser::parse_init(),
                );
            }
            Ok(interpret(fmap, fops, fuel))
        },
    }
}

} // verus!
