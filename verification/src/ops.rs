//! The token operations of the interpreter: arithmetic with numeric
//! promotion, comparisons, structural equality, the type guard, and the
//! built-in stack and output operations. Each operates on the operand
//! stack and carries an exact contract over the stack's view, except where
//! a result is computed by the host's floating point — there the contract
//! says only the kind of what is pushed.

use vstd::prelude::*;

use crate::floats::FloatArith;
use crate::head::{all_wf, arr_view, lemma_arr_view, lemma_arr_view_push, obj_wf, Object, ObjV,
    TokId, Value, ValV};
use crate::numbers::{int_text, is_i32_text, lemma_int_text_roundtrip, parsed_int};

verus! {

broadcast use lemma_arr_view, lemma_arr_view_push;

/// Why the interpreter stopped with a fault.
#[derive(PartialEq, Eq, Structural, Clone, Copy, Debug)]
pub enum InterpError {
    /// An operation found fewer operands than it needs.
    Underflow,
    /// An operation's operands are of kinds it does not accept.
    TypeMismatch,
    /// `if` or `while` popped a condition that is not a boolean.
    NotBoolean,
    /// Text was expected where an array payload sits.
    ArrayAsText,
    /// Integer division or remainder by zero, or an integer result outside
    /// the 32-bit range.
    Arith,
    /// The body ended where a construct needed more tokens: a missing
    /// `do` or `end`, or no name after an assignment.
    MissingToken,
    /// An assignment's target is not an identifier.
    AssignTarget,
    /// A named function the run needs does not exist.
    MissingFunction,
    /// A function call found fewer arguments on the caller's stack than
    /// the function has parameters.
    ArgShortfall,
    /// A parameter descriptor is neither a name nor a type guard.
    BadParameter,
    /// A function body token of a kind that cannot be executed.
    BadToken,
    /// The step allowance ran out before the program finished.
    FuelOut,
}

/// How a run ends early: a failed `assert`, or a fault.
#[derive(PartialEq, Eq, Structural, Clone, Copy, Debug)]
pub enum Stop {
    Assert,
    Fail(InterpError),
}

/// The boolean object of a truth value.
pub open spec fn bool_obj(b: bool) -> ObjV {
    ObjV {
        id: TokId::BOOLEAN,
        rep: ValV::Str(
            if b {
                "true"@
            } else {
                "false"@
            },
        ),
    }
}

/// Builds the boolean object of a truth value.
pub fn make_bool(b: bool) -> (o: Object)
    ensures
        o@ == bool_obj(b),
        obj_wf(o@),
{
    if b {
        Object { id: TokId::BOOLEAN, rep: Value::STR(String::from_str("true")) }
    } else {
        Object { id: TokId::BOOLEAN, rep: Value::STR(String::from_str("false")) }
    }
}

/// The text of a value expected to be textual.
pub fn cast2string(val: &Value) -> (r: Result<&String, InterpError>)
    ensures
        match r {
            Ok(s) => val@ is Str && s@ == val@->Str_0,
            Err(e) => val@ is Arr && e == InterpError::ArrayAsText,
        },
{
    match val {
        Value::STR(s) => Ok(s),
        Value::ARR(_) => Err(InterpError::ArrayAsText),
    }
}

/// The text of a value expected to be textual, by value.
pub fn cast2str(val: Value) -> (r: Result<String, InterpError>)
    ensures
        match r {
            Ok(s) => val@ is Str && s@ == val@->Str_0,
            Err(e) => val@ is Arr && e == InterpError::ArrayAsText,
        },
{
    match val {
        Value::STR(s) => Ok(s),
        Value::ARR(_) => Err(InterpError::ArrayAsText),
    }
}

/// The 32-bit integer an integer object's text denotes.
pub fn cast2int(data: &String) -> (r: i32)
    requires
        is_i32_text(data@),
    ensures
        parsed_int(data@) == Some(r as int),
{
    match crate::numbers::parse_i32(data.as_str()) {
        Some(v) => v,
        None => {
            proof {
                assert(false);
            }
            0
        },
    }
}

/// Pops the top two operands; the first popped was the top.
fn pop2(stack: &mut Vec<Object>) -> (r: Result<(Object, Object), InterpError>)
    ensures
        match r {
            Ok(p) => old(stack)@.len() >= 2 && final(stack)@ == old(stack)@.subrange(
                0,
                old(stack)@.len() - 2,
            ) && p.0 == old(stack)@[old(stack)@.len() - 2] && p.1 == old(stack)@[old(stack)@.len()
                - 1],
            Err(e) => e == InterpError::Underflow && old(stack)@.len() < 2 && final(stack)@.len()
                == 0,
        },
{
    let second = match stack.pop() {
        Some(v) => v,
        None => {
            return Err(InterpError::Underflow);
        },
    };
    let first = match stack.pop() {
        Some(v) => v,
        None => {
            return Err(InterpError::Underflow);
        },
    };
    proof {
        assert(final(stack)@ =~= old(stack)@.subrange(0, old(stack)@.len() - 2));
    }
    Ok((first, second))
}

/// A stack with its top two operands exchanged.
pub open spec fn swapped(s: Seq<ObjV>) -> Seq<ObjV>
    recommends
        s.len() >= 2,
{
    s.update(s.len() - 2, s.last()).update(s.len() - 1, s[s.len() - 2])
}

/// Exchanges the top two operands.
pub fn bi_swap(stack: &mut Vec<Object>) -> (r: Result<(), InterpError>)
    requires
        all_wf(arr_view(old(stack)@)),
    ensures
        all_wf(arr_view(final(stack)@)),
        match r {
            Ok(()) => old(stack)@.len() >= 2 && arr_view(final(stack)@) == swapped(
                arr_view(old(stack)@),
            ),
            Err(e) => e == InterpError::Underflow && old(stack)@.len() < 2,
        },
{
    let (first, second) = pop2(stack)?;
    stack.push(second);
    stack.push(first);
    proof {
        assert(arr_view(final(stack)@) =~= swapped(arr_view(old(stack)@)));
    }
    Ok(())
}

/// Discards the top operand.
pub fn bi_drop(stack: &mut Vec<Object>) -> (r: Result<(), InterpError>)
    requires
        all_wf(arr_view(old(stack)@)),
    ensures
        all_wf(arr_view(final(stack)@)),
        match r {
            Ok(()) => old(stack)@.len() >= 1 && arr_view(final(stack)@) == arr_view(
                old(stack)@,
            ).drop_last(),
            Err(e) => e == InterpError::Underflow && old(stack)@.len() == 0,
        },
{
    match stack.pop() {
        Some(_) => {
            proof {
                assert(arr_view(final(stack)@) =~= arr_view(old(stack)@).drop_last());
            }
            Ok(())
        },
        None => Err(InterpError::Underflow),
    }
}

/// Empties the operand stack.
pub fn bi_clear(stack: &mut Vec<Object>)
    ensures
        all_wf(arr_view(final(stack)@)),
        arr_view(final(stack)@) == Seq::<ObjV>::empty(),
{
    stack.clear();
    proof {
        assert(arr_view(final(stack)@) =~= Seq::<ObjV>::empty());
    }
}

/// A stack whose top three operands `a b c` (c on top) are left as
/// `a c b`.
pub open spec fn rotated(s: Seq<ObjV>) -> Seq<ObjV>
    recommends
        s.len() >= 3,
{
    s.subrange(0, s.len() - 3).push(s[s.len() - 3]).push(s[s.len() - 1]).push(s[s.len() - 2])
}

/// With the top three operands `a b c` (c on top), leaves `a c b`.
pub fn bi_rot(stack: &mut Vec<Object>) -> (r: Result<(), InterpError>)
    requires
        all_wf(arr_view(old(stack)@)),
    ensures
        all_wf(arr_view(final(stack)@)),
        match r {
            Ok(()) => old(stack)@.len() >= 3 && arr_view(final(stack)@) == rotated(
                arr_view(old(stack)@),
            ),
            Err(e) => e == InterpError::Underflow && old(stack)@.len() < 3,
        },
{
    let third = match stack.pop() {
        Some(v) => v,
        None => {
            return Err(InterpError::Underflow);
        },
    };
    let (first, second) = pop2(stack)?;
    stack.push(first);
    stack.push(third);
    stack.push(second);
    proof {
        assert(arr_view(final(stack)@) =~= rotated(arr_view(old(stack)@)));
    }
    Ok(())
}

/// Duplicates the top operand.
pub fn bi_copy(stack: &mut Vec<Object>) -> (r: Result<(), InterpError>)
    requires
        all_wf(arr_view(old(stack)@)),
    ensures
        all_wf(arr_view(final(stack)@)),
        match r {
            Ok(()) => old(stack)@.len() >= 1 && arr_view(final(stack)@) == arr_view(
                old(stack)@,
            ).push(arr_view(old(stack)@).last()),
            Err(e) => e == InterpError::Underflow && old(stack)@.len() == 0,
        },
{
    if stack.len() == 0 {
        return Err(InterpError::Underflow);
    }
    let top = stack[stack.len() - 1].duplicate();
    stack.push(top);
    proof {
        assert(arr_view(final(stack)@) =~= arr_view(old(stack)@).push(
            arr_view(old(stack)@).last(),
        ));
    }
    Ok(())
}

/// Duplicates the operand just below the top.
pub fn bi_carry(stack: &mut Vec<Object>) -> (r: Result<(), InterpError>)
    requires
        all_wf(arr_view(old(stack)@)),
    ensures
        all_wf(arr_view(final(stack)@)),
        match r {
            Ok(()) => old(stack)@.len() >= 2 && arr_view(final(stack)@) == arr_view(
                old(stack)@,
            ).push(arr_view(old(stack)@)[old(stack)@.len() - 2]),
            Err(e) => e == InterpError::Underflow && old(stack)@.len() < 2,
        },
{
    if stack.len() < 2 {
        return Err(InterpError::Underflow);
    }
    let below = stack[stack.len() - 2].duplicate();
    stack.push(below);
    proof {
        assert(arr_view(final(stack)@) =~= arr_view(old(stack)@).push(
            arr_view(old(stack)@)[old(stack)@.len() - 2],
        ));
    }
    Ok(())
}

/// Pops two operands and pushes whether they are structurally equal.
pub fn do_equals(stack: &mut Vec<Object>) -> (r: Result<(), InterpError>)
    requires
        all_wf(arr_view(old(stack)@)),
    ensures
        all_wf(arr_view(final(stack)@)),
        match r {
            Ok(()) => old(stack)@.len() >= 2 && arr_view(final(stack)@) == arr_view(
                old(stack)@,
            ).subrange(0, old(stack)@.len() - 2).push(
                bool_obj(
                    arr_view(old(stack)@)[old(stack)@.len() - 2] == arr_view(old(stack)@)[old(
                        stack,
                    )@.len() - 1],
                ),
            ),
            Err(e) => e == InterpError::Underflow && old(stack)@.len() < 2,
        },
{
    let (first, second) = pop2(stack)?;
    let eq = first.equal(&second);
    stack.push(make_bool(eq));
    proof {
        assert(arr_view(final(stack)@) =~= arr_view(old(stack)@).subrange(
            0,
            old(stack)@.len() - 2,
        ).push(
            bool_obj(
                arr_view(old(stack)@)[old(stack)@.len() - 2] == arr_view(old(stack)@)[old(
                    stack,
                )@.len() - 1],
            ),
        ));
    }
    Ok(())
}

/// Whether a value's kind matches a type tag.
pub open spec fn guard_match(value: ObjV, tag: ObjV) -> bool {
    ||| (value.id == TokId::INT && tag.id == TokId::TINT)
    ||| (value.id == TokId::FLOAT && tag.id == TokId::TFLOAT)
    ||| (value.id == TokId::BOOLEAN && tag.id == TokId::TBOOL)
    ||| (value.id == TokId::STRING && tag.id == TokId::TSTRING)
}

/// Pops a type tag and a value and pushes whether the value's kind matches
/// the tag.
pub fn do_is(stack: &mut Vec<Object>) -> (r: Result<(), InterpError>)
    requires
        all_wf(arr_view(old(stack)@)),
    ensures
        all_wf(arr_view(final(stack)@)),
        match r {
            Ok(()) => old(stack)@.len() >= 2 && arr_view(final(stack)@) == arr_view(
                old(stack)@,
            ).subrange(0, old(stack)@.len() - 2).push(
                bool_obj(
                    guard_match(
                        arr_view(old(stack)@)[old(stack)@.len() - 2],
                        arr_view(old(stack)@)[old(stack)@.len() - 1],
                    ),
                ),
            ),
            Err(e) => e == InterpError::Underflow && old(stack)@.len() < 2,
        },
{
    let (first, second) = pop2(stack)?;
    let m = (first.id == TokId::INT && second.id == TokId::TINT) || (first.id == TokId::FLOAT
        && second.id == TokId::TFLOAT) || (first.id == TokId::BOOLEAN && second.id == TokId::TBOOL)
        || (first.id == TokId::STRING && second.id == TokId::TSTRING);
    stack.push(make_bool(m));
    proof {
        assert(arr_view(final(stack)@) =~= arr_view(old(stack)@).subrange(
            0,
            old(stack)@.len() - 2,
        ).push(
            bool_obj(
                guard_match(
                    arr_view(old(stack)@)[old(stack)@.len() - 2],
                    arr_view(old(stack)@)[old(stack)@.len() - 1],
                ),
            ),
        ));
    }
    Ok(())
}

/// The magnitude of an integer.
pub open spec fn abs_i(x: int) -> int {
    if x < 0 {
        -x
    } else {
        x
    }
}

/// Division truncating toward zero, as the host's integer division does.
pub open spec fn t_div(a: int, b: int) -> int {
    let q = abs_i(a) / abs_i(b);
    if (a < 0) == (b < 0) {
        q
    } else {
        -q
    }
}

/// Remainder with the dividend's sign, as the host's integer remainder.
pub open spec fn t_mod(a: int, b: int) -> int {
    let m = abs_i(a) % abs_i(b);
    if a < 0 {
        -m
    } else {
        m
    }
}

/// An arithmetic token.
pub open spec fn is_arith_op(op: TokId) -> bool {
    op == TokId::PLUS || op == TokId::MINUS || op == TokId::MULTIPLY || op == TokId::DIVIDE || op
        == TokId::MOD
}

/// The integer result of an arithmetic token on two integers.
pub open spec fn int_op_val(op: TokId, a: int, b: int) -> int {
    if op == TokId::PLUS {
        a + b
    } else if op == TokId::MINUS {
        a - b
    } else if op == TokId::MULTIPLY {
        a * b
    } else if op == TokId::DIVIDE {
        t_div(a, b)
    } else {
        t_mod(a, b)
    }
}

/// The integer object of a value, in canonical decimal text.
pub open spec fn int_obj(v: int) -> ObjV {
    ObjV { id: TokId::INT, rep: ValV::Str(int_text(v)) }
}

/// A numeric kind.
pub open spec fn num_id(o: ObjV) -> bool {
    o.id == TokId::INT || o.id == TokId::FLOAT
}

/// The integer an integer object denotes.
pub open spec fn int_of(o: ObjV) -> int {
    parsed_int(o.rep->Str_0)->Some_0
}

/// The value fits the 32-bit signed range.
pub open spec fn fits_i32(v: int) -> bool {
    -0x8000_0000 <= v && v <= 0x7fff_ffff
}

/// A kind-`FLOAT` object carrying some text: all the specification says of
/// a result the host's floating point computed.
pub open spec fn some_float(o: ObjV) -> bool {
    o.id == TokId::FLOAT && o.rep is Str
}

/// Truncating division and remainder of two 32-bit integers, computed on
/// magnitudes.
fn div_mod_i32(a: i32, b: i32, want_mod: bool) -> (r: i64)
    requires
        b != 0,
    ensures
        !want_mod ==> r as int == t_div(a as int, b as int),
        want_mod ==> r as int == t_mod(a as int, b as int),
{
    let ua: u64 = if a < 0 {
        (-(a as i64)) as u64
    } else {
        a as u64
    };
    let ub: u64 = if b < 0 {
        (-(b as i64)) as u64
    } else {
        b as u64
    };
    if want_mod {
        let m = ua % ub;
        if a < 0 {
            -(m as i64)
        } else {
            m as i64
        }
    } else {
        let q = ua / ub;
        if (a < 0) != (b < 0) {
            -(q as i64)
        } else {
            q as i64
        }
    }
}

/// Pops two operands and applies an arithmetic token: both integers give
/// the exact integer result in canonical text (a zero divisor or a result
/// outside the 32-bit range is a fault); a numeric pair with a float gives
/// a float computed by the host; `+` concatenates two strings or two
/// arrays; anything else is a type fault.
pub fn do_arith<F: FloatArith>(op: TokId, stack: &mut Vec<Object>, fops: &F) -> (r: Result<
    (),
    InterpError,
>)
    requires
        is_arith_op(op),
        all_wf(arr_view(old(stack)@)),
    ensures
        all_wf(arr_view(final(stack)@)),
        ({
            let s0 = arr_view(old(stack)@);
            let n = s0.len() as int;
            let s1 = arr_view(final(stack)@);
            match r {
                Ok(()) => n >= 2 && {
                    let first = s0[n - 2];
                    let second = s0[n - 1];
                    let base = s0.subrange(0, n - 2);
                    if first.id == TokId::INT && second.id == TokId::INT {
                        &&& !((op == TokId::DIVIDE || op == TokId::MOD) && int_of(second) == 0)
                        &&& fits_i32(int_op_val(op, int_of(first), int_of(second)))
                        &&& s1 == base.push(int_obj(int_op_val(op, int_of(first), int_of(second))))
                    } else if num_id(first) && num_id(second) {
                        &&& s1.len() == n - 1
                        &&& s1.subrange(0, n - 2) == base
                        &&& some_float(s1.last())
                    } else if op == TokId::PLUS && first.id == TokId::STRING && second.id
                        == TokId::STRING {
                        s1 == base.push(
                            ObjV {
                                id: TokId::STRING,
                                rep: ValV::Str(first.rep->Str_0 + second.rep->Str_0),
                            },
                        )
                    } else if op == TokId::PLUS && first.id == TokId::ARRAY && second.id
                        == TokId::ARRAY {
                        s1 == base.push(
                            ObjV {
                                id: TokId::ARRAY,
                                rep: ValV::Arr(first.rep->Arr_0 + second.rep->Arr_0),
                            },
                        )
                    } else {
                        false
                    }
                },
                Err(e) => if n < 2 {
                    e == InterpError::Underflow
                } else {
                    let first = s0[n - 2];
                    let second = s0[n - 1];
                    if first.id == TokId::INT && second.id == TokId::INT {
                        &&& e == InterpError::Arith
                        &&& (((op == TokId::DIVIDE || op == TokId::MOD) && int_of(second) == 0)
                            || !fits_i32(int_op_val(op, int_of(first), int_of(second))))
                    } else if num_id(first) && num_id(second) {
                        false
                    } else if op == TokId::PLUS && ((first.id == TokId::STRING && second.id
                        == TokId::STRING) || (first.id == TokId::ARRAY && second.id
                        == TokId::ARRAY)) {
                        false
                    } else {
                        e == InterpError::TypeMismatch
                    }
                },
            }
        }),
{
    let ghost s0 = arr_view(old(stack)@);
    let ghost n = s0.len() as int;
    let (first, second) = pop2(stack)?;
    proof {
        assert(first@ == s0[n - 2] && second@ == s0[n - 1]);
        assert(arr_view(stack@) =~= s0.subrange(0, n - 2));
        assert(obj_wf(first@) && obj_wf(second@));
    }
    if first.id == TokId::INT && second.id == TokId::INT {
        let at = cast2string(&first.rep)?;
        let a = cast2int(at);
        let bt = cast2string(&second.rep)?;
        let b = cast2int(bt);
        let v: i64;
        if op == TokId::PLUS {
            v = a as i64 + b as i64;
        } else if op == TokId::MINUS {
            v = a as i64 - b as i64;
        } else if op == TokId::MULTIPLY {
            proof {
                assert(-0x4000_0000_0000_0000_i64 <= (a as i64) * (b as i64)
                    <= 0x4000_0000_0000_0000_i64) by (nonlinear_arith)
                    requires
                        -0x8000_0000_i64 <= a as i64 <= 0x7fff_ffff_i64,
                        -0x8000_0000_i64 <= b as i64 <= 0x7fff_ffff_i64,
                ;
            }
            v = a as i64 * b as i64;
        } else {
            if b == 0 {
                return Err(InterpError::Arith);
            }
            v = div_mod_i32(a, b, op == TokId::MOD);
        }
        if v < -0x8000_0000_i64 || v > 0x7fff_ffff_i64 {
            return Err(InterpError::Arith);
        }
        let text = crate::numbers::i32_to_text(v as i32);
        proof {
            lemma_int_text_roundtrip(v as int);
        }
        stack.push(Object { id: TokId::INT, rep: Value::STR(text) });
        proof {
            assert(arr_view(stack@) =~= s0.subrange(0, n - 2).push(
                int_obj(int_op_val(op, int_of(first@), int_of(second@))),
            ));
        }
        Ok(())
    } else if (first.id == TokId::INT || first.id == TokId::FLOAT) && (second.id == TokId::INT
        || second.id == TokId::FLOAT) {
        let at = cast2string(&first.rep)?;
        let bt = cast2string(&second.rep)?;
        let text: String;
        if op == TokId::PLUS {
            text = fops.float_add(at.as_str(), bt.as_str());
        } else if op == TokId::MINUS {
            text = fops.float_sub(at.as_str(), bt.as_str());
        } else if op == TokId::MULTIPLY {
            text = fops.float_mul(at.as_str(), bt.as_str());
        } else if op == TokId::DIVIDE {
            text = fops.float_div(at.as_str(), bt.as_str());
        } else {
            text = fops.float_rem(at.as_str(), bt.as_str());
        }
        stack.push(Object { id: TokId::FLOAT, rep: Value::STR(text) });
        proof {
            assert(arr_view(stack@).subrange(0, n - 2) =~= s0.subrange(0, n - 2));
        }
        Ok(())
    } else if op == TokId::PLUS && first.id == TokId::STRING && second.id == TokId::STRING {
        let a = cast2str(first.rep)?;
        let bt = cast2string(&second.rep)?;
        let joined = a.concat(bt.as_str());
        stack.push(Object { id: TokId::STRING, rep: Value::STR(joined) });
        proof {
            assert(arr_view(stack@) =~= s0.subrange(0, n - 2).push(
                ObjV {
                    id: TokId::STRING,
                    rep: ValV::Str(s0[n - 2].rep->Str_0 + s0[n - 1].rep->Str_0),
                },
            ));
        }
        Ok(())
    } else if op == TokId::PLUS && first.id == TokId::ARRAY && second.id == TokId::ARRAY {
        let mut items = match first.rep {
            Value::ARR(v) => v,
            Value::STR(_) => {
                proof {
                    assert(false);
                }
                Vec::new()
            },
        };
        let mut more = match second.rep {
            Value::ARR(v) => v,
            Value::STR(_) => {
                proof {
                    assert(false);
                }
                Vec::new()
            },
        };
        let ghost items0 = items@;
        let ghost more0 = more@;
        items.append(&mut more);
        let joined = Object { id: TokId::ARRAY, rep: Value::ARR(items) };
        proof {
            assert(arr_view(items0 + more0) =~= arr_view(items0) + arr_view(more0)) by {
                lemma_arr_view_concat(items0, more0);
            }
            assert(joined@ == ObjV {
                id: TokId::ARRAY,
                rep: ValV::Arr(s0[n - 2].rep->Arr_0 + s0[n - 1].rep->Arr_0),
            });
            assert(obj_wf(joined@)) by {
                assert(forall|k: int|
                    0 <= k < s0[n - 2].rep->Arr_0.len() ==> obj_wf(
                        #[trigger] s0[n - 2].rep->Arr_0[k],
                    ));
                assert(forall|k: int|
                    0 <= k < s0[n - 1].rep->Arr_0.len() ==> obj_wf(
                        #[trigger] s0[n - 1].rep->Arr_0[k],
                    ));
            }
        }
        stack.push(joined);
        proof {
            assert(arr_view(stack@) =~= s0.subrange(0, n - 2).push(
                ObjV {
                    id: TokId::ARRAY,
                    rep: ValV::Arr(s0[n - 2].rep->Arr_0 + s0[n - 1].rep->Arr_0),
                },
            ));
        }
        Ok(())
    } else {
        Err(InterpError::TypeMismatch)
    }
}

/// A comparison token.
pub open spec fn is_cmp_op(op: TokId) -> bool {
    op == TokId::BIGGER || op == TokId::SMALLER || op == TokId::BIGGEREQUALS || op
        == TokId::SMALLEREQUALS
}

/// The truth of a comparison token on two integers.
pub open spec fn cmp_val(op: TokId, a: int, b: int) -> bool {
    if op == TokId::BIGGER {
        a > b
    } else if op == TokId::SMALLER {
        a < b
    } else if op == TokId::BIGGEREQUALS {
        a >= b
    } else {
        a <= b
    }
}

/// Pops two operands and applies a comparison token: two integers compare
/// exactly; a numeric pair with a float is compared by the host and some
/// boolean is pushed; a numeric first operand against a non-numeric second
/// yields false; a non-numeric first operand is a type fault.
pub fn do_compare<F: FloatArith>(op: TokId, stack: &mut Vec<Object>, fops: &F) -> (r: Result<
    (),
    InterpError,
>)
    requires
        is_cmp_op(op),
        all_wf(arr_view(old(stack)@)),
    ensures
        all_wf(arr_view(final(stack)@)),
        ({
            let s0 = arr_view(old(stack)@);
            let n = s0.len() as int;
            let s1 = arr_view(final(stack)@);
            match r {
                Ok(()) => n >= 2 && {
                    let first = s0[n - 2];
                    let second = s0[n - 1];
                    let base = s0.subrange(0, n - 2);
                    if first.id == TokId::INT && second.id == TokId::INT {
                        s1 == base.push(bool_obj(cmp_val(op, int_of(first), int_of(second))))
                    } else if num_id(first) && num_id(second) {
                        &&& s1.len() == n - 1
                        &&& s1.subrange(0, n - 2) == base
                        &&& (s1.last() == bool_obj(true) || s1.last() == bool_obj(false))
                    } else if num_id(first) {
                        s1 == base.push(bool_obj(false))
                    } else {
                        false
                    }
                },
                Err(e) => if n < 2 {
                    e == InterpError::Underflow
                } else {
                    !num_id(s0[n - 2]) && e == InterpError::TypeMismatch
                },
            }
        }),
{
    let ghost s0 = arr_view(old(stack)@);
    let ghost n = s0.len() as int;
    let (first, second) = pop2(stack)?;
    proof {
        assert(first@ == s0[n - 2] && second@ == s0[n - 1]);
        assert(arr_view(stack@) =~= s0.subrange(0, n - 2));
        assert(obj_wf(first@) && obj_wf(second@));
    }
    if first.id != TokId::INT && first.id != TokId::FLOAT {
        return Err(InterpError::TypeMismatch);
    }
    let b: bool;
    if first.id == TokId::INT && second.id == TokId::INT {
        let at = cast2string(&first.rep)?;
        let a = cast2int(at);
        let bt = cast2string(&second.rep)?;
        let bv = cast2int(bt);
        if op == TokId::BIGGER {
            b = a > bv;
        } else if op == TokId::SMALLER {
            b = a < bv;
        } else if op == TokId::BIGGEREQUALS {
            b = a >= bv;
        } else {
            b = a <= bv;
        }
    } else if second.id == TokId::INT || second.id == TokId::FLOAT {
        let at = cast2string(&first.rep)?;
        let bt = cast2string(&second.rep)?;
        if op == TokId::BIGGER {
            b = fops.float_gt(at.as_str(), bt.as_str());
        } else if op == TokId::SMALLER {
            b = fops.float_lt(at.as_str(), bt.as_str());
        } else if op == TokId::BIGGEREQUALS {
            b = fops.float_ge(at.as_str(), bt.as_str());
        } else {
            b = fops.float_le(at.as_str(), bt.as_str());
        }
    } else {
        b = false;
    }
    stack.push(make_bool(b));
    proof {
        assert(arr_view(stack@) =~= s0.subrange(0, n - 2).push(bool_obj(b)));
        assert(arr_view(stack@).subrange(0, n - 2) =~= s0.subrange(0, n - 2));
    }
    Ok(())
}

/// The floor of the square root of a non-negative integer, zero for a
/// negative one.
pub open spec fn int_sqrt(x: int) -> int {
    if x < 0 {
        0
    } else {
        choose|r: int| 0 <= r && #[trigger] (r * r) <= x < (r + 1) * (r + 1)
    }
}

/// Pops one operand and takes its square root: an integer gives the exact
/// floor of the root (zero for a negative); a float is computed by the
/// host; anything else is a type fault.
pub fn do_sqrt<F: FloatArith>(stack: &mut Vec<Object>, fops: &F) -> (r: Result<(), InterpError>)
    requires
        all_wf(arr_view(old(stack)@)),
    ensures
        all_wf(arr_view(final(stack)@)),
        ({
            let s0 = arr_view(old(stack)@);
            let n = s0.len() as int;
            let s1 = arr_view(final(stack)@);
            match r {
                Ok(()) => n >= 1 && {
                    let top = s0[n - 1];
                    let base = s0.subrange(0, n - 1);
                    if top.id == TokId::INT {
                        s1 == base.push(int_obj(int_sqrt(int_of(top))))
                    } else if top.id == TokId::FLOAT {
                        &&& s1.len() == n
                        &&& s1.subrange(0, n - 1) == base
                        &&& some_float(s1.last())
                    } else {
                        false
                    }
                },
                Err(e) => if n < 1 {
                    e == InterpError::Underflow
                } else {
                    !num_id(s0[n - 1]) && e == InterpError::TypeMismatch
                },
            }
        }),
{
    let ghost s0 = arr_view(old(stack)@);
    let ghost n = s0.len() as int;
    let item = match stack.pop() {
        Some(v) => v,
        None => {
            return Err(InterpError::Underflow);
        },
    };
    proof {
        assert(item@ == s0[n - 1]);
        assert(arr_view(stack@) =~= s0.subrange(0, n - 1));
        assert(obj_wf(item@));
    }
    if item.id == TokId::INT {
        let t = cast2string(&item.rep)?;
        let x = cast2int(t);
        let root = crate::numbers::int_sqrt_i32(x);
        proof {
            let rr = root as int;
            let xx = x as int;
            if xx >= 0 {
                assert(0 <= rr && rr * rr <= xx < (rr + 1) * (rr + 1));
                assert(exists|r: int| 0 <= r && #[trigger] (r * r) <= xx < (r + 1) * (r + 1));
                let c = choose|r: int| 0 <= r && #[trigger] (r * r) <= xx < (r + 1) * (r + 1);
                lemma_sqrt_unique(xx, rr, c);
                assert(int_sqrt(xx) == rr);
            } else {
                assert(int_sqrt(xx) == 0);
            }
            lemma_int_text_roundtrip(int_sqrt(xx));
        }
        let text = crate::numbers::i32_to_text(root);
        stack.push(Object { id: TokId::INT, rep: Value::STR(text) });
        proof {
            assert(arr_view(stack@) =~= s0.subrange(0, n - 1).push(int_obj(int_sqrt(int_of(
                item@,
            )))));
        }
        Ok(())
    } else if item.id == TokId::FLOAT {
        let t = cast2string(&item.rep)?;
        let text = fops.float_sqrt(t.as_str());
        stack.push(Object { id: TokId::FLOAT, rep: Value::STR(text) });
        proof {
            assert(arr_view(stack@).subrange(0, n - 1) =~= s0.subrange(0, n - 1));
        }
        Ok(())
    } else {
        Err(InterpError::TypeMismatch)
    }
}

/// Two non-negative integers whose squares bracket the same value are
/// equal.
proof fn lemma_sqrt_unique(x: int, a: int, b: int)
    requires
        0 <= a && a * a <= x < (a + 1) * (a + 1),
        0 <= b && b * b <= x < (b + 1) * (b + 1),
    ensures
        a == b,
{
    assert(a == b) by (nonlinear_arith)
        requires
            0 <= a && a * a <= x < (a + 1) * (a + 1),
            0 <= b && b * b <= x < (b + 1) * (b + 1),
    ;
}

/// A kind a value of which may enter an array.
pub open spec fn base_kind(id: TokId) -> bool {
    id == TokId::INT || id == TokId::FLOAT || id == TokId::BOOLEAN || id == TokId::ARRAY || id
        == TokId::STRING
}

/// Pops two operands, of which one must be an array and the other of a
/// base kind, and pushes the array with the other value appended — the
/// top-of-stack side is preferred as the array.
pub fn bi_push(stack: &mut Vec<Object>) -> (r: Result<(), InterpError>)
    requires
        all_wf(arr_view(old(stack)@)),
    ensures
        all_wf(arr_view(final(stack)@)),
        ({
            let s0 = arr_view(old(stack)@);
            let n = s0.len() as int;
            let s1 = arr_view(final(stack)@);
            match r {
                Ok(()) => n >= 2 && {
                    let first = s0[n - 2];
                    let second = s0[n - 1];
                    let base = s0.subrange(0, n - 2);
                    if first.id == TokId::ARRAY && base_kind(second.id) {
                        s1 == base.push(
                            ObjV { id: TokId::ARRAY, rep: ValV::Arr(first.rep->Arr_0.push(second)) },
                        )
                    } else if second.id == TokId::ARRAY && base_kind(first.id) {
                        s1 == base.push(
                            ObjV { id: TokId::ARRAY, rep: ValV::Arr(second.rep->Arr_0.push(first)) },
                        )
                    } else {
                        false
                    }
                },
                Err(e) => if n < 2 {
                    e == InterpError::Underflow
                } else {
                    let first = s0[n - 2];
                    let second = s0[n - 1];
                    &&& e == InterpError::TypeMismatch
                    &&& !(first.id == TokId::ARRAY && base_kind(second.id))
                    &&& !(second.id == TokId::ARRAY && base_kind(first.id))
                },
            }
        }),
{
    let ghost s0 = arr_view(old(stack)@);
    let ghost n = s0.len() as int;
    let (first, second) = pop2(stack)?;
    proof {
        assert(first@ == s0[n - 2] && second@ == s0[n - 1]);
        assert(arr_view(stack@) =~= s0.subrange(0, n - 2));
        assert(obj_wf(first@) && obj_wf(second@));
    }
    let first_is_arr = first.id == TokId::ARRAY;
    let second_base = second.id == TokId::INT || second.id == TokId::FLOAT || second.id
        == TokId::BOOLEAN || second.id == TokId::ARRAY || second.id == TokId::STRING;
    if first_is_arr && second_base {
        let ghost fview = first@;
        let mut items = match first.rep {
            Value::ARR(v) => {
                proof {
                    assert(fview.rep->Arr_0 == arr_view(v@));
                }
                v
            },
            Value::STR(_) => {
                proof {
                    assert(false);
                }
                Vec::new()
            },
        };
        let ghost items0 = items@;
        let ghost sv = second@;
        let ghost s_obj = second;
        items.push(second);
        let built = Object { id: TokId::ARRAY, rep: Value::ARR(items) };
        proof {
            lemma_arr_view_push(items0, s_obj);
            assert(items@ == items0.push(s_obj));
            assert(arr_view(items@) == arr_view(items0).push(sv));
            assert(built@ == ObjV { id: TokId::ARRAY, rep: ValV::Arr(s0[n - 2].rep->Arr_0.push(sv)) });
            assert(obj_wf(built@)) by {
                let inner = s0[n - 2].rep->Arr_0.push(sv);
                assert(forall|k: int|
                    0 <= k < inner.len() - 1 ==> #[trigger] inner[k] == s0[n - 2].rep->Arr_0[k]);
            }
        }
        stack.push(built);
        proof {
            assert(arr_view(stack@) =~= s0.subrange(0, n - 2).push(
                ObjV { id: TokId::ARRAY, rep: ValV::Arr(s0[n - 2].rep->Arr_0.push(sv)) },
            ));
        }
        Ok(())
    } else {
        let second_is_arr = second.id == TokId::ARRAY;
        let first_base = first.id == TokId::INT || first.id == TokId::FLOAT || first.id
            == TokId::BOOLEAN || first.id == TokId::ARRAY || first.id == TokId::STRING;
        if second_is_arr && first_base {
            let ghost sview = second@;
            let mut items = match second.rep {
                Value::ARR(v) => {
                    proof {
                        assert(sview.rep->Arr_0 == arr_view(v@));
                    }
                    v
                },
                Value::STR(_) => {
                    proof {
                        assert(false);
                    }
                    Vec::new()
                },
            };
            let ghost items0 = items@;
            let ghost fv = first@;
            let ghost f_obj = first;
            items.push(first);
            let built = Object { id: TokId::ARRAY, rep: Value::ARR(items) };
            proof {
                lemma_arr_view_push(items0, f_obj);
                assert(items@ == items0.push(f_obj));
                assert(arr_view(items@) == arr_view(items0).push(fv));
                assert(built@ == ObjV {
                    id: TokId::ARRAY,
                    rep: ValV::Arr(s0[n - 1].rep->Arr_0.push(fv)),
                });
                assert(obj_wf(built@)) by {
                    let inner = s0[n - 1].rep->Arr_0.push(fv);
                    assert(forall|k: int|
                        0 <= k < inner.len() - 1 ==> #[trigger] inner[k] == s0[n
                            - 1].rep->Arr_0[k]);
                }
            }
            stack.push(built);
            proof {
                assert(arr_view(stack@) =~= s0.subrange(0, n - 2).push(
                    ObjV { id: TokId::ARRAY, rep: ValV::Arr(s0[n - 1].rep->Arr_0.push(fv)) },
                ));
            }
            Ok(())
        } else {
            Err(InterpError::TypeMismatch)
        }
    }
}

/// Pops one operand; an array loses its last element, which is pushed back
/// on top of the shortened array; an empty array or a non-array is simply
/// consumed.
pub fn bi_pop(stack: &mut Vec<Object>) -> (r: Result<(), InterpError>)
    requires
        all_wf(arr_view(old(stack)@)),
    ensures
        all_wf(arr_view(final(stack)@)),
        ({
            let s0 = arr_view(old(stack)@);
            let n = s0.len() as int;
            let s1 = arr_view(final(stack)@);
            match r {
                Ok(()) => n >= 1 && {
                    let top = s0[n - 1];
                    let base = s0.subrange(0, n - 1);
                    if top.id == TokId::ARRAY && top.rep->Arr_0.len() > 0 {
                        s1 == base.push(
                            ObjV { id: TokId::ARRAY, rep: ValV::Arr(top.rep->Arr_0.drop_last()) },
                        ).push(top.rep->Arr_0.last())
                    } else {
                        s1 == base
                    }
                },
                Err(e) => n < 1 && e == InterpError::Underflow,
            }
        }),
{
    let ghost s0 = arr_view(old(stack)@);
    let ghost n = s0.len() as int;
    let item = match stack.pop() {
        Some(v) => v,
        None => {
            return Err(InterpError::Underflow);
        },
    };
    proof {
        assert(item@ == s0[n - 1]);
        assert(arr_view(stack@) =~= s0.subrange(0, n - 1));
        assert(obj_wf(item@));
    }
    if item.id == TokId::ARRAY {
        let mut items = match item.rep {
            Value::ARR(v) => v,
            Value::STR(_) => {
                proof {
                    assert(false);
                }
                Vec::new()
            },
        };
        let ghost items0 = items@;
        match items.pop() {
            Some(last) => {
                let shorter = Object { id: TokId::ARRAY, rep: Value::ARR(items) };
                proof {
                    assert(arr_view(items0.subrange(0, items0.len() - 1)) =~= arr_view(
                        items0,
                    ).drop_last());
                    assert(shorter@ == ObjV {
                        id: TokId::ARRAY,
                        rep: ValV::Arr(s0[n - 1].rep->Arr_0.drop_last()),
                    });
                    assert(obj_wf(shorter@)) by {
                        let inner = s0[n - 1].rep->Arr_0;
                        assert(forall|k: int|
                            0 <= k < inner.len() - 1 ==> #[trigger] inner.drop_last()[k]
                                == inner[k]);
                    }
                    assert(last@ == s0[n - 1].rep->Arr_0.last());
                }
                stack.push(shorter);
                stack.push(last);
                proof {
                    assert(arr_view(stack@) =~= s0.subrange(0, n - 1).push(
                        ObjV { id: TokId::ARRAY, rep: ValV::Arr(s0[n - 1].rep->Arr_0.drop_last()) },
                    ).push(s0[n - 1].rep->Arr_0.last()));
                }
            },
            None => {
                proof {
                    assert(arr_view(stack@) =~= s0.subrange(0, n - 1));
                }
            },
        }
    }
    Ok(())
}

/// The printed form of one array element: strings are double-quoted,
/// nested arrays recurse, everything else prints its text; each is
/// followed by one space.
pub open spec fn elem_text(o: ObjV) -> Seq<char>
    decreases o,
{
    match o.rep {
        ValV::Str(s) => if o.id == TokId::STRING {
            "\""@ + s + "\" "@
        } else {
            s + " "@
        },
        ValV::Arr(items) => ("[ "@ + elems_text(items) + "]"@) + " "@,
    }
}

/// The printed forms of a sequence of array elements, in order.
pub open spec fn elems_text(items: Seq<ObjV>) -> Seq<char>
    decreases items,
{
    if items.len() == 0 {
        Seq::empty()
    } else {
        elem_text(items.first()) + elems_text(items.drop_first())
    }
}

/// The printed form of an array: `[ `, the elements, `]`.
pub open spec fn array_text(items: Seq<ObjV>) -> Seq<char> {
    "[ "@ + elems_text(items) + "]"@
}

proof fn lemma_elems_text_push(items: Seq<ObjV>, o: ObjV)
    ensures
        elems_text(items.push(o)) == elems_text(items) + elem_text(o),
    decreases items.len(),
{
    if items.len() == 0 {
        assert(items.push(o).first() == o);
        assert(items.push(o).drop_first() =~= items);
        assert(elems_text(items) == Seq::<char>::empty());
        assert(elems_text(items.push(o)) == elem_text(o) + elems_text(items));
        assert(elem_text(o) + Seq::<char>::empty() =~= Seq::<char>::empty() + elem_text(o));
    } else {
        assert(items.push(o).first() == items.first());
        assert(items.push(o).drop_first() =~= items.drop_first().push(o));
        lemma_elems_text_push(items.drop_first(), o);
        assert(elem_text(items.first()) + (elems_text(items.drop_first()) + elem_text(o))
            =~= (elem_text(items.first()) + elems_text(items.drop_first())) + elem_text(o));
    }
}

/// Renders an array as text.
pub fn array2string(arr: Vec<Object>) -> (s: String)
    ensures
        s@ == array_text(arr_view(arr@)),
{
    array_render(&arr)
}

/// Renders an array as text, element by element, recursing into nested
/// arrays.
fn array_render(arr: &Vec<Object>) -> (s: String)
    ensures
        s@ == array_text(arr_view(arr@)),
    decreases arr,
{
    let mut s = String::from_str("[ ");
    proof {
        reveal_strlit("[ ");
        assert(arr_view(arr@).subrange(0, 0) =~= Seq::<ObjV>::empty());
        assert(s@ =~= "[ "@ + elems_text(arr_view(arr@).subrange(0, 0)));
    }
    let mut i: usize = 0;
    while i < arr.len()
        invariant
            i <= arr@.len(),
            s@ == "[ "@ + elems_text(arr_view(arr@).subrange(0, i as int)),
        decreases arr@.len() - i,
    {
        proof {
            assert(arr_view(arr@).subrange(0, i + 1 as int) =~= arr_view(arr@).subrange(
                0,
                i as int,
            ).push(arr_view(arr@)[i as int]));
            lemma_elems_text_push(arr_view(arr@).subrange(0, i as int), arr_view(arr@)[i as int]);
        }
        let item = &arr[i];
        match &item.rep {
            Value::STR(text) => {
                if item.id == TokId::STRING {
                    let mut piece = String::from_str("\"");
                    piece.append(text.as_str());
                    piece.append("\" ");
                    s.append(piece.as_str());
                    proof {
                        reveal_strlit("\"");
                        reveal_strlit("\" ");
                        assert(s@ =~= "[ "@ + elems_text(arr_view(arr@).subrange(0, i + 1 as int)));
                    }
                } else {
                    s.append(text.as_str());
                    s.append(" ");
                    proof {
                        reveal_strlit(" ");
                        assert(s@ =~= "[ "@ + elems_text(arr_view(arr@).subrange(0, i + 1 as int)));
                    }
                }
            },
            Value::ARR(inner) => {
                proof {
                    assert(decreases_to!(*arr => arr@));
                    assert(decreases_to!(arr@ => arr@[i as int]));
                    assert(*inner == arr@[i as int].rep->ARR_0);
                }
                let piece = array_render(inner);
                s.append(piece.as_str());
                s.append(" ");
                proof {
                    reveal_strlit(" ");
                    assert(arr_view(arr@)[i as int].rep == ValV::Arr(arr_view(inner@)));
                    assert(s@ =~= "[ "@ + elems_text(arr_view(arr@).subrange(0, i + 1 as int)));
                }
            },
        }
        i = i + 1;
    }
    proof {
        assert(arr_view(arr@).subrange(0, arr@.len() as int) =~= arr_view(arr@));
    }
    s.append("]");
    proof {
        reveal_strlit("]");
        assert(s@ =~= array_text(arr_view(arr@)));
    }
    s
}

/// The printed form of a value: its text, or its array rendering.
pub open spec fn display_text(o: ObjV) -> Seq<char> {
    match o.rep {
        ValV::Str(s) => s,
        ValV::Arr(items) => array_text(items),
    }
}

/// A kind `print` accepts.
pub open spec fn printable(id: TokId) -> bool {
    id == TokId::STRING || id == TokId::INT || id == TokId::FLOAT || id == TokId::BOOLEAN || id
        == TokId::ARRAY
}

/// Pops one operand and emits its printed form as one output line:
/// primitives print their text verbatim, arrays their rendering; any other
/// kind is a type fault.
pub fn do_print(stack: &mut Vec<Object>, out: &mut Vec<String>) -> (r: Result<(), InterpError>)
    requires
        all_wf(arr_view(old(stack)@)),
    ensures
        all_wf(arr_view(final(stack)@)),
        ({
            let s0 = arr_view(old(stack)@);
            let n = s0.len() as int;
            match r {
                Ok(()) => n >= 1 && printable(s0[n - 1].id) && arr_view(final(stack)@) == s0.drop_last()
                    && final(out)@.len() == old(out)@.len() + 1 && final(out)@.subrange(
                    0,
                    old(out)@.len() as int,
                ) == old(out)@ && final(out)@.last()@ == display_text(s0[n - 1]),
                Err(e) => final(out)@ == old(out)@ && if n < 1 {
                    e == InterpError::Underflow
                } else {
                    !printable(s0[n - 1].id) && e == InterpError::TypeMismatch
                },
            }
        }),
{
    let ghost s0 = arr_view(old(stack)@);
    let ghost n = s0.len() as int;
    let value = match stack.pop() {
        Some(v) => v,
        None => {
            return Err(InterpError::Underflow);
        },
    };
    proof {
        assert(value@ == s0[n - 1]);
        assert(arr_view(stack@) =~= s0.drop_last());
        assert(obj_wf(value@));
    }
    if value.id == TokId::STRING || value.id == TokId::INT || value.id == TokId::FLOAT || value.id
        == TokId::BOOLEAN {
        let text = cast2str(value.rep)?;
        out.push(text);
        proof {
            assert(final(out)@.subrange(0, old(out)@.len() as int) =~= old(out)@);
        }
        Ok(())
    } else if value.id == TokId::ARRAY {
        let ghost vv = value@;
        let items = match value.rep {
            Value::ARR(v) => {
                proof {
                    assert(vv.rep->Arr_0 == arr_view(v@));
                }
                v
            },
            Value::STR(_) => {
                proof {
                    assert(false);
                }
                Vec::new()
            },
        };
        let text = array2string(items);
        out.push(text);
        proof {
            assert(final(out)@.subrange(0, old(out)@.len() as int) =~= old(out)@);
        }
        Ok(())
    } else {
        Err(InterpError::TypeMismatch)
    }
}

/// Pops two operands; structurally unequal ones emit one line naming both
/// printed forms, quoted, and stop the run as a failed assertion.
pub fn do_assert(stack: &mut Vec<Object>, out: &mut Vec<String>) -> (r: Result<(), Stop>)
    requires
        all_wf(arr_view(old(stack)@)),
    ensures
        all_wf(arr_view(final(stack)@)),
        ({
            let s0 = arr_view(old(stack)@);
            let n = s0.len() as int;
            match r {
                Ok(()) => n >= 2 && s0[n - 2] == s0[n - 1] && arr_view(final(stack)@)
                    == s0.subrange(0, n - 2) && final(out)@ == old(out)@,
                Err(stop) => if n < 2 {
                    stop == Stop::Fail(InterpError::Underflow) && final(out)@ == old(out)@
                } else {
                    &&& s0[n - 2] != s0[n - 1]
                    &&& stop == Stop::Assert
                    &&& final(out)@.len() == old(out)@.len() + 1
                    &&& final(out)@.subrange(0, old(out)@.len() as int) == old(out)@
                    &&& final(out)@.last()@ == "\""@ + display_text(s0[n - 2]) + "\" != \""@
                        + display_text(s0[n - 1]) + "\""@
                },
            }
        }),
{
    let ghost s0 = arr_view(old(stack)@);
    let ghost n = s0.len() as int;
    let (first, second) = match pop2(stack) {
        Ok(p) => p,
        Err(e) => {
            return Err(Stop::Fail(e));
        },
    };
    proof {
        assert(first@ == s0[n - 2] && second@ == s0[n - 1]);
        assert(arr_view(stack@) =~= s0.subrange(0, n - 2));
        assert(obj_wf(first@) && obj_wf(second@));
    }
    if first.equal(&second) {
        return Ok(());
    }
    let mut line = String::from_str("\"");
    line.append(display_string(&first).as_str());
    line.append("\" != \"");
    line.append(display_string(&second).as_str());
    line.append("\"");
    proof {
        reveal_strlit("\"");
        reveal_strlit("\" != \"");
        assert(line@ =~= "\""@ + display_text(s0[n - 2]) + "\" != \""@ + display_text(s0[n - 1])
            + "\""@);
    }
    out.push(line);
    proof {
        assert(final(out)@.subrange(0, old(out)@.len() as int) =~= old(out)@);
    }
    Err(Stop::Assert)
}

/// The printed form of a value, as `assert` quotes it.
fn display_string(o: &Object) -> (s: String)
    ensures
        s@ == display_text(o@),
{
    match &o.rep {
        Value::STR(text) => text.clone(),
        Value::ARR(items) => array_render(items),
    }
}

/// Concatenating object sequences concatenates their views.
proof fn lemma_arr_view_concat(a: Seq<Object>, b: Seq<Object>)
    ensures
        arr_view(a + b) =~= arr_view(a) + arr_view(b),
    decreases b.len(),
{
    if b.len() == 0 {
        assert(a + b =~= a);
        assert(arr_view(a) + arr_view(b) =~= arr_view(a));
    } else {
        lemma_arr_view_concat(a, b.drop_last());
        assert(a + b =~= (a + b.drop_last()).push(b.last()));
        assert(arr_view(a) + arr_view(b) =~= (arr_view(a) + arr_view(b.drop_last())).push(
            crate::head::obj_view(b.last()),
        ));
    }
}

} // verus!
