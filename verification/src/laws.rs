//! The language's general laws, stated over the same spec functions the
//! operations' contracts use, and proved once and for all: the stack
//! shuffles compose as advertised, structural equality behaves as an
//! equality, the type guard decides exactly the kind mapping, integer
//! division truncates, and the tiered scope rule gives block-scoped,
//! function-scoped and global names their advertised lifetimes.

use vstd::prelude::*;

use crate::env::{assign_model, block_resolve, blocks_contain, resolve};
use crate::head::{obj_equal, ObjV, TokId};
use crate::ops::{abs_i, bool_obj, guard_match, rotated, swapped, t_div, t_mod};

verus! {

/// Two `swap`s in a row leave the top two operands as they were, one
/// `drop` shortens the stack by exactly one, and `copy` duplicates the
/// top without removing it.
pub proof fn lemma_shuffles(s: Seq<ObjV>)
    requires
        s.len() >= 2,
    ensures
        swapped(swapped(s)) == s,
        s.drop_last().len() == s.len() - 1,
        s.push(s.last()).len() == s.len() + 1 && s.push(s.last()).last() == s.last() && s.push(
            s.last(),
        ).drop_last() == s,
{
    assert(swapped(swapped(s)) =~= s);
    assert(s.push(s.last()).drop_last() =~= s);
}

/// `rot` exchanges the two topmost operands above the third, so it is an
/// involution: two `rot`s restore the stack, and a third `rot` has the
/// same effect as a single one.
pub proof fn lemma_rot_involution(s: Seq<ObjV>)
    requires
        s.len() >= 3,
    ensures
        rotated(rotated(s)) == s,
        rotated(rotated(rotated(s))) == rotated(s),
{
    assert(rotated(rotated(s)) =~= s);
}

/// Structural equality, which the `==` token and the `assert` built-in
/// decide, is an equality: every value equals itself, and two distinct
/// values never compare equal — so `v v ==` always pushes `true` and
/// `v w ==` for different values pushes `false`.
pub proof fn lemma_structural_equality(v: ObjV, w: ObjV)
    ensures
        obj_equal(v, v),
        v != w ==> !obj_equal(v, w),
        bool_obj(obj_equal(v, v)) == bool_obj(true),
        v != w ==> bool_obj(obj_equal(v, w)) == bool_obj(false),
{
}

/// The type guard decides exactly the kind mapping: `v T is` is true for
/// precisely the four pairs of a value kind and its type keyword.
pub proof fn lemma_type_guard(v: ObjV, tag: ObjV)
    ensures
        guard_match(v, tag) <==> ((v.id == TokId::INT && tag.id == TokId::TINT) || (v.id
            == TokId::FLOAT && tag.id == TokId::TFLOAT) || (v.id == TokId::BOOLEAN && tag.id
            == TokId::TBOOL) || (v.id == TokId::STRING && tag.id == TokId::TSTRING)),
        guard_match(v, tag) && tag.id == TokId::TINT ==> v.id == TokId::INT,
        guard_match(v, tag) && tag.id == TokId::TFLOAT ==> v.id == TokId::FLOAT,
        guard_match(v, tag) && tag.id == TokId::TSTRING ==> v.id == TokId::STRING,
        guard_match(v, tag) && tag.id == TokId::TBOOL ==> v.id == TokId::BOOLEAN,
{
}

/// Integer division and remainder, as the arithmetic tokens compute them
/// on two integer operands, truncate toward zero: quotient times divisor
/// plus remainder gives back the dividend, the remainder is smaller in
/// magnitude than the divisor and carries the dividend's sign, and the
/// quotient's magnitude is the floor of the magnitudes' quotient.
pub proof fn lemma_truncating_division(a: int, b: int)
    requires
        b != 0,
    ensures
        t_div(a, b) * b + t_mod(a, b) == a,
        abs_i(t_mod(a, b)) < abs_i(b),
        a >= 0 ==> t_mod(a, b) >= 0,
        a <= 0 ==> t_mod(a, b) <= 0,
        abs_i(t_div(a, b)) == abs_i(a) / abs_i(b),
{
    let ua = abs_i(a);
    let ub = abs_i(b);
    let q = ua / ub;
    let m = ua % ub;
    assert(ub > 0);
    assert(q * ub + m == ua && 0 <= m < ub && q >= 0) by (nonlinear_arith)
        requires
            ub > 0,
            ua >= 0,
            q == ua / ub,
            m == ua % ub,
    ;
    if a >= 0 && b > 0 {
        assert(t_div(a, b) == q && t_mod(a, b) == m && ua == a && ub == b);
    } else if a >= 0 && b < 0 {
        assert(t_div(a, b) == -q && t_mod(a, b) == m && ua == a && ub == -b);
        assert((-q) * b == q * ub) by (nonlinear_arith)
            requires
                b == -ub,
        ;
    } else if a < 0 && b > 0 {
        assert(t_div(a, b) == -q && t_mod(a, b) == -m && ua == -a && ub == b);
        assert((-q) * b == -(q * ub)) by (nonlinear_arith)
            requires
                b == ub,
        ;
    } else {
        assert(t_div(a, b) == q && t_mod(a, b) == -m && ua == -a && ub == -b);
        assert(q * b == -(q * ub)) by (nonlinear_arith)
            requires
                b == -ub,
        ;
    }
}

/// Scope, first law: a name first assigned inside an open block lands in
/// that innermost block's heap; it resolves there while the block is open,
/// and resolves nowhere once the block's heap is discarded at `end`.
pub proof fn lemma_block_scope(
    blocks: Seq<Map<Seq<char>, ObjV>>,
    live: Map<Seq<char>, ObjV>,
    global: Map<Seq<char>, ObjV>,
    name: Seq<char>,
    v: ObjV,
)
    requires
        blocks.len() > 0,
        !global.contains_key(name),
        !live.contains_key(name),
        !blocks_contain(blocks, name),
    ensures
        ({
            let (b2, l2, g2) = assign_model(blocks, live, global, false, name, v);
            &&& resolve(b2, l2, g2, name) == Some(v)
            &&& resolve(b2.drop_last(), l2, g2, name) is None
        }),
{
    let (b2, l2, g2) = assign_model(blocks, live, global, false, name, v);
    assert(b2 == blocks.update(blocks.len() - 1, blocks.last().insert(name, v)));
    assert(b2.last() == blocks.last().insert(name, v));
    assert(b2.drop_last() =~= blocks.drop_last());
    lemma_block_resolve_absent(blocks.drop_last(), name);
}

/// A name no open block binds resolves in none of them.
proof fn lemma_block_resolve_absent(blocks: Seq<Map<Seq<char>, ObjV>>, name: Seq<char>)
    requires
        !blocks_contain(blocks, name),
    ensures
        block_resolve(blocks, name) is None,
    decreases blocks.len(),
{
    if blocks.len() > 0 {
        assert(!blocks.last().contains_key(name));
        assert(!blocks_contain(blocks.drop_last(), name)) by {
            assert(forall|i: int|
                0 <= i < blocks.drop_last().len() ==> blocks.drop_last()[i] == #[trigger] blocks[i]);
        }
        lemma_block_resolve_absent(blocks.drop_last(), name);
    }
}

/// Scope, second law: a name first assigned at function scope, outside any
/// block, lands in the invocation's own heap and stays visible (also from
/// inside later blocks that do not shadow it) until the invocation ends.
pub proof fn lemma_function_scope(
    later_blocks: Seq<Map<Seq<char>, ObjV>>,
    live: Map<Seq<char>, ObjV>,
    global: Map<Seq<char>, ObjV>,
    name: Seq<char>,
    v: ObjV,
)
    requires
        !global.contains_key(name),
        !blocks_contain(later_blocks, name),
    ensures
        ({
            let (b2, l2, g2) = assign_model(Seq::empty(), live, global, false, name, v);
            &&& l2 == live.insert(name, v)
            &&& g2 == global
            &&& resolve(later_blocks, l2, g2, name) == Some(v)
        }),
{
    lemma_block_resolve_absent(later_blocks, name);
}

/// Scope, third law: a name assigned in the global body lands in the
/// global heap and is visible to every subsequent invocation that does not
/// shadow it.
pub proof fn lemma_global_scope(
    blocks2: Seq<Map<Seq<char>, ObjV>>,
    live2: Map<Seq<char>, ObjV>,
    live0: Map<Seq<char>, ObjV>,
    global: Map<Seq<char>, ObjV>,
    blocks0: Seq<Map<Seq<char>, ObjV>>,
    name: Seq<char>,
    v: ObjV,
)
    requires
        !blocks_contain(blocks2, name),
        !live2.contains_key(name),
    ensures
        ({
            let (b2, l2, g2) = assign_model(blocks0, live0, global, true, name, v);
            &&& g2 == global.insert(name, v)
            &&& resolve(blocks2, live2, g2, name) == Some(v)
        }),
{
    lemma_block_resolve_absent(blocks2, name);
}

/// Numeric promotion at the contract level: on two integer operands every
/// arithmetic token yields an integer, division being exact truncating
/// division; an integer-and-float pair yields a float (its value is the
/// host's, outside these specifications).
pub proof fn lemma_promotion_kinds(a: int, b: int)
    ensures
        crate::ops::int_op_val(TokId::DIVIDE, a, b) == t_div(a, b),
        crate::ops::int_op_val(TokId::PLUS, a, b) == a + b,
        crate::ops::int_obj(a).id == TokId::INT,
{
}

} // verus!
