//! Core data model: token kinds, lexemes, values, objects and functions,
//! together with their mathematical views and the well-formedness
//! invariant that every value the interpreter handles satisfies.

use vstd::prelude::*;

use crate::numbers::is_i32_text;

verus! {

/// The closed set of token kinds. Keyword and symbol kinds are produced by
/// the lexer; `INT`, `FLOAT` and `BOOLEAN` by the parser's literal
/// retagging; `ARRAY` is synthetic (built from a bracketed literal).
#[derive(PartialEq, Eq, Structural, Clone, Copy, Debug)]
pub enum TokId {
    FUNCTION,
    IMPORT,
    END,
    AS,
    RET,
    WHILE,
    DO,
    IF,
    ELSE,
    PLUS,
    MINUS,
    BLOCK,
    LOOP,
    MULTIPLY,
    DIVIDE,
    MOD,
    IS,
    ASSIGNMENT,
    RETURNINGASSIGNMENT,
    EQUALS,
    BIGGER,
    SMALLER,
    BIGGEREQUALS,
    SMALLEREQUALS,
    STRING,
    BOOLEAN,
    INT,
    FLOAT,
    ARRAYBEGIN,
    ARRAYEND,
    ARRAY,
    TINT,
    TFLOAT,
    TSTRING,
    TBOOL,
    TARRAY,
    LINEBREAK,
    UNKNOWN,
}

/// One lexeme: a token kind and the verbatim source snippet it came from.
#[derive(Debug)]
pub struct Lexeme<T> {
    pub id: TokId,
    pub rep: T,
}

/// A runtime value: a tagged primitive carried as text, or an array of
/// objects. The tag lives on the enclosing `Object`.
#[derive(Debug, PartialEq)]
pub enum Value {
    STR(String),
    ARR(Vec<Object>),
}

/// A tagged value: the kind drives dispatch, the payload carries the data.
#[derive(Debug, PartialEq)]
pub struct Object {
    pub id: TokId,
    pub rep: Value,
}

/// A named function: its parameter descriptors in source order and its
/// body, an ordered sequence of objects to execute.
#[derive(Debug)]
pub struct Function {
    pub arguments: Vec<Object>,
    pub stack: Vec<Object>,
}

/// Mathematical view of a `Value`.
pub enum ValV {
    Str(Seq<char>),
    Arr(Seq<ObjV>),
}

/// Mathematical view of an `Object`.
pub struct ObjV {
    pub id: TokId,
    pub rep: ValV,
}

/// Mathematical view of a `Lexeme<String>`.
pub struct LexV {
    pub id: TokId,
    pub rep: Seq<char>,
}

/// Mathematical view of a `Function`.
pub struct FunV {
    pub arguments: Seq<ObjV>,
    pub body: Seq<ObjV>,
}

/// The views of the objects of a sequence, in order.
pub open spec fn arr_view(items: Seq<Object>) -> Seq<ObjV>
    decreases items,
{
    if items.len() == 0 {
        Seq::empty()
    } else {
        arr_view(items.drop_last()).push(obj_view(items.last()))
    }
}

/// The view of a value.
pub open spec fn val_view(v: Value) -> ValV
    decreases v,
    via val_view_dec
{
    match v {
        Value::STR(s) => ValV::Str(s@),
        Value::ARR(items) => ValV::Arr(arr_view(items@)),
    }
}

/// The view of an object.
pub open spec fn obj_view(o: Object) -> ObjV
    decreases o,
{
    ObjV { id: o.id, rep: val_view(o.rep) }
}

#[via_fn]
proof fn val_view_dec(v: Value) {
    match v {
        Value::ARR(items) => {
            assert(decreases_to!(v => items));
            assert(decreases_to!(items => items@));
        },
        _ => {},
    }
}

/// How `arr_view` acts pointwise: it keeps the length and takes the view
/// of each element in place.
pub broadcast proof fn lemma_arr_view(items: Seq<Object>)
    ensures
        (#[trigger] arr_view(items)).len() == items.len(),
        forall|i: int| 0 <= i < items.len() ==> arr_view(items)[i] == obj_view(items[i]),
    decreases items.len(),
{
    if items.len() > 0 {
        lemma_arr_view(items.drop_last());
    }
}

/// An element of a sequence of well-formed objects is well-formed.
pub proof fn lemma_wf_at(s: Seq<Object>, i: int)
    requires
        all_wf(arr_view(s)),
        0 <= i < s.len(),
    ensures
        obj_wf(obj_view(s[i])),
{
    lemma_arr_view(s);
    assert(arr_view(s)[i] == obj_view(s[i]));
    assert(obj_wf(arr_view(s)[i]));
}

/// A contiguous part of a well-formed sequence is well-formed.
pub proof fn lemma_all_wf_sub(s: Seq<ObjV>, i: int, j: int)
    requires
        all_wf(s),
        0 <= i <= j <= s.len(),
    ensures
        all_wf(s.subrange(i, j)),
{
    assert forall|k: int| 0 <= k < s.subrange(i, j).len() implies obj_wf(
        #[trigger] s.subrange(i, j)[k],
    ) by {
        assert(s.subrange(i, j)[k] == s[k + i]);
        assert(obj_wf(s[k + i]));
    }
}

/// Appending a well-formed object keeps a sequence well-formed.
pub proof fn lemma_all_wf_push(s: Seq<ObjV>, o: ObjV)
    requires
        all_wf(s),
        obj_wf(o),
    ensures
        all_wf(s.push(o)),
{
    assert forall|i: int| 0 <= i < s.push(o).len() implies obj_wf(#[trigger] s.push(o)[i]) by {
        if i < s.len() {
            assert(s.push(o)[i] == s[i]);
            assert(obj_wf(s[i]));
        } else {
            assert(s.push(o)[i] == o);
        }
    }
}

/// Appending one object appends its view.
pub broadcast proof fn lemma_arr_view_push(items: Seq<Object>, o: Object)
    ensures
        #[trigger] arr_view(items.push(o)) == arr_view(items).push(obj_view(o)),
{
    assert(items.push(o).drop_last() =~= items);
    assert(items.push(o).last() == o);
}

impl View for Value {
    type V = ValV;

    open spec fn view(&self) -> ValV {
        val_view(*self)
    }
}

impl View for Object {
    type V = ObjV;

    open spec fn view(&self) -> ObjV {
        obj_view(*self)
    }
}

impl View for Lexeme<String> {
    type V = LexV;

    open spec fn view(&self) -> LexV {
        LexV { id: self.id, rep: self.rep@ }
    }
}

/// The views of the lexemes of a sequence, in order.
pub open spec fn lex_views(s: Seq<Lexeme<String>>) -> Seq<LexV> {
    Seq::new(s.len(), |i: int| s[i]@)
}

impl View for Function {
    type V = FunV;

    open spec fn view(&self) -> FunV {
        FunV { arguments: arr_view(self.arguments@), body: arr_view(self.stack@) }
    }
}

/// Well-formedness of a value view: array payloads sit under the `ARRAY`
/// kind and only there; `INT` text parses as a 32-bit integer; `BOOLEAN`
/// text is exactly `true` or `false`; array elements are well-formed in
/// turn. Every object the interpreter pushes on a stack or binds in a heap
/// satisfies this.
pub open spec fn obj_wf(o: ObjV) -> bool
    decreases o,
{
    match o.rep {
        ValV::Str(text) => {
            &&& o.id != TokId::ARRAY
            &&& o.id == TokId::INT ==> is_i32_text(text)
            &&& o.id == TokId::BOOLEAN ==> (text == "true"@ || text == "false"@)
        },
        ValV::Arr(items) => {
            &&& o.id == TokId::ARRAY
            &&& forall|i: int| 0 <= i < items.len() ==> obj_wf(#[trigger] items[i])
        },
    }
}

/// All object views in a sequence are well-formed.
pub open spec fn all_wf(s: Seq<ObjV>) -> bool {
    forall|i: int| 0 <= i < s.len() ==> obj_wf(#[trigger] s[i])
}

impl Value {
    /// Deep copy; the copy has the same view as the value copied.
    pub fn duplicate(&self) -> (r: Value)
        ensures
            r@ == self@,
        decreases self,
    {
        match self {
            Value::STR(s) => Value::STR(s.clone()),
            Value::ARR(items) => {
                let mut copied: Vec<Object> = Vec::new();
                let mut i: usize = 0;
                while i < items.len()
                    invariant
                        i <= items.len(),
                        copied@.len() == i as nat,
                        *self == Value::ARR(*items),
                        forall|j: int| 0 <= j < i ==> copied@[j]@ == items@[j]@,
                    decreases items.len() - i,
                {
                    proof {
                        assert(*items == self->ARR_0);
                        assert(decreases_to!(*self => self->ARR_0));
                        assert(decreases_to!(*items => items@));
                        assert(decreases_to!(items@ => items@[i as int]));
                    }
                    copied.push(items[i].duplicate());
                    i = i + 1;
                }
                let result = Value::ARR(copied);
                proof {
                    lemma_arr_view(copied@);
                    lemma_arr_view(items@);
                    assert(arr_view(copied@) =~= arr_view(items@));
                }
                result
            },
        }
    }
}

impl Object {
    /// Deep copy; the copy has the same view as the value copied.
    pub fn duplicate(&self) -> (r: Object)
        ensures
            r@ == self@,
        decreases self,
    {
        Object { id: self.id, rep: self.rep.duplicate() }
    }
}

/// Structural equality at the view level: the relation that the language's
/// `==` operator and `assert` built-in decide.
pub open spec fn obj_equal(a: ObjV, b: ObjV) -> bool {
    a == b
}

impl Value {
    /// Structural equality test: kind-tagged text compared verbatim,
    /// arrays compared element-wise, recursively.
    pub fn equal(&self, other: &Value) -> (r: bool)
        ensures
            r == (self@ == other@),
        decreases self,
    {
        match (self, other) {
            (Value::STR(a), Value::STR(b)) => {
                proof {
                    assert(*self == Value::STR(*a));
                    assert(*other == Value::STR(*b));
                }
                crate::text::str_eq(a.as_str(), b.as_str())
            },
            (Value::ARR(a), Value::ARR(b)) => {
                proof {
                    lemma_arr_view(a@);
                    lemma_arr_view(b@);
                }
                if a.len() != b.len() {
                    proof {
                        assert(self@->Arr_0.len() == a@.len());
                        assert(other@->Arr_0.len() == b@.len());
                    }
                    return false;
                }
                let mut i: usize = 0;
                while i < a.len()
                    invariant
                        a@.len() == b@.len(),
                        i <= a.len(),
                        *self == Value::ARR(*a),
                        *other == Value::ARR(*b),
                        forall|j: int| 0 <= j < i ==> a@[j]@ == b@[j]@,
                    decreases a.len() - i,
                {
                    proof {
                        assert(*a == self->ARR_0);
                        assert(decreases_to!(*self => self->ARR_0));
                        assert(decreases_to!(*a => a@));
                        assert(decreases_to!(a@ => a@[i as int]));
                    }
                    if !a[i].equal(&b[i]) {
                        proof {
                            lemma_arr_view(a@);
                            lemma_arr_view(b@);
                            assert(self@->Arr_0[i as int] == a@[i as int]@);
                            assert(other@->Arr_0[i as int] == b@[i as int]@);
                        }
                        return false;
                    }
                    i = i + 1;
                }
                proof {
                    lemma_arr_view(a@);
                    lemma_arr_view(b@);
                    assert(arr_view(a@) =~= arr_view(b@));
                }
                true
            },
            _ => {
                proof {
                    assert(!(self@ is Str && other@ is Str));
                    assert(!(self@ is Arr && other@ is Arr));
                }
                false
            },
        }
    }
}

impl Object {
    /// Structural equality of two objects: kinds and payloads both equal.
    pub fn equal(&self, other: &Object) -> (r: bool)
        ensures
            r == obj_equal(self@, other@),
        decreases self,
    {
        if self.id == other.id {
            self.rep.equal(&other.rep)
        } else {
            false
        }
    }
}

} // verus!
