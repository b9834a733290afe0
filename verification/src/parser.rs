//! The parser: retags identifier lexemes that are literals, then gathers
//! the lexeme stream into a map of named function bodies, recognising
//! array literals, function headers with parameter lists, and block
//! nesting. Code outside any function lands in the synthetic `_global`
//! body. The executable parser is proved to compute exactly the recursive
//! specification `parse_from`.

use vstd::prelude::*;

use crate::env::NameMap;
use crate::head::{
    all_wf,
    arr_view,
    Function,
    FunV,
    lex_views,
    Lexeme,
    LexV,
    obj_wf,
    Object,
    ObjV,
    TokId,
    Value,
    ValV,
};
use crate::lexer::symbol_kind;
use crate::numbers::{is_digit_char, is_f64_text, is_i32_text};
use crate::text::ascii_letter;

verus! {

/// Why parsing failed.
#[derive(PartialEq, Eq, Structural, Clone, Copy, Debug)]
pub enum ParseErr {
    /// A `fun` inside a function body: declarations do not nest.
    NestedFunction,
    /// An `end` outside any function body.
    StrayEnd,
    /// A function name that is missing, not an identifier, a reserved
    /// word, or not of identifier shape.
    BadName,
    /// The lexemes ran out inside a function header.
    IncompleteHeader,
}

/// Literal retagging of one lexeme: an identifier whose text is `true` or
/// `false` becomes a boolean literal, else one that parses as a 32-bit
/// integer an integer literal, else one matching the floating-point
/// grammar a float literal; all others are untouched.
pub open spec fn retag1(l: LexV) -> LexV {
    if l.id != TokId::UNKNOWN {
        l
    } else if l.rep == "true"@ || l.rep == "false"@ {
        LexV { id: TokId::BOOLEAN, rep: l.rep }
    } else if is_i32_text(l.rep) {
        LexV { id: TokId::INT, rep: l.rep }
    } else if is_f64_text(l.rep) {
        LexV { id: TokId::FLOAT, rep: l.rep }
    } else {
        l
    }
}

/// Literal retagging of a lexeme sequence, element by element.
pub open spec fn retag(s: Seq<LexV>) -> Seq<LexV> {
    Seq::new(s.len(), |i: int| retag1(s[i]))
}

/// Retags literals in place.
pub fn parse_type(lexed: &mut Vec<Lexeme<String>>)
    ensures
        lex_views(final(lexed)@) == retag(lex_views(old(lexed)@)),
{
    let mut i: usize = 0;
    while i < lexed.len()
        invariant
            i <= lexed@.len(),
            lexed@.len() == old(lexed)@.len(),
            forall|j: int| 0 <= j < i ==> lexed@[j]@ == retag1(old(lexed)@[j]@),
            forall|j: int| i <= j < lexed@.len() ==> lexed@[j]@ == old(lexed)@[j]@,
        decreases lexed@.len() - i,
    {
        let mut l = Lexeme { id: TokId::UNKNOWN, rep: String::new() };
        lexed.set_and_swap(i, &mut l);
        if l.id == TokId::UNKNOWN {
            if crate::text::str_eq(l.rep.as_str(), "true") || crate::text::str_eq(
                l.rep.as_str(),
                "false",
            ) {
                l.id = TokId::BOOLEAN;
            } else if crate::numbers::parse_i32(l.rep.as_str()).is_some() {
                l.id = TokId::INT;
            } else if crate::numbers::is_float_text(l.rep.as_str()) {
                l.id = TokId::FLOAT;
            }
        }
        lexed.set(i, l);
        i = i + 1;
    }
    proof {
        assert(lex_views(lexed@) =~= retag(lex_views(old(lexed)@)));
    }
}

/// A character a name may contain: an ASCII letter, a digit or an
/// underscore.
pub open spec fn name_char(c: char) -> bool {
    ascii_letter(c) || c == '_' || is_digit_char(c)
}

/// A name fit for a function: not a reserved word, at least one character,
/// starting with an ASCII letter or underscore, made of ASCII letters,
/// digits and underscores throughout.
pub open spec fn valid_name(s: Seq<char>) -> bool {
    &&& symbol_kind(s) is None
    &&& s.len() > 0
    &&& (ascii_letter(s[0]) || s[0] == '_')
    &&& forall|i: int| 0 <= i < s.len() ==> name_char(#[trigger] s[i])
}

/// Decides whether a name is fit for a function.
pub fn validate_name(name: &String) -> (r: bool)
    ensures
        r == valid_name(name@),
{
    if crate::lexer::lexmap_contains_value(name.as_str()).is_some() {
        return false;
    }
    let s = name.as_str();
    let n = s.unicode_len();
    if n == 0 {
        return false;
    }
    let mut i: usize = 0;
    while i < n
        invariant
            i <= n,
            n == name@.len(),
            s@ == name@,
            i > 0 ==> (ascii_letter(name@[0]) || name@[0] == '_'),
            forall|j: int| 0 <= j < i ==> name_char(#[trigger] name@[j]),
        decreases n - i,
    {
        let c = s.get_char(i);
        let al = crate::text::is_ascii_letter(c);
        if i == 0 && !al && c != '_' {
            return false;
        }
        let u = c as u32;
        let digit = '0' as u32 <= u && u <= '9' as u32;
        if !al && c != '_' && !digit {
            return false;
        }
        i = i + 1;
    }
    true
}

/// Turns a lexeme into a body object carrying the same kind and text.
pub fn lex2obj(lex: Lexeme<String>) -> (o: Object)
    ensures
        o@ == lexv2obj(lex@),
{
    Object { id: lex.id, rep: Value::STR(lex.rep) }
}

/// The body object of a lexeme, at the view level.
pub open spec fn lexv2obj(l: LexV) -> ObjV {
    ObjV { id: l.id, rep: ValV::Str(l.rep) }
}

/// The parser's state between lexemes: the function map built so far, the
/// name of the function being parsed (empty while at top level), the block
/// nesting depth, and the array literal under construction, if any.
pub struct PSt {
    pub fmap: Map<Seq<char>, FunV>,
    pub fname: Seq<char>,
    pub depth: int,
    pub in_array: bool,
    pub arr: Seq<ObjV>,
}

/// The state before any lexeme: a map holding only an empty `_global`.
pub open spec fn parse_init() -> PSt {
    PSt {
        fmap: Map::empty().insert("_global"@, FunV { arguments: Seq::empty(), body: Seq::empty() }),
        fname: Seq::empty(),
        depth: 0,
        in_array: false,
        arr: Seq::empty(),
    }
}

/// The name of the body new objects go to: the current function, or
/// `_global` at top level.
pub open spec fn active_name(st: PSt) -> Seq<char> {
    if st.fname.len() == 0 {
        "_global"@
    } else {
        st.fname
    }
}

/// Appends one object to the active body.
pub open spec fn body_push(st: PSt, o: ObjV) -> PSt {
    let an = active_name(st);
    let f = st.fmap[an];
    PSt {
        fmap: st.fmap.insert(an, FunV { arguments: f.arguments, body: f.body.push(o) }),
        ..st
    }
}

/// Collects parameter descriptors from the given position up to and over
/// the closing `as`; yields the descriptors and the position after `as`.
/// Lexemes running out first is a header error.
pub open spec fn collect_params(lexs: Seq<LexV>, i: int) -> Result<(Seq<ObjV>, int), ParseErr>
    decreases lexs.len() - i,
{
    if i < 0 || i >= lexs.len() {
        Err(ParseErr::IncompleteHeader)
    } else if lexs[i].id == TokId::AS {
        Ok((Seq::empty(), i + 1))
    } else {
        match collect_params(lexs, i + 1) {
            Ok((rest, j)) => Ok((seq![lexv2obj(lexs[i])] + rest, j)),
            Err(e) => Err(e),
        }
    }
}

proof fn lemma_collect_params_bounds(lexs: Seq<LexV>, i: int)
    requires
        0 <= i,
    ensures
        collect_params(lexs, i) matches Ok((args, j)) ==> i < j <= lexs.len(),
    decreases lexs.len() - i,
{
    if i < lexs.len() && lexs[i].id != TokId::AS {
        lemma_collect_params_bounds(lexs, i + 1);
    }
}

/// The parser, one lexeme at a time from position `i`. Array mode sends
/// everything to the array under construction until `]`; `[` opens array
/// mode. Inside a function, `fun` is an error, block openers deepen the
/// nesting, `end` closes a block or — at depth zero — the function, and
/// everything else joins the body. At top level, `fun` reads a validated
/// name and parameters, a stray `end` is an error, and everything else
/// joins the `_global` body.
pub open spec fn parse_from(lexs: Seq<LexV>, i: int, st: PSt) -> Result<
    Map<Seq<char>, FunV>,
    ParseErr,
>
    decreases lexs.len() - i,
    via parse_from_dec
{
    if i < 0 || i >= lexs.len() {
        Ok(st.fmap)
    } else {
        let l = lexs[i];
        if st.in_array {
            if l.id == TokId::ARRAYEND {
                let done = ObjV { id: TokId::ARRAY, rep: ValV::Arr(st.arr) };
                parse_from(
                    lexs,
                    i + 1,
                    body_push(PSt { in_array: false, arr: Seq::empty(), ..st }, done),
                )
            } else {
                parse_from(lexs, i + 1, PSt { arr: st.arr.push(lexv2obj(l)), ..st })
            }
        } else if l.id == TokId::ARRAYBEGIN {
            parse_from(lexs, i + 1, PSt { in_array: true, arr: Seq::empty(), ..st })
        } else if st.fname.len() > 0 {
            if l.id == TokId::FUNCTION {
                Err(ParseErr::NestedFunction)
            } else if l.id == TokId::END {
                if st.depth > 0 {
                    parse_from(lexs, i + 1, body_push(PSt { depth: st.depth - 1, ..st }, lexv2obj(l)))
                } else {
                    parse_from(lexs, i + 1, PSt { fname: Seq::empty(), ..st })
                }
            } else if l.id == TokId::WHILE || l.id == TokId::IF || l.id == TokId::BLOCK || l.id
                == TokId::LOOP {
                parse_from(lexs, i + 1, body_push(PSt { depth: st.depth + 1, ..st }, lexv2obj(l)))
            } else {
                parse_from(lexs, i + 1, body_push(st, lexv2obj(l)))
            }
        } else {
            if l.id == TokId::FUNCTION {
                if i + 1 >= lexs.len() {
                    Err(ParseErr::IncompleteHeader)
                } else if lexs[i + 1].id != TokId::UNKNOWN {
                    Err(ParseErr::BadName)
                } else if !valid_name(lexs[i + 1].rep) {
                    Err(ParseErr::BadName)
                } else {
                    let name = lexs[i + 1].rep;
                    match collect_params(lexs, i + 2) {
                        Ok((args, j)) => parse_from(
                            lexs,
                            j,
                            PSt {
                                fmap: st.fmap.insert(
                                    name,
                                    FunV { arguments: args, body: Seq::empty() },
                                ),
                                fname: name,
                                ..st
                            },
                        ),
                        Err(e) => Err(e),
                    }
                }
            } else if l.id == TokId::END {
                if st.depth > 0 {
                    parse_from(lexs, i + 1, body_push(PSt { depth: st.depth - 1, ..st }, lexv2obj(l)))
                } else {
                    Err(ParseErr::StrayEnd)
                }
            } else if l.id == TokId::WHILE || l.id == TokId::IF || l.id == TokId::BLOCK || l.id
                == TokId::LOOP {
                parse_from(lexs, i + 1, body_push(PSt { depth: st.depth + 1, ..st }, lexv2obj(l)))
            } else {
                parse_from(lexs, i + 1, body_push(st, lexv2obj(l)))
            }
        }
    }
}

#[via_fn]
proof fn parse_from_dec(lexs: Seq<LexV>, i: int, st: PSt) {
    if 0 <= i < lexs.len() {
        lemma_collect_params_bounds(lexs, i + 2);
    }
}

/// Every function in the map has well-formed parameter descriptors and a
/// well-formed body.
pub open spec fn fmap_wf(m: Map<Seq<char>, FunV>) -> bool {
    forall|k: Seq<char>|
        #[trigger] m.contains_key(k) ==> all_wf(m[k].arguments) && all_wf(m[k].body)
}

/// Retagging keeps lexemes well-formed, and makes the tag of each literal
/// true of its text.
pub proof fn lemma_retag_wf(s: Seq<LexV>)
    requires
        crate::lexer::all_lex_wf(s),
    ensures
        crate::lexer::all_lex_wf(retag(s)),
{
    assert forall|i: int| 0 <= i < retag(s).len() implies crate::lexer::lex_wf(
        #[trigger] retag(s)[i],
    ) by {
        assert(crate::lexer::lex_wf(s[i]));
    }
}

proof fn lemma_collect_params_wf(lexs: Seq<LexV>, i: int)
    requires
        crate::lexer::all_lex_wf(lexs),
    ensures
        collect_params(lexs, i) matches Ok(p) ==> all_wf(p.0),
    decreases lexs.len() - i,
{
    if 0 <= i < lexs.len() && lexs[i].id != TokId::AS {
        lemma_collect_params_wf(lexs, i + 1);
        if collect_params(lexs, i + 1) is Ok {
            let rest = collect_params(lexs, i + 1)->Ok_0.0;
            let whole = seq![lexv2obj(lexs[i])] + rest;
            assert forall|k: int| 0 <= k < whole.len() implies obj_wf(#[trigger] whole[k]) by {
                if k == 0 {
                    assert(crate::lexer::lex_wf(lexs[i]));
                } else {
                    assert(whole[k] == rest[k - 1]);
                }
            }
        }
    }
}

proof fn lemma_body_push_wf(st: PSt, o: ObjV)
    requires
        fmap_wf(st.fmap),
        st.fmap.contains_key(active_name(st)),
        obj_wf(o),
    ensures
        fmap_wf(body_push(st, o).fmap),
{
    let an = active_name(st);
    let f = st.fmap[an];
    let nb = f.body.push(o);
    assert forall|k: int| 0 <= k < nb.len() implies obj_wf(#[trigger] nb[k]) by {
        if k < f.body.len() {
            assert(obj_wf(f.body[k]));
        }
    }
}

/// Whatever the parser accepts is well-formed throughout: given lexemes of
/// the lexer's shape, every parameter descriptor and every body object of
/// every function in the resulting map satisfies the value invariant.
pub proof fn lemma_parse_wf(lexs: Seq<LexV>, i: int, st: PSt)
    requires
        crate::lexer::all_lex_wf(lexs),
        fmap_wf(st.fmap),
        all_wf(st.arr),
        st.fmap.contains_key("_global"@),
        st.fname.len() > 0 ==> st.fmap.contains_key(st.fname),
    ensures
        parse_from(lexs, i, st) matches Ok(m) ==> fmap_wf(m),
    decreases lexs.len() - i,
{
    if 0 <= i < lexs.len() {
        let l = lexs[i];
        assert(crate::lexer::lex_wf(l));
        if st.in_array {
            if l.id == TokId::ARRAYEND {
                let done = ObjV { id: TokId::ARRAY, rep: ValV::Arr(st.arr) };
                let st1 = body_push(PSt { in_array: false, arr: Seq::empty(), ..st }, done);
                lemma_body_push_wf(PSt { in_array: false, arr: Seq::empty(), ..st }, done);
                lemma_parse_wf(lexs, i + 1, st1);
            } else {
                let na = st.arr.push(lexv2obj(l));
                assert forall|k: int| 0 <= k < na.len() implies obj_wf(#[trigger] na[k]) by {
                    if k < st.arr.len() {
                        assert(obj_wf(st.arr[k]));
                    }
                }
                lemma_parse_wf(lexs, i + 1, PSt { arr: na, ..st });
            }
        } else if l.id == TokId::ARRAYBEGIN {
            lemma_parse_wf(lexs, i + 1, PSt { in_array: true, arr: Seq::empty(), ..st });
        } else if st.fname.len() > 0 {
            if l.id == TokId::FUNCTION {
            } else if l.id == TokId::END {
                if st.depth > 0 {
                    let st0 = PSt { depth: st.depth - 1, ..st };
                    lemma_body_push_wf(st0, lexv2obj(l));
                    lemma_parse_wf(lexs, i + 1, body_push(st0, lexv2obj(l)));
                } else {
                    lemma_parse_wf(lexs, i + 1, PSt { fname: Seq::empty(), ..st });
                }
            } else if l.id == TokId::WHILE || l.id == TokId::IF || l.id == TokId::BLOCK || l.id
                == TokId::LOOP {
                let st0 = PSt { depth: st.depth + 1, ..st };
                lemma_body_push_wf(st0, lexv2obj(l));
                lemma_parse_wf(lexs, i + 1, body_push(st0, lexv2obj(l)));
            } else {
                lemma_body_push_wf(st, lexv2obj(l));
                lemma_parse_wf(lexs, i + 1, body_push(st, lexv2obj(l)));
            }
        } else {
            if l.id == TokId::FUNCTION {
                if i + 1 < lexs.len() && lexs[i + 1].id == TokId::UNKNOWN && valid_name(
                    lexs[i + 1].rep,
                ) {
                    let name = lexs[i + 1].rep;
                    lemma_collect_params_wf(lexs, i + 2);
                    lemma_collect_params_bounds(lexs, i + 2);
                    match collect_params(lexs, i + 2) {
                        Ok((args, j)) => {
                            let st1 = PSt {
                                fmap: st.fmap.insert(
                                    name,
                                    FunV { arguments: args, body: Seq::empty() },
                                ),
                                fname: name,
                                ..st
                            };
                            lemma_parse_wf(lexs, j, st1);
                        },
                        Err(_) => {},
                    }
                }
            } else if l.id == TokId::END {
                if st.depth > 0 {
                    let st0 = PSt { depth: st.depth - 1, ..st };
                    lemma_body_push_wf(st0, lexv2obj(l));
                    lemma_parse_wf(lexs, i + 1, body_push(st0, lexv2obj(l)));
                }
            } else if l.id == TokId::WHILE || l.id == TokId::IF || l.id == TokId::BLOCK || l.id
                == TokId::LOOP {
                let st0 = PSt { depth: st.depth + 1, ..st };
                lemma_body_push_wf(st0, lexv2obj(l));
                lemma_parse_wf(lexs, i + 1, body_push(st0, lexv2obj(l)));
            } else {
                lemma_body_push_wf(st, lexv2obj(l));
                lemma_parse_wf(lexs, i + 1, body_push(st, lexv2obj(l)));
            }
        }
    }
}

/// The parser state the executable parser's locals stand for.
pub open spec fn st_of(
    fmap: Map<Seq<char>, FunV>,
    fname: Seq<char>,
    depth: int,
    in_array: bool,
    arr: Seq<ObjV>,
) -> PSt {
    PSt { fmap, fname, depth, in_array, arr }
}

/// Appends one object to the body of the active function.
fn push_to_body(fmap: &mut NameMap<Function>, fname: &String, o: Object)
    requires
        old(fmap).wf(),
        old(fmap)@.contains_key(active_name(st_of(old(fmap)@, fname@, 0, false, Seq::empty()))),
    ensures
        final(fmap).wf(),
        final(fmap)@.dom() == old(fmap)@.dom(),
        st_of(final(fmap)@, fname@, 0, false, Seq::empty()) == body_push(
            st_of(old(fmap)@, fname@, 0, false, Seq::empty()),
            o@,
        ),
{
    let an: String = if fname.as_str().unicode_len() == 0 {
        String::from_str("_global")
    } else {
        fname.clone()
    };
    let ghost anv = active_name(st_of(old(fmap)@, fname@, 0, false, Seq::empty()));
    proof {
        assert(an@ == anv);
    }
    let taken = fmap.take_out(an.as_str());
    match taken {
        Some(mut f) => {
            let ghost fv = f@;
            let ghost stack0 = f.stack@;
            f.stack.push(o);
            proof {
                crate::head::lemma_arr_view_push(stack0, o);
            }
            fmap.insert(an, f);
            proof {
                assert(fmap@ =~= old(fmap)@.insert(
                    anv,
                    FunV { arguments: fv.arguments, body: fv.body.push(o@) },
                ));
                assert(fmap@.dom() =~= old(fmap)@.dom());
            }
        },
        None => {
            proof {
                assert(false);
            }
        },
    }
}

/// Parses a lexeme sequence into the function map, exactly as `parse_from`
/// describes, after retagging literals.
#[verifier::loop_isolation(false)]
#[verifier::rlimit(100)]
pub fn parse_file(lexed: Vec<Lexeme<String>>) -> (r: Result<NameMap<Function>, ParseErr>)
    ensures
        match r {
            Ok(m) => m.wf() && parse_from(retag(lex_views(lexed@)), 0, parse_init()) == Ok::<
                Map<Seq<char>, FunV>,
                ParseErr,
            >(m@),
            Err(e) => parse_from(retag(lex_views(lexed@)), 0, parse_init()) == Err::<
                Map<Seq<char>, FunV>,
                ParseErr,
            >(e),
        },
{
    let mut lexed = lexed;
    parse_type(&mut lexed);
    let ghost lexs = lex_views(lexed@);
    let mut fmap: NameMap<Function> = NameMap::new();
    fmap.insert(
        String::from_str("_global"),
        Function { arguments: Vec::new(), stack: Vec::new() },
    );
    let mut fname: String = String::new();
    let mut depth: usize = 0;
    let mut in_array = false;
    let mut arr: Vec<Object> = Vec::new();
    let mut i: usize = 0;
    proof {
        assert(arr_view(arr@) =~= Seq::<ObjV>::empty());
        assert(st_of(fmap@, fname@, depth as int, in_array, arr_view(arr@)) == parse_init());
    }
    while i < lexed.len()
        invariant
            i <= lexed@.len(),
            lexs == lex_views(lexed@),
            fmap.wf(),
            depth <= i,
            fmap@.contains_key("_global"@),
            fname@.len() > 0 ==> fmap@.contains_key(fname@),
            parse_from(lexs, 0, parse_init()) == parse_from(
                lexs,
                i as int,
                st_of(fmap@, fname@, depth as int, in_array, arr_view(arr@)),
            ),
        decreases lexed@.len() - i,
    {
        let ghost st = st_of(fmap@, fname@, depth as int, in_array, arr_view(arr@));
        let l = Lexeme { id: lexed[i].id, rep: lexed[i].rep.clone() };
        let ghost lv = lexs[i as int];
        proof {
            assert(l@ == lv);
        }
        if in_array {
            if l.id == TokId::ARRAYEND {
                let items = arr;
                arr = Vec::new();
                in_array = false;
                let done = Object { id: TokId::ARRAY, rep: Value::ARR(items) };
                push_to_body(&mut fmap, &fname, done);
                proof {
                    assert(arr_view(arr@) =~= Seq::<ObjV>::empty());
                }
            } else {
                let ghost arr0 = arr@;
                let o = lex2obj(l);
                let ghost oo = o;
                arr.push(o);
                proof {
                    crate::head::lemma_arr_view_push(arr0, oo);
                    assert(arr_view(arr@) == st.arr.push(lexv2obj(lv)));
                }
            }
        } else if l.id == TokId::ARRAYBEGIN {
            in_array = true;
            arr.clear();
            proof {
                assert(arr_view(arr@) =~= Seq::<ObjV>::empty());
            }
        } else if fname.as_str().unicode_len() > 0 {
            if l.id == TokId::FUNCTION {
                return Err(ParseErr::NestedFunction);
            } else if l.id == TokId::END {
                if depth > 0 {
                    depth = depth - 1;
                    push_to_body(&mut fmap, &fname, lex2obj(l));
                } else {
                    fname = String::new();
                }
            } else if l.id == TokId::WHILE || l.id == TokId::IF || l.id == TokId::BLOCK || l.id
                == TokId::LOOP {
                depth = depth + 1;
                push_to_body(&mut fmap, &fname, lex2obj(l));
            } else {
                push_to_body(&mut fmap, &fname, lex2obj(l));
            }
        } else {
            if l.id == TokId::FUNCTION {
                if i + 1 >= lexed.len() {
                    return Err(ParseErr::IncompleteHeader);
                }
                let nm = Lexeme { id: lexed[i + 1].id, rep: lexed[i + 1].rep.clone() };
                proof {
                    assert(nm@ == lexs[i + 1]);
                }
                if nm.id != TokId::UNKNOWN {
                    return Err(ParseErr::BadName);
                }
                if !validate_name(&nm.rep) {
                    return Err(ParseErr::BadName);
                }
                let name = nm.rep;
                // collect the parameter descriptors up to `as`
                let mut args: Vec<Object> = Vec::new();
                let mut j: usize = i + 2;
                let mut header_err = false;
                #[verifier::loop_isolation(true)]
                loop
                    invariant
                        i + 2 <= j <= lexed@.len(),
                        lexs == lex_views(lexed@),
                        collect_params(lexs, i + 2) == (match collect_params(lexs, j as int) {
                            Ok(p) => Ok::<(Seq<ObjV>, int), ParseErr>(
                                (arr_view(args@) + p.0, p.1),
                            ),
                            Err(e) => Err::<(Seq<ObjV>, int), ParseErr>(e),
                        }),
                    ensures
                        header_err ==> collect_params(lexs, i + 2) == Err::<
                            (Seq<ObjV>, int),
                            ParseErr,
                        >(ParseErr::IncompleteHeader),
                        !header_err ==> j < lexed@.len() && lexs[j as int].id == TokId::AS
                            && collect_params(lexs, i + 2) == Ok::<(Seq<ObjV>, int), ParseErr>(
                            (arr_view(args@), j + 1 as int),
                        ),
                    decreases lexed@.len() - j,
                {
                    if j >= lexed.len() {
                        proof {
                            assert(collect_params(lexs, i + 2) == Err::<(Seq<ObjV>, int), ParseErr>(
                                ParseErr::IncompleteHeader,
                            ));
                        }
                        header_err = true;
                        break ;
                    }
                    let p = Lexeme { id: lexed[j].id, rep: lexed[j].rep.clone() };
                    proof {
                        assert(p@ == lexs[j as int]);
                    }
                    if p.id == TokId::AS {
                        proof {
                            assert(arr_view(args@) + Seq::<ObjV>::empty() =~= arr_view(args@));
                        }
                        header_err = false;
                        break ;
                    }
                    let ghost args0 = args@;
                    let o = lex2obj(p);
                    let ghost oo = o;
                    args.push(o);
                    proof {
                        crate::head::lemma_arr_view_push(args0, oo);
                        assert(arr_view(args@) == arr_view(args0).push(lexv2obj(lexs[j as int])));
                        assert forall|rest: Seq<ObjV>|
                            arr_view(args0) + (seq![lexv2obj(lexs[j as int])] + rest) =~= arr_view(
                                args@,
                            ) + rest by {}
                    }
                    j = j + 1;
                }
                if header_err {
                    return Err(ParseErr::IncompleteHeader);
                }
                let fkey = name.clone();
                fmap.insert(fkey, Function { arguments: args, stack: Vec::new() });
                fname = name;
                i = j + 1;
                proof {
                    assert(parse_from(lexs, 0, parse_init()) == parse_from(
                        lexs,
                        i as int,
                        st_of(fmap@, fname@, depth as int, in_array, arr_view(arr@)),
                    ));
                }
                continue ;
            } else if l.id == TokId::END {
                if depth > 0 {
                    depth = depth - 1;
                    push_to_body(&mut fmap, &fname, lex2obj(l));
                } else {
                    return Err(ParseErr::StrayEnd);
                }
            } else if l.id == TokId::WHILE || l.id == TokId::IF || l.id == TokId::BLOCK || l.id
                == TokId::LOOP {
                depth = depth + 1;
                push_to_body(&mut fmap, &fname, lex2obj(l));
            } else {
                push_to_body(&mut fmap, &fname, lex2obj(l));
            }
        }
        i = i + 1;
    }
    proof {
        assert(parse_from(lexs, lexed@.len() as int, st_of(fmap@, fname@, depth as int, in_array, arr_view(arr@))) == Ok::<Map<Seq<char>, FunV>, ParseErr>(fmap@));
    }
    Ok(fmap)
}

} // verus!
