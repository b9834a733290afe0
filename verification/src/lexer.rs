//! The lexer: a single pass over the source text with a pending word
//! buffer and a string mode. Its behaviour is specified as a state machine
//! stepped one character at a time, and the executable lexer is proved to
//! compute exactly that machine's output.

use vstd::prelude::*;

use crate::head::{Lexeme, LexV, TokId, lex_views};
use crate::text::{is_space, is_space_char, push_char, str_eq, word_to_string};

verus! {

/// The fixed symbol table: the token kind of a piece of text that is a
/// keyword or symbolic operator, `None` for anything else.
pub open spec fn symbol_kind(s: Seq<char>) -> Option<TokId> {
    if s == "fun"@ {
        Some(TokId::FUNCTION)
    } else if s == "import"@ {
        Some(TokId::IMPORT)
    } else if s == "end"@ {
        Some(TokId::END)
    } else if s == "as"@ {
        Some(TokId::AS)
    } else if s == "ret"@ {
        Some(TokId::RET)
    } else if s == "while"@ {
        Some(TokId::WHILE)
    } else if s == "do"@ {
        Some(TokId::DO)
    } else if s == "if"@ {
        Some(TokId::IF)
    } else if s == "block"@ {
        Some(TokId::BLOCK)
    } else if s == "else"@ {
        Some(TokId::ELSE)
    } else if s == "+"@ {
        Some(TokId::PLUS)
    } else if s == "-"@ {
        Some(TokId::MINUS)
    } else if s == "*"@ {
        Some(TokId::MULTIPLY)
    } else if s == "/"@ {
        Some(TokId::DIVIDE)
    } else if s == "%"@ {
        Some(TokId::MOD)
    } else if s == "="@ {
        Some(TokId::ASSIGNMENT)
    } else if s == "=>"@ {
        Some(TokId::RETURNINGASSIGNMENT)
    } else if s == "=="@ {
        Some(TokId::EQUALS)
    } else if s == ">"@ {
        Some(TokId::BIGGER)
    } else if s == "<"@ {
        Some(TokId::SMALLER)
    } else if s == "<="@ {
        Some(TokId::SMALLEREQUALS)
    } else if s == ">="@ {
        Some(TokId::BIGGEREQUALS)
    } else if s == "int"@ {
        Some(TokId::TINT)
    } else if s == "float"@ {
        Some(TokId::TFLOAT)
    } else if s == "str"@ {
        Some(TokId::TSTRING)
    } else if s == "bool"@ {
        Some(TokId::TBOOL)
    } else if s == "is"@ {
        Some(TokId::IS)
    } else if s == "loop"@ {
        Some(TokId::LOOP)
    } else if s == "["@ {
        Some(TokId::ARRAYBEGIN)
    } else if s == "]"@ {
        Some(TokId::ARRAYEND)
    } else {
        None
    }
}

/// Looks a piece of text up in the symbol table.
pub fn lexmap_contains_value(comp: &str) -> (r: Option<TokId>)
    ensures
        r == symbol_kind(comp@),
{
    if str_eq(comp, "fun") {
        Some(TokId::FUNCTION)
    } else if str_eq(comp, "import") {
        Some(TokId::IMPORT)
    } else if str_eq(comp, "end") {
        Some(TokId::END)
    } else if str_eq(comp, "as") {
        Some(TokId::AS)
    } else if str_eq(comp, "ret") {
        Some(TokId::RET)
    } else if str_eq(comp, "while") {
        Some(TokId::WHILE)
    } else if str_eq(comp, "do") {
        Some(TokId::DO)
    } else if str_eq(comp, "if") {
        Some(TokId::IF)
    } else if str_eq(comp, "block") {
        Some(TokId::BLOCK)
    } else if str_eq(comp, "else") {
        Some(TokId::ELSE)
    } else if str_eq(comp, "+") {
        Some(TokId::PLUS)
    } else if str_eq(comp, "-") {
        Some(TokId::MINUS)
    } else if str_eq(comp, "*") {
        Some(TokId::MULTIPLY)
    } else if str_eq(comp, "/") {
        Some(TokId::DIVIDE)
    } else if str_eq(comp, "%") {
        Some(TokId::MOD)
    } else if str_eq(comp, "=") {
        Some(TokId::ASSIGNMENT)
    } else if str_eq(comp, "=>") {
        Some(TokId::RETURNINGASSIGNMENT)
    } else if str_eq(comp, "==") {
        Some(TokId::EQUALS)
    } else if str_eq(comp, ">") {
        Some(TokId::BIGGER)
    } else if str_eq(comp, "<") {
        Some(TokId::SMALLER)
    } else if str_eq(comp, "<=") {
        Some(TokId::SMALLEREQUALS)
    } else if str_eq(comp, ">=") {
        Some(TokId::BIGGEREQUALS)
    } else if str_eq(comp, "int") {
        Some(TokId::TINT)
    } else if str_eq(comp, "float") {
        Some(TokId::TFLOAT)
    } else if str_eq(comp, "str") {
        Some(TokId::TSTRING)
    } else if str_eq(comp, "bool") {
        Some(TokId::TBOOL)
    } else if str_eq(comp, "is") {
        Some(TokId::IS)
    } else if str_eq(comp, "loop") {
        Some(TokId::LOOP)
    } else if str_eq(comp, "[") {
        Some(TokId::ARRAYBEGIN)
    } else if str_eq(comp, "]") {
        Some(TokId::ARRAYEND)
    } else {
        None
    }
}

/// The kind a flushed word is emitted under: its symbol kind if the word is
/// in the symbol table, an identifier otherwise.
pub open spec fn classify(w: Seq<char>) -> TokId {
    match symbol_kind(w) {
        Some(id) => id,
        None => TokId::UNKNOWN,
    }
}

/// The lexer's state between two characters: the lexemes emitted so far,
/// the pending word buffer, and the opening quote while inside a string
/// literal.
pub struct LexSt {
    pub out: Seq<LexV>,
    pub word: Seq<char>,
    pub mode: Option<char>,
}

/// The state before any character is read.
pub open spec fn lex_init() -> LexSt {
    LexSt { out: Seq::empty(), word: Seq::empty(), mode: None }
}

/// One step of the lexer on one character. In string mode everything up to
/// the matching quote joins the pending string. A quote flushes any
/// pending word and opens string mode. Longest match: when the pending
/// word is a symbol and extending it by the character is still a symbol,
/// the longer symbol is emitted whole. A character that is itself a symbol
/// flushes the pending word and starts a new buffer. Whitespace emits a
/// line break for a newline and then flushes the pending word, classified
/// against the symbol table. Any other character joins the pending word.
pub open spec fn lex_step(st: LexSt, c: char) -> LexSt {
    if st.mode is Some {
        if c == st.mode->0 {
            LexSt {
                out: st.out.push(LexV { id: TokId::STRING, rep: st.word }),
                word: Seq::empty(),
                mode: None,
            }
        } else {
            LexSt { out: st.out, word: st.word.push(c), mode: st.mode }
        }
    } else if c == '"' || c == '\'' {
        let out1 = if st.word.len() > 0 {
            st.out.push(LexV { id: TokId::UNKNOWN, rep: st.word })
        } else {
            st.out
        };
        LexSt { out: out1, word: Seq::empty(), mode: Some(c) }
    } else if symbol_kind(st.word) is Some && symbol_kind(st.word.push(c)) is Some {
        LexSt {
            out: st.out.push(
                LexV { id: symbol_kind(st.word.push(c))->0, rep: st.word.push(c) },
            ),
            word: Seq::empty(),
            mode: None,
        }
    } else if symbol_kind(seq![c]) is Some {
        let out1 = if st.word.len() > 0 {
            st.out.push(LexV { id: TokId::UNKNOWN, rep: st.word })
        } else {
            st.out
        };
        LexSt { out: out1, word: seq![c], mode: None }
    } else if is_space_char(c) {
        let out1 = if c == '\n' {
            st.out.push(LexV { id: TokId::LINEBREAK, rep: seq!['\n'] })
        } else {
            st.out
        };
        let out2 = if st.word.len() > 0 {
            out1.push(LexV { id: classify(st.word), rep: st.word })
        } else {
            out1
        };
        LexSt { out: out2, word: Seq::empty(), mode: None }
    } else {
        LexSt { out: st.out, word: st.word.push(c), mode: None }
    }
}

/// The lexer's state after reading a whole character sequence.
pub open spec fn lex_chars(s: Seq<char>) -> LexSt
    decreases s.len(),
{
    if s.len() == 0 {
        lex_init()
    } else {
        lex_step(lex_chars(s.drop_last()), s.last())
    }
}

/// The lexemes of a character sequence: the state machine's output, with
/// any trailing word flushed and classified.
pub open spec fn lex_spec(s: Seq<char>) -> Seq<LexV> {
    let st = lex_chars(s);
    if st.word.len() > 0 {
        st.out.push(LexV { id: classify(st.word), rep: st.word })
    } else {
        st.out
    }
}

/// A lexeme of a shape the lexer can emit: it never carries the `ARRAY`
/// kind, nor a literal kind whose text fails that literal's grammar.
pub open spec fn lex_wf(l: LexV) -> bool {
    &&& l.id != TokId::ARRAY
    &&& l.id == TokId::INT ==> crate::numbers::is_i32_text(l.rep)
    &&& l.id == TokId::BOOLEAN ==> (l.rep == "true"@ || l.rep == "false"@)
}

/// Every lexeme in the sequence is of a shape the lexer can emit.
pub open spec fn all_lex_wf(s: Seq<LexV>) -> bool {
    forall|i: int| 0 <= i < s.len() ==> lex_wf(#[trigger] s[i])
}

/// The symbol table never yields a literal or array kind.
proof fn lemma_symbol_kind_range(s: Seq<char>)
    ensures
        symbol_kind(s) != Some(TokId::ARRAY),
        symbol_kind(s) != Some(TokId::INT),
        symbol_kind(s) != Some(TokId::BOOLEAN),
{
}

proof fn lemma_lex_chars_wf(s: Seq<char>)
    ensures
        all_lex_wf(lex_chars(s).out),
    decreases s.len(),
{
    if s.len() > 0 {
        lemma_lex_chars_wf(s.drop_last());
        let st = lex_chars(s.drop_last());
        let c = s.last();
        lemma_symbol_kind_range(st.word.push(c));
        lemma_symbol_kind_range(st.word);
        let nx = lex_step(st, c);
        assert forall|i: int| 0 <= i < nx.out.len() implies lex_wf(#[trigger] nx.out[i]) by {
            if i < st.out.len() {
                assert(lex_wf(st.out[i]));
            }
        }
    }
}

/// Whatever the source text, every lexeme the lexer emits is of the shape
/// the parser's retagging and the interpreter's invariant expect.
pub proof fn lemma_lex_spec_wf(s: Seq<char>)
    ensures
        all_lex_wf(lex_spec(s)),
{
    lemma_lex_chars_wf(s);
    let st = lex_chars(s);
    lemma_symbol_kind_range(st.word);
    assert forall|i: int| 0 <= i < lex_spec(s).len() implies lex_wf(#[trigger] lex_spec(s)[i]) by {
        if i < st.out.len() {
            assert(lex_wf(st.out[i]));
        }
    }
}

/// The token kind of a single character, per the symbol table.
fn char_symbol(c: char) -> (r: Option<TokId>)
    ensures
        r == symbol_kind(seq![c]),
{
    let mut s = String::new();
    push_char(&mut s, c);
    proof {
        assert(s@ =~= seq![c]);
    }
    lexmap_contains_value(s.as_str())
}

/// Converts source text to its lexeme sequence.
#[verifier::loop_isolation(false)]
pub fn lexer_file(file: &String) -> (r: Vec<Lexeme<String>>)
    ensures
        lex_views(r@) == lex_spec(file@),
{
    let s = file.as_str();
    let n = s.unicode_len();
    let mut result: Vec<Lexeme<String>> = Vec::new();
    let mut word: Vec<char> = Vec::new();
    let mut string_mode: Option<char> = None;
    let mut i: usize = 0;
    while i < n
        invariant
            i <= n,
            lex_views(result@) == lex_chars(s@.subrange(0, i as int)).out,
            word@ == lex_chars(s@.subrange(0, i as int)).word,
            string_mode == lex_chars(s@.subrange(0, i as int)).mode,
        decreases n - i,
    {
        let c = s.get_char(i);
        let ghost st = lex_chars(s@.subrange(0, i as int));
        proof {
            assert(s@.subrange(0, i + 1 as int).drop_last() =~= s@.subrange(0, i as int));
            assert(s@.subrange(0, i + 1 as int).last() == c);
            assert(lex_chars(s@.subrange(0, i + 1 as int)) == lex_step(st, c));
        }
        match string_mode {
            Some(q) => {
                if c == q {
                    let text = word_to_string(&word);
                    result.push(Lexeme { id: TokId::STRING, rep: text });
                    word.clear();
                    string_mode = None;
                    proof {
                        assert(lex_views(result@) =~= lex_step(st, c).out);
                    }
                } else {
                    word.push(c);
                }
            },
            None => {
                if c == '"' || c == '\'' {
                    if word.len() > 0 {
                        let text = word_to_string(&word);
                        result.push(Lexeme { id: TokId::UNKNOWN, rep: text });
                        word.clear();
                    }
                    string_mode = Some(c);
                    proof {
                        assert(lex_views(result@) =~= lex_step(st, c).out);
                    }
                } else {
                    // longest match: pending word a symbol, extended still a symbol
                    let wstr = word_to_string(&word);
                    let mut long_id: Option<TokId> = None;
                    if lexmap_contains_value(wstr.as_str()).is_some() {
                        word.push(c);
                        let wcstr = word_to_string(&word);
                        long_id = lexmap_contains_value(wcstr.as_str());
                        if long_id.is_none() {
                            word.pop();
                            proof {
                                assert(word@ =~= st.word);
                            }
                        }
                    }
                    match long_id {
                        Some(id2) => {
                            let wcstr = word_to_string(&word);
                            result.push(Lexeme { id: id2, rep: wcstr });
                            word.clear();
                            proof {
                                assert(lex_views(result@) =~= lex_step(st, c).out);
                            }
                        },
                        None => {
                            if char_symbol(c).is_some() {
                                if word.len() > 0 {
                                    let text = word_to_string(&word);
                                    result.push(Lexeme { id: TokId::UNKNOWN, rep: text });
                                    word.clear();
                                }
                                word.push(c);
                                proof {
                                    assert(lex_views(result@) =~= lex_step(st, c).out);
                                    assert(word@ =~= lex_step(st, c).word);
                                }
                            } else if is_space(c) {
                                if c == '\n' {
                                    let mut nl = String::new();
                                    push_char(&mut nl, '\n');
                                    proof {
                                        assert(nl@ =~= seq!['\n']);
                                    }
                                    result.push(Lexeme { id: TokId::LINEBREAK, rep: nl });
                                }
                                if word.len() > 0 {
                                    let text = word_to_string(&word);
                                    let id = match lexmap_contains_value(text.as_str()) {
                                        Some(k) => k,
                                        None => TokId::UNKNOWN,
                                    };
                                    result.push(Lexeme { id, rep: text });
                                    word.clear();
                                }
                                proof {
                                    assert(lex_views(result@) =~= lex_step(st, c).out);
                                }
                            } else {
                                word.push(c);
                            }
                        },
                    }
                }
            },
        }
        i = i + 1;
    }
    proof {
        assert(s@.subrange(0, n as int) =~= s@);
    }
    if word.len() > 0 {
        let text = word_to_string(&word);
        let id = match lexmap_contains_value(text.as_str()) {
            Some(k) => k,
            None => TokId::UNKNOWN,
        };
        result.push(Lexeme { id, rep: text });
        proof {
            assert(lex_views(result@) =~= lex_spec(file@));
        }
    }
    result
}

} // verus!
