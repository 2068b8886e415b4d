//! The `fasteval` backend's front end: a potential written in the expression
//! language is put into fasteval's syntax (`**` becomes `^`), then parsed
//! once into a slab and compiled to an instruction that evaluates it.
use vstd::prelude::*;
use vstd::string::StrSliceExecFns;
use fasteval::Compiler;
use crate::dsl::text::{enclosed, push_char};

verus! {

#[verifier::external_type_specification]
#[verifier::external_body]
pub struct ExSlab(fasteval::Slab);

#[verifier::external_type_specification]
#[verifier::external_body]
pub struct ExInstruction(fasteval::Instruction);

/// `s` with every `**`, taken left to right without overlap, replaced by `^`.
pub open spec fn caret_form(s: Seq<char>) -> Seq<char>
    decreases s.len(),
{
    if s.len() < 2 {
        s
    } else if s[0] == '*' && s[1] == '*' {
        seq!['^'] + caret_form(s.skip(2))
    } else {
        seq![s[0]] + caret_form(s.skip(1))
    }
}

/// `src` in fasteval's syntax: its power operator is `^`.
pub fn fasteval_source(src: &str) -> (r: String)
    ensures
        r@ == caret_form(src@),
{
    let n = src.unicode_len();
    let mut r = String::new();
    let mut i: usize = 0;
    proof {
        assert(src@.skip(0) =~= src@);
        assert(r@ + caret_form(src@) =~= caret_form(src@));
    }
    while i < n
        invariant
            n == src@.len(),
            i <= n,
            caret_form(src@) == r@ + caret_form(src@.skip(i as int)),
        decreases n - i,
    {
        let ghost s = src@.skip(i as int);
        let c = src.get_char(i);
        if c == '*' && i + 1 < n && src.get_char(i + 1) == '*' {
            proof {
                assert(s.skip(2) =~= src@.skip(i + 2));
            }
            push_char(&mut r, '^');
            i = i + 2;
        } else {
            proof {
                assert(s.skip(1) =~= src@.skip(i + 1));
            }
            push_char(&mut r, c);
            i = i + 1;
        }
        proof {
            assert(r@ + caret_form(src@.skip(i as int)) =~= caret_form(src@));
        }
    }
    proof {
        assert(src@.skip(i as int) =~= Seq::<char>::empty());
        assert(r@ + Seq::<char>::empty() =~= r@);
    }
    r
}

/// What fasteval's default parser makes of `src`: success, or the text of
/// its error.
pub uninterp spec fn fasteval_parse(src: Seq<char>) -> Result<(), Seq<char>>;

/// A compiled fasteval program: the slab holding the parsed and compiled
/// expression, the instruction that evaluates it, and the text it was
/// compiled from.
pub struct FastProgram {
    pub slab: fasteval::Slab,
    pub instr: fasteval::Instruction,
    pub source: Ghost<Seq<char>>,
}

/// `Parser::parse` (default limits) of `src` into a new `Slab`, then
/// `Compiler::compile` of the parsed expression, recording `src` as the
/// program's source. Succeeds exactly when the parse does; an error is the
/// parse error's text. Of the instruction, which is opaque here, nothing more
/// is stated.
#[verifier::external_body]
fn parse_and_compile(src: &str) -> (r: Result<FastProgram, String>)
    ensures
        match r {
            Ok(p) => fasteval_parse(src@) is Ok && p.source@ == src@,
            Err(m) => fasteval_parse(src@) == Err::<(), Seq<char>>(m@),
        },
{
    let mut slab = fasteval::Slab::new();
    match fasteval::Parser::new().parse(src, &mut slab.ps) {
        Ok(e) => {
            let instr = e.from(&slab.ps).compile(&slab.ps, &mut slab.cs);
            Ok(FastProgram { slab, instr, source: Ghost(src@) })
        },
        Err(e) => Err(e.to_string()),
    }
}

/// The message of a fasteval parse error whose text is `detail`.
pub fn fasteval_message(detail: &str) -> (m: String)
    ensures
        m@ == "fasteval parse error: "@ + detail@,
{
    let m = enclosed("fasteval parse error: ", detail, "");
    proof {
        reveal_strlit("");
        assert("fasteval parse error: "@ + detail@ + ""@ =~= "fasteval parse error: "@ + detail@);
    }
    m
}

/// Compile `src`, written in the expression language, with fasteval.
pub fn fasteval_compile(src: &str) -> (r: Result<FastProgram, String>)
    ensures
        match r {
            Ok(p) => fasteval_parse(caret_form(src@)) is Ok && p.source@ == caret_form(src@),
            Err(m) => fasteval_parse(caret_form(src@)) matches Err(t) && m@ == "fasteval parse error: "@ + t,
        },
{
    let s = fasteval_source(src);
    match parse_and_compile(s.as_str()) {
        Ok(p) => Ok(p),
        Err(t) => Err(fasteval_message(t.as_str())),
    }
}

} // verus!
