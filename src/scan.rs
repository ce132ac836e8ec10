//! The scanner that runs the model of [`crate::model`] on bytes, in place.
use vstd::prelude::*;
use vstd::string::StringSliceAdditionalSpecFns;
use crate::token::{JsmnType, JsmnErr, JsmnTok, JsmnParser};
use crate::model::{
    Step, Closing, scan_of, wf, is_open, is_space, in_text, string_end, primitive_end, close_walk,
    step, run, push, bump, lemma_step_wf, lemma_string_end_bounds, lemma_primitive_end_bounds,
    lemma_close_walk_bounds,
};

verus! {

pub open spec fn as_int_result(r: Result<usize, JsmnErr>) -> Result<int, JsmnErr> {
    match r {
        Ok(j) => Ok(j as int),
        Err(e) => Err(e),
    }
}

fn space_byte(c: u8) -> (r: bool)
    ensures
        r == is_space(c),
{
    c == 0x20u8 || c == 0x09u8 || c == 0x0au8 || c == 0x0du8
}

/// The offset of the quote that closes the string whose body starts at `start`.
fn scan_string(js: &[u8], start: usize) -> (r: Result<usize, JsmnErr>)
    requires
        start <= js@.len(),
    ensures
        as_int_result(r) == string_end(js@, start as int, 0),
{
    let mut i: usize = start;
    let mut h: usize = 0;
    while i < js.len() && js[i] != 0
        invariant
            start <= i <= js@.len(),
            h <= 4,
            string_end(js@, i as int, h as int) == string_end(js@, start as int, 0),
        decreases js@.len() - i,
    {
        let c = js[i];
        if h > 0 {
            if (0x30u8 <= c && c <= 0x39u8) || (0x41u8 <= c && c <= 0x46u8) || (0x61u8 <= c && c <= 0x66u8) {
                i = i + 1;
                h = h - 1;
            } else {
                return Err(JsmnErr::JsmErrorInval);
            }
        } else if c == 0x22u8 {
            return Ok(i);
        } else if c == 0x5cu8 && i + 1 < js.len() {
            let d = js[i + 1];
            if d == 0x22u8 || d == 0x2fu8 || d == 0x5cu8 || d == 0x62u8 || d == 0x66u8 || d == 0x72u8 || d
                == 0x6eu8 || d == 0x74u8 {
                i = i + 2;
            } else if d == 0x75u8 {
                i = i + 2;
                h = 4;
            } else {
                return Err(JsmnErr::JsmErrorInval);
            }
        } else {
            i = i + 1;
        }
    }
    Err(JsmnErr::JsmErrorPart)
}

/// The offset just past the primitive that starts at `start`.
fn scan_primitive(js: &[u8], start: usize) -> (r: Result<usize, JsmnErr>)
    requires
        start <= js@.len(),
    ensures
        as_int_result(r) == primitive_end(js@, start as int),
{
    let mut i: usize = start;
    while i < js.len() && js[i] != 0
        invariant
            start <= i <= js@.len(),
            primitive_end(js@, i as int) == primitive_end(js@, start as int),
        decreases js@.len() - i,
    {
        let c = js[i];
        if space_byte(c) || c == 0x3au8 || c == 0x2cu8 || c == 0x5du8 || c == 0x7du8 {
            return Ok(i);
        }
        if c < 0x20u8 || c >= 0x7fu8 {
            return Err(JsmnErr::JsmErrorInval);
        }
        i = i + 1;
    }
    Ok(i)
}

/// The slot of the container that a closing byte of type `typ` closes.
fn find_open(tokens: &[JsmnTok], next: usize, typ: JsmnType, sup: isize) -> (r: Closing)
    requires
        1 <= next <= tokens@.len(),
        forall|i: int| 0 <= i < next ==> -1 <= #[trigger] tokens@[i].parent < i,
    ensures
        r == close_walk(tokens@, next - 1, typ, sup as int),
{
    let mut k: usize = next - 1;
    loop
        invariant
            k < next <= tokens@.len(),
            forall|i: int| 0 <= i < next ==> -1 <= #[trigger] tokens@[i].parent < i,
            close_walk(tokens@, k as int, typ, sup as int) == close_walk(
                tokens@,
                next - 1,
                typ,
                sup as int,
            ),
        decreases k,
    {
        let t = tokens[k];
        if t.start != -1 && t.end == -1 {
            if t.typ != typ {
                return Closing::Bad;
            } else {
                return Closing::At(k);
            }
        }
        if t.parent == -1 {
            if t.typ != typ || sup == -1 {
                return Closing::Bad;
            } else {
                return Closing::Keep;
            }
        }
        assert(0 <= t.parent < k);
        k = t.parent as usize;
    }
}

/// Count one more child in the superior's slot, if there is a superior.
fn bump_superior(sup: isize, tokens: &mut [JsmnTok])
    requires
        -1 <= sup < old(tokens)@.len(),
        sup != -1 ==> old(tokens)@[sup as int].size < i32::MAX,
    ensures
        final(tokens)@ == bump(old(tokens)@, sup as int),
{
    if sup != -1 {
        let k = sup as usize;
        let mut t = tokens[k];
        t.size = t.size + 1;
        tokens[k] = t;
    }
}

/// Fill the next free slot with a unit whose parent is the superior.
fn push_token(parser: &mut JsmnParser, tokens: &mut [JsmnTok], typ: JsmnType, start: usize, end: i32)
    requires
        wf(scan_of(*old(parser), old(tokens)@)),
        old(parser).toknext < old(tokens)@.len(),
        start <= i32::MAX,
    ensures
        final(tokens)@ == push(scan_of(*old(parser), old(tokens)@), typ, start as int, end as int),
        *final(parser) == (JsmnParser { toknext: (old(parser).toknext + 1) as usize, ..*old(parser) }),
{
    let ghost s = scan_of(*parser, tokens@);
    let sup = parser.toksuper;
    if sup != -1 {
        assert(0 <= s.toks[sup as int].size <= s.next - 1 - sup);
    }
    bump_superior(sup, tokens);
    let n = parser.toknext;
    tokens[n] = JsmnTok { typ, start: start as i32, end, size: 0, parent: sup as i32 };
    parser.toknext = n + 1;
}

/// Read the byte at `parser.pos`. On failure nothing changes.
fn scan_step(parser: &mut JsmnParser, js: &[u8], tokens: &mut [JsmnTok]) -> (r: Result<(), JsmnErr>)
    requires
        wf(scan_of(*old(parser), old(tokens)@)),
        in_text(js@, old(parser).pos as int),
        js@.len() <= i32::MAX,
    ensures
        match step(scan_of(*old(parser), old(tokens)@), js@) {
            Step::Next(t) => r is Ok && scan_of(*final(parser), final(tokens)@) == t,
            Step::Fail(e) => r == Err::<(), JsmnErr>(e) && *final(parser) == *old(parser)
                && final(tokens)@ == old(tokens)@,
        },
{
    let ghost s = scan_of(*parser, tokens@);
    let pos = parser.pos;
    let c = js[pos];
    let full = parser.toknext >= tokens.len();
    if c == 0x7bu8 || c == 0x5bu8 {
        let typ = if c == 0x7bu8 { JsmnType::JsmnObject } else { JsmnType::JsmnArray };
        if full {
            return Err(JsmnErr::JsmErrorNoMem);
        }
        let n = parser.toknext;
        push_token(parser, tokens, typ, pos, -1);
        parser.toksuper = n as isize;
        parser.pos = pos + 1;
        Ok(())
    } else if c == 0x7du8 || c == 0x5du8 {
        let typ = if c == 0x7du8 { JsmnType::JsmnObject } else { JsmnType::JsmnArray };
        if parser.toknext < 1 {
            return Err(JsmnErr::JsmErrorInval);
        }
        proof {
            lemma_close_walk_bounds(tokens@, parser.toknext - 1, typ, parser.toksuper as int);
        }
        match find_open(tokens, parser.toknext, typ, parser.toksuper) {
            Closing::At(k) => {
                let mut t = tokens[k];
                t.end = (pos + 1) as i32;
                tokens[k] = t;
                parser.toksuper = t.parent as isize;
                parser.pos = pos + 1;
                Ok(())
            },
            Closing::Keep => {
                parser.pos = pos + 1;
                Ok(())
            },
            Closing::Bad => Err(JsmnErr::JsmErrorInval),
        }
    } else if c == 0x22u8 {
        proof {
            lemma_string_end_bounds(js@, pos + 1, 0);
        }
        match scan_string(js, pos + 1) {
            Ok(j) => {
                if full {
                    return Err(JsmnErr::JsmErrorNoMem);
                }
                push_token(parser, tokens, JsmnType::JsmnString, pos + 1, j as i32);
                parser.pos = j + 1;
                Ok(())
            },
            Err(e) => Err(e),
        }
    } else if space_byte(c) {
        parser.pos = pos + 1;
        Ok(())
    } else if c == 0x3au8 {
        parser.toksuper = parser.toknext as isize - 1;
        parser.pos = pos + 1;
        Ok(())
    } else if c == 0x2cu8 {
        let sup = parser.toksuper;
        if sup != -1 && tokens[sup as usize].typ != JsmnType::JsmnArray && tokens[sup
            as usize].typ != JsmnType::JsmnObject {
            parser.toksuper = tokens[sup as usize].parent as isize;
        }
        parser.pos = pos + 1;
        Ok(())
    } else {
        proof {
            lemma_primitive_end_bounds(js@, pos as int);
        }
        match scan_primitive(js, pos) {
            Ok(j) => {
                if full {
                    return Err(JsmnErr::JsmErrorNoMem);
                }
                push_token(parser, tokens, JsmnType::JsmnPrimitive, pos, j as i32);
                parser.pos = j;
                Ok(())
            },
            Err(e) => Err(e),
        }
    }
}

/// Whether a filled slot holds a container that is still open.
fn any_open(tokens: &[JsmnTok], next: usize) -> (r: bool)
    requires
        next <= tokens@.len(),
    ensures
        r == exists|i: int| 0 <= i < next && #[trigger] is_open(tokens@[i]),
{
    let mut i: usize = next;
    while i > 0
        invariant
            i <= next <= tokens@.len(),
            forall|m: int| i <= m < next ==> !#[trigger] is_open(tokens@[m]),
        decreases i,
    {
        i = i - 1;
        if tokens[i].start != -1 && tokens[i].end == -1 {
            assert(is_open(tokens@[i as int]));
            return true;
        }
    }
    false
}

/// Tokenize the bytes `js`, resuming from `parser`, into `tokens`.
///
/// The parser and the token array end in the state that [`run`] gives, and
/// the result is the one it gives: `Ok` with the number of filled slots once
/// the text is exhausted with no container left open.
pub fn parse_bytes(parser: &mut JsmnParser, js: &[u8], tokens: &mut [JsmnTok]) -> (r: Result<
    usize,
    JsmnErr,
>)
    requires
        wf(scan_of(*old(parser), old(tokens)@)),
        js@.len() <= i32::MAX,
    ensures
        (scan_of(*final(parser), final(tokens)@), r) == run(scan_of(*old(parser), old(tokens)@), js@),
        wf(scan_of(*final(parser), final(tokens)@)),
{
    while parser.pos < js.len() && js[parser.pos] != 0
        invariant
            wf(scan_of(*parser, tokens@)),
            js@.len() <= i32::MAX,
            run(scan_of(*parser, tokens@), js@) == run(scan_of(*old(parser), old(tokens)@), js@),
        decreases js@.len() - parser.pos,
    {
        proof {
            lemma_step_wf(scan_of(*parser, tokens@), js@);
        }
        match scan_step(parser, js, tokens) {
            Ok(()) => {},
            Err(e) => {
                return Err(e);
            },
        }
    }
    if any_open(tokens, parser.toknext) {
        Err(JsmnErr::JsmErrorPart)
    } else {
        Ok(parser.toknext)
    }
}

/// Tokenize the JSON text `js`, resuming from `parser`, into `tokens`.
///
/// A fresh parser and any token array are a valid start; after a
/// `JsmErrorNoMem` the same parser resumes with a larger array that holds the
/// slots already filled.
pub fn jsmn_parse(parser: &mut JsmnParser, js: &str, tokens: &mut [JsmnTok]) -> (r: Result<
    usize,
    JsmnErr,
>)
    requires
        wf(scan_of(*old(parser), old(tokens)@)),
        js.spec_bytes().len() <= i32::MAX,
    ensures
        (scan_of(*final(parser), final(tokens)@), r) == run(
            scan_of(*old(parser), old(tokens)@),
            js.spec_bytes(),
        ),
        wf(scan_of(*final(parser), final(tokens)@)),
{
    parse_bytes(parser, js.as_bytes(), tokens)
}

} // verus!
