//! The tokenizer as a state machine over integers and sequences: one step per
//! byte read, and a whole scan as the repetition of steps until the text ends.
use vstd::prelude::*;
use crate::token::{JsmnType, JsmnErr, JsmnTok, JsmnParser};

verus! {

/// The mathematical state of a scan: parser fields as integers and the
/// whole token array as a sequence.
pub struct Scan {
    pub pos: int,
    pub next: int,
    pub sup: int,
    pub toks: Seq<JsmnTok>,
}

pub open spec fn scan_of(p: JsmnParser, toks: Seq<JsmnTok>) -> Scan {
    Scan { pos: p.pos as int, next: p.toknext as int, sup: p.toksuper as int, toks }
}

/// A parser that has read nothing and filled no slot.
pub open spec fn is_fresh(p: JsmnParser) -> bool {
    p.pos == 0 && p.toknext == 0 && p.toksuper == -1
}

/// The states a scan can be resumed from: the slots in use fit the array,
/// parent links point to earlier slots, and no child count can overflow.
pub open spec fn wf(s: Scan) -> bool {
    &&& 0 <= s.next <= s.toks.len() <= i32::MAX
    &&& -1 <= s.sup < s.next
    &&& forall|i: int|
        0 <= i < s.next ==> {
            &&& -1 <= (#[trigger] s.toks[i]).parent < i
            &&& 0 <= s.toks[i].size <= s.next - 1 - i
        }
}

/// An object or array whose closing byte has not been read yet.
pub open spec fn is_open(t: JsmnTok) -> bool {
    t.start != -1 && t.end == -1
}

pub open spec fn is_space(c: u8) -> bool {
    c == 0x20u8 || c == 0x09u8 || c == 0x0au8 || c == 0x0du8
}

pub open spec fn is_hex(c: u8) -> bool {
    (0x30u8 <= c <= 0x39u8) || (0x41u8 <= c <= 0x46u8) || (0x61u8 <= c <= 0x66u8)
}

/// The bytes that may follow a backslash on their own: `" / \ b f r n t`.
pub open spec fn is_short_escape(c: u8) -> bool {
    c == 0x22u8 || c == 0x2fu8 || c == 0x5cu8 || c == 0x62u8 || c == 0x66u8 || c == 0x72u8
        || c == 0x6eu8 || c == 0x74u8
}

/// The bytes that end a primitive: whitespace, `:`, `,`, `]` and `}`.
pub open spec fn ends_primitive(c: u8) -> bool {
    is_space(c) || c == 0x3au8 || c == 0x2cu8 || c == 0x5du8 || c == 0x7du8
}

/// Whether byte `i` lies in the text: the text stops at its length or at a NUL byte.
pub open spec fn in_text(js: Seq<u8>, i: int) -> bool {
    0 <= i < js.len() && js[i] != 0
}

/// Where the string whose body starts at `i` ends: `Ok` with the offset of the
/// closing quote. `h` is the number of hex digits still owed to a `\u` escape.
pub open spec fn string_end(js: Seq<u8>, i: int, h: int) -> Result<int, JsmnErr>
    decreases js.len() - i,
{
    if !in_text(js, i) {
        Err(JsmnErr::JsmErrorPart)
    } else if h > 0 {
        if is_hex(js[i]) {
            string_end(js, i + 1, h - 1)
        } else {
            Err(JsmnErr::JsmErrorInval)
        }
    } else if js[i] == 0x22u8 {
        Ok(i)
    } else if js[i] == 0x5cu8 && i + 1 < js.len() {
        if is_short_escape(js[i + 1]) {
            string_end(js, i + 2, 0)
        } else if js[i + 1] == 0x75u8 {
            string_end(js, i + 2, 4)
        } else {
            Err(JsmnErr::JsmErrorInval)
        }
    } else {
        string_end(js, i + 1, 0)
    }
}

/// Where the primitive that reaches byte `i` ends: at the first byte that ends
/// a primitive, or at the end of the text. A control or non-ASCII byte on the
/// way is malformed.
pub open spec fn primitive_end(js: Seq<u8>, i: int) -> Result<int, JsmnErr>
    decreases js.len() - i,
{
    if !in_text(js, i) || ends_primitive(js[i]) {
        Ok(i)
    } else if js[i] < 0x20u8 || js[i] >= 0x7fu8 {
        Err(JsmnErr::JsmErrorInval)
    } else {
        primitive_end(js, i + 1)
    }
}

/// What a closing `}` or `]` does.
#[derive(Debug, Copy, Clone, PartialEq, Eq, Structural)]
pub enum Closing {
    /// It closes the open container in this slot.
    At(usize),
    /// It reaches a top-level unit of its own type with nothing open: no change.
    Keep,
    /// It matches nothing: malformed.
    Bad,
}

/// Walk from slot `k` up the parent links to the container that a closing
/// byte of type `typ` closes.
pub open spec fn close_walk(toks: Seq<JsmnTok>, k: int, typ: JsmnType, sup: int) -> Closing
    decreases k,
{
    if !(0 <= k < toks.len()) {
        Closing::Bad
    } else if is_open(toks[k]) {
        if toks[k].typ != typ {
            Closing::Bad
        } else {
            Closing::At(k as usize)
        }
    } else if toks[k].parent == -1 {
        if toks[k].typ != typ || sup == -1 {
            Closing::Bad
        } else {
            Closing::Keep
        }
    } else if 0 <= toks[k].parent < k {
        close_walk(toks, toks[k].parent as int, typ, sup)
    } else {
        Closing::Bad
    }
}

pub open spec fn new_tok(typ: JsmnType, start: int, end: int, parent: int) -> JsmnTok {
    JsmnTok { typ, start: start as i32, end: end as i32, size: 0, parent: parent as i32 }
}

/// Count one more child in slot `sup`, if there is a superior.
pub open spec fn bump(toks: Seq<JsmnTok>, sup: int) -> Seq<JsmnTok> {
    if sup == -1 {
        toks
    } else {
        toks.update(sup, JsmnTok { size: (toks[sup].size + 1) as i32, ..toks[sup] })
    }
}

/// Fill the next free slot with a new unit whose parent is the superior.
pub open spec fn push(s: Scan, typ: JsmnType, start: int, end: int) -> Seq<JsmnTok> {
    bump(s.toks, s.sup).update(s.next, new_tok(typ, start, end, s.sup))
}

pub enum Step {
    Next(Scan),
    Fail(JsmnErr),
}

/// What reading the byte at `s.pos` does. A failed step changes nothing.
pub open spec fn step(s: Scan, js: Seq<u8>) -> Step {
    let c = js[s.pos];
    let full = s.next >= s.toks.len();
    if c == 0x7bu8 || c == 0x5bu8 {
        let typ = if c == 0x7bu8 { JsmnType::JsmnObject } else { JsmnType::JsmnArray };
        if full {
            Step::Fail(JsmnErr::JsmErrorNoMem)
        } else {
            Step::Next(Scan {
                pos: s.pos + 1,
                next: s.next + 1,
                sup: s.next,
                toks: push(s, typ, s.pos, -1),
            })
        }
    } else if c == 0x7du8 || c == 0x5du8 {
        let typ = if c == 0x7du8 { JsmnType::JsmnObject } else { JsmnType::JsmnArray };
        if s.next < 1 {
            Step::Fail(JsmnErr::JsmErrorInval)
        } else {
            match close_walk(s.toks, s.next - 1, typ, s.sup) {
                Closing::At(k) => Step::Next(Scan {
                    pos: s.pos + 1,
                    sup: s.toks[k as int].parent as int,
                    toks: s.toks.update(k as int, JsmnTok { end: (s.pos + 1) as i32, ..s.toks[k as int] }),
                    ..s
                }),
                Closing::Keep => Step::Next(Scan { pos: s.pos + 1, ..s }),
                Closing::Bad => Step::Fail(JsmnErr::JsmErrorInval),
            }
        }
    } else if c == 0x22u8 {
        match string_end(js, s.pos + 1, 0) {
            Ok(j) => if full {
                Step::Fail(JsmnErr::JsmErrorNoMem)
            } else {
                Step::Next(Scan {
                    pos: j + 1,
                    next: s.next + 1,
                    sup: s.sup,
                    toks: push(s, JsmnType::JsmnString, s.pos + 1, j),
                })
            },
            Err(e) => Step::Fail(e),
        }
    } else if is_space(c) {
        Step::Next(Scan { pos: s.pos + 1, ..s })
    } else if c == 0x3au8 {
        Step::Next(Scan { pos: s.pos + 1, sup: s.next - 1, ..s })
    } else if c == 0x2cu8 {
        if s.sup != -1 && s.toks[s.sup].typ != JsmnType::JsmnArray && s.toks[s.sup].typ
            != JsmnType::JsmnObject {
            Step::Next(Scan { pos: s.pos + 1, sup: s.toks[s.sup].parent as int, ..s })
        } else {
            Step::Next(Scan { pos: s.pos + 1, ..s })
        }
    } else {
        match primitive_end(js, s.pos) {
            Ok(j) => if full {
                Step::Fail(JsmnErr::JsmErrorNoMem)
            } else {
                Step::Next(Scan {
                    pos: j,
                    next: s.next + 1,
                    sup: s.sup,
                    toks: push(s, JsmnType::JsmnPrimitive, s.pos, j),
                })
            },
            Err(e) => Step::Fail(e),
        }
    }
}

/// The result once the text is exhausted: an open container means the text
/// was cut short; otherwise the number of filled slots.
pub open spec fn finish(s: Scan) -> Result<usize, JsmnErr> {
    if exists|i: int| 0 <= i < s.next && #[trigger] is_open(s.toks[i]) {
        Err(JsmnErr::JsmErrorPart)
    } else {
        Ok(s.next as usize)
    }
}

/// A whole scan from state `s`: the state it leaves and what it returns.
pub open spec fn run(s: Scan, js: Seq<u8>) -> (Scan, Result<usize, JsmnErr>)
    decreases js.len() - s.pos,
{
    if in_text(js, s.pos) {
        match step(s, js) {
            Step::Next(t) => if s.pos < t.pos <= js.len() {
                run(t, js)
            } else {
                (t, Err(JsmnErr::JsmErrorInval))
            },
            Step::Fail(e) => (s, Err(e)),
        }
    } else {
        (s, finish(s))
    }
}

pub(crate) proof fn lemma_string_end_bounds(js: Seq<u8>, i: int, h: int)
    ensures
        string_end(js, i, h) matches Ok(j) ==> i <= j < js.len(),
    decreases js.len() - i,
{
    if in_text(js, i) {
        if h > 0 {
            if is_hex(js[i]) {
                lemma_string_end_bounds(js, i + 1, h - 1);
            }
        } else if js[i] == 0x22u8 {
        } else if js[i] == 0x5cu8 && i + 1 < js.len() {
            lemma_string_end_bounds(js, i + 2, 0);
            lemma_string_end_bounds(js, i + 2, 4);
        } else {
            lemma_string_end_bounds(js, i + 1, 0);
        }
    }
}

pub(crate) proof fn lemma_primitive_end_bounds(js: Seq<u8>, i: int)
    requires
        0 <= i <= js.len(),
    ensures
        primitive_end(js, i) matches Ok(j) ==> i <= j <= js.len(),
    decreases js.len() - i,
{
    if in_text(js, i) && !ends_primitive(js[i]) && !(js[i] < 0x20u8 || js[i] >= 0x7fu8) {
        lemma_primitive_end_bounds(js, i + 1);
    }
}

pub(crate) proof fn lemma_close_walk_bounds(toks: Seq<JsmnTok>, k: int, typ: JsmnType, sup: int)
    requires
        toks.len() <= usize::MAX,
    ensures
        close_walk(toks, k, typ, sup) matches Closing::At(m) ==> 0 <= m <= k && m < toks.len()
            && is_open(toks[m as int]) && toks[m as int].typ == typ,
    decreases k,
{
    if 0 <= k < toks.len() && !is_open(toks[k]) && toks[k].parent != -1 && 0 <= toks[k].parent < k {
        lemma_close_walk_bounds(toks, toks[k].parent as int, typ, sup);
    }
}

/// A step from a resumable state leads to a resumable state, further on in the text.
pub(crate) proof fn lemma_step_wf(s: Scan, js: Seq<u8>)
    requires
        wf(s),
        in_text(js, s.pos),
        js.len() <= i32::MAX,
    ensures
        step(s, js) matches Step::Next(t) ==> wf(t) && s.pos < t.pos <= js.len() && t.toks.len()
            == s.toks.len() && s.next <= t.next <= s.next + 1,
{
    let c = js[s.pos];
    lemma_string_end_bounds(js, s.pos + 1, 0);
    lemma_primitive_end_bounds(js, s.pos + 1);
    if c == 0x7du8 || c == 0x5du8 {
        let typ = if c == 0x7du8 { JsmnType::JsmnObject } else { JsmnType::JsmnArray };
        if s.next >= 1 {
            lemma_close_walk_bounds(s.toks, s.next - 1, typ, s.sup);
        }
    }
    if let Step::Next(t) = step(s, js) {
        if t.next == s.next + 1 {
            assert forall|i: int| 0 <= i < s.next implies #[trigger] t.toks[i] == (if i == s.sup {
                JsmnTok { size: (s.toks[i].size + 1) as i32, ..s.toks[i] }
            } else {
                s.toks[i]
            }) by {}
            assert(t.toks[s.next].size == 0 && t.toks[s.next].parent == s.sup);
        }
        assert forall|i: int| 0 <= i < t.next implies {
            &&& -1 <= #[trigger] t.toks[i].parent < i
            &&& 0 <= t.toks[i].size <= t.next - 1 - i
        } by {
            if i < s.next {
                assert(-1 <= s.toks[i].parent < i);
            }
        }
    }
}

} // verus!
