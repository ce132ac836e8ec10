//! The records a scan reads and writes.
use vstd::prelude::*;

verus! {

/// The kind of a JSON lexical unit.
#[derive(Debug, Copy, Clone, Default, PartialEq, Eq, Structural)]
pub enum JsmnType {
    #[default]
    JsmnUndefined,
    JsmnObject,
    JsmnArray,
    JsmnString,
    JsmnPrimitive,
}

/// Why a scan stopped early.
#[derive(Debug, Copy, Clone, PartialEq, Eq, Structural)]
pub enum JsmnErr {
    /// The token array is full; resume with a larger one.
    JsmErrorNoMem,
    /// The text is malformed.
    JsmErrorInval,
    /// The text ends inside a string or an open container.
    JsmErrorPart,
}

/// One JSON lexical unit: its type, its byte span `[start, end)` in the text,
/// the number of its immediate children, and the slot of its parent (`-1` for
/// a top-level unit). Containers keep `end == -1` while they are open.
#[derive(Debug, Copy, Clone, PartialEq, Eq, Structural)]
pub struct JsmnTok {
    pub typ: JsmnType,
    pub start: i32,
    pub end: i32,
    pub size: i32,
    pub parent: i32,
}

impl JsmnTok {
    pub fn new() -> (r: Self)
        ensures
            r == (JsmnTok { typ: JsmnType::JsmnUndefined, start: 0, end: 0, size: 0, parent: 0 }),
    {
        JsmnTok { typ: JsmnType::JsmnUndefined, start: 0, end: 0, size: 0, parent: 0 }
    }
}

impl Default for JsmnTok {
    fn default() -> (r: Self)
        ensures
            r == (JsmnTok { typ: JsmnType::JsmnUndefined, start: 0, end: 0, size: 0, parent: -1i32 }),
    {
        JsmnTok { typ: JsmnType::JsmnUndefined, start: 0, end: 0, size: 0, parent: -1 }
    }
}

/// The resumable state of a scan: the next byte to read, the next free token
/// slot, and the slot of the container (or key) currently being filled.
#[derive(Debug, Copy, Clone)]
pub struct JsmnParser {
    pub pos: usize,
    pub toknext: usize,
    pub toksuper: isize,
}

impl JsmnParser {
    /// A parser at the start of a text, with no token filled.
    pub fn new() -> (r: Self)
        ensures
            r.pos == 0,
            r.toknext == 0,
            r.toksuper == -1,
    {
        JsmnParser { pos: 0, toknext: 0, toksuper: -1 }
    }
}

} // verus!
