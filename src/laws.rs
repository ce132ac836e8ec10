//! Properties of scans, proved over the model: how the token array may be
//! grown and a scan resumed, what a repeated scan does, and where tokens lie
//! in the text.
use vstd::prelude::*;
use crate::token::{JsmnErr, JsmnTok, JsmnType};
use crate::model::{
    Scan, Step, wf, is_open, is_space, in_text, step, finish, run, close_walk, push,
    string_end, primitive_end, lemma_step_wf, lemma_close_walk_bounds, lemma_string_end_bounds,
    lemma_primitive_end_bounds, is_hex, ends_primitive,
};

verus! {

/// A scan at the start of the text with no slot filled, over the array `toks`.
pub open spec fn fresh(toks: Seq<JsmnTok>) -> Scan {
    Scan { pos: 0, next: 0, sup: -1, toks }
}

/// Two scans at the same point whose filled slots hold the same tokens; the
/// arrays may differ in length and past the filled slots.
pub open spec fn agree(s: Scan, t: Scan) -> bool {
    &&& s.pos == t.pos
    &&& s.next == t.next
    &&& s.sup == t.sup
    &&& forall|i: int| 0 <= i < s.next ==> #[trigger] s.toks[i] == t.toks[i]
}

/// A scan never fills fewer slots than it started with.
proof fn lemma_run_next_grows(s: Scan, js: Seq<u8>)
    requires
        wf(s),
        js.len() <= i32::MAX,
    ensures
        s.next <= run(s, js).0.next,
        wf(run(s, js).0),
        run(s, js).0.toks.len() == s.toks.len(),
    decreases js.len() - s.pos,
{
    if in_text(js, s.pos) {
        lemma_step_wf(s, js);
        if let Step::Next(t) = step(s, js) {
            lemma_run_next_grows(t, js);
        }
    }
}

proof fn lemma_close_walk_agree(s: Scan, t: Scan, k: int, typ: JsmnType)
    requires
        wf(s),
        wf(t),
        agree(s, t),
        k < s.next,
    ensures
        close_walk(s.toks, k, typ, s.sup) == close_walk(t.toks, k, typ, t.sup),
    decreases k,
{
    if 0 <= k {
        assert(s.toks[k] == t.toks[k]);
        let p = s.toks[k].parent as int;
        if !is_open(s.toks[k]) && p != -1 && 0 <= p < k {
            lemma_close_walk_agree(s, t, p, typ);
        }
    }
}

proof fn lemma_push_agree(s: Scan, t: Scan, typ: JsmnType, start: int, end: int)
    requires
        wf(s),
        wf(t),
        agree(s, t),
        s.next < s.toks.len(),
        t.next < t.toks.len(),
    ensures
        forall|i: int| 0 <= i <= s.next ==> #[trigger] push(s, typ, start, end)[i] == push(
            t,
            typ,
            start,
            end,
        )[i],
{
    if s.sup != -1 {
        assert(s.toks[s.sup] == t.toks[t.sup]);
    }
}

/// One step from two agreeing scans: the same outcome, unless only the
/// smaller array is out of slots.
proof fn lemma_step_agree(s: Scan, t: Scan, js: Seq<u8>)
    requires
        wf(s),
        wf(t),
        agree(s, t),
        in_text(js, s.pos),
        js.len() <= i32::MAX,
        step(t, js) is Next,
    ensures
        ({
            let t2 = step(t, js)->Next_0;
            if t2.next == t.next + 1 && s.next >= s.toks.len() {
                step(s, js) == Step::Fail(JsmnErr::JsmErrorNoMem)
            } else {
                step(s, js) matches Step::Next(s2) && agree(s2, t2)
            }
        }),
{
    lemma_step_wf(t, js);
    lemma_step_wf(s, js);
    let c = js[s.pos];
    let room = s.next < s.toks.len() && t.next < t.toks.len();
    if c == 0x7bu8 || c == 0x5bu8 {
        let typ = if c == 0x7bu8 { JsmnType::JsmnObject } else { JsmnType::JsmnArray };
        if room {
            lemma_push_agree(s, t, typ, s.pos, -1);
        }
    } else if c == 0x7du8 || c == 0x5du8 {
        let typ = if c == 0x7du8 { JsmnType::JsmnObject } else { JsmnType::JsmnArray };
        if s.next >= 1 {
            lemma_close_walk_agree(s, t, s.next - 1, typ);
            lemma_close_walk_bounds(s.toks, s.next - 1, typ, s.sup);
        }
    } else if c == 0x22u8 {
        if let Ok(j) = string_end(js, s.pos + 1, 0) {
            if room {
                lemma_push_agree(s, t, JsmnType::JsmnString, s.pos + 1, j);
            }
        }
    } else if is_space(c) || c == 0x3au8 {
    } else if c == 0x2cu8 {
        if s.sup != -1 {
            assert(s.toks[s.sup] == t.toks[t.sup]);
        }
    } else {
        if let Ok(j) = primitive_end(js, s.pos) {
            if room {
                lemma_push_agree(s, t, JsmnType::JsmnPrimitive, s.pos, j);
            }
        }
    }
}

/// Following a successful scan `t` from an agreeing scan `s`: with enough
/// slots `s` ends the same way; with too few it runs out of slots exactly when
/// they are all filled, agreeing with a state `u` that `t` passes through.
proof fn lemma_run_agree(s: Scan, t: Scan, js: Seq<u8>) -> (u: Scan)
    requires
        wf(s),
        wf(t),
        agree(s, t),
        js.len() <= i32::MAX,
        run(t, js).1 is Ok,
    ensures
        s.toks.len() >= run(t, js).0.next ==> run(s, js).1 == run(t, js).1 && agree(
            run(s, js).0,
            run(t, js).0,
        ),
        s.toks.len() < run(t, js).0.next ==> {
            &&& run(s, js).1 == Err::<usize, JsmnErr>(JsmnErr::JsmErrorNoMem)
            &&& run(s, js).0.next == s.toks.len()
            &&& wf(u)
            &&& run(u, js) == run(t, js)
            &&& agree(run(s, js).0, u)
        },
    decreases js.len() - t.pos,
{
    lemma_run_next_grows(t, js);
    if in_text(js, t.pos) {
        lemma_step_wf(t, js);
        lemma_step_wf(s, js);
        let t2 = step(t, js)->Next_0;
        lemma_step_agree(s, t, js);
        lemma_run_next_grows(t2, js);
        if t2.next == t.next + 1 && s.next >= s.toks.len() {
            t
        } else {
            let s2 = step(s, js)->Next_0;
            lemma_run_agree(s2, t2, js)
        }
    } else {
        assert(finish(s) == finish(t)) by {
            if exists|i: int| 0 <= i < t.next && #[trigger] is_open(t.toks[i]) {
                let i = choose|i: int| 0 <= i < t.next && #[trigger] is_open(t.toks[i]);
                assert(s.toks[i] == t.toks[i]);
            }
        }
        t
    }
}

/// How many slots suffice does not depend on the array: if a fresh scan of
/// `js` over `big` succeeds with `n` tokens, a fresh scan over any array of
/// at least `n` slots succeeds with `n` tokens and fills them identically.
pub proof fn law_enough_slots(js: Seq<u8>, big: Seq<JsmnTok>, other: Seq<JsmnTok>)
    requires
        js.len() <= i32::MAX,
        big.len() <= i32::MAX,
        other.len() <= i32::MAX,
        run(fresh(big), js).1 is Ok,
        other.len() >= run(fresh(big), js).0.next,
    ensures
        run(fresh(other), js).1 == run(fresh(big), js).1,
        run(fresh(big), js).1 == Ok::<usize, JsmnErr>(run(fresh(big), js).0.next as usize),
        forall|i: int|
            0 <= i < run(fresh(big), js).0.next ==> #[trigger] run(fresh(other), js).0.toks[i]
                == run(fresh(big), js).0.toks[i],
{
    lemma_run_agree(fresh(other), fresh(big), js);
    lemma_run_next_grows(fresh(big), js);
    lemma_run_ok_count(fresh(big), js);
}

proof fn lemma_run_ok_count(s: Scan, js: Seq<u8>)
    requires
        wf(s),
        js.len() <= i32::MAX,
    ensures
        run(s, js).1 is Ok ==> run(s, js).1 == Ok::<usize, JsmnErr>(run(s, js).0.next as usize)
            && finish(run(s, js).0) == run(s, js).1,
    decreases js.len() - s.pos,
{
    if in_text(js, s.pos) {
        lemma_step_wf(s, js);
        if let Step::Next(t) = step(s, js) {
            lemma_run_ok_count(t, js);
        }
    }
}

/// Resuming after running out of slots. If a fresh scan of `js` succeeds with
/// `n` tokens, a fresh scan over `small`, of fewer than `n` slots, fails with
/// `JsmErrorNoMem` once all its slots are filled; resumed from the state it
/// left, over an array `more` of at least `n` slots that begins with those
/// filled slots, it succeeds with `n` tokens, the same as the direct scan.
pub proof fn law_resume_after_no_memory(
    js: Seq<u8>,
    big: Seq<JsmnTok>,
    small: Seq<JsmnTok>,
    more: Seq<JsmnTok>,
)
    requires
        js.len() <= i32::MAX,
        big.len() <= i32::MAX,
        more.len() <= i32::MAX,
        run(fresh(big), js).1 is Ok,
        small.len() < run(fresh(big), js).0.next,
        more.len() >= run(fresh(big), js).0.next,
        forall|i: int| 0 <= i < small.len() ==> #[trigger] more[i] == run(fresh(small), js).0.toks[i],
    ensures
        run(fresh(small), js).1 == Err::<usize, JsmnErr>(JsmnErr::JsmErrorNoMem),
        run(fresh(small), js).0.next == small.len(),
        ({
            let resumed = run(Scan { toks: more, ..run(fresh(small), js).0 }, js);
            &&& resumed.1 == run(fresh(big), js).1
            &&& resumed.0.next == run(fresh(big), js).0.next
            &&& forall|i: int|
                0 <= i < run(fresh(big), js).0.next ==> #[trigger] resumed.0.toks[i] == run(
                    fresh(big),
                    js,
                ).0.toks[i]
        }),
{
    let u = lemma_run_agree(fresh(small), fresh(big), js);
    let s1 = run(fresh(small), js).0;
    let s2 = Scan { toks: more, ..s1 };
    assert forall|i: int| 0 <= i < s2.next implies #[trigger] s2.toks[i] == u.toks[i] by {
        assert(s1.toks[i] == u.toks[i]);
    }
    assert forall|i: int| 0 <= i < s2.next implies {
        &&& -1 <= (#[trigger] s2.toks[i]).parent < i
        &&& 0 <= s2.toks[i].size <= s2.next - 1 - i
    } by {
        assert(s2.toks[i] == u.toks[i]);
    }
    lemma_run_next_grows(u, js);
    lemma_run_agree(s2, u, js);
}

/// Scanning again from where a scan stopped, over the same array, changes
/// nothing and gives the same outcome: a failed scan repeated with the same
/// slots fails the same way and leaves every slot as it was.
pub proof fn law_rescan_is_stable(s: Scan, js: Seq<u8>)
    requires
        wf(s),
        js.len() <= i32::MAX,
    ensures
        run(run(s, js).0, js) == run(s, js),
    decreases js.len() - s.pos,
{
    if in_text(js, s.pos) {
        lemma_step_wf(s, js);
        if let Step::Next(t) = step(s, js) {
            law_rescan_is_stable(t, js);
        }
    }
}

proof fn lemma_step_keeps_slots(s: Scan, js: Seq<u8>)
    requires
        wf(s),
        in_text(js, s.pos),
        js.len() <= i32::MAX,
    ensures
        step(s, js) matches Step::Next(t) ==> {
            &&& forall|i: int|
                0 <= i < s.next ==> (#[trigger] t.toks[i]).typ == s.toks[i].typ && t.toks[i].start
                    == s.toks[i].start && t.toks[i].parent == s.toks[i].parent
            &&& forall|i: int| t.next <= i < s.toks.len() ==> #[trigger] t.toks[i] == s.toks[i]
        },
{
    lemma_step_wf(s, js);
    if s.next >= 1 {
        lemma_close_walk_bounds(s.toks, s.next - 1, JsmnType::JsmnObject, s.sup);
        lemma_close_walk_bounds(s.toks, s.next - 1, JsmnType::JsmnArray, s.sup);
    }
}

/// A scan keeps the type, start and parent of every slot filled before it
/// began, and leaves every slot past the ones it filled untouched.
pub proof fn law_filled_slots_kept(s: Scan, js: Seq<u8>)
    requires
        wf(s),
        js.len() <= i32::MAX,
    ensures
        forall|i: int|
            0 <= i < s.next ==> (#[trigger] run(s, js).0.toks[i]).typ == s.toks[i].typ && run(
                s,
                js,
            ).0.toks[i].start == s.toks[i].start && run(s, js).0.toks[i].parent
                == s.toks[i].parent,
        forall|i: int|
            run(s, js).0.next <= i < s.toks.len() ==> #[trigger] run(s, js).0.toks[i]
                == s.toks[i],
    decreases js.len() - s.pos,
{
    lemma_run_next_grows(s, js);
    if in_text(js, s.pos) {
        lemma_step_wf(s, js);
        lemma_step_keeps_slots(s, js);
        if let Step::Next(t) = step(s, js) {
            law_filled_slots_kept(t, js);
            lemma_run_next_grows(t, js);
            assert forall|i: int| 0 <= i < s.next implies (#[trigger] run(s, js).0.toks[i]).typ
                == s.toks[i].typ && run(s, js).0.toks[i].start == s.toks[i].start && run(
                s,
                js,
            ).0.toks[i].parent == s.toks[i].parent by {
                assert(t.toks[i].typ == s.toks[i].typ);
            }
            assert forall|i: int| run(s, js).0.next <= i < s.toks.len() implies #[trigger] run(
                s,
                js,
            ).0.toks[i] == s.toks[i] by {
                assert(t.toks[i] == s.toks[i]);
            }
        }
    }
}

/// Every filled slot starts in the read part of the text, and ends there too
/// unless it is a container still open.
pub open spec fn spans_read(s: Scan, js: Seq<u8>) -> bool {
    &&& 0 <= s.pos <= js.len()
    &&& forall|i: int|
        0 <= i < s.next ==> {
            &&& 0 <= (#[trigger] s.toks[i]).start <= s.pos
            &&& s.toks[i].end == -1 || s.toks[i].start <= s.toks[i].end <= s.pos
        }
}

proof fn lemma_step_spans(s: Scan, js: Seq<u8>)
    requires
        wf(s),
        spans_read(s, js),
        in_text(js, s.pos),
        js.len() <= i32::MAX,
    ensures
        step(s, js) matches Step::Next(t) ==> spans_read(t, js),
{
    lemma_step_wf(s, js);
    lemma_string_end_bounds(js, s.pos + 1, 0);
    lemma_primitive_end_bounds(js, s.pos);
    if s.next >= 1 {
        lemma_close_walk_bounds(s.toks, s.next - 1, JsmnType::JsmnObject, s.sup);
        lemma_close_walk_bounds(s.toks, s.next - 1, JsmnType::JsmnArray, s.sup);
    }
    if let Step::Next(t) = step(s, js) {
        assert forall|i: int| 0 <= i < t.next implies {
            &&& 0 <= (#[trigger] t.toks[i]).start <= t.pos
            &&& t.toks[i].end == -1 || t.toks[i].start <= t.toks[i].end <= t.pos
        } by {
            if i < s.next {
                assert(0 <= s.toks[i].start <= s.pos);
            }
        }
    }
}

proof fn lemma_run_spans(s: Scan, js: Seq<u8>)
    requires
        wf(s),
        spans_read(s, js),
        js.len() <= i32::MAX,
    ensures
        spans_read(run(s, js).0, js),
    decreases js.len() - s.pos,
{
    if in_text(js, s.pos) {
        lemma_step_wf(s, js);
        lemma_step_spans(s, js);
        if let Step::Next(t) = step(s, js) {
            lemma_run_spans(t, js);
        }
    }
}

/// Every token lies in the text. After a scan from the start, each filled
/// slot has `0 <= start` and, unless it is a container left open,
/// `start <= end <= js.len()`; a successful scan leaves no container open.
pub proof fn law_spans_within_text(js: Seq<u8>, toks: Seq<JsmnTok>)
    requires
        js.len() <= i32::MAX,
        toks.len() <= i32::MAX,
    ensures
        forall|i: int|
            0 <= i < run(fresh(toks), js).0.next ==> {
                let t = #[trigger] run(fresh(toks), js).0.toks[i];
                &&& 0 <= t.start
                &&& t.end == -1 || t.start <= t.end <= js.len()
                &&& run(fresh(toks), js).1 is Ok ==> t.start <= t.end <= js.len()
            },
{
    lemma_run_spans(fresh(toks), js);
    let f = run(fresh(toks), js).0;
    lemma_run_next_grows(fresh(toks), js);
    lemma_run_ok_count(fresh(toks), js);
    assert forall|i: int| 0 <= i < f.next implies {
        let t = #[trigger] f.toks[i];
        &&& 0 <= t.start
        &&& t.end == -1 || t.start <= t.end <= js.len()
        &&& run(fresh(toks), js).1 is Ok ==> t.start <= t.end <= js.len()
    } by {
        if run(fresh(toks), js).1 is Ok {
            assert(!is_open(f.toks[i]));
        }
    }
}

/// The bytes at a token's offsets are those of its kind: an object starts at
/// `{` and, once closed, ends just past `}` (an array likewise with `[` and
/// `]`); a string lies between two quotes; a primitive is non-empty and is
/// followed by a byte that ends it or by the end of the text.
pub open spec fn delimited(t: JsmnTok, js: Seq<u8>) -> bool {
    let start = t.start as int;
    let end = t.end as int;
    match t.typ {
        JsmnType::JsmnObject => js[start] == 0x7bu8 && (end == -1 || js[end - 1] == 0x7du8),
        JsmnType::JsmnArray => js[start] == 0x5bu8 && (end == -1 || js[end - 1] == 0x5du8),
        JsmnType::JsmnString => 1 <= start && js[start - 1] == 0x22u8 && end < js.len() && js[end]
            == 0x22u8,
        JsmnType::JsmnPrimitive => start < end && (!in_text(js, end) || ends_primitive(js[end])),
        JsmnType::JsmnUndefined => false,
    }
}

pub open spec fn all_delimited(s: Scan, js: Seq<u8>) -> bool {
    forall|i: int| 0 <= i < s.next ==> delimited(#[trigger] s.toks[i], js)
}

proof fn lemma_string_end_quote(js: Seq<u8>, i: int, h: int)
    ensures
        string_end(js, i, h) matches Ok(j) ==> 0 <= j < js.len() && js[j] == 0x22u8,
    decreases js.len() - i,
{
    if in_text(js, i) {
        if h > 0 {
            if is_hex(js[i]) {
                lemma_string_end_quote(js, i + 1, h - 1);
            }
        } else if js[i] == 0x22u8 {
        } else if js[i] == 0x5cu8 && i + 1 < js.len() {
            lemma_string_end_quote(js, i + 2, 0);
            lemma_string_end_quote(js, i + 2, 4);
        } else {
            lemma_string_end_quote(js, i + 1, 0);
        }
    }
}

proof fn lemma_primitive_end_stop(js: Seq<u8>, i: int)
    ensures
        primitive_end(js, i) matches Ok(j) ==> !in_text(js, j) || ends_primitive(js[j]),
    decreases js.len() - i,
{
    if in_text(js, i) && !ends_primitive(js[i]) && !(js[i] < 0x20u8 || js[i] >= 0x7fu8) {
        lemma_primitive_end_stop(js, i + 1);
    }
}

proof fn lemma_step_delimited(s: Scan, js: Seq<u8>)
    requires
        wf(s),
        spans_read(s, js),
        all_delimited(s, js),
        in_text(js, s.pos),
        js.len() <= i32::MAX,
    ensures
        step(s, js) matches Step::Next(t) ==> all_delimited(t, js),
{
    lemma_step_wf(s, js);
    lemma_string_end_bounds(js, s.pos + 1, 0);
    lemma_string_end_quote(js, s.pos + 1, 0);
    lemma_primitive_end_bounds(js, s.pos + 1);
    lemma_primitive_end_stop(js, s.pos);
    if s.next >= 1 {
        lemma_close_walk_bounds(s.toks, s.next - 1, JsmnType::JsmnObject, s.sup);
        lemma_close_walk_bounds(s.toks, s.next - 1, JsmnType::JsmnArray, s.sup);
    }
    if let Step::Next(t) = step(s, js) {
        assert forall|i: int| 0 <= i < t.next implies delimited(#[trigger] t.toks[i], js) by {
            if i < s.next {
                assert(delimited(s.toks[i], js));
                assert(0 <= s.toks[i].start <= s.pos);
            }
        }
    }
}

proof fn lemma_run_delimited(s: Scan, js: Seq<u8>)
    requires
        wf(s),
        spans_read(s, js),
        all_delimited(s, js),
        js.len() <= i32::MAX,
    ensures
        all_delimited(run(s, js).0, js),
    decreases js.len() - s.pos,
{
    if in_text(js, s.pos) {
        lemma_step_wf(s, js);
        lemma_step_spans(s, js);
        lemma_step_delimited(s, js);
        if let Step::Next(t) = step(s, js) {
            lemma_run_delimited(t, js);
        }
    }
}

/// Offsets lead back to the text: after a scan from the start, every filled
/// slot's offsets sit on the bytes of its kind (see [`delimited`]).
pub proof fn law_tokens_delimited(js: Seq<u8>, toks: Seq<JsmnTok>)
    requires
        js.len() <= i32::MAX,
        toks.len() <= i32::MAX,
    ensures
        all_delimited(run(fresh(toks), js).0, js),
{
    lemma_run_delimited(fresh(toks), js);
}

} // verus!
