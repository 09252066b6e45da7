//! An ANSI / VT-500 escape-sequence parser.
//!
//! The control structure follows Paul Williams' DEC parser state diagram
//! (<https://vt100.net/emu/dec_ansi_parser>), extended with a UTF-8 decoder in
//! the ground state so that printable text is delivered as `char`s.
//!
//! The parser is transport-agnostic: it turns a byte stream into semantic
//! events (`Action`s), which `Parser::advance` hands to a `Perform`
//! implementor. All terminal behavior lives in the performer; this file only
//! classifies bytes.

use vstd::prelude::*;
use crate::params::{Params, p_ensure_first, p_push_group, p_push_subparam, p_add_digit, MAX_PARAMS, MAX_SUBPARAMS};
use crate::chars::{char_from_u32, is_scalar_cp};
use crate::text::split_on;

verus! {

/// Maximum intermediate bytes retained.
pub const MAX_INTERMEDIATES: usize = 2;
/// Cap on an OSC string payload to bound memory from a runaway sequence.
pub const MAX_OSC_LEN: usize = 8192;
/// Cap on captured DCS payload (Sixel images can be large, but bound it).
pub const MAX_DCS: usize = 8388608;

#[derive(Clone, Copy, PartialEq, Eq, Debug, Structural)]
pub enum State {
    Ground,
    Escape,
    EscapeIntermediate,
    CsiEntry,
    CsiParam,
    CsiIntermediate,
    CsiIgnore,
    OscString,
    /// DCS payloads are captured and handed on whole.
    DcsPassthrough,
    /// SOS / PM strings are consumed but not acted upon.
    SosPmApcString,
    /// APC payloads are captured and handed on whole (Kitty graphics).
    ApcString,
}

/// The abstract state of the parser.
pub ghost struct ParserModel {
    pub state: State,
    pub params: Seq<Seq<u16>>,
    pub intermediates: Seq<u8>,
    pub ignoring: bool,
    pub osc_raw: Seq<u8>,
    pub dcs_raw: Seq<u8>,
    pub dcs_overflow: bool,
    pub apc_raw: Seq<u8>,
    pub utf8_remaining: u8,
    pub utf8_cp: u32,
    pub utf8_min: u32,
}

/// A recognized token, in the order the bytes produced it.
pub ghost enum Event {
    /// A decoded printable character.
    Print(char),
    /// A run of printable ASCII bytes (0x20..0x7e) seen in the ground state.
    PrintAscii(Seq<u8>),
    /// A C0 control to execute (BEL, BS, HT, LF, CR, ...).
    Execute(u8),
    /// `ESC [ params intermediates action`, with the ignore flag.
    Csi(Seq<Seq<u16>>, Seq<u8>, bool, char),
    /// `ESC intermediates byte`.
    Esc(Seq<u8>, u8),
    /// A completed OSC payload split on `;`, and whether BEL ended it.
    Osc(Seq<Seq<u8>>, bool),
    /// A completed DCS payload (after `ESC P`), and whether it hit the cap.
    Dcs(Seq<u8>, bool),
    /// A completed APC payload (after `ESC _`).
    Apc(Seq<u8>),
}

/// An owned token handed to the performer.
#[derive(Debug)]
pub enum Action {
    Print(char),
    PrintAscii(Vec<u8>),
    Execute(u8),
    Csi(Params, Vec<u8>, bool, char),
    Esc(Vec<u8>, u8),
    Osc(Vec<Vec<u8>>, bool),
    Dcs(Vec<u8>, bool),
    Apc(Vec<u8>),
}

pub open spec fn bytes_view(v: Seq<Vec<u8>>) -> Seq<Seq<u8>> {
    v.map_values(|b: Vec<u8>| b@)
}

impl View for Action {
    type V = Event;

    open spec fn view(&self) -> Event {
        match self {
            Action::Print(c) => Event::Print(*c),
            Action::PrintAscii(b) => Event::PrintAscii(b@),
            Action::Execute(b) => Event::Execute(*b),
            Action::Csi(p, i, ig, a) => Event::Csi(p@, i@, *ig, *a),
            Action::Esc(i, b) => Event::Esc(i@, *b),
            Action::Osc(parts, bell) => Event::Osc(bytes_view(parts@), *bell),
            Action::Dcs(d, t) => Event::Dcs(d@, *t),
            Action::Apc(d) => Event::Apc(d@),
        }
    }
}

pub open spec fn events_of(v: Seq<Action>) -> Seq<Event> {
    v.map_values(|a: Action| a@)
}

// --- the transition function -------------------------------------------------

pub open spec fn m_enter_escape(p: ParserModel) -> ParserModel {
    ParserModel {
        state: State::Escape,
        params: Seq::empty(),
        intermediates: Seq::empty(),
        ignoring: false,
        ..p
    }
}

pub open spec fn m_collect(p: ParserModel, b: u8) -> ParserModel {
    if p.intermediates.len() < MAX_INTERMEDIATES {
        ParserModel { intermediates: p.intermediates.push(b), ..p }
    } else {
        ParserModel { ignoring: true, ..p }
    }
}

pub open spec fn m_osc_end(p: ParserModel, bell: bool) -> (ParserModel, Seq<Event>) {
    (
        ParserModel { osc_raw: Seq::empty(), state: State::Ground, ..p },
        seq![Event::Osc(split_on(p.osc_raw, 0x3b), bell)],
    )
}

pub open spec fn m_dcs_end(p: ParserModel) -> (ParserModel, Seq<Event>) {
    (
        ParserModel { dcs_raw: Seq::empty(), dcs_overflow: false, ..p },
        seq![Event::Dcs(p.dcs_raw, p.dcs_overflow)],
    )
}

pub open spec fn m_apc_end(p: ParserModel) -> (ParserModel, Seq<Event>) {
    (ParserModel { apc_raw: Seq::empty(), ..p }, seq![Event::Apc(p.apc_raw)])
}

/// The OSC payload cap: iTerm2 inline images (`1337;File=`) may carry a whole
/// image file, so they get the larger DCS cap; everything else the small one.
pub open spec fn osc_cap(raw: Seq<u8>) -> nat {
    if raw.len() >= 10 && raw.take(10) == seq![0x31u8, 0x33, 0x33, 0x37, 0x3b, 0x46, 0x69, 0x6c, 0x65, 0x3d] {
        MAX_DCS as nat
    } else {
        MAX_OSC_LEN as nat
    }
}

pub open spec fn m_utf8_begin(p: ParserModel, b: u8) -> (ParserModel, Seq<Event>) {
    if b & 0xE0 == 0xC0 {
        (ParserModel { utf8_remaining: 1, utf8_cp: ((b & 0x1F) as u32) << 6u32, utf8_min: 0x80, ..p }, seq![])
    } else if b & 0xF0 == 0xE0 {
        (ParserModel { utf8_remaining: 2, utf8_cp: ((b & 0x0F) as u32) << 12u32, utf8_min: 0x800, ..p }, seq![])
    } else if b & 0xF8 == 0xF0 {
        (ParserModel { utf8_remaining: 3, utf8_cp: ((b & 0x07) as u32) << 18u32, utf8_min: 0x10000, ..p }, seq![])
    } else {
        (p, seq![Event::Print('\u{FFFD}')])
    }
}

/// A decoded code point becomes its `char` when it is a scalar value that was
/// not over-long, else U+FFFD.
pub open spec fn decoded_char(cp: u32, min: u32) -> char {
    if cp >= min && is_scalar_cp(cp) { cp as char } else { '\u{FFFD}' }
}

pub open spec fn m_csi_dispatch(p: ParserModel, b: u8) -> (ParserModel, Seq<Event>) {
    let params = p_ensure_first(p.params);
    (
        ParserModel { params, state: State::Ground, ..p },
        seq![Event::Csi(params, p.intermediates, p.ignoring, b as char)],
    )
}

pub open spec fn m_csi_process(p: ParserModel, b: u8, entry: bool) -> (ParserModel, Seq<Event>) {
    if 0x30 <= b <= 0x39 {
        (ParserModel { params: p_add_digit(p.params, (b - 0x30) as u16), state: State::CsiParam, ..p }, seq![])
    } else if b == 0x3a {
        (ParserModel { params: p_push_subparam(p.params), state: State::CsiParam, ..p }, seq![])
    } else if b == 0x3b {
        (ParserModel { params: p_push_group(p.params), state: State::CsiParam, ..p }, seq![])
    } else if 0x3c <= b <= 0x3f && entry {
        (ParserModel { state: State::CsiParam, ..m_collect(p, b) }, seq![])
    } else if 0x20 <= b <= 0x2f {
        (ParserModel { state: State::CsiIntermediate, ..m_collect(p, b) }, seq![])
    } else if 0x40 <= b <= 0x7e {
        m_csi_dispatch(p, b)
    } else {
        (ParserModel { state: State::CsiIgnore, ignoring: true, ..p }, seq![])
    }
}

/// A byte in state `p.state`, once the C0 / ESC "anywhere" rules are past.
pub open spec fn m_state_byte(p: ParserModel, b: u8) -> (ParserModel, Seq<Event>) {
    match p.state {
        State::Ground => if b < 0x80 { (p, seq![Event::Print(b as char)]) } else { m_utf8_begin(p, b) },
        State::Escape => {
            if 0x20 <= b <= 0x2f {
                (ParserModel { state: State::EscapeIntermediate, ..m_collect(p, b) }, seq![])
            } else if b == 0x5b {
                (ParserModel { state: State::CsiEntry, ..p }, seq![])
            } else if b == 0x5d {
                (ParserModel { osc_raw: Seq::empty(), state: State::OscString, ..p }, seq![])
            } else if b == 0x50 {
                (
                    ParserModel {
                        params: Seq::empty(),
                        intermediates: Seq::empty(),
                        dcs_raw: Seq::empty(),
                        dcs_overflow: false,
                        state: State::DcsPassthrough,
                        ..p
                    },
                    seq![],
                )
            } else if b == 0x5f {
                (ParserModel { apc_raw: Seq::empty(), state: State::ApcString, ..p }, seq![])
            } else if b == 0x58 || b == 0x5e {
                (ParserModel { state: State::SosPmApcString, ..p }, seq![])
            } else if 0x30 <= b <= 0x7e {
                (ParserModel { state: State::Ground, ..p }, seq![Event::Esc(p.intermediates, b)])
            } else {
                (ParserModel { state: State::Ground, ..p }, seq![])
            }
        },
        State::EscapeIntermediate => {
            if 0x20 <= b <= 0x2f {
                (m_collect(p, b), seq![])
            } else if 0x30 <= b <= 0x7e {
                (ParserModel { state: State::Ground, ..p }, seq![Event::Esc(p.intermediates, b)])
            } else {
                (ParserModel { state: State::Ground, ..p }, seq![])
            }
        },
        State::CsiEntry => m_csi_process(
            ParserModel { params: Seq::empty(), intermediates: Seq::empty(), ignoring: false, ..p },
            b,
            true,
        ),
        State::CsiParam => m_csi_process(p, b, false),
        State::CsiIntermediate => {
            if 0x20 <= b <= 0x2f {
                (m_collect(p, b), seq![])
            } else if 0x40 <= b <= 0x7e {
                m_csi_dispatch(p, b)
            } else {
                (ParserModel { state: State::CsiIgnore, ..p }, seq![])
            }
        },
        State::CsiIgnore => {
            if 0x40 <= b <= 0x7e { (ParserModel { state: State::Ground, ..p }, seq![]) } else { (p, seq![]) }
        },
        State::OscString => {
            if b == 0x07 {
                m_osc_end(p, true)
            } else if b == 0x1b {
                let (p1, e1) = m_osc_end(p, false);
                (m_enter_escape(p1), e1)
            } else if p.osc_raw.len() < osc_cap(p.osc_raw) {
                (ParserModel { osc_raw: p.osc_raw.push(b), ..p }, seq![])
            } else {
                (p, seq![])
            }
        },
        State::DcsPassthrough => {
            if p.dcs_raw.len() < MAX_DCS {
                (ParserModel { dcs_raw: p.dcs_raw.push(b), ..p }, seq![])
            } else {
                (ParserModel { dcs_overflow: true, ..p }, seq![])
            }
        },
        State::SosPmApcString => (p, seq![]),
        State::ApcString => {
            if p.apc_raw.len() < MAX_DCS {
                (ParserModel { apc_raw: p.apc_raw.push(b), ..p }, seq![])
            } else {
                (p, seq![])
            }
        },
    }
}

pub open spec fn is_string_state(s: State) -> bool {
    s == State::OscString || s == State::DcsPassthrough || s == State::SosPmApcString
        || s == State::ApcString
}

/// One byte with no UTF-8 sequence pending.
pub open spec fn m_step_plain(p: ParserModel, b: u8) -> (ParserModel, Seq<Event>) {
    if b == 0x1b {
        // ESC ends a string (it leads the ST terminator) and starts a sequence.
        if p.state == State::OscString {
            let (p1, e1) = m_osc_end(p, false);
            (m_enter_escape(p1), e1)
        } else if p.state == State::DcsPassthrough {
            let (p1, e1) = m_dcs_end(p);
            (m_enter_escape(p1), e1)
        } else if p.state == State::ApcString {
            let (p1, e1) = m_apc_end(p);
            (m_enter_escape(p1), e1)
        } else {
            (m_enter_escape(p), seq![])
        }
    } else if b == 0x18 || b == 0x1a {
        // CAN / SUB abort the current sequence.
        (ParserModel { state: State::Ground, ..p }, seq![])
    } else if b == 0x07 && p.state == State::OscString {
        m_osc_end(p, true)
    } else if b < 0x20 {
        // Other C0 controls execute, except inside a string where they are dropped.
        if is_string_state(p.state) { (p, seq![]) } else { (p, seq![Event::Execute(b)]) }
    } else {
        m_state_byte(p, b)
    }
}

/// One byte of input: the effect on the parser and the events it yields.
pub open spec fn m_step(p: ParserModel, b: u8) -> (ParserModel, Seq<Event>) {
    if p.utf8_remaining > 0 {
        if p.state == State::Ground {
            if b & 0xC0 != 0x80 {
                // Not a continuation: emit U+FFFD and reprocess `b`.
                let (p1, e1) = m_step_plain(ParserModel { utf8_remaining: 0, ..p }, b);
                (p1, seq![Event::Print('\u{FFFD}')] + e1)
            } else {
                let rem = (p.utf8_remaining - 1) as u8;
                let cp = p.utf8_cp | (((b & 0x3F) as u32) << ((6 * rem) as u32));
                let p1 = ParserModel { utf8_remaining: rem, utf8_cp: cp, ..p };
                if rem == 0 {
                    (p1, seq![Event::Print(decoded_char(cp, p.utf8_min))])
                } else {
                    (p1, seq![])
                }
            }
        } else {
            // A control interrupted a multibyte char: drop the partial.
            m_step_plain(ParserModel { utf8_remaining: 0, ..p }, b)
        }
    } else {
        m_step_plain(p, b)
    }
}

pub open spec fn is_print_ascii(b: u8) -> bool {
    0x20 <= b < 0x7f
}

/// Length of the leading run of printable ASCII in `s`.
pub open spec fn ascii_run(s: Seq<u8>) -> nat
    decreases s.len(),
{
    if s.len() > 0 && is_print_ascii(s[0]) { 1 + ascii_run(s.drop_first()) } else { 0 }
}

pub proof fn lemma_ascii_run_bound(s: Seq<u8>)
    ensures
        ascii_run(s) <= s.len(),
        forall|i: int| 0 <= i < ascii_run(s) ==> is_print_ascii(#[trigger] s[i]),
        ascii_run(s) < s.len() ==> !is_print_ascii(s[ascii_run(s) as int]),
    decreases s.len(),
{
    if s.len() > 0 && is_print_ascii(s[0]) {
        lemma_ascii_run_bound(s.drop_first());
        assert forall|i: int| 0 <= i < ascii_run(s) implies is_print_ascii(#[trigger] s[i]) by {
            if i > 0 {
                assert(s[i] == s.drop_first()[i - 1]);
            }
        }
        if ascii_run(s) < s.len() {
            assert(s[ascii_run(s) as int] == s.drop_first()[ascii_run(s.drop_first()) as int]);
        }
    }
}

/// Whether the fast path applies: ground state, no UTF-8 sequence pending.
pub open spec fn at_rest(p: ParserModel) -> bool {
    p.state == State::Ground && p.utf8_remaining == 0
}

/// A whole chunk of input. Runs of printable ASCII met at rest are delivered
/// as one `PrintAscii` event; every other byte goes through `m_step`.
pub open spec fn m_run(p: ParserModel, s: Seq<u8>) -> (ParserModel, Seq<Event>)
    decreases s.len(),
{
    if s.len() == 0 {
        (p, seq![])
    } else if at_rest(p) && ascii_run(s) > 0 {
        let n = ascii_run(s);
        proof {
            lemma_ascii_run_bound(s);
        }
        let (p2, e2) = m_run(p, s.skip(n as int));
        (p2, seq![Event::PrintAscii(s.take(n as int))] + e2)
    } else {
        let (p1, e1) = m_step(p, s[0]);
        let (p2, e2) = m_run(p1, s.drop_first());
        (p2, e1 + e2)
    }
}


/// At most three UTF-8 continuation bytes are ever outstanding.
pub open spec fn model_wf(p: ParserModel) -> bool {
    p.utf8_remaining <= 3
}

pub proof fn lemma_step_wf(p: ParserModel, b: u8)
    requires
        model_wf(p),
    ensures
        model_wf(m_step(p, b).0),
{
}

pub proof fn lemma_run_wf(p: ParserModel, s: Seq<u8>)
    requires
        model_wf(p),
    ensures
        model_wf(m_run(p, s).0),
    decreases s.len(),
{
    if s.len() == 0 {
    } else if at_rest(p) && ascii_run(s) > 0 {
        lemma_ascii_run_bound(s);
        lemma_run_wf(p, s.skip(ascii_run(s) as int));
    } else {
        lemma_step_wf(p, s[0]);
        lemma_run_wf(m_step(p, s[0]).0, s.drop_first());
    }
}

/// The parser with no fast path: every byte stepped on its own.
pub open spec fn m_steps(p: ParserModel, s: Seq<u8>) -> (ParserModel, Seq<Event>)
    decreases s.len(),
{
    if s.len() == 0 {
        (p, seq![])
    } else {
        let (p1, e1) = m_step(p, s[0]);
        let (p2, e2) = m_steps(p1, s.drop_first());
        (p2, e1 + e2)
    }
}

/// One `Print` per byte of an ASCII run.
pub open spec fn ascii_prints(b: Seq<u8>) -> Seq<Event> {
    b.map_values(|x: u8| Event::Print(x as char))
}

/// The events with every ASCII run spelled out as one `Print` per byte.
pub open spec fn expand_events(e: Seq<Event>) -> Seq<Event>
    decreases e.len(),
{
    if e.len() == 0 {
        seq![]
    } else {
        expand_events(e.drop_last()) + match e.last() {
            Event::PrintAscii(b) => ascii_prints(b),
            other => seq![other],
        }
    }
}

proof fn lemma_expand_concat(a: Seq<Event>, b: Seq<Event>)
    ensures
        expand_events(a + b) == expand_events(a) + expand_events(b),
    decreases b.len(),
{
    if b.len() == 0 {
        assert(a + b =~= a);
        assert(expand_events(a) + expand_events(b) =~= expand_events(a));
    } else {
        lemma_expand_concat(a, b.drop_last());
        assert((a + b).drop_last() =~= a + b.drop_last());
        assert((a + b).last() == b.last());
        let tail = match b.last() {
            Event::PrintAscii(x) => ascii_prints(x),
            other => seq![other],
        };
        assert(expand_events(a) + expand_events(b.drop_last()) + tail =~= expand_events(a) + (expand_events(b.drop_last()) + tail));
    }
}

/// Printable ASCII met at rest prints and leaves the parser as it was.
proof fn lemma_steps_ascii_prefix(p: ParserModel, s: Seq<u8>, n: int)
    requires
        at_rest(p),
        0 <= n <= s.len(),
        forall|i: int| 0 <= i < n ==> is_print_ascii(#[trigger] s[i]),
    ensures
        m_steps(p, s).0 == m_steps(p, s.skip(n)).0,
        m_steps(p, s).1 == ascii_prints(s.take(n)) + m_steps(p, s.skip(n)).1,
    decreases n,
{
    if n == 0 {
        assert(s.skip(0) =~= s);
        assert(ascii_prints(s.take(0)) + m_steps(p, s).1 =~= m_steps(p, s).1);
    } else {
        let t = s.drop_first();
        assert(is_print_ascii(s[0]));
        assert(m_step(p, s[0]) == (p, seq![Event::Print(s[0] as char)]));
        assert forall|i: int| 0 <= i < n - 1 implies is_print_ascii(#[trigger] t[i]) by {
            assert(t[i] == s[i + 1]);
        }
        lemma_steps_ascii_prefix(p, t, n - 1);
        assert(t.skip(n - 1) =~= s.skip(n));
        assert(ascii_prints(s.take(n)) =~= seq![Event::Print(s[0] as char)] + ascii_prints(t.take(n - 1)));
        assert(seq![Event::Print(s[0] as char)] + (ascii_prints(t.take(n - 1)) + m_steps(p, s.skip(n)).1)
            =~= ascii_prints(s.take(n)) + m_steps(p, s.skip(n)).1);
    }
}

/// The ASCII fast path is only a faster way of stepping each byte: the
/// parser ends in the same state, and spelling each ASCII run out as single
/// characters gives exactly the per-byte events.
pub proof fn lemma_run_matches_steps(p: ParserModel, s: Seq<u8>)
    ensures
        m_run(p, s).0 == m_steps(p, s).0,
        expand_events(m_run(p, s).1) == m_steps(p, s).1,
    decreases s.len(),
{
    if s.len() == 0 {
        assert(expand_events(seq![]) =~= Seq::<Event>::empty());
    } else if at_rest(p) && ascii_run(s) > 0 {
        let n = ascii_run(s);
        lemma_ascii_run_bound(s);
        lemma_run_matches_steps(p, s.skip(n as int));
        lemma_steps_ascii_prefix(p, s, n as int);
        let e2 = m_run(p, s.skip(n as int)).1;
        lemma_expand_concat(seq![Event::PrintAscii(s.take(n as int))], e2);
        let one = seq![Event::PrintAscii(s.take(n as int))];
        reveal_with_fuel(expand_events, 2);
        assert(one.drop_last() =~= Seq::<Event>::empty());
        assert(expand_events(one) =~= ascii_prints(s.take(n as int)));
    } else {
        let (p1, e1) = m_step(p, s[0]);
        lemma_run_matches_steps(p1, s.drop_first());
        lemma_expand_concat(e1, m_run(p1, s.drop_first()).1);
        lemma_expand_plain(e1, p, s[0]);
    }
}

/// A single step never produces an ASCII run event.
proof fn lemma_expand_plain(e: Seq<Event>, p: ParserModel, b: u8)
    requires
        e == m_step(p, b).1,
    ensures
        expand_events(e) == e,
{
    reveal_with_fuel(expand_events, 3);
    assert(e.len() <= 2);
    assert forall|i: int| 0 <= i < e.len() implies !(#[trigger] e[i] is PrintAscii) by {}
    if e.len() == 0 {
    } else if e.len() == 1 {
        assert(e.drop_last() =~= Seq::<Event>::empty());
        assert(expand_events(e) =~= e);
    } else {
        assert(e.drop_last().drop_last() =~= Seq::<Event>::empty());
        assert(expand_events(e.drop_last()) =~= e.drop_last());
        assert(expand_events(e) =~= e);
    }
}

proof fn lemma_steps_split(p: ParserModel, a: Seq<u8>, b: Seq<u8>)
    ensures
        m_steps(p, a + b).0 == m_steps(m_steps(p, a).0, b).0,
        m_steps(p, a + b).1 == m_steps(p, a).1 + m_steps(m_steps(p, a).0, b).1,
    decreases a.len(),
{
    if a.len() == 0 {
        assert(a + b =~= b);
        assert(m_steps(p, a).1 + m_steps(p, b).1 =~= m_steps(p, b).1);
    } else {
        let (p1, e1) = m_step(p, a[0]);
        lemma_steps_split(p1, a.drop_first(), b);
        assert((a + b).drop_first() =~= a.drop_first() + b);
        assert((a + b)[0] == a[0]);
        let q = m_steps(p, a).0;
        assert(e1 + (m_steps(p1, a.drop_first()).1 + m_steps(q, b).1) =~= (e1 + m_steps(p1, a.drop_first()).1) + m_steps(q, b).1);
    }
}

/// Input may arrive in any chunking: feeding `a` then `b` leaves the parser
/// in the state feeding `a + b` at once does, and (ASCII runs spelled out)
/// yields the same events in the same order.
pub proof fn lemma_run_split(p: ParserModel, a: Seq<u8>, b: Seq<u8>)
    ensures
        m_run(m_run(p, a).0, b).0 == m_run(p, a + b).0,
        expand_events(m_run(p, a).1) + expand_events(m_run(m_run(p, a).0, b).1) == expand_events(m_run(p, a + b).1),
{
    lemma_run_matches_steps(p, a);
    lemma_run_matches_steps(p, a + b);
    lemma_run_matches_steps(m_run(p, a).0, b);
    lemma_steps_split(p, a, b);
}

/// Every buffer the parser fills is capped: at most `MAX_PARAMS` parameter
/// groups of at most `MAX_SUBPARAMS` values, `MAX_INTERMEDIATES`
/// intermediates, and string payloads of at most `MAX_DCS` bytes.
pub open spec fn bounded(p: ParserModel) -> bool {
    &&& params_bounded(p.params)
    &&& p.intermediates.len() <= MAX_INTERMEDIATES
    &&& p.osc_raw.len() <= MAX_DCS
    &&& p.dcs_raw.len() <= MAX_DCS
    &&& p.apc_raw.len() <= MAX_DCS
}

/// At most `MAX_PARAMS` groups of at most `MAX_SUBPARAMS` values.
pub open spec fn params_bounded(g: Seq<Seq<u16>>) -> bool {
    g.len() <= MAX_PARAMS && forall|i: int| 0 <= i < g.len() ==> (#[trigger] g[i]).len() <= MAX_SUBPARAMS
}

proof fn lemma_params_bounded(g: Seq<Seq<u16>>, d: u16)
    requires
        params_bounded(g),
    ensures
        params_bounded(p_ensure_first(g)),
        params_bounded(p_push_group(g)),
        params_bounded(p_push_subparam(g)),
        params_bounded(p_add_digit(g, d)),
{
    let g1 = p_ensure_first(g);
    assert(g1.len() >= 1);
    assert forall|i: int| 0 <= i < g1.len() implies (#[trigger] g1[i]).len() <= MAX_SUBPARAMS by {}
    let gp = p_push_group(g);
    assert forall|i: int| 0 <= i < gp.len() implies (#[trigger] gp[i]).len() <= MAX_SUBPARAMS by {
        if i < g.len() {
        }
    }
    let gs = p_push_subparam(g);
    assert forall|i: int| 0 <= i < gs.len() implies (#[trigger] gs[i]).len() <= MAX_SUBPARAMS by {
        if i == g1.len() - 1 {
        } else {
            assert(gs[i] == g1[i]);
        }
    }
    let gd = p_add_digit(g, d);
    assert forall|i: int| 0 <= i < gd.len() implies (#[trigger] gd[i]).len() <= MAX_SUBPARAMS by {
        if i == g1.len() - 1 {
        } else {
            assert(gd[i] == g1[i]);
        }
    }
}

proof fn lemma_step_bounded(p: ParserModel, b: u8)
    requires
        bounded(p),
    ensures
        bounded(m_step(p, b).0),
{
    lemma_params_bounded(p.params, (b - 0x30) as u16);
    lemma_params_bounded(Seq::empty(), (b - 0x30) as u16);
    assert(osc_cap(p.osc_raw) <= MAX_DCS);
}

proof fn lemma_steps_bounded(p: ParserModel, s: Seq<u8>)
    requires
        bounded(p),
    ensures
        bounded(m_steps(p, s).0),
    decreases s.len(),
{
    if s.len() > 0 {
        lemma_step_bounded(p, s[0]);
        lemma_steps_bounded(m_step(p, s[0]).0, s.drop_first());
    }
}

/// Bounded input: whatever bytes arrive, a parser whose buffers are within
/// their caps stays within them, so hostile sequences cannot exhaust memory.
pub proof fn lemma_run_bounded(p: ParserModel, s: Seq<u8>)
    requires
        bounded(p),
    ensures
        bounded(m_run(p, s).0),
{
    lemma_run_matches_steps(p, s);
    lemma_steps_bounded(p, s);
}

/// Callbacks invoked as the parser recognizes tokens. `inv` is the
/// implementor's own consistency condition, which every callback keeps.
pub trait Perform: Sized {
    spec fn inv(&self) -> bool;

    /// `self` is `o` after `print(c)`: what the implementor states of a
    /// printed character.
    spec fn printed(&self, o: &Self, c: char) -> bool;

    /// A printable character was decoded.
    fn print(&mut self, c: char)
        requires
            old(self).inv(),
        ensures
            final(self).inv(),
            final(self).printed(old(self), c),
    ;

    /// A run of printable ASCII bytes (0x20..0x7e). The default forwards each
    /// byte to `print`, in order; implementors can override it with a bulk
    /// path.
    fn print_ascii(&mut self, bytes: &[u8])
        requires
            old(self).inv(),
        ensures
            final(self).inv(),
        default_ensures
            exists|tr: Seq<Self>| #![trigger tr.len()] {
                &&& tr.len() == bytes@.len() + 1
                &&& tr[0] == *old(self)
                &&& tr.last() == *final(self)
                &&& forall|k: int| 0 <= k < bytes@.len() ==> #[trigger] tr[k + 1].printed(&tr[k], bytes@[k] as char)
            },
    {
        let mut i: usize = 0;
        let ghost mut tr: Seq<Self> = seq![*self];
        while i < bytes.len()
            invariant
                self.inv(),
                i <= bytes@.len(),
                tr.len() == i + 1,
                tr[0] == *old(self),
                tr.last() == *self,
                forall|k: int| 0 <= k < i ==> #[trigger] tr[k + 1].printed(&tr[k], bytes@[k] as char),
            decreases bytes.len() - i,
        {
            self.print(bytes[i] as char);
            proof {
                let tr2 = tr.push(*self);
                assert forall|k: int| 0 <= k < i + 1 implies #[trigger] tr2[k + 1].printed(&tr2[k], bytes@[k] as char) by {
                    if k < i {
                        assert(tr2[k + 1] == tr[k + 1] && tr2[k] == tr[k]);
                    }
                }
                tr = tr2;
            }
            i = i + 1;
        }
        proof {
            assert(tr.len() == bytes@.len() + 1);
        }
    }

    /// A C0 control byte to execute (BEL, BS, HT, LF, CR, ...).
    fn execute(&mut self, byte: u8)
        requires
            old(self).inv(),
        ensures
            final(self).inv(),
    ;

    /// A final CSI byte: `ESC [ params intermediates action`.
    fn csi_dispatch(&mut self, params: &Params, intermediates: &[u8], ignore: bool, action: char)
        requires
            old(self).inv(),
        ensures
            final(self).inv(),
    ;

    /// A final ESC byte: `ESC intermediates byte`.
    fn esc_dispatch(&mut self, intermediates: &[u8], byte: u8)
        requires
            old(self).inv(),
        ensures
            final(self).inv(),
    ;

    /// A completed OSC (`ESC ] ... BEL` / `... ST`); `params` is the payload
    /// split on `;`.
    fn osc_dispatch(&mut self, params: &[Vec<u8>], bell_terminated: bool)
        requires
            old(self).inv(),
        ensures
            final(self).inv(),
    ;

    /// A completed DCS (`ESC P ... ST`): the raw payload after `ESC P`, and
    /// whether it hit the size cap. The default ignores it.
    fn dcs_dispatch(&mut self, data: &[u8], truncated: bool)
        requires
            old(self).inv(),
        ensures
            final(self).inv(),
    {
    }

    /// A completed APC (`ESC _ ... ST`): the raw payload after `ESC _`. The
    /// default ignores it.
    fn apc_dispatch(&mut self, data: &[u8])
        requires
            old(self).inv(),
        ensures
            final(self).inv(),
    {
    }
}

// --- the executable parser ----------------------------------------------------

/// The escape-sequence parser. Feed bytes with `Parser::advance`.
#[derive(Debug)]
pub struct Parser {
    state: State,
    params: Params,
    intermediates: Vec<u8>,
    ignoring: bool,
    osc_raw: Vec<u8>,
    /// Raw DCS payload (everything after `ESC P`, up to ST), capped.
    dcs_raw: Vec<u8>,
    dcs_overflow: bool,
    /// Raw APC payload (everything after `ESC _`, up to ST), capped.
    apc_raw: Vec<u8>,
    // UTF-8 decode state (only used in Ground).
    utf8_remaining: u8,
    utf8_cp: u32,
    utf8_min: u32,
}

impl View for Parser {
    type V = ParserModel;

    closed spec fn view(&self) -> ParserModel {
        ParserModel {
            state: self.state,
            params: self.params@,
            intermediates: self.intermediates@,
            ignoring: self.ignoring,
            osc_raw: self.osc_raw@,
            dcs_raw: self.dcs_raw@,
            dcs_overflow: self.dcs_overflow,
            apc_raw: self.apc_raw@,
            utf8_remaining: self.utf8_remaining,
            utf8_cp: self.utf8_cp,
            utf8_min: self.utf8_min,
        }
    }
}

/// The parser state before any input.
pub open spec fn initial_model() -> ParserModel {
    ParserModel {
        state: State::Ground,
        params: Seq::empty(),
        intermediates: Seq::empty(),
        ignoring: false,
        osc_raw: Seq::empty(),
        dcs_raw: Seq::empty(),
        dcs_overflow: false,
        apc_raw: Seq::empty(),
        utf8_remaining: 0,
        utf8_cp: 0,
        utf8_min: 0,
    }
}

/// A fresh parser starts within its caps.
pub proof fn lemma_fresh_parser_bounded()
    ensures
        bounded(initial_model()),
{
}

pub proof fn lemma_events_push(v: Seq<Action>, a: Action)
    ensures
        events_of(v.push(a)) == events_of(v).push(a@),
{
    assert(events_of(v.push(a)) =~= events_of(v).push(a@));
}

fn emit(out: &mut Vec<Action>, a: Action)
    ensures
        events_of(final(out)@) == events_of(old(out)@) + seq![a@],
{
    proof {
        lemma_events_push(out@, a);
    }
    out.push(a);
    assert(events_of(out@) =~= events_of(old(out)@) + seq![a@]);
}

fn copy_bytes(b: &[u8], lo: usize, hi: usize) -> (v: Vec<u8>)
    requires
        lo <= hi <= b@.len(),
    ensures
        v@ == b@.subrange(lo as int, hi as int),
{
    let mut v: Vec<u8> = Vec::with_capacity(hi - lo);
    let mut i = lo;
    while i < hi
        invariant
            lo <= i <= hi <= b@.len(),
            v@ == b@.subrange(lo as int, i as int),
        decreases hi - i,
    {
        v.push(b[i]);
        i = i + 1;
        assert(v@ =~= b@.subrange(lo as int, i as int));
    }
    v
}

/// `raw` split on `;`.
fn split_semi(raw: &Vec<u8>) -> (parts: Vec<Vec<u8>>)
    ensures
        bytes_view(parts@) == split_on(raw@, 0x3b),
{
    let mut parts: Vec<Vec<u8>> = Vec::new();
    let mut cur: Vec<u8> = Vec::new();
    let mut i: usize = 0;
    assert(raw@.take(0) =~= Seq::<u8>::empty());
    assert(bytes_view(parts@).push(cur@) =~= seq![Seq::<u8>::empty()]);
    while i < raw.len()
        invariant
            i <= raw@.len(),
            split_on(raw@.take(i as int), 0x3b) == bytes_view(parts@).push(cur@),
        decreases raw.len() - i,
    {
        let ghost pv = bytes_view(parts@);
        let ghost cv = cur@;
        assert(raw@.take(i + 1).drop_last() =~= raw@.take(i as int));
        if raw[i] == 0x3b {
            let mut done: Vec<u8> = Vec::new();
            std::mem::swap(&mut done, &mut cur);
            parts.push(done);
            assert(bytes_view(parts@) =~= pv.push(cv));
            assert(bytes_view(parts@).push(cur@) =~= pv.push(cv).push(Seq::<u8>::empty()));
        } else {
            cur.push(raw[i]);
            assert(bytes_view(parts@).push(cur@) =~= pv.push(cv).update(pv.len() as int, cv.push(raw@[i as int])));
        }
        i = i + 1;
    }
    let ghost pv = bytes_view(parts@);
    let ghost cv = cur@;
    parts.push(cur);
    assert(bytes_view(parts@) =~= pv.push(cv));
    assert(raw@.take(i as int) =~= raw@);
    parts
}

pub proof fn lemma_ascii_run_exact(s: Seq<u8>, k: int)
    requires
        0 <= k <= s.len(),
        forall|i: int| 0 <= i < k ==> is_print_ascii(#[trigger] s[i]),
        k == s.len() || !is_print_ascii(s[k]),
    ensures
        ascii_run(s) == k,
    decreases k,
{
    if k > 0 {
        assert(is_print_ascii(s[0]));
        let t = s.drop_first();
        assert forall|i: int| 0 <= i < k - 1 implies is_print_ascii(#[trigger] t[i]) by {
            assert(t[i] == s[i + 1]);
        }
        if k - 1 < t.len() {
            assert(t[k - 1] == s[k]);
        }
        lemma_ascii_run_exact(t, k - 1);
    }
}

impl Parser {
    pub fn new() -> (p: Parser)
        ensures
            p@ == initial_model(),
    {
        let p = Parser {
            state: State::Ground,
            params: Params::new(),
            intermediates: Vec::new(),
            ignoring: false,
            osc_raw: Vec::new(),
            dcs_raw: Vec::new(),
            dcs_overflow: false,
            apc_raw: Vec::new(),
            utf8_remaining: 0,
            utf8_cp: 0,
            utf8_min: 0,
        };
        assert(p@.intermediates =~= Seq::<u8>::empty());
        p
    }

    fn enter_escape(&mut self)
        ensures
            final(self)@ == m_enter_escape(old(self)@),
    {
        self.state = State::Escape;
        self.params.clear();
        self.intermediates.clear();
        self.ignoring = false;
        assert(self@.intermediates =~= Seq::<u8>::empty());
    }

    fn collect(&mut self, b: u8)
        ensures
            final(self)@ == m_collect(old(self)@, b),
    {
        if self.intermediates.len() < MAX_INTERMEDIATES {
            self.intermediates.push(b);
        } else {
            self.ignoring = true;
        }
    }

    fn osc_end(&mut self, bell: bool, out: &mut Vec<Action>)
        ensures
            final(self)@ == m_osc_end(old(self)@, bell).0,
            events_of(final(out)@) == events_of(old(out)@) + m_osc_end(old(self)@, bell).1,
    {
        let parts = split_semi(&self.osc_raw);
        self.osc_raw.clear();
        self.state = State::Ground;
        assert(self@.osc_raw =~= Seq::<u8>::empty());
        emit(out, Action::Osc(parts, bell));
    }

    fn dcs_end(&mut self, out: &mut Vec<Action>)
        ensures
            final(self)@ == m_dcs_end(old(self)@).0,
            events_of(final(out)@) == events_of(old(out)@) + m_dcs_end(old(self)@).1,
    {
        let mut data: Vec<u8> = Vec::new();
        std::mem::swap(&mut data, &mut self.dcs_raw);
        let t = self.dcs_overflow;
        self.dcs_overflow = false;
        assert(self@.dcs_raw =~= Seq::<u8>::empty());
        emit(out, Action::Dcs(data, t));
    }

    fn apc_end(&mut self, out: &mut Vec<Action>)
        ensures
            final(self)@ == m_apc_end(old(self)@).0,
            events_of(final(out)@) == events_of(old(out)@) + m_apc_end(old(self)@).1,
    {
        let mut data: Vec<u8> = Vec::new();
        std::mem::swap(&mut data, &mut self.apc_raw);
        assert(self@.apc_raw =~= Seq::<u8>::empty());
        emit(out, Action::Apc(data));
    }

    /// The payload cap for the OSC string collected so far.
    fn osc_limit(&self) -> (n: usize)
        ensures
            n == osc_cap(self.osc_raw@),
    {
        let r = &self.osc_raw;
        if r.len() >= 10 && r[0] == 0x31 && r[1] == 0x33 && r[2] == 0x33 && r[3] == 0x37 && r[4] == 0x3b
            && r[5] == 0x46 && r[6] == 0x69 && r[7] == 0x6c && r[8] == 0x65 && r[9] == 0x3d {
            assert(r@.take(10) =~= seq![0x31u8, 0x33, 0x33, 0x37, 0x3b, 0x46, 0x69, 0x6c, 0x65, 0x3d]);
            MAX_DCS
        } else {
            proof {
                if r@.len() >= 10 {
                let t = r@.take(10);
                assert(t[0] == r@[0] && t[1] == r@[1] && t[2] == r@[2] && t[3] == r@[3] && t[4] == r@[4]);
                assert(t[5] == r@[5] && t[6] == r@[6] && t[7] == r@[7] && t[8] == r@[8] && t[9] == r@[9]);
                }
            }
            MAX_OSC_LEN
        }
    }

    fn utf8_begin(&mut self, b: u8, out: &mut Vec<Action>)
        ensures
            final(self)@ == m_utf8_begin(old(self)@, b).0,
            events_of(final(out)@) == events_of(old(out)@) + m_utf8_begin(old(self)@, b).1,
    {
        if b & 0xE0 == 0xC0 {
            self.utf8_remaining = 1;
            self.utf8_cp = ((b & 0x1F) as u32) << 6u32;
            self.utf8_min = 0x80;
            assert(events_of(out@) =~= events_of(out@) + Seq::<Event>::empty());
        } else if b & 0xF0 == 0xE0 {
            self.utf8_remaining = 2;
            self.utf8_cp = ((b & 0x0F) as u32) << 12u32;
            self.utf8_min = 0x800;
            assert(events_of(out@) =~= events_of(out@) + Seq::<Event>::empty());
        } else if b & 0xF8 == 0xF0 {
            self.utf8_remaining = 3;
            self.utf8_cp = ((b & 0x07) as u32) << 18u32;
            self.utf8_min = 0x10000;
            assert(events_of(out@) =~= events_of(out@) + Seq::<Event>::empty());
        } else {
            // Stray continuation or invalid lead byte.
            emit(out, Action::Print('\u{FFFD}'));
        }
    }

    fn csi_dispatch(&mut self, b: u8, out: &mut Vec<Action>)
        requires
            0x40 <= b <= 0x7e,
        ensures
            final(self)@ == m_csi_dispatch(old(self)@, b).0,
            events_of(final(out)@) == events_of(old(out)@) + m_csi_dispatch(old(self)@, b).1,
    {
        self.params.ensure_first();
        let p = self.params.copy();
        let mut inter: Vec<u8> = Vec::new();
        let mut k: usize = 0;
        while k < self.intermediates.len()
            invariant
                k <= self.intermediates@.len(),
                inter@ == self.intermediates@.subrange(0, k as int),
            decreases self.intermediates.len() - k,
        {
            inter.push(self.intermediates[k]);
            k = k + 1;
            assert(inter@ =~= self.intermediates@.subrange(0, k as int));
        }
        assert(inter@ =~= self.intermediates@);
        emit(out, Action::Csi(p, inter, self.ignoring, b as char));
        self.state = State::Ground;
    }

    fn csi_process(&mut self, b: u8, entry: bool, out: &mut Vec<Action>)
        ensures
            final(self)@ == m_csi_process(old(self)@, b, entry).0,
            events_of(final(out)@) == events_of(old(out)@) + m_csi_process(old(self)@, b, entry).1,
    {
        let ghost e0 = events_of(out@);
        if 0x30 <= b && b <= 0x39 {
            self.params.add_digit((b - 0x30) as u16);
            self.state = State::CsiParam;
        } else if b == 0x3a {
            self.params.push_subparam();
            self.state = State::CsiParam;
        } else if b == 0x3b {
            self.params.push_group();
            self.state = State::CsiParam;
        } else if 0x3c <= b && b <= 0x3f && entry {
            // Private markers (`< = > ?`) — valid only right after CSI.
            self.collect(b);
            self.state = State::CsiParam;
        } else if 0x20 <= b && b <= 0x2f {
            self.collect(b);
            self.state = State::CsiIntermediate;
        } else if 0x40 <= b && b <= 0x7e {
            self.csi_dispatch(b, out);
            return;
        } else {
            self.state = State::CsiIgnore;
            self.ignoring = true;
        }
        assert(events_of(out@) =~= e0 + Seq::<Event>::empty());
    }

    fn copy_intermediates(&self) -> (v: Vec<u8>)
        ensures
            v@ == self.intermediates@,
    {
        let mut inter: Vec<u8> = Vec::new();
        let mut k: usize = 0;
        while k < self.intermediates.len()
            invariant
                k <= self.intermediates@.len(),
                inter@ == self.intermediates@.subrange(0, k as int),
            decreases self.intermediates.len() - k,
        {
            inter.push(self.intermediates[k]);
            k = k + 1;
            assert(inter@ =~= self.intermediates@.subrange(0, k as int));
        }
        assert(inter@ =~= self.intermediates@);
        inter
    }

    fn state_byte(&mut self, b: u8, out: &mut Vec<Action>)
        requires
            b >= 0x20,
        ensures
            final(self)@ == m_state_byte(old(self)@, b).0,
            events_of(final(out)@) == events_of(old(out)@) + m_state_byte(old(self)@, b).1,
    {
        let ghost e0 = events_of(out@);
        match self.state {
            State::Ground => {
                if b < 0x80 {
                    emit(out, Action::Print(b as char));
                } else {
                    self.utf8_begin(b, out);
                }
                return;
            },
            State::Escape => {
                if 0x20 <= b && b <= 0x2f {
                    self.collect(b);
                    self.state = State::EscapeIntermediate;
                } else if b == 0x5b {
                    self.state = State::CsiEntry;
                } else if b == 0x5d {
                    self.osc_raw.clear();
                    self.state = State::OscString;
                    assert(self@.osc_raw =~= Seq::<u8>::empty());
                } else if b == 0x50 {
                    self.params.clear();
                    self.intermediates.clear();
                    self.dcs_raw.clear();
                    self.dcs_overflow = false;
                    self.state = State::DcsPassthrough;
                    assert(self@.intermediates =~= Seq::<u8>::empty());
                    assert(self@.dcs_raw =~= Seq::<u8>::empty());
                } else if b == 0x5f {
                    self.apc_raw.clear();
                    self.state = State::ApcString;
                    assert(self@.apc_raw =~= Seq::<u8>::empty());
                } else if b == 0x58 || b == 0x5e {
                    self.state = State::SosPmApcString;
                } else if 0x30 <= b && b <= 0x7e {
                    let inter = self.copy_intermediates();
                    emit(out, Action::Esc(inter, b));
                    self.state = State::Ground;
                    return;
                } else {
                    self.state = State::Ground;
                }
            },
            State::EscapeIntermediate => {
                if 0x20 <= b && b <= 0x2f {
                    self.collect(b);
                } else if 0x30 <= b && b <= 0x7e {
                    let inter = self.copy_intermediates();
                    emit(out, Action::Esc(inter, b));
                    self.state = State::Ground;
                    return;
                } else {
                    self.state = State::Ground;
                }
            },
            State::CsiEntry => {
                self.params.clear();
                self.intermediates.clear();
                self.ignoring = false;
                assert(self@.intermediates =~= Seq::<u8>::empty());
                self.csi_process(b, true, out);
                return;
            },
            State::CsiParam => {
                self.csi_process(b, false, out);
                return;
            },
            State::CsiIntermediate => {
                if 0x20 <= b && b <= 0x2f {
                    self.collect(b);
                } else if 0x40 <= b && b <= 0x7e {
                    self.csi_dispatch(b, out);
                    return;
                } else {
                    // A parameter byte after an intermediate is illegal.
                    self.state = State::CsiIgnore;
                }
            },
            State::CsiIgnore => {
                if 0x40 <= b && b <= 0x7e {
                    self.state = State::Ground;
                }
            },
            State::OscString => {
                if b == 0x07 {
                    self.osc_end(true, out);
                    return;
                } else if b == 0x1b {
                    self.osc_end(false, out);
                    self.enter_escape();
                    return;
                } else if self.osc_raw.len() < self.osc_limit() {
                    self.osc_raw.push(b);
                }
            },
            State::DcsPassthrough => {
                if self.dcs_raw.len() < MAX_DCS {
                    self.dcs_raw.push(b);
                } else {
                    self.dcs_overflow = true;
                }
            },
            State::SosPmApcString => {},
            State::ApcString => {
                if self.apc_raw.len() < MAX_DCS {
                    self.apc_raw.push(b);
                }
            },
        }
        assert(events_of(out@) =~= e0 + Seq::<Event>::empty());
    }

    fn step_plain(&mut self, b: u8, out: &mut Vec<Action>)
        ensures
            final(self)@ == m_step_plain(old(self)@, b).0,
            events_of(final(out)@) == events_of(old(out)@) + m_step_plain(old(self)@, b).1,
    {
        let ghost e0 = events_of(out@);
        if b == 0x1b {
            if self.state == State::OscString {
                self.osc_end(false, out);
            } else if self.state == State::DcsPassthrough {
                self.dcs_end(out);
            } else if self.state == State::ApcString {
                self.apc_end(out);
            } else {
                assert(events_of(out@) =~= e0 + Seq::<Event>::empty());
            }
            self.enter_escape();
        } else if b == 0x18 || b == 0x1a {
            self.state = State::Ground;
            assert(events_of(out@) =~= e0 + Seq::<Event>::empty());
        } else if b == 0x07 && self.state == State::OscString {
            self.osc_end(true, out);
        } else if b < 0x20 {
            if self.state == State::OscString || self.state == State::DcsPassthrough
                || self.state == State::SosPmApcString || self.state == State::ApcString {
                assert(events_of(out@) =~= e0 + Seq::<Event>::empty());
            } else {
                emit(out, Action::Execute(b));
            }
        } else {
            self.state_byte(b, out);
        }
    }

    fn step(&mut self, b: u8, out: &mut Vec<Action>)
        requires
            model_wf(old(self)@),
        ensures
            final(self)@ == m_step(old(self)@, b).0,
            events_of(final(out)@) == events_of(old(out)@) + m_step(old(self)@, b).1,
    {
        let ghost e0 = events_of(out@);
        if self.utf8_remaining > 0 {
            if self.state == State::Ground {
                if b & 0xC0 != 0x80 {
                    self.utf8_remaining = 0;
                    emit(out, Action::Print('\u{FFFD}'));
                    let ghost e1 = events_of(out@);
                    self.step_plain(b, out);
                    assert(events_of(out@) =~= e0 + (seq![Event::Print('\u{FFFD}')] + (events_of(out@).subrange(e1.len() as int, events_of(out@).len() as int))));
                    return;
                }
                let rem = self.utf8_remaining - 1;
                self.utf8_remaining = rem;
                self.utf8_cp = self.utf8_cp | (((b & 0x3F) as u32) << (6 * rem as u32));
                if rem == 0 {
                    let cp = self.utf8_cp;
                    let c = if cp >= self.utf8_min && cp <= 0x10FFFF && !(0xD800 <= cp && cp <= 0xDFFF) {
                        match char_from_u32(cp) {
                            Some(c) => c,
                            None => '\u{FFFD}',
                        }
                    } else {
                        '\u{FFFD}'
                    };
                    emit(out, Action::Print(c));
                } else {
                    assert(events_of(out@) =~= e0 + Seq::<Event>::empty());
                }
                return;
            }
            // A control interrupted a multibyte char; drop the partial.
            self.utf8_remaining = 0;
        }
        self.step_plain(b, out);
    }

    /// Tokenize a chunk of bytes, appending the events to `out`.
    ///
    /// Fast path: while in the ground state with no pending UTF-8, a run of
    /// printable ASCII becomes one `PrintAscii` event, skipping the per-byte
    /// state machine for ordinary text (the common case).
    pub fn advance_into(&mut self, bytes: &[u8], out: &mut Vec<Action>)
        requires
            model_wf(old(self)@),
        ensures
            model_wf(final(self)@),
            final(self)@ == m_run(old(self)@, bytes@).0,
            events_of(final(out)@) == events_of(old(out)@) + m_run(old(self)@, bytes@).1,
    {
        let len = bytes.len();
        let mut i: usize = 0;
        let ghost total = m_run(old(self)@, bytes@);
        let ghost e_start = events_of(out@);
        assert(bytes@.skip(0) =~= bytes@);
        while i < len
            invariant
                len == bytes@.len(),
                i <= len,
                model_wf(self@),
                total == m_run(old(self)@, bytes@),
                m_run(self@, bytes@.skip(i as int)).0 == total.0,
                events_of(out@) + m_run(self@, bytes@.skip(i as int)).1 == e_start + total.1,
            decreases len - i,
        {
            let ghost s = bytes@.skip(i as int);
            let ghost p = self@;
            let ghost eo = events_of(out@);
            if self.state == State::Ground && self.utf8_remaining == 0 && 0x20 <= bytes[i] && bytes[i] < 0x7f {
                let start = i;
                while i < len && 0x20 <= bytes[i] && bytes[i] < 0x7f
                    invariant
                        len == bytes@.len(),
                        start <= i <= len,
                        forall|k: int| start <= k < i ==> is_print_ascii(#[trigger] bytes@[k]),
                    decreases len - i,
                {
                    i = i + 1;
                }
                proof {
                    let n = (i - start) as int;
                    assert forall|k: int| 0 <= k < n implies is_print_ascii(#[trigger] s[k]) by {
                        assert(s[k] == bytes@[start + k]);
                    }
                    if n < s.len() {
                        assert(s[n] == bytes@[i as int]);
                    }
                    lemma_ascii_run_exact(s, n);
                    assert(s.skip(n) =~= bytes@.skip(i as int));
                    assert(s.take(n) =~= bytes@.subrange(start as int, i as int));
                }
                let run = copy_bytes(bytes, start, i);
                emit(out, Action::PrintAscii(run));
                proof {
                    let r = m_run(self@, bytes@.skip(i as int));
                    assert(m_run(p, s).1 == seq![Event::PrintAscii(bytes@.subrange(start as int, i as int))] + r.1);
                    assert(events_of(out@) + r.1 =~= eo + m_run(p, s).1);
                }
            } else {
                proof {
                    if at_rest(p) {
                        assert(!is_print_ascii(s[0]));
                        assert(ascii_run(s) == 0);
                    }
                    assert(s.drop_first() =~= bytes@.skip(i + 1));
                    assert(s[0] == bytes@[i as int]);
                }
                self.step(bytes[i], out);
                proof {
                    lemma_step_wf(p, s[0]);
                }
                i = i + 1;
                proof {
                    let r = m_run(self@, bytes@.skip(i as int));
                    assert(events_of(out@) + r.1 =~= eo + m_run(p, s).1);
                }
            }
        }
        assert(bytes@.skip(len as int) =~= Seq::<u8>::empty());
        assert(events_of(out@) =~= e_start + total.1);
        proof {
            lemma_run_wf(old(self)@, bytes@);
        }
    }

    /// Tokenize a chunk of bytes and return its events.
    pub fn advance_events(&mut self, bytes: &[u8]) -> (out: Vec<Action>)
        requires
            model_wf(old(self)@),
        ensures
            model_wf(final(self)@),
            final(self)@ == m_run(old(self)@, bytes@).0,
            events_of(out@) == m_run(old(self)@, bytes@).1,
    {
        let mut out: Vec<Action> = Vec::new();
        assert(events_of(out@) =~= Seq::<Event>::empty());
        self.advance_into(bytes, &mut out);
        assert(events_of(out@) =~= m_run(old(self)@, bytes@).1);
        out
    }

    /// Feed a chunk of bytes, driving callbacks on `perform` in input order.
    pub fn advance<P: Perform>(&mut self, perform: &mut P, bytes: &[u8])
        requires
            model_wf(old(self)@),
            old(perform).inv(),
        ensures
            model_wf(final(self)@),
            final(self)@ == m_run(old(self)@, bytes@).0,
            final(perform).inv(),
    {
        let actions = self.advance_events(bytes);
        let mut i: usize = 0;
        while i < actions.len()
            invariant
                perform.inv(),
            decreases actions.len() - i,
        {
            match &actions[i] {
                Action::Print(c) => perform.print(*c),
                Action::PrintAscii(b) => perform.print_ascii(b.as_slice()),
                Action::Execute(b) => perform.execute(*b),
                Action::Csi(p, inter, ig, a) => perform.csi_dispatch(p, inter.as_slice(), *ig, *a),
                Action::Esc(inter, b) => perform.esc_dispatch(inter.as_slice(), *b),
                Action::Osc(parts, bell) => perform.osc_dispatch(parts.as_slice(), *bell),
                Action::Dcs(d, t) => perform.dcs_dispatch(d.as_slice(), *t),
                Action::Apc(d) => perform.apc_dispatch(d.as_slice()),
            }
            i = i + 1;
        }
    }
}

impl Default for Parser {
    fn default() -> (p: Parser)
        ensures
            p@ == initial_model(),
    {
        Parser::new()
    }
}

} // verus!