//! The mathematical model of a collapse run: an abstract parser state and
//! one transition per input line.  The executable parser is proved to track
//! this model exactly, and the counting law is proved of the model.

use vstd::prelude::*;

use crate::bytes::trim_end_spec;
use crate::frame::norm_frame_spec;
use crate::parse::event_parts_spec;
use crate::parse::stack_parts_spec;
use crate::bytes::rfind_byte;
use crate::state::occ_at;
use crate::state::RunConfig;
use crate::state::StackDisposition;

verus! {

/// Abstract parser state: what the executable `PerfState` stands for.
#[verifier::ext_equal]
pub struct AbsState {
    pub in_event: bool,
    pub skip_stack: bool,
    /// Frames of the in-progress event, in reading order (leaf first).
    pub stack: Seq<Seq<u8>>,
    pub pname: Seq<u8>,
    /// Folded key -> number of events that produced it.
    pub occ: Map<Seq<u8>, nat>,
    pub diags: Seq<Seq<u8>>,
}

/// The state before any line was read.
pub open spec fn init_model() -> AbsState {
    AbsState {
        in_event: false,
        skip_stack: false,
        stack: Seq::empty(),
        pname: Seq::empty(),
        occ: Map::empty(),
        diags: Seq::empty(),
    }
}

/// The bytes of `"weird event line: "`, prefixed to header diagnostics.
pub open spec fn weird_event_prefix() -> Seq<u8> {
    seq![119u8, 101, 105, 114, 100, 32, 101, 118, 101, 110, 116, 32, 108, 105, 110, 101, 58, 32]
}

/// The bytes of `"weird stack line: "`, prefixed to frame diagnostics.
pub open spec fn weird_stack_prefix() -> Seq<u8> {
    seq![119u8, 101, 105, 114, 100, 32, 115, 116, 97, 99, 107, 32, 108, 105, 110, 101, 58, 32]
}

/// The process label: the comm with spaces replaced by underscores, then
/// `-<pid>/<tid>`, `-<pid>`, or nothing, as configured.
pub open spec fn label_of(cfg: RunConfig, comm: Seq<u8>, pid: Seq<u8>, tid: Seq<u8>) -> Seq<u8> {
    let base = comm.map_values(|b: u8| if b == 32 { 95u8 } else { b });
    if cfg.include_tid {
        base + seq![45u8] + pid + seq![47u8] + tid
    } else if cfg.include_pid {
        base + seq![45u8] + pid
    } else {
        base
    }
}

/// The trailing event name of a header line: the text after the final
/// space, minus one trailing colon.
pub open spec fn event_name_spec(line: Seq<u8>) -> Seq<u8> {
    let t = match rfind_byte(line, line.len() as int, 32) {
        Some(j) => line.subrange(j + 1, line.len() as int),
        None => line,
    };
    if t.len() > 0 && t.last() == 58 {
        t.drop_last()
    } else {
        t
    }
}

/// Event-type filtering: the decision point is explicit, but today every
/// event type is kept.
pub open spec fn event_disposition_spec(name: Seq<u8>) -> StackDisposition {
    StackDisposition::Keep
}

/// Transition for a header line: enter the event and set its process label,
/// or record a diagnostic and stay out of stack-reading mode.
pub open spec fn step_header(cfg: RunConfig, st: AbsState, line: Seq<u8>) -> AbsState {
    match event_parts_spec(line) {
        Some(p) => AbsState {
            in_event: true,
            skip_stack: st.skip_stack || event_disposition_spec(event_name_spec(line))
                == StackDisposition::Skip,
            pname: label_of(cfg, p.0, p.1, p.2),
            ..st
        },
        None => AbsState { in_event: false, diags: st.diags.push(weird_event_prefix() + line), ..st },
    }
}

/// Transition for a stack-frame line: push the normalized frame, or record
/// a diagnostic; discarded frames and skipped events change nothing.
pub open spec fn step_stack(cfg: RunConfig, st: AbsState, line: Seq<u8>) -> AbsState {
    if st.skip_stack {
        st
    } else {
        match stack_parts_spec(line) {
            None => AbsState { diags: st.diags.push(weird_stack_prefix() + line), ..st },
            Some(t) => match norm_frame_spec(cfg, t.0, t.1, t.2) {
                None => st,
                Some(f) => AbsState { stack: st.stack.push(f), ..st },
            },
        }
    }
}

/// Frames joined for the folded key: frames appear after the process label,
/// `;`-separated, in reverse reading order (root before leaf).
pub open spec fn join_rev(stack: Seq<Seq<u8>>) -> Seq<u8>
    decreases stack.len(),
{
    if stack.len() == 0 {
        Seq::empty()
    } else {
        join_rev(stack.subrange(1, stack.len() as int)) + seq![59u8] + stack[0]
    }
}

/// The folded key of one event.
pub open spec fn key_of(pname: Seq<u8>, stack: Seq<Seq<u8>>) -> Seq<u8> {
    pname + join_rev(stack)
}

/// One more occurrence of `k`.
pub open spec fn bump(occ: Map<Seq<u8>, nat>, k: Seq<u8>) -> Map<Seq<u8>, nat> {
    occ.insert(k, occ_at(occ, k) + 1)
}

/// Transition for a blank line: flush the completed event into the table
/// and reset; outside an event a blank line is a no-op.
pub open spec fn step_blank(st: AbsState) -> AbsState {
    if !st.in_event {
        st
    } else {
        AbsState {
            in_event: false,
            skip_stack: false,
            stack: Seq::empty(),
            occ: bump(st.occ, key_of(st.pname, st.stack)),
            ..st
        }
    }
}

/// Dispatch for a non-blank, non-comment line.
pub open spec fn step_line(cfg: RunConfig, st: AbsState, line: Seq<u8>) -> AbsState {
    if st.in_event {
        step_stack(cfg, st, line)
    } else {
        step_header(cfg, st, line)
    }
}

/// A comment line starts with `#` and is ignored outright.
pub open spec fn is_comment(raw: Seq<u8>) -> bool {
    raw.len() > 0 && raw[0] == 35
}

/// Transition for one raw input line: comments are dropped, trailing
/// whitespace is trimmed, and an empty remainder ends the event.
pub open spec fn process_line(cfg: RunConfig, st: AbsState, raw: Seq<u8>) -> AbsState {
    if is_comment(raw) {
        st
    } else {
        let t = trim_end_spec(raw);
        if t.len() == 0 {
            step_blank(st)
        } else {
            step_line(cfg, st, t)
        }
    }
}

/// The state after the first `i` input lines.
pub open spec fn run_to(cfg: RunConfig, lines: Seq<Seq<u8>>, i: int) -> AbsState
    decreases i,
{
    if i <= 0 {
        init_model()
    } else {
        process_line(cfg, run_to(cfg, lines, i - 1), lines[i - 1])
    }
}

/// Whether line `raw`, fed to state `st`, flushes an event.
pub open spec fn is_flush(st: AbsState, raw: Seq<u8>) -> bool {
    !is_comment(raw) && trim_end_spec(raw).len() == 0 && st.in_event
}

/// The folded keys of the events completed within the first `i` lines, in
/// order of completion.
pub open spec fn event_keys(cfg: RunConfig, lines: Seq<Seq<u8>>, i: int) -> Seq<Seq<u8>>
    decreases i,
{
    if i <= 0 {
        Seq::empty()
    } else {
        let st = run_to(cfg, lines, i - 1);
        let prev = event_keys(cfg, lines, i - 1);
        if is_flush(st, lines[i - 1]) {
            prev.push(key_of(st.pname, st.stack))
        } else {
            prev
        }
    }
}

/// How many entries of `s` equal `k`.
pub open spec fn count_in(s: Seq<Seq<u8>>, k: Seq<u8>) -> nat
    decreases s.len(),
{
    if s.len() == 0 {
        0
    } else {
        count_in(s.drop_last(), k) + (if s.last() == k {
            1nat
        } else {
            0nat
        })
    }
}

/// Appending one key raises exactly that key's tally.
pub proof fn lemma_count_in_push(s: Seq<Seq<u8>>, x: Seq<u8>, k: Seq<u8>)
    ensures
        count_in(s.push(x), k) == count_in(s, k) + (if x == k {
            1nat
        } else {
            0nat
        }),
{
    assert(s.push(x).drop_last() =~= s);
    assert(s.push(x).last() == x);
}

/// A tally never exceeds the number of entries.
pub proof fn lemma_count_le_len(s: Seq<Seq<u8>>, k: Seq<u8>)
    ensures
        count_in(s, k) <= s.len(),
    decreases s.len(),
{
    if s.len() > 0 {
        lemma_count_le_len(s.drop_last(), k);
    }
}

/// At most one event completes per input line.
pub proof fn lemma_event_keys_len(cfg: RunConfig, lines: Seq<Seq<u8>>, i: int)
    requires
        0 <= i,
    ensures
        event_keys(cfg, lines, i).len() <= i,
    decreases i,
{
    if i > 0 {
        lemma_event_keys_len(cfg, lines, i - 1);
    }
}

/// The count stored for a folded key equals the number of completed events
/// whose process label and ordered frame list folded to that key.
pub proof fn lemma_counts_match_events(cfg: RunConfig, lines: Seq<Seq<u8>>, i: int, k: Seq<u8>)
    requires
        0 <= i,
    ensures
        occ_at(run_to(cfg, lines, i).occ, k) == count_in(event_keys(cfg, lines, i), k),
    decreases i,
{
    if i > 0 {
        lemma_counts_match_events(cfg, lines, i - 1, k);
        let st = run_to(cfg, lines, i - 1);
        let raw = lines[i - 1];
        let prev = event_keys(cfg, lines, i - 1);
        if is_flush(st, raw) {
            let key = key_of(st.pname, st.stack);
            lemma_count_in_push(prev, key, k);
            assert(run_to(cfg, lines, i).occ == bump(st.occ, key));
        } else {
            assert(run_to(cfg, lines, i).occ == st.occ);
        }
    }
}

} // verus!
