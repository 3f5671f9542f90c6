//! The parser state: event-boundary tracking, per-event frame accumulation,
//! the table counting how often each folded stack occurred, and the sorted
//! rendering of that table.

use vstd::prelude::*;

use crate::bytes::dec_spec;
use crate::bytes::eq_bytes;
use crate::bytes::lemma_lex_irrefl;
use crate::bytes::lemma_lex_total;
use crate::bytes::lemma_lex_trans;
use crate::bytes::lex_lt;
use crate::bytes::lex_lt_exec;
use crate::bytes::push_all;
use crate::bytes::sub_to_vec;
use crate::bytes::trim_end_len;
use crate::bytes::u64_to_dec;
use crate::frame::norm_frame;
use crate::model::bump;
use crate::model::event_disposition_spec;
use crate::model::event_keys;
use crate::model::event_name_spec;
use crate::model::init_model;
use crate::model::join_rev;
use crate::model::key_of;
use crate::model::lemma_count_le_len;
use crate::model::lemma_counts_match_events;
use crate::model::lemma_event_keys_len;
use crate::model::process_line;
use crate::model::run_to;
use crate::model::step_blank;
use crate::model::step_header;
use crate::model::step_line;
use crate::model::step_stack;
use crate::model::weird_event_prefix;
use crate::model::weird_stack_prefix;
use crate::model::AbsState;
use crate::bytes::rfind_byte;

verus! {

/// Options consumed by the collapser, fixed for a whole run.
#[derive(Clone, Copy)]
pub struct RunConfig {
    /// Append `-<pid>` to process names.
    pub include_pid: bool,
    /// Append `-<pid>/<tid>` to process names (overrides `include_pid`).
    pub include_tid: bool,
    /// Show raw addresses for frames whose symbol is unknown.
    pub include_addrs: bool,
    /// Annotate JIT-compiled frames with `_[j]`.
    pub annotate_jit: bool,
    /// Annotate kernel frames with `_[k]`.
    pub annotate_kernel: bool,
}

/// Whether the frames of the current event are kept or discarded.
///
/// Event-type filtering is an extension point: today every event is kept.
#[derive(Clone, Copy, PartialEq, Eq, Structural)]
pub enum StackDisposition {
    Keep,
    Skip,
}

/// The views of a sequence of byte vectors.
pub open spec fn views_of(s: Seq<Vec<u8>>) -> Seq<Seq<u8>> {
    s.map_values(|v: Vec<u8>| v@)
}

/// The occurrence table as a mathematical map from folded key to count.
pub open spec fn occ_model(entries: Seq<(Vec<u8>, u64)>) -> Map<Seq<u8>, nat>
    decreases entries.len(),
{
    if entries.len() == 0 {
        Map::empty()
    } else {
        occ_model(entries.drop_last()).insert(entries.last().0@, entries.last().1 as nat)
    }
}

/// The count stored for a key, or zero when the key is absent.
pub open spec fn occ_at(occ: Map<Seq<u8>, nat>, k: Seq<u8>) -> nat {
    if occ.contains_key(k) {
        occ[k]
    } else {
        0
    }
}

/// The occurrence table holds each folded key at most once.
pub open spec fn wf_entries(entries: Seq<(Vec<u8>, u64)>) -> bool {
    forall|i: int, j: int| 0 <= i < j < entries.len() ==> (#[trigger] entries[i]).0@ != (
    #[trigger] entries[j]).0@
}

/// The pair states the table's count for its key.
pub open spec fn in_table(occ: Map<Seq<u8>, nat>, p: (Vec<u8>, u64)) -> bool {
    occ.contains_key(p.0@) && occ[p.0@] == p.1 as nat
}

/// `out` renders the table: one line `<key> <count>` per key of `occ`, in
/// strictly increasing lexicographic key order.
pub open spec fn rendered_output(
    occ: Map<Seq<u8>, nat>,
    keys: Seq<Seq<u8>>,
    out: Seq<Seq<u8>>,
) -> bool {
    &&& keys.len() == out.len()
    &&& forall|a: int, b: int| 0 <= a < b < keys.len() ==> lex_lt(keys[a], keys[b])
    &&& forall|i: int|
        0 <= i < keys.len() ==> occ.contains_key(#[trigger] keys[i]) && out[i] == keys[i]
            + seq![32u8] + dec_spec(occ[keys[i]])
    &&& forall|k: Seq<u8>|
        #[trigger] occ.contains_key(k) ==> exists|i: int|
            0 <= i < keys.len() && keys[i] == k
}

/// A key is in the table's map exactly when some entry holds it.
pub proof fn lemma_occ_contains(entries: Seq<(Vec<u8>, u64)>, k: Seq<u8>)
    ensures
        occ_model(entries).contains_key(k) <==> exists|i: int|
            0 <= i < entries.len() && (#[trigger] entries[i]).0@ == k,
    decreases entries.len(),
{
    if entries.len() > 0 {
        let dl = entries.drop_last();
        let n = entries.len() as int;
        lemma_occ_contains(dl, k);
        if occ_model(entries).contains_key(k) {
            if entries.last().0@ == k {
                assert((entries[n - 1]).0@ == k);
            } else {
                assert(occ_model(dl).contains_key(k));
                let i = choose|i: int| 0 <= i < dl.len() && (#[trigger] dl[i]).0@ == k;
                assert((entries[i]).0@ == k);
            }
        }
        if exists|i: int| 0 <= i < n && (#[trigger] entries[i]).0@ == k {
            let i = choose|i: int| 0 <= i < n && (#[trigger] entries[i]).0@ == k;
            if i < n - 1 {
                assert((dl[i]).0@ == k);
                assert(occ_model(dl).contains_key(k));
            }
        }
    }
}

/// In a well-formed table, entry `i` gives its key's count.
pub proof fn lemma_occ_get(entries: Seq<(Vec<u8>, u64)>, i: int)
    requires
        wf_entries(entries),
        0 <= i < entries.len(),
    ensures
        occ_model(entries).contains_key(entries[i].0@),
        occ_model(entries)[entries[i].0@] == entries[i].1 as nat,
    decreases entries.len(),
{
    let n = entries.len() as int;
    if i == n - 1 {
        assert(entries[i] == entries.last());
    } else {
        let dl = entries.drop_last();
        assert(wf_entries(dl)) by {
            assert(forall|a: int, b: int|
                0 <= a < b < dl.len() ==> (#[trigger] dl[a]) == entries[a] && (#[trigger] dl[b])
                    == entries[b]);
        }
        lemma_occ_get(dl, i);
        assert(entries[i].0@ != entries[n - 1].0@);
        assert(dl[i] == entries[i]);
    }
}

/// Replacing entry `i`'s count updates exactly that key in the map.
pub proof fn lemma_occ_update(entries: Seq<(Vec<u8>, u64)>, i: int, v: u64)
    requires
        wf_entries(entries),
        0 <= i < entries.len(),
    ensures
        occ_model(entries.update(i, (entries[i].0, v))) == occ_model(entries).insert(
            entries[i].0@,
            v as nat,
        ),
    decreases entries.len(),
{
    let n = entries.len() as int;
    let u = entries.update(i, (entries[i].0, v));
    if i == n - 1 {
        assert(u.drop_last() =~= entries.drop_last());
        assert(u.last() == (entries[i].0, v));
        assert(occ_model(u) =~= occ_model(entries).insert(entries[i].0@, v as nat));
    } else {
        let dl = entries.drop_last();
        assert(wf_entries(dl)) by {
            assert(forall|a: int, b: int|
                0 <= a < b < dl.len() ==> (#[trigger] dl[a]) == entries[a] && (#[trigger] dl[b])
                    == entries[b]);
        }
        assert(dl[i] == entries[i]);
        lemma_occ_update(dl, i, v);
        assert(u.drop_last() =~= dl.update(i, (entries[i].0, v)));
        assert(u.last() == entries.last());
        assert(entries[i].0@ != entries[n - 1].0@);
        assert(occ_model(u) =~= occ_model(entries).insert(entries[i].0@, v as nat));
    }
}

/// Adds one occurrence of `key` to the table.
#[verifier::loop_isolation(false)]
pub fn bump_entry(entries: &mut Vec<(Vec<u8>, u64)>, key: Vec<u8>)
    requires
        wf_entries(old(entries)@),
        occ_at(occ_model(old(entries)@), key@) < u64::MAX,
    ensures
        wf_entries(final(entries)@),
        occ_model(final(entries)@) == bump(occ_model(old(entries)@), key@),
{
    let ghost orig = entries@;
    let ghost kv = key@;
    let mut i: usize = 0;
    while i < entries.len()
        invariant
            entries@ == orig,
            i <= orig.len(),
            forall|j: int| 0 <= j < i ==> (#[trigger] orig[j]).0@ != kv,
            key@ == kv,
        decreases orig.len() - i,
    {
        if eq_bytes(entries[i].0.as_slice(), key.as_slice()) {
            proof {
                lemma_occ_get(orig, i as int);
                lemma_occ_contains(orig, kv);
            }
            let e = entries.remove(i);
            let newv = e.1 + 1;
            entries.insert(i, (e.0, newv));
            proof {
                assert(entries@ =~= orig.update(i as int, (orig[i as int].0, newv)));
                lemma_occ_update(orig, i as int, newv);
                assert(wf_entries(entries@)) by {
                    assert(forall|a: int|
                        0 <= a < entries@.len() ==> (#[trigger] entries@[a]).0@ == orig[a].0@);
                }
                assert(occ_model(entries@) == bump(occ_model(orig), kv));
            }
            return;
        }
        i = i + 1;
    }
    proof {
        lemma_occ_contains(orig, kv);
        assert(!occ_model(orig).contains_key(kv));
    }
    entries.push((key, 1));
    proof {
        assert(entries@.drop_last() =~= orig);
        assert(entries@.last().0@ == kv && entries@.last().1 == 1u64);
        assert(occ_model(entries@) == occ_model(orig).insert(kv, 1nat));
        assert(occ_model(entries@) == bump(occ_model(orig), kv));
        assert(wf_entries(entries@)) by {
            assert(forall|a: int|
                0 <= a < orig.len() ==> (#[trigger] entries@[a]) == orig[a]);
        }
    }
}

/// Builds `"weird event line: "`.
pub fn weird_event_vec() -> (r: Vec<u8>)
    ensures
        r@ == weird_event_prefix(),
{
    let mut v: Vec<u8> = Vec::new();
    v.push(119);
    v.push(101);
    v.push(105);
    v.push(114);
    v.push(100);
    v.push(32);
    v.push(101);
    v.push(118);
    v.push(101);
    v.push(110);
    v.push(116);
    v.push(32);
    v.push(108);
    v.push(105);
    v.push(110);
    v.push(101);
    v.push(58);
    v.push(32);
    proof {
        assert(v@ =~= weird_event_prefix());
    }
    v
}

/// Builds `"weird stack line: "`.
pub fn weird_stack_vec() -> (r: Vec<u8>)
    ensures
        r@ == weird_stack_prefix(),
{
    let mut v: Vec<u8> = Vec::new();
    v.push(119);
    v.push(101);
    v.push(105);
    v.push(114);
    v.push(100);
    v.push(32);
    v.push(115);
    v.push(116);
    v.push(97);
    v.push(99);
    v.push(107);
    v.push(32);
    v.push(108);
    v.push(105);
    v.push(110);
    v.push(101);
    v.push(58);
    v.push(32);
    proof {
        assert(v@ =~= weird_stack_prefix());
    }
    v
}

/// The trailing event name of a header line.
pub fn event_name(line: &[u8]) -> (r: Vec<u8>)
    ensures
        r@ == event_name_spec(line@),
{
    let mut j: usize = line.len();
    while j > 0 && line[j - 1] != 32
        invariant
            j <= line@.len(),
            rfind_byte(line@, line@.len() as int, 32) == rfind_byte(line@, j as int, 32),
        decreases j,
    {
        j = j - 1;
    }
    let t = &line[j..line.len()];
    proof {
        if j == 0 {
            assert(t@ =~= line@);
        }
    }
    if t.len() > 0 && t[t.len() - 1] == 58 {
        proof {
            assert(t@.drop_last() =~= t@.subrange(0, t@.len() - 1));
        }
        sub_to_vec(t, 0, t.len() - 1)
    } else {
        proof {
            assert(t@.subrange(0, t@.len() as int) =~= t@);
        }
        sub_to_vec(t, 0, t.len())
    }
}

/// Event-type filtering decision; every event type is kept today.
pub fn event_disposition(_name: &[u8]) -> (r: StackDisposition)
    ensures
        r == event_disposition_spec(_name@),
{
    StackDisposition::Keep
}

/// Streaming parser over the lines of a perf script dump.
pub struct PerfState {
    /// All lines until the next empty line are stack lines.
    pub in_event: bool,
    /// Discard the stack lines of the current event.
    pub skip_stack: bool,
    /// Frames of the in-progress event, in the order they were read
    /// (leaf-most frame first).
    pub stack: Vec<Vec<u8>>,
    /// Folded keys with the number of times each was seen.
    pub occurrences: Vec<(Vec<u8>, u64)>,
    /// Process label of the current event.
    pub pname: Vec<u8>,
    /// Diagnostics for lines that could not be parsed.
    pub diagnostics: Vec<Vec<u8>>,
    /// The options for the current run.
    pub opt: RunConfig,
}

impl PerfState {
    /// The occurrence table keyed by folded stack.
    pub open spec fn occ(&self) -> Map<Seq<u8>, nat> {
        occ_model(self.occurrences@)
    }

    /// Well-formedness: no folded key appears twice in the table.
    pub open spec fn wf(&self) -> bool {
        wf_entries(self.occurrences@)
    }

    /// The abstract state this parser stands for.
    pub open spec fn model(&self) -> AbsState {
        AbsState {
            in_event: self.in_event,
            skip_stack: self.skip_stack,
            stack: views_of(self.stack@),
            pname: self.pname@,
            occ: occ_model(self.occurrences@),
            diags: views_of(self.diagnostics@),
        }
    }

    /// A fresh parser with an empty table.
    pub fn new(opt: RunConfig) -> (r: PerfState)
        ensures
            r.model() == init_model(),
            r.opt == opt,
            r.wf(),
    {
        let r = PerfState {
            in_event: false,
            skip_stack: false,
            stack: Vec::new(),
            occurrences: Vec::new(),
            pname: Vec::new(),
            diagnostics: Vec::new(),
            opt,
        };
        proof {
            assert(r.model() =~= init_model());
        }
        r
    }

    /// Handles a header line: enters the event and sets its process label,
    /// or records a diagnostic and returns to header mode.
    #[verifier::loop_isolation(false)]
    pub fn on_event_line(&mut self, line: &[u8])
        requires
            old(self).wf(),
        ensures
            final(self).model() == step_header(old(self).opt, old(self).model(), line@),
            final(self).wf(),
            final(self).opt == old(self).opt,
    {
        self.in_event = true;
        match Self::event_line_parts(line) {
            Some((comm, pid, tid)) => {
                let name = event_name(line);
                match event_disposition(name.as_slice()) {
                    StackDisposition::Skip => {
                        self.skip_stack = true;
                    },
                    StackDisposition::Keep => {},
                }
                let mut label: Vec<u8> = Vec::new();
                let mut i: usize = 0;
                while i < comm.len()
                    invariant
                        i <= comm@.len(),
                        label@.len() == i,
                        forall|k: int|
                            0 <= k < i ==> label@[k] == (if comm@[k] == 32 {
                                95u8
                            } else {
                                comm@[k]
                            }),
                    decreases comm@.len() - i,
                {
                    let b = comm[i];
                    if b == 32 {
                        label.push(95);
                    } else {
                        label.push(b);
                    }
                    i = i + 1;
                }
                proof {
                    assert(label@ =~= comm@.map_values(
                        |b: u8|
                            if b == 32 {
                                95u8
                            } else {
                                b
                            },
                    ));
                }
                let ghost base = label@;
                if self.opt.include_tid {
                    label.push(45);
                    push_all(&mut label, pid.as_slice());
                    label.push(47);
                    push_all(&mut label, tid.as_slice());
                    proof {
                        assert(label@ =~= base + seq![45u8] + pid@ + seq![47u8] + tid@);
                    }
                } else if self.opt.include_pid {
                    label.push(45);
                    push_all(&mut label, pid.as_slice());
                    proof {
                        assert(label@ =~= base + seq![45u8] + pid@);
                    }
                }
                self.pname = label;
                proof {
                    assert(self.model() =~= step_header(self.opt, old(self).model(), line@));
                }
            },
            None => {
                let mut d = weird_event_vec();
                push_all(&mut d, line);
                let ghost dv = d@;
                self.diagnostics.push(d);
                self.in_event = false;
                proof {
                    assert(views_of(self.diagnostics@) =~= views_of(old(self).diagnostics@).push(
                        dv,
                    ));
                    assert(self.model() =~= step_header(self.opt, old(self).model(), line@));
                }
            },
        }
    }

    /// Handles a stack-frame line: pushes the normalized frame, or records
    /// a diagnostic; skipped events and discarded frames change nothing.
    #[verifier::loop_isolation(false)]
    pub fn on_stack_line(&mut self, line: &[u8])
        requires
            old(self).wf(),
        ensures
            final(self).model() == step_stack(old(self).opt, old(self).model(), line@),
            final(self).wf(),
            final(self).opt == old(self).opt,
    {
        if self.skip_stack {
            return ;
        }
        match Self::stack_line_parts(line) {
            None => {
                let mut d = weird_stack_vec();
                push_all(&mut d, line);
                let ghost dv = d@;
                self.diagnostics.push(d);
                proof {
                    assert(views_of(self.diagnostics@) =~= views_of(old(self).diagnostics@).push(
                        dv,
                    ));
                    assert(self.model() =~= step_stack(self.opt, old(self).model(), line@));
                }
            },
            Some((pc, raw, module)) => {
                match norm_frame(self.opt, pc.as_slice(), raw.as_slice(), module.as_slice()) {
                    None => {
                        proof {
                            assert(self.model() =~= step_stack(
                                self.opt,
                                old(self).model(),
                                line@,
                            ));
                        }
                    },
                    Some(f) => {
                        let ghost fv = f@;
                        self.stack.push(f);
                        proof {
                            assert(views_of(self.stack@) =~= views_of(old(self).stack@).push(fv));
                            assert(self.model() =~= step_stack(
                                self.opt,
                                old(self).model(),
                                line@,
                            ));
                        }
                    },
                }
            },
        }
    }

    /// Routes a non-blank line to header or stack-frame handling.
    pub fn on_line(&mut self, line: &[u8])
        requires
            old(self).wf(),
        ensures
            final(self).model() == step_line(old(self).opt, old(self).model(), line@),
            final(self).wf(),
            final(self).opt == old(self).opt,
    {
        if !self.in_event {
            self.on_event_line(line)
        } else {
            self.on_stack_line(line)
        }
    }

    /// Flushes the completed event into the occurrence table and resets for
    /// the next one; outside an event this is a no-op.
    #[verifier::loop_isolation(false)]
    pub fn after_event(&mut self)
        requires
            old(self).wf(),
            old(self).in_event ==> occ_at(
                old(self).model().occ,
                key_of(old(self).model().pname, old(self).model().stack),
            ) < u64::MAX,
        ensures
            final(self).model() == step_blank(old(self).model()),
            final(self).wf(),
            final(self).opt == old(self).opt,
    {
        if !self.in_event {
            return ;
        }
        let ghost sm = views_of(self.stack@);
        let mut key = sub_to_vec(self.pname.as_slice(), 0, self.pname.len());
        proof {
            assert(self.pname@.subrange(0, self.pname@.len() as int) =~= self.pname@);
            assert(sm.subrange(sm.len() as int, sm.len() as int) =~= Seq::<Seq<u8>>::empty());
        }
        let n = self.stack.len();
        let mut i: usize = n;
        while i > 0
            invariant
                i <= n,
                n == self.stack@.len(),
                sm == views_of(self.stack@),
                key@ == self.pname@ + join_rev(sm.subrange(i as int, n as int)),
            decreases i,
        {
            i = i - 1;
            key.push(59);
            push_all(&mut key, self.stack[i].as_slice());
            proof {
                let sub = sm.subrange(i as int, n as int);
                assert(sub.subrange(1, sub.len() as int) =~= sm.subrange(i + 1, n as int));
                assert(sub[0] == sm[i as int]);
                assert(key@ =~= self.pname@ + join_rev(sub));
            }
        }
        proof {
            assert(sm.subrange(0, n as int) =~= sm);
            assert(key@ == key_of(old(self).model().pname, old(self).model().stack));
        }
        bump_entry(&mut self.occurrences, key);
        self.in_event = false;
        self.skip_stack = false;
        self.stack = Vec::new();
        proof {
            assert(views_of(self.stack@) =~= Seq::<Seq<u8>>::empty());
            assert(self.model() =~= step_blank(old(self).model()));
        }
    }

    /// The occurrence table as entries sorted by key.
    #[verifier::loop_isolation(false)]
    pub fn sorted_entries(&self) -> (r: Vec<(Vec<u8>, u64)>)
        requires
            self.wf(),
        ensures
            forall|a: int, b: int| 0 <= a < b < r@.len() ==> lex_lt(r@[a].0@, r@[b].0@),
            forall|i: int| 0 <= i < r@.len() ==> in_table(self.occ(), #[trigger] r@[i]),
            forall|k: Seq<u8>|
                #[trigger] self.occ().contains_key(k) ==> exists|i: int|
                    0 <= i < r@.len() && (#[trigger] r@[i]).0@ == k,
    {
        let ghost occ = self.occ();
        let mut work: Vec<(Vec<u8>, u64)> = Vec::new();
        let mut i: usize = 0;
        while i < self.occurrences.len()
            invariant
                i <= self.occurrences@.len(),
                work@.len() == i,
                forall|j: int|
                    0 <= j < i ==> (#[trigger] work@[j]).0@ == self.occurrences@[j].0@ && work@[
                        j].1 == self.occurrences@[j].1,
                self.wf(),
            decreases self.occurrences@.len() - i,
        {
            let p = &self.occurrences[i];
            let kcopy = sub_to_vec(p.0.as_slice(), 0, p.0.len());
            proof {
                assert(p.0@.subrange(0, p.0@.len() as int) =~= p.0@);
            }
            work.push((kcopy, p.1));
            i = i + 1;
        }
        proof {
            assert forall|t: int| 0 <= t < work@.len() implies in_table(occ, #[trigger] work@[t]) by {
                lemma_occ_get(self.occurrences@, t);
            }
            assert forall|k: Seq<u8>| #[trigger] occ.contains_key(k) implies exists|t: int|
                0 <= t < work@.len() && (#[trigger] work@[t]).0@ == k by {
                lemma_occ_contains(self.occurrences@, k);
                let j = choose|j: int|
                    0 <= j < self.occurrences@.len() && (#[trigger] self.occurrences@[j]).0@ == k;
                assert(work@[j].0@ == k);
            }
        }
        let mut out: Vec<(Vec<u8>, u64)> = Vec::new();
        while work.len() > 0
            invariant
                forall|a: int, b: int| 0 <= a < b < out@.len() ==> lex_lt(out@[a].0@, out@[b].0@),
                forall|a: int, t: int|
                    0 <= a < out@.len() && 0 <= t < work@.len() ==> lex_lt(
                        (#[trigger] out@[a]).0@,
                        (#[trigger] work@[t]).0@,
                    ),
                forall|t1: int, t2: int|
                    0 <= t1 < t2 < work@.len() ==> (#[trigger] work@[t1]).0@ != (
                    #[trigger] work@[t2]).0@,
                forall|a: int| 0 <= a < out@.len() ==> in_table(occ, #[trigger] out@[a]),
                forall|t: int| 0 <= t < work@.len() ==> in_table(occ, #[trigger] work@[t]),
                forall|k: Seq<u8>|
                    #[trigger] occ.contains_key(k) ==> (exists|a: int|
                        0 <= a < out@.len() && (#[trigger] out@[a]).0@ == k) || (exists|t: int|
                        0 <= t < work@.len() && (#[trigger] work@[t]).0@ == k),
            decreases work@.len(),
        {
            let mut m: usize = 0;
            let mut j: usize = 1;
            while j < work.len()
                invariant
                    m < j <= work@.len(),
                    work@.len() > 0,
                    forall|t: int|
                        0 <= t < j && t != m ==> !lex_lt(
                            (#[trigger] work@[t]).0@,
                            work@[m as int].0@,
                        ),
                decreases work@.len() - j,
            {
                if lex_lt_exec(work[j].0.as_slice(), work[m].0.as_slice()) {
                    proof {
                        let wj = work@[j as int].0@;
                        let wm = work@[m as int].0@;
                        assert forall|t: int| 0 <= t < j + 1 && t != j implies !lex_lt(
                            (#[trigger] work@[t]).0@,
                            wj,
                        ) by {
                            if lex_lt(work@[t].0@, wj) {
                                lemma_lex_trans(work@[t].0@, wj, wm);
                                if t == m {
                                    lemma_lex_irrefl(wm);
                                }
                            }
                        }
                    }
                    m = j;
                }
                j = j + 1;
            }
            proof {
                assert forall|t: int| 0 <= t < work@.len() && t != m implies lex_lt(
                    work@[m as int].0@,
                    (#[trigger] work@[t]).0@,
                ) by {
                    lemma_lex_total(work@[m as int].0@, work@[t].0@);
                    if (m as int) < t {
                        assert(work@[m as int].0@ != work@[t].0@);
                    } else {
                        assert(work@[t].0@ != work@[m as int].0@);
                    }
                }
            }
            let ghost w0 = work@;
            let ghost o0 = out@;
            let ghost mi = m as int;
            let p = work.remove(m);
            out.push(p);
            proof {
                assert(p == w0[mi]);
                assert(work@ =~= w0.subrange(0, mi) + w0.subrange(mi + 1, w0.len() as int));
                assert forall|t: int| 0 <= t < work@.len() implies #[trigger] work@[t] == (if t
                    < mi {
                    w0[t]
                } else {
                    w0[t + 1]
                }) by {}
                assert(out@ =~= o0.push(p));
                assert forall|k: Seq<u8>| #[trigger] occ.contains_key(k) implies (exists|a: int|
                    0 <= a < out@.len() && (#[trigger] out@[a]).0@ == k) || (exists|t: int|
                    0 <= t < work@.len() && (#[trigger] work@[t]).0@ == k) by {
                    if exists|a: int| 0 <= a < o0.len() && (#[trigger] o0[a]).0@ == k {
                        let a = choose|a: int| 0 <= a < o0.len() && (#[trigger] o0[a]).0@ == k;
                        assert(out@[a].0@ == k);
                    } else {
                        let t = choose|t: int| 0 <= t < w0.len() && (#[trigger] w0[t]).0@ == k;
                        if t == mi {
                            assert(out@[o0.len() as int].0@ == k);
                        } else if t < mi {
                            assert(work@[t].0@ == k);
                        } else {
                            assert(work@[t - 1].0@ == k);
                        }
                    }
                }
            }
        }
        out
    }

    /// The folded lines, one `<key> <count>` per distinct stack, sorted by
    /// key.
    #[verifier::loop_isolation(false)]
    pub fn finish(&self) -> (r: Vec<Vec<u8>>)
        requires
            self.wf(),
        ensures
            exists|keys: Seq<Seq<u8>>|
                #[trigger] rendered_output(self.occ(), keys, views_of(r@)),
    {
        let es = self.sorted_entries();
        let mut out: Vec<Vec<u8>> = Vec::new();
        let mut i: usize = 0;
        while i < es.len()
            invariant
                i <= es@.len(),
                out@.len() == i,
                forall|j: int|
                    0 <= j < i ==> (#[trigger] out@[j])@ == es@[j].0@ + seq![32u8] + dec_spec(
                        es@[j].1 as nat,
                    ),
            decreases es@.len() - i,
        {
            let e = &es[i];
            let mut line = sub_to_vec(e.0.as_slice(), 0, e.0.len());
            proof {
                assert(e.0@.subrange(0, e.0@.len() as int) =~= e.0@);
            }
            line.push(32);
            let dec = u64_to_dec(e.1);
            push_all(&mut line, dec.as_slice());
            proof {
                assert(line@ =~= es@[i as int].0@ + seq![32u8] + dec_spec(es@[i as int].1 as nat));
            }
            out.push(line);
            i = i + 1;
        }
        proof {
            let keys = es@.map_values(|p: (Vec<u8>, u64)| p.0@);
            let outm = views_of(out@);
            assert forall|k: Seq<u8>| #[trigger] self.occ().contains_key(k) implies exists|t: int|
                0 <= t < keys.len() && keys[t] == k by {
                let t = choose|t: int| 0 <= t < es@.len() && (#[trigger] es@[t]).0@ == k;
                assert(keys[t] == k);
            }
            assert(rendered_output(self.occ(), keys, outm));
        }
        out
    }
}

/// Collapses a whole input: feeds every line through the parser and returns
/// the sorted folded lines together with the diagnostics, in order.
#[verifier::loop_isolation(false)]
pub fn handle_file(opt: RunConfig, lines: &Vec<Vec<u8>>) -> (r: (Vec<Vec<u8>>, Vec<Vec<u8>>))
    ensures
        exists|keys: Seq<Seq<u8>>|
            #[trigger] rendered_output(
                run_to(opt, views_of(lines@), lines@.len() as int).occ,
                keys,
                views_of(r.0@),
            ),
        views_of(r.1@) == run_to(opt, views_of(lines@), lines@.len() as int).diags,
{
    let ghost lm = views_of(lines@);
    let mut st = PerfState::new(opt);
    let mut i: usize = 0;
    while i < lines.len()
        invariant
            i <= lines@.len(),
            lm == views_of(lines@),
            st.model() == run_to(opt, lm, i as int),
            st.wf(),
            st.opt == opt,
        decreases lines@.len() - i,
    {
        let line = &lines[i];
        proof {
            assert(lm[i as int] == line@);
        }
        if line.len() > 0 && line[0] == 35 {
        } else {
            let n = trim_end_len(line.as_slice());
            if n == 0 {
                proof {
                    if st.in_event {
                        let key = key_of(st.model().pname, st.model().stack);
                        lemma_counts_match_events(opt, lm, i as int, key);
                        lemma_count_le_len(event_keys(opt, lm, i as int), key);
                        lemma_event_keys_len(opt, lm, i as int);
                        assert(occ_at(st.model().occ, key) <= i);
                        assert(i < lines@.len());
                        assert((i as nat) < u64::MAX as nat);
                    }
                }
                st.after_event();
            } else {
                let t = &line.as_slice()[0..n];
                st.on_line(t);
            }
        }
        i = i + 1;
        proof {
            assert(st.model() == run_to(opt, lm, i as int));
        }
    }
    let out = st.finish();
    let ghost outv = out@;
    let ghost fin = run_to(opt, views_of(lines@), lines@.len() as int);
    proof {
        assert(st.model().diags == fin.diags);
        let keys = choose|keys: Seq<Seq<u8>>|
            #[trigger] rendered_output(st.occ(), keys, views_of(out@));
        assert(rendered_output(fin.occ, keys, views_of(outv)));
    }
    let diags = st.diagnostics;
    let result = (out, diags);
    proof {
        assert(result.0@ == outv);
        let keys = choose|keys: Seq<Seq<u8>>|
            #[trigger] rendered_output(fin.occ, keys, views_of(outv));
        assert(rendered_output(fin.occ, keys, views_of(result.0@)));
        assert(exists|keys2: Seq<Seq<u8>>|
            #[trigger] rendered_output(
                run_to(opt, views_of(lines@), lines@.len() as int).occ,
                keys2,
                views_of(result.0@),
            ));
    }
    result
}

} // verus!
