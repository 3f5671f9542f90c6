//! Field extraction from event-header lines and stack-frame lines.
//!
//! Both line shapes delimit their fields with plain spaces, and a field may
//! itself contain spaces, so the extractors are positional scanners rather
//! than tokenizers: the header scanner looks for the first space-terminated
//! word made of digits (and `/`), the frame scanner splits once at the first
//! space and once at the last.

use vstd::prelude::*;

use crate::bytes::find_byte;
use crate::bytes::is_digit_byte;
use crate::bytes::rfind_byte;
use crate::bytes::sub_to_vec;
use crate::bytes::trim_start_idx;
use crate::bytes::trim_start_spec;
use crate::state::PerfState;

verus! {

/// Every byte of `line[ws..i]` is a decimal digit or `/`.
pub open spec fn all_num(line: Seq<u8>, ws: int, i: int) -> bool {
    forall|k: int| ws <= k < i ==> is_digit_byte(line[k]) || line[k] == 47
}

/// Scans for the first space that ends a word of digits and slashes which
/// itself follows a space.  `ws` is the start of the current word, `seen`
/// whether any space was passed.  Returns the word's start and end.
pub open spec fn scan_event(line: Seq<u8>, i: int, ws: int, seen: bool) -> Option<(int, int)>
    decreases line.len() - i,
{
    if i < 0 || i >= line.len() {
        None
    } else if line[i] == 32 {
        if seen && all_num(line, ws, i) {
            Some((ws, i))
        } else {
            scan_event(line, i + 1, i + 1, true)
        }
    } else {
        scan_event(line, i + 1, ws, seen)
    }
}

/// Index of the last `/` in `line[ws..i]`, if any.
pub open spec fn last_slash(line: Seq<u8>, ws: int, i: int) -> Option<int>
    decreases i - ws,
{
    if i <= ws {
        None
    } else if line[i - 1] == 47 {
        Some(i - 1)
    } else {
        last_slash(line, ws, i - 1)
    }
}

/// The `(comm, pid, tid)` fields of an event-header line.
///
/// The PID/TID field is the first all-digit word (a `/` splitting PID from
/// TID) that both follows and precedes a space; everything before it is the
/// process name, spaces included.  A word without `/` is the TID alone and
/// the PID is the placeholder `?`.
pub open spec fn event_parts_spec(line: Seq<u8>) -> Option<(Seq<u8>, Seq<u8>, Seq<u8>)> {
    match scan_event(line, 0, 0, false) {
        None => None,
        Some((ws, idx)) => {
            let comm = line.subrange(0, ws - 1);
            match last_slash(line, ws, idx) {
                Some(j) => Some((comm, line.subrange(ws, j), line.subrange(j + 1, idx))),
                None => Some((comm, seq![63u8], line.subrange(ws, idx))),
            }
        },
    }
}

/// A found slash lies inside the scanned word.
pub proof fn lemma_last_slash_bounds(line: Seq<u8>, ws: int, i: int)
    ensures
        last_slash(line, ws, i) matches Some(j) ==> ws <= j < i,
    decreases i - ws,
{
    if i <= ws {
    } else if line[i - 1] == 47 {
    } else {
        lemma_last_slash_bounds(line, ws, i - 1);
    }
}

/// The `(pc, rawfunc, module)` fields of a stack-frame line.
///
/// After trimming leading whitespace, the program counter runs to the first
/// space and the parenthesized module starts after the last space; the raw
/// function name, spaces included, lies between.  The module's surrounding
/// parentheses (its first and last byte) are dropped.
pub open spec fn stack_parts_spec(line: Seq<u8>) -> Option<(Seq<u8>, Seq<u8>, Seq<u8>)> {
    let t = trim_start_spec(line);
    match find_byte(t, 0, 32) {
        None => None,
        Some(i) => {
            let pc = t.subrange(0, i);
            let rest = t.subrange(i + 1, t.len() as int);
            match rfind_byte(rest, rest.len() as int, 32) {
                None => None,
                Some(j) => {
                    let modr = rest.subrange(j + 1, rest.len() as int);
                    if modr.len() < 2 {
                        None
                    } else {
                        Some(
                            (pc, rest.subrange(0, j), modr.subrange(1, modr.len() - 1)),
                        )
                    }
                },
            }
        },
    }
}

impl PerfState {
    /// Extracts `(comm, pid, tid)` from an event-header line.
    pub fn event_line_parts(line: &[u8]) -> (r: Option<(Vec<u8>, Vec<u8>, Vec<u8>)>)
        ensures
            r is Some <==> event_parts_spec(line@) is Some,
            r matches Some(t) ==> event_parts_spec(line@) == Some((t.0@, t.1@, t.2@)),
    {
        let mut word_start: usize = 0;
        let mut all_digits: bool = false;
        let mut slash: Option<usize> = None;
        let mut i: usize = 0;
        while i < line.len()
            invariant
                word_start <= i <= line@.len(),
                all_digits == (word_start > 0 && all_num(line@, word_start as int, i as int)),
                !all_digits ==> slash is None,
                slash matches Some(j) ==> word_start <= j < i,
                all_digits ==> (match slash {
                    Some(j) => last_slash(line@, word_start as int, i as int) == Some(j as int),
                    None => last_slash(line@, word_start as int, i as int) is None,
                }),
                scan_event(line@, 0, 0, false) == scan_event(
                    line@,
                    i as int,
                    word_start as int,
                    word_start > 0,
                ),
            decreases line@.len() - i,
        {
            let c = line[i];
            if c == 32 {
                if all_digits {
                    let comm = sub_to_vec(line, 0, word_start - 1);
                    let (pid, tid) = match slash {
                        Some(j) => {
                            proof {
                                lemma_last_slash_bounds(line@, word_start as int, i as int);
                            }
                            (sub_to_vec(line, word_start, j), sub_to_vec(line, j + 1, i))
                        },
                        None => {
                            let mut q: Vec<u8> = Vec::new();
                            q.push(63);
                            proof {
                                assert(q@ =~= seq![63u8]);
                            }
                            (q, sub_to_vec(line, word_start, i))
                        },
                    };
                    proof {
                        assert(scan_event(line@, i as int, word_start as int, true)
                            == Some((word_start as int, i as int)));
                    }
                    return Some((comm, pid, tid));
                }
                proof {
                    assert(scan_event(line@, i as int, word_start as int, word_start > 0)
                        == scan_event(line@, i + 1, i + 1, true));
                }
                word_start = i + 1;
                all_digits = true;
            } else {
                proof {
                    assert(scan_event(line@, i as int, word_start as int, word_start > 0)
                        == scan_event(line@, i + 1, word_start as int, word_start > 0));
                }
                if c == 47 {
                    if all_digits {
                        slash = Some(i);
                        proof {
                            assert(all_num(line@, word_start as int, i + 1));
                        }
                    }
                } else if 48 <= c && c <= 57 {
                    proof {
                        if all_digits {
                            assert(all_num(line@, word_start as int, i + 1));
                            assert(last_slash(line@, word_start as int, i + 1)
                                == last_slash(line@, word_start as int, i as int));
                        }
                    }
                } else {
                    all_digits = false;
                    slash = None;
                }
            }
            i = i + 1;
        }
        None
    }

    /// Extracts `(pc, rawfunc, module)` from a stack-frame line.
    pub fn stack_line_parts(line: &[u8]) -> (r: Option<(Vec<u8>, Vec<u8>, Vec<u8>)>)
        ensures
            r is Some <==> stack_parts_spec(line@) is Some,
            r matches Some(t) ==> stack_parts_spec(line@) == Some((t.0@, t.1@, t.2@)),
    {
        let s0 = trim_start_idx(line);
        let t = &line[s0..line.len()];
        let mut i: usize = 0;
        while i < t.len() && t[i] != 32
            invariant
                i <= t@.len(),
                find_byte(t@, 0, 32) == find_byte(t@, i as int, 32),
            decreases t@.len() - i,
        {
            i = i + 1;
        }
        if i == t.len() {
            return None;
        }
        let rest = &t[i + 1..t.len()];
        let mut j: usize = rest.len();
        while j > 0 && rest[j - 1] != 32
            invariant
                j <= rest@.len(),
                rfind_byte(rest@, rest@.len() as int, 32) == rfind_byte(rest@, j as int, 32),
            decreases j,
        {
            j = j - 1;
        }
        if j == 0 {
            return None;
        }
        let modr = &rest[j..rest.len()];
        if modr.len() < 2 {
            return None;
        }
        let pc = sub_to_vec(t, 0, i);
        let raw = sub_to_vec(rest, 0, j - 1);
        let module = sub_to_vec(modr, 1, modr.len() - 1);
        proof {
            let tv = t@;
            assert(tv == trim_start_spec(line@));
            assert(find_byte(tv, i as int, 32) == Some(i as int));
            let restv = tv.subrange(i + 1, tv.len() as int);
            assert(restv =~= rest@);
            assert(rfind_byte(rest@, j as int, 32) == Some(j - 1int));
            let modrv = restv.subrange(j as int, restv.len() as int);
            assert(modrv =~= modr@);
            assert(module@ =~= modrv.subrange(1, modrv.len() - 1));
            assert(pc@ =~= tv.subrange(0, i as int));
            assert(raw@ =~= restv.subrange(0, j - 1));
        }
        Some((pc, raw, module))
    }
}

} // verus!
