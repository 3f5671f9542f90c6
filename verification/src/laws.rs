//! Properties of the collapser stated and proved once, beyond the
//! per-function contracts: ordering of the rendered output, the exact
//! behaviour of symbol-offset stripping and argument-list removal, and the
//! shape of an event with no frames.

use vstd::prelude::*;

use crate::bytes::find_byte;
use crate::bytes::is_hex_byte;
use crate::bytes::lemma_lex_irrefl;
use crate::bytes::lex_lt;
use crate::frame::anon_marker;
use crate::frame::has_at;
use crate::frame::rfind_plus0x;
use crate::frame::semi_swap;
use crate::frame::strip_offset_spec;
use crate::frame::tidy_spec;
use crate::model::bump;
use crate::model::join_rev;
use crate::model::key_of;
use crate::model::step_blank;
use crate::model::AbsState;
use crate::state::occ_at;
use crate::state::rendered_output;

verus! {

/// The rendered output's keys are strictly lexicographically ordered, so no
/// key appears twice.
pub proof fn lemma_output_keys_sorted(occ: Map<Seq<u8>, nat>, keys: Seq<Seq<u8>>, out: Seq<Seq<u8>>)
    requires
        rendered_output(occ, keys, out),
    ensures
        forall|a: int, b: int| 0 <= a < b < keys.len() ==> lex_lt(keys[a], keys[b]),
        forall|a: int, b: int|
            0 <= a < keys.len() && 0 <= b < keys.len() && a != b ==> keys[a] != keys[b],
{
    assert forall|a: int, b: int|
        0 <= a < keys.len() && 0 <= b < keys.len() && a != b implies keys[a] != keys[b] by {
        if keys[a] == keys[b] {
            if a < b {
                lemma_lex_irrefl(keys[a]);
            } else {
                lemma_lex_irrefl(keys[b]);
            }
        }
    }
}

/// The bytes of `"+0x"`, introducing a symbol offset.
pub open spec fn offset_marker() -> Seq<u8> {
    seq![43u8, 48, 120]
}

/// When `"+0x"` occurs at `fl` and nowhere later, the search finds it.
proof fn lemma_rfind_plus0x_at(s: Seq<u8>, fl: int, i: int)
    requires
        0 <= fl,
        fl + 3 <= s.len(),
        s[fl] == 43,
        s[fl + 1] == 48,
        s[fl + 2] == 120,
        forall|j: int| fl < j < s.len() ==> s[j] != 43,
        fl < i <= s.len(),
    ensures
        rfind_plus0x(s, i) == Some(fl),
    decreases i,
{
    if i - 1 > fl {
        assert(s[i - 1] != 43);
        lemma_rfind_plus0x_at(s, fl, i - 1);
    }
}

/// A trailing `+0x<hex>` suffix of a function name is stripped, even when
/// the hexadecimal part is empty.
pub proof fn lemma_offset_hex_stripped(f: Seq<u8>, h: Seq<u8>)
    requires
        forall|k: int| 0 <= k < h.len() ==> is_hex_byte(#[trigger] h[k]),
    ensures
        strip_offset_spec(f + offset_marker() + h) == f,
{
    let s = f + offset_marker() + h;
    let fl = f.len() as int;
    assert(s[fl] == 43 && s[fl + 1] == 48 && s[fl + 2] == 120);
    assert forall|j: int| fl < j < s.len() implies s[j] != 43 by {
        if j >= fl + 3 {
            assert(s[j] == h[j - fl - 3]);
            assert(is_hex_byte(h[j - fl - 3]));
        }
    }
    lemma_rfind_plus0x_at(s, fl, s.len() as int);
    assert forall|k: int| fl + 3 <= k < s.len() implies is_hex_byte(s[k]) by {
        assert(s[k] == h[k - fl - 3]);
        assert(is_hex_byte(h[k - fl - 3]));
    }
    assert(s.subrange(0, fl) =~= f);
}

/// A trailing `+0x...` suffix whose tail is not all hexadecimal is kept.
pub proof fn lemma_offset_nonhex_kept(f: Seq<u8>, h: Seq<u8>)
    requires
        forall|k: int| 0 <= k < h.len() ==> #[trigger] h[k] != 43,
        exists|k: int| 0 <= k < h.len() && !is_hex_byte(#[trigger] h[k]),
    ensures
        strip_offset_spec(f + offset_marker() + h) == f + offset_marker() + h,
{
    let s = f + offset_marker() + h;
    let fl = f.len() as int;
    assert(s[fl] == 43 && s[fl + 1] == 48 && s[fl + 2] == 120);
    assert forall|j: int| fl < j < s.len() implies s[j] != 43 by {
        if j >= fl + 3 {
            assert(s[j] == h[j - fl - 3]);
            assert(h[j - fl - 3] != 43);
        }
    }
    lemma_rfind_plus0x_at(s, fl, s.len() as int);
    let k0 = choose|k: int| 0 <= k < h.len() && !is_hex_byte(#[trigger] h[k]);
    assert(s[fl + 3 + k0] == h[k0]);
    assert(!is_hex_byte(s[fl + 3 + k0]));
}

/// The first occurrence of `b` at `p` is what the search finds.
proof fn lemma_find_byte_at(s: Seq<u8>, b: u8, p: int, i: int)
    requires
        0 <= i <= p < s.len(),
        s[p] == b,
        forall|k: int| i <= k < p ==> s[k] != b,
    ensures
        find_byte(s, i, b) == Some(p),
    decreases p - i,
{
    if i < p {
        lemma_find_byte_at(s, b, p, i + 1);
    }
}

/// With no occurrence of `b`, the search finds nothing.
proof fn lemma_find_byte_none(s: Seq<u8>, b: u8, i: int)
    requires
        0 <= i,
        forall|k: int| i <= k < s.len() ==> s[k] != b,
    ensures
        find_byte(s, i, b) is None,
    decreases s.len() - i,
{
    if i < s.len() {
        lemma_find_byte_none(s, b, i + 1);
    }
}

/// A name whose first `(` neither sits at the anonymous-namespace marker
/// nor follows a dot is truncated at that `(`.
pub proof fn lemma_tidy_truncates(f: Seq<u8>, p: int)
    requires
        0 <= p < f.len(),
        f[p] == 40,
        forall|k: int| 0 <= k < p ==> #[trigger] f[k] != 40,
        !has_at(semi_swap(f), p, anon_marker()),
        !(p > 0 && f[p - 1] == 46),
    ensures
        tidy_spec(f) == semi_swap(f).subrange(0, p),
{
    let g = semi_swap(f);
    assert(g[p] == 40);
    assert forall|k: int| 0 <= k < p implies g[k] != 40 by {
        assert(g[k] == (if f[k] == 59 {
            58u8
        } else {
            f[k]
        }));
    }
    lemma_find_byte_at(g, 40, p, 0);
    if p > 0 {
        assert(g[p - 1] == (if f[p - 1] == 59 {
            58u8
        } else {
            f[p - 1]
        }));
    }
}

/// A name whose first `(` follows a dot (a method-style qualified name) is
/// kept whole, up to the `;` remap.
pub proof fn lemma_tidy_keeps_dotted(f: Seq<u8>, p: int)
    requires
        0 < p < f.len(),
        f[p] == 40,
        forall|k: int| 0 <= k < p ==> #[trigger] f[k] != 40,
        f[p - 1] == 46,
    ensures
        tidy_spec(f) == semi_swap(f),
{
    let g = semi_swap(f);
    assert(g[p] == 40);
    assert forall|k: int| 0 <= k < p implies g[k] != 40 by {
        assert(g[k] == (if f[k] == 59 {
            58u8
        } else {
            f[k]
        }));
    }
    lemma_find_byte_at(g, 40, p, 0);
    assert(g[p - 1] == 46);
}

/// A name without parentheses is kept whole, up to the `;` remap.
pub proof fn lemma_tidy_no_paren(f: Seq<u8>)
    requires
        forall|k: int| 0 <= k < f.len() ==> #[trigger] f[k] != 40,
    ensures
        tidy_spec(f) == semi_swap(f),
{
    let g = semi_swap(f);
    assert forall|k: int| 0 <= k < g.len() implies g[k] != 40 by {
        assert(g[k] == (if f[k] == 59 {
            58u8
        } else {
            f[k]
        }));
    }
    lemma_find_byte_none(g, 40, 0);
}

/// An event that completes with no accumulated frames is tallied under its
/// process label alone.
pub proof fn lemma_empty_event_counts_label(st: AbsState)
    requires
        st.in_event,
        st.stack.len() == 0,
    ensures
        key_of(st.pname, st.stack) == st.pname,
        occ_at(step_blank(st).occ, st.pname) == occ_at(st.occ, st.pname) + 1,
{
    assert(join_rev(st.stack) == Seq::<u8>::empty());
    assert(st.pname + join_rev(st.stack) =~= st.pname);
    assert(step_blank(st).occ == bump(st.occ, st.pname));
}

} // verus!
