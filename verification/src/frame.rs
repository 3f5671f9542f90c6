//! Frame normalization: symbol-offset stripping, unknown-symbol fallback to
//! the module name, argument-list removal, and kernel/JIT annotation.

use vstd::prelude::*;

use crate::bytes::ends_with_bytes;
use crate::bytes::ends_with_spec;
use crate::bytes::eq_bytes;
use crate::bytes::find_byte;
use crate::bytes::is_hex_byte;
use crate::bytes::push_all;
use crate::bytes::rfind_byte;
use crate::bytes::starts_with_bytes;
use crate::bytes::starts_with_spec;
use crate::bytes::sub_to_vec;
use crate::state::RunConfig;

verus! {

/// The bytes of `"[unknown]"`, the placeholder symbol profilers emit.
pub open spec fn unknown_seq() -> Seq<u8> {
    seq![91u8, 117, 110, 107, 110, 111, 119, 110, 93]
}

/// The bytes of `"unknown"`.
pub open spec fn unknown_word() -> Seq<u8> {
    seq![117u8, 110, 107, 110, 111, 119, 110]
}

/// The bytes of `"anonymous namespace)"`, the C++ marker left untouched.
pub open spec fn anon_marker() -> Seq<u8> {
    seq![97u8, 110, 111, 110, 121, 109, 111, 117, 115, 32, 110, 97, 109, 101, 115, 112, 97, 99,
        101, 41]
}

/// The bytes of `"vmlinux"`.
pub open spec fn vmlinux_seq() -> Seq<u8> {
    seq![118u8, 109, 108, 105, 110, 117, 120]
}

/// The bytes of `"/tmp/perf-"`, the JIT map path prefix.
pub open spec fn jit_prefix() -> Seq<u8> {
    seq![47u8, 116, 109, 112, 47, 112, 101, 114, 102, 45]
}

/// The bytes of `".map"`.
pub open spec fn map_suffix() -> Seq<u8> {
    seq![46u8, 109, 97, 112]
}

/// The bytes of `"_[k]"`, the kernel annotation.
pub open spec fn kernel_tag() -> Seq<u8> {
    seq![95u8, 91, 107, 93]
}

/// The bytes of `"_[j]"`, the JIT annotation.
pub open spec fn jit_tag() -> Seq<u8> {
    seq![95u8, 91, 106, 93]
}

/// Builds `"[unknown]"`.
pub fn unknown_marker_vec() -> (r: Vec<u8>)
    ensures
        r@ == unknown_seq(),
{
    let mut v: Vec<u8> = Vec::new();
    v.push(91);
    v.push(117);
    v.push(110);
    v.push(107);
    v.push(110);
    v.push(111);
    v.push(119);
    v.push(110);
    v.push(93);
    proof {
        assert(v@ =~= unknown_seq());
    }
    v
}

/// Builds `"unknown"`.
pub fn unknown_word_vec() -> (r: Vec<u8>)
    ensures
        r@ == unknown_word(),
{
    let mut v: Vec<u8> = Vec::new();
    v.push(117);
    v.push(110);
    v.push(107);
    v.push(110);
    v.push(111);
    v.push(119);
    v.push(110);
    proof {
        assert(v@ =~= unknown_word());
    }
    v
}

/// Builds `"anonymous namespace)"`.
pub fn anon_marker_vec() -> (r: Vec<u8>)
    ensures
        r@ == anon_marker(),
{
    let mut v: Vec<u8> = Vec::new();
    v.push(97);
    v.push(110);
    v.push(111);
    v.push(110);
    v.push(121);
    v.push(109);
    v.push(111);
    v.push(117);
    v.push(115);
    v.push(32);
    v.push(110);
    v.push(97);
    v.push(109);
    v.push(101);
    v.push(115);
    v.push(112);
    v.push(97);
    v.push(99);
    v.push(101);
    v.push(41);
    proof {
        assert(v@ =~= anon_marker());
    }
    v
}

/// Builds `"vmlinux"`.
pub fn vmlinux_vec() -> (r: Vec<u8>)
    ensures
        r@ == vmlinux_seq(),
{
    let mut v: Vec<u8> = Vec::new();
    v.push(118);
    v.push(109);
    v.push(108);
    v.push(105);
    v.push(110);
    v.push(117);
    v.push(120);
    proof {
        assert(v@ =~= vmlinux_seq());
    }
    v
}

/// Builds `"/tmp/perf-"`.
pub fn jit_prefix_vec() -> (r: Vec<u8>)
    ensures
        r@ == jit_prefix(),
{
    let mut v: Vec<u8> = Vec::new();
    v.push(47);
    v.push(116);
    v.push(109);
    v.push(112);
    v.push(47);
    v.push(112);
    v.push(101);
    v.push(114);
    v.push(102);
    v.push(45);
    proof {
        assert(v@ =~= jit_prefix());
    }
    v
}

/// Builds `".map"`.
pub fn map_suffix_vec() -> (r: Vec<u8>)
    ensures
        r@ == map_suffix(),
{
    let mut v: Vec<u8> = Vec::new();
    v.push(46);
    v.push(109);
    v.push(97);
    v.push(112);
    proof {
        assert(v@ =~= map_suffix());
    }
    v
}

/// Start of the last occurrence of `"+0x"` strictly before index `i`.
pub open spec fn rfind_plus0x(f: Seq<u8>, i: int) -> Option<int>
    decreases i,
{
    if i <= 0 {
        None
    } else if i + 2 <= f.len() && f[i - 1] == 43 && f[i] == 48 && f[i + 1] == 120 {
        Some(i - 1)
    } else {
        rfind_plus0x(f, i - 1)
    }
}

/// Every byte of `f[a..b]` is a hexadecimal digit.
pub open spec fn all_hex(f: Seq<u8>, a: int, b: int) -> bool {
    forall|k: int| a <= k < b ==> is_hex_byte(f[k])
}

/// A function name with its trailing symbol offset removed: if the last
/// `"+0x"` is followed only by hexadecimal digits, the name is cut there.
pub open spec fn strip_offset_spec(f: Seq<u8>) -> Seq<u8> {
    match rfind_plus0x(f, f.len() as int) {
        None => f,
        Some(o) => if all_hex(f, o + 3, f.len() as int) {
            f.subrange(0, o)
        } else {
            f
        },
    }
}

/// Length of the name once a trailing symbol offset is stripped.
pub fn strip_offset_len(raw: &[u8]) -> (n: usize)
    ensures
        n <= raw@.len(),
        raw@.subrange(0, n as int) == strip_offset_spec(raw@),
{
    proof {
        assert(raw@.subrange(0, raw@.len() as int) =~= raw@);
    }
    let mut i: usize = raw.len();
    let mut offset: usize = 0;
    let mut found = false;
    while i > 0
        invariant_except_break
            !found,
            rfind_plus0x(raw@, raw@.len() as int) == rfind_plus0x(raw@, i as int),
        invariant
            i <= raw@.len(),
        ensures
            i <= raw@.len(),
            found ==> rfind_plus0x(raw@, raw@.len() as int) == Some(offset as int) && offset + 3
                <= raw@.len(),
            !found ==> rfind_plus0x(raw@, raw@.len() as int) is None,
        decreases i,
    {
        if raw.len() >= 2 && i <= raw.len() - 2 && raw[i - 1] == 43 && raw[i] == 48 && raw[i
            + 1] == 120 {
            offset = i - 1;
            found = true;
            proof {
                assert(i + 2 <= raw@.len());
                assert(raw@[i as int - 1] == 43 && raw@[i as int] == 48 && raw@[i as int + 1]
                    == 120);
                assert(rfind_plus0x(raw@, i as int) == Some(i as int - 1));
            }
            break;
        }
        i = i - 1;
    }
    if !found {
        return raw.len();
    }
    let mut k: usize = offset + 3;
    let mut hex = true;
    while k < raw.len()
        invariant
            offset + 3 <= k <= raw@.len(),
            hex ==> all_hex(raw@, offset + 3, k as int),
            !hex ==> !all_hex(raw@, offset + 3, raw@.len() as int),
        ensures
            hex ==> all_hex(raw@, offset + 3, raw@.len() as int),
            !hex ==> !all_hex(raw@, offset + 3, raw@.len() as int),
        decreases raw@.len() - k,
    {
        let b = raw[k];
        if !((48 <= b && b <= 57) || (97 <= b && b <= 102) || (65 <= b && b <= 70)) {
            hex = false;
            break;
        }
        k = k + 1;
    }
    if hex {
        offset
    } else {
        raw.len()
    }
}

/// Position just after the last `/` of a module path, or zero.
pub open spec fn after_last_slash(m: Seq<u8>) -> int {
    match rfind_byte(m, m.len() as int, 47) {
        Some(j) => j + 1,
        None => 0,
    }
}

/// The frame name used when the symbol is unknown: the module's last path
/// component (or `unknown`), bracketed, with the program counter appended
/// when raw addresses were requested.
pub open spec fn fallback_spec(m: Seq<u8>, f: Seq<u8>, pc: Seq<u8>, addrs: bool) -> Seq<u8> {
    if f == unknown_seq() {
        let base = if m != unknown_seq() {
            m.subrange(after_last_slash(m), m.len() as int)
        } else {
            unknown_word()
        };
        if addrs {
            seq![91u8] + base + seq![32u8, 60] + pc + seq![62u8, 93]
        } else {
            seq![91u8] + base + seq![93u8]
        }
    } else {
        f
    }
}

/// Substitutes the module name for an unknown symbol.
pub fn with_module_fallback(module: &[u8], rawfunc: &[u8], pc: &[u8], include_addrs: bool) -> (r:
    Vec<u8>)
    ensures
        r@ == fallback_spec(module@, rawfunc@, pc@, include_addrs),
{
    let unk = unknown_marker_vec();
    if !eq_bytes(rawfunc, unk.as_slice()) {
        proof {
            assert(rawfunc@.subrange(0, rawfunc@.len() as int) =~= rawfunc@);
        }
        return sub_to_vec(rawfunc, 0, rawfunc.len());
    }
    let base: Vec<u8> = if !eq_bytes(module, unk.as_slice()) {
        let mut j: usize = module.len();
        while j > 0 && module[j - 1] != 47
            invariant
                j <= module@.len(),
                rfind_byte(module@, module@.len() as int, 47) == rfind_byte(module@, j as int, 47),
            decreases j,
        {
            j = j - 1;
        }
        proof {
            assert(after_last_slash(module@) == j as int);
        }
        sub_to_vec(module, j, module.len())
    } else {
        unknown_word_vec()
    };
    let mut out: Vec<u8> = Vec::new();
    out.push(91);
    proof {
        assert(out@ =~= seq![91u8]);
    }
    push_all(&mut out, base.as_slice());
    if include_addrs {
        out.push(32);
        out.push(60);
        push_all(&mut out, pc);
        out.push(62);
        out.push(93);
        proof {
            assert(out@ =~= seq![91u8] + base@ + seq![32u8, 60] + pc@ + seq![62u8, 93]);
        }
    } else {
        out.push(93);
        proof {
            assert(out@ =~= seq![91u8] + base@ + seq![93u8]);
        }
    }
    out
}

/// The name with every `;` replaced by `:`, keeping the folded-key delimiter
/// out of frame names.
pub open spec fn semi_swap(f: Seq<u8>) -> Seq<u8> {
    f.map_values(|b: u8| if b == 59 { 58u8 } else { b })
}

/// `pat` occurs in `g` starting at position `p`.
pub open spec fn has_at(g: Seq<u8>, p: int, pat: Seq<u8>) -> bool {
    p + pat.len() <= g.len() && g.subrange(p, p + pat.len()) == pat
}

/// Argument-list removal: after the `;` remap, the name is truncated at its
/// first `(`, unless the text at that position starts with the anonymous-
/// namespace marker or the byte before the `(` is a dot (a method-style
/// qualified name).
pub open spec fn tidy_spec(f: Seq<u8>) -> Seq<u8> {
    let g = semi_swap(f);
    match find_byte(g, 0, 40) {
        None => g,
        Some(p) => if has_at(g, p, anon_marker()) {
            g
        } else if p > 0 && g[p - 1] == 46 {
            g
        } else {
            g.subrange(0, p)
        },
    }
}

/// Tidies a function name for use in a folded key.
pub fn tidy_generic(func: &[u8]) -> (r: Vec<u8>)
    ensures
        r@ == tidy_spec(func@),
{
    let mut g: Vec<u8> = Vec::new();
    let mut i: usize = 0;
    while i < func.len()
        invariant
            i <= func@.len(),
            g@.len() == i,
            forall|k: int| 0 <= k < i ==> g@[k] == (if func@[k] == 59 {
                58u8
            } else {
                func@[k]
            }),
        decreases func@.len() - i,
    {
        let b = func[i];
        if b == 59 {
            g.push(58);
        } else {
            g.push(b);
        }
        i = i + 1;
    }
    proof {
        assert(g@ =~= semi_swap(func@));
    }
    let mut p: usize = 0;
    while p < g.len() && g[p] != 40
        invariant
            p <= g@.len(),
            find_byte(g@, 0, 40) == find_byte(g@, p as int, 40),
        decreases g@.len() - p,
    {
        p = p + 1;
    }
    if p == g.len() {
        return g;
    }
    let anon = anon_marker_vec();
    if anon.len() <= g.len() && p <= g.len() - anon.len() {
        if eq_bytes(&g.as_slice()[p..p + anon.len()], anon.as_slice()) {
            return g;
        }
    }
    if p > 0 && g[p - 1] == 46 {
        return g;
    }
    g.truncate(p);
    g
}

/// The module names a kernel image: bracketed, or ending in `vmlinux`, and
/// not the unknown placeholder.
pub open spec fn kernel_mod_spec(m: Seq<u8>) -> bool {
    ((m.len() > 0 && m[0] == 91) || ends_with_spec(m, vmlinux_seq())) && m != unknown_seq()
}

/// The module names a JIT map: a `.map` file under the JIT path prefix.
pub open spec fn jit_mod_spec(m: Seq<u8>) -> bool {
    starts_with_spec(m, jit_prefix()) && ends_with_spec(m, map_suffix())
}

/// The fully normalized frame for one extracted `(pc, rawfunc, module)`
/// triple, or `None` when the frame is a process-name artifact (the stripped
/// name opens with `(`) and is discarded.
pub open spec fn norm_frame_spec(cfg: RunConfig, pc: Seq<u8>, raw: Seq<u8>, m: Seq<u8>) -> Option<
    Seq<u8>,
> {
    let f1 = strip_offset_spec(raw);
    if f1.len() > 0 && f1[0] == 40 {
        None
    } else {
        let f3 = tidy_spec(fallback_spec(m, f1, pc, cfg.include_addrs));
        let f4 = if cfg.annotate_kernel && kernel_mod_spec(m) {
            f3 + kernel_tag()
        } else {
            f3
        };
        Some(
            if cfg.annotate_jit && jit_mod_spec(m) {
                f4 + jit_tag()
            } else {
                f4
            },
        )
    }
}

/// Normalizes one frame, or discards it.
pub fn norm_frame(cfg: RunConfig, pc: &[u8], raw: &[u8], module: &[u8]) -> (r: Option<Vec<u8>>)
    ensures
        r is Some <==> norm_frame_spec(cfg, pc@, raw@, module@) is Some,
        r matches Some(v) ==> norm_frame_spec(cfg, pc@, raw@, module@) == Some(v@),
{
    let n = strip_offset_len(raw);
    let f1 = &raw[0..n];
    if f1.len() > 0 && f1[0] == 40 {
        return None;
    }
    let f2 = with_module_fallback(module, f1, pc, cfg.include_addrs);
    let mut f3 = tidy_generic(f2.as_slice());
    if cfg.annotate_kernel {
        let unk = unknown_marker_vec();
        let vml = vmlinux_vec();
        if ((module.len() > 0 && module[0] == 91) || ends_with_bytes(module, vml.as_slice()))
            && !eq_bytes(module, unk.as_slice()) {
            f3.push(95);
            f3.push(91);
            f3.push(107);
            f3.push(93);
            proof {
                assert(f3@ =~= tidy_spec(fallback_spec(module@, f1@, pc@, cfg.include_addrs))
                    + kernel_tag());
            }
        }
    }
    if cfg.annotate_jit {
        let jp = jit_prefix_vec();
        let ms = map_suffix_vec();
        if starts_with_bytes(module, jp.as_slice()) && ends_with_bytes(module, ms.as_slice()) {
            let ghost before = f3@;
            f3.push(95);
            f3.push(91);
            f3.push(106);
            f3.push(93);
            proof {
                assert(f3@ =~= before + jit_tag());
            }
        }
    }
    Some(f3)
}

} // verus!
