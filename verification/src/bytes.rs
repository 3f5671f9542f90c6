//! Byte-level helpers: character classes, whitespace trimming, subsequence
//! extraction, lexicographic comparison, and decimal rendering of counts.

use vstd::prelude::*;

verus! {

/// ASCII decimal digit.
pub open spec fn is_digit_byte(b: u8) -> bool {
    48 <= b && b <= 57
}

/// ASCII hexadecimal digit (either case).
pub open spec fn is_hex_byte(b: u8) -> bool {
    is_digit_byte(b) || (97 <= b && b <= 102) || (65 <= b && b <= 70)
}

/// ASCII whitespace, as trimmed from the ends of input lines.
pub open spec fn is_ws_byte(b: u8) -> bool {
    b == 32 || (9 <= b && b <= 13)
}

/// The line with trailing ASCII whitespace removed.
pub open spec fn trim_end_spec(s: Seq<u8>) -> Seq<u8>
    decreases s.len(),
{
    if s.len() > 0 && is_ws_byte(s.last()) {
        trim_end_spec(s.drop_last())
    } else {
        s
    }
}

/// The line with leading ASCII whitespace removed.
pub open spec fn trim_start_spec(s: Seq<u8>) -> Seq<u8>
    decreases s.len(),
{
    if s.len() > 0 && is_ws_byte(s[0]) {
        trim_start_spec(s.subrange(1, s.len() as int))
    } else {
        s
    }
}

/// Length of the line once trailing ASCII whitespace is dropped.
pub fn trim_end_len(s: &[u8]) -> (n: usize)
    ensures
        n <= s@.len(),
        s@.subrange(0, n as int) == trim_end_spec(s@),
{
    let mut n = s.len();
    proof {
        assert(s@.subrange(0, s@.len() as int) =~= s@);
    }
    while n > 0 && is_ws_exec(s[n - 1])
        invariant
            n <= s@.len(),
            trim_end_spec(s@) == trim_end_spec(s@.subrange(0, n as int)),
        decreases n,
    {
        proof {
            let t = s@.subrange(0, n as int);
            assert(t.drop_last() =~= s@.subrange(0, n - 1));
        }
        n = n - 1;
    }
    proof {
        let t = s@.subrange(0, n as int);
        assert(trim_end_spec(t) == t);
    }
    n
}

/// Index of the first byte that is not ASCII whitespace.
pub fn trim_start_idx(s: &[u8]) -> (n: usize)
    ensures
        n <= s@.len(),
        s@.subrange(n as int, s@.len() as int) == trim_start_spec(s@),
{
    let mut n: usize = 0;
    proof {
        assert(s@.subrange(0, s@.len() as int) =~= s@);
    }
    while n < s.len() && is_ws_exec(s[n])
        invariant
            n <= s@.len(),
            trim_start_spec(s@) == trim_start_spec(s@.subrange(n as int, s@.len() as int)),
        decreases s@.len() - n,
    {
        proof {
            let t = s@.subrange(n as int, s@.len() as int);
            assert(t.subrange(1, t.len() as int) =~= s@.subrange(n + 1, s@.len() as int));
        }
        n = n + 1;
    }
    proof {
        let t = s@.subrange(n as int, s@.len() as int);
        assert(trim_start_spec(t) == t);
    }
    n
}

/// Executable ASCII-whitespace test.
pub fn is_ws_exec(b: u8) -> (r: bool)
    ensures
        r == is_ws_byte(b),
{
    b == 32 || (9 <= b && b <= 13)
}

/// Copies `s[a..b]` into a fresh vector.
pub fn sub_to_vec(s: &[u8], a: usize, b: usize) -> (r: Vec<u8>)
    requires
        a <= b <= s@.len(),
    ensures
        r@ == s@.subrange(a as int, b as int),
{
    let mut r: Vec<u8> = Vec::new();
    let mut i = a;
    while i < b
        invariant
            a <= i <= b <= s@.len(),
            r@ == s@.subrange(a as int, i as int),
        decreases b - i,
    {
        r.push(s[i]);
        proof {
            assert(r@ =~= s@.subrange(a as int, i + 1));
        }
        i = i + 1;
    }
    r
}

/// Appends all of `src` to `dst`.
pub fn push_all(dst: &mut Vec<u8>, src: &[u8])
    ensures
        final(dst)@ == old(dst)@ + src@,
{
    let mut i: usize = 0;
    while i < src.len()
        invariant
            i <= src@.len(),
            dst@ == old(dst)@ + src@.subrange(0, i as int),
        decreases src@.len() - i,
    {
        dst.push(src[i]);
        proof {
            assert(old(dst)@ + src@.subrange(0, i + 1) =~= dst@);
        }
        i = i + 1;
    }
    proof {
        assert(src@.subrange(0, src@.len() as int) =~= src@);
    }
}

/// Byte-wise equality of two sequences.
pub fn eq_bytes(a: &[u8], b: &[u8]) -> (r: bool)
    ensures
        r == (a@ == b@),
{
    if a.len() != b.len() {
        proof {
            assert(a@ != b@);
        }
        return false;
    }
    let mut i: usize = 0;
    while i < a.len()
        invariant
            i <= a@.len(),
            a@.len() == b@.len(),
            forall|k: int| 0 <= k < i ==> a@[k] == b@[k],
        decreases a@.len() - i,
    {
        if a[i] != b[i] {
            return false;
        }
        i = i + 1;
    }
    proof {
        assert(a@ =~= b@);
    }
    true
}

/// First index `>= i` holding byte `b`.
pub open spec fn find_byte(s: Seq<u8>, i: int, b: u8) -> Option<int>
    decreases s.len() - i,
{
    if i < 0 || i >= s.len() {
        None
    } else if s[i] == b {
        Some(i)
    } else {
        find_byte(s, i + 1, b)
    }
}

/// Last index `< i` holding byte `b`.
pub open spec fn rfind_byte(s: Seq<u8>, i: int, b: u8) -> Option<int>
    decreases i,
{
    if i <= 0 {
        None
    } else if s[i - 1] == b {
        Some(i - 1)
    } else {
        rfind_byte(s, i - 1, b)
    }
}

/// `pat` is a prefix of `s`.
pub open spec fn starts_with_spec(s: Seq<u8>, pat: Seq<u8>) -> bool {
    pat.len() <= s.len() && s.subrange(0, pat.len() as int) == pat
}

/// `pat` is a suffix of `s`.
pub open spec fn ends_with_spec(s: Seq<u8>, pat: Seq<u8>) -> bool {
    pat.len() <= s.len() && s.subrange(s.len() - pat.len(), s.len() as int) == pat
}

/// Executable prefix test.
pub fn starts_with_bytes(s: &[u8], pat: &[u8]) -> (r: bool)
    ensures
        r == starts_with_spec(s@, pat@),
{
    if pat.len() > s.len() {
        return false;
    }
    eq_bytes(&s[0..pat.len()], pat)
}

/// Executable suffix test.
pub fn ends_with_bytes(s: &[u8], pat: &[u8]) -> (r: bool)
    ensures
        r == ends_with_spec(s@, pat@),
{
    if pat.len() > s.len() {
        return false;
    }
    eq_bytes(&s[s.len() - pat.len()..s.len()], pat)
}

/// Strict lexicographic (byte-wise) order on sequences.
pub open spec fn lex_lt(a: Seq<u8>, b: Seq<u8>) -> bool
    decreases a.len(),
{
    if b.len() == 0 {
        false
    } else if a.len() == 0 {
        true
    } else if a[0] < b[0] {
        true
    } else if a[0] > b[0] {
        false
    } else {
        lex_lt(a.subrange(1, a.len() as int), b.subrange(1, b.len() as int))
    }
}

/// Lexicographic order is irreflexive.
pub proof fn lemma_lex_irrefl(a: Seq<u8>)
    ensures
        !lex_lt(a, a),
    decreases a.len(),
{
    if a.len() > 0 {
        lemma_lex_irrefl(a.subrange(1, a.len() as int));
    }
}

/// Any two sequences are ordered or equal.
pub proof fn lemma_lex_total(a: Seq<u8>, b: Seq<u8>)
    ensures
        lex_lt(a, b) || lex_lt(b, a) || a == b,
    decreases a.len(),
{
    if b.len() == 0 {
        if a.len() == 0 {
            assert(a =~= b);
        }
    } else if a.len() == 0 {
    } else if a[0] == b[0] {
        let ta = a.subrange(1, a.len() as int);
        let tb = b.subrange(1, b.len() as int);
        lemma_lex_total(ta, tb);
        if ta == tb {
            assert(a.len() == b.len());
            assert forall|i: int| 0 <= i < a.len() implies a[i] == b[i] by {
                if i > 0 {
                    assert(ta[i - 1] == a[i]);
                    assert(tb[i - 1] == b[i]);
                }
            }
            assert(a =~= b);
        }
    }
}

/// Lexicographic order is transitive.
pub proof fn lemma_lex_trans(a: Seq<u8>, b: Seq<u8>, c: Seq<u8>)
    requires
        lex_lt(a, b),
        lex_lt(b, c),
    ensures
        lex_lt(a, c),
    decreases a.len(),
{
    if a.len() > 0 && b.len() > 0 && c.len() > 0 && a[0] == b[0] && b[0] == c[0] {
        lemma_lex_trans(
            a.subrange(1, a.len() as int),
            b.subrange(1, b.len() as int),
            c.subrange(1, c.len() as int),
        );
    }
}

/// Executable lexicographic comparison.
pub fn lex_lt_exec(a: &[u8], b: &[u8]) -> (r: bool)
    ensures
        r == lex_lt(a@, b@),
{
    let mut i: usize = 0;
    proof {
        assert(a@.subrange(0, a@.len() as int) =~= a@);
        assert(b@.subrange(0, b@.len() as int) =~= b@);
    }
    while i < a.len() && i < b.len()
        invariant
            i <= a@.len(),
            i <= b@.len(),
            forall|k: int| 0 <= k < i ==> a@[k] == b@[k],
            lex_lt(a@, b@) == lex_lt(
                a@.subrange(i as int, a@.len() as int),
                b@.subrange(i as int, b@.len() as int),
            ),
        decreases a@.len() - i,
    {
        let x = a[i];
        let y = b[i];
        if x < y {
            return true;
        }
        if x > y {
            return false;
        }
        proof {
            let sa = a@.subrange(i as int, a@.len() as int);
            let sb = b@.subrange(i as int, b@.len() as int);
            assert(sa.subrange(1, sa.len() as int) =~= a@.subrange(i + 1, a@.len() as int));
            assert(sb.subrange(1, sb.len() as int) =~= b@.subrange(i + 1, b@.len() as int));
        }
        i = i + 1;
    }
    a.len() < b.len()
}

/// Decimal rendering of an unsigned count, most significant digit first.
pub open spec fn dec_spec(n: nat) -> Seq<u8>
    decreases n,
{
    if n < 10 {
        seq![(48 + n) as u8]
    } else {
        dec_spec(n / 10) + seq![(48 + n % 10) as u8]
    }
}

/// Renders a count in decimal.
pub fn u64_to_dec(n: u64) -> (r: Vec<u8>)
    ensures
        r@ == dec_spec(n as nat),
{
    let mut m = n;
    let mut out: Vec<u8> = Vec::new();
    loop
        invariant_except_break
            m == 0 ==> out@.len() == 0,
        invariant
            out@.len() == 0 ==> m == n,
            out@.len() > 0 && m > 0 ==> dec_spec(n as nat) == dec_spec(m as nat) + out@,
        ensures
            dec_spec(n as nat) == out@,
        decreases m, (if out@.len() == 0 { 1int } else { 0int }),
    {
        let ghost prev = out@;
        let ghost m0 = m;
        let d: u8 = (m % 10) as u8 + 48;
        out.insert(0, d);
        proof {
            assert(out@ =~= seq![d] + prev);
            if m >= 10 {
                assert(dec_spec(m as nat) == dec_spec((m / 10) as nat) + seq![d]);
                assert(dec_spec(m as nat) + prev =~= dec_spec((m / 10) as nat) + out@);
            } else {
                assert(dec_spec(m as nat) == seq![d]);
                assert(dec_spec(m as nat) + prev =~= out@);
            }
            if prev.len() == 0 {
                assert(dec_spec(n as nat) == dec_spec(m0 as nat));
            } else {
                assert(dec_spec(n as nat) == dec_spec(m0 as nat) + prev);
            }
        }
        m = m / 10;
        if m == 0 {
            proof {
                assert(m0 < 10);
                assert(dec_spec(n as nat) == out@);
            }
            break;
        }
    }
    out
}

} // verus!
