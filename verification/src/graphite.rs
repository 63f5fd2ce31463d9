//! Graphite-style plaintext line parsing.
//!
//! A line has the shape `<metric>[;<key>=<value>]* <numeric-value> <integer-timestamp>`,
//! with the three fields separated by one or more spaces.  The metric path is
//! split on `;`: the first segment is the metric name, and every later segment
//! with exactly one `=` contributes a tag pair.  Segments without exactly one
//! `=` are skipped; duplicate tag keys collapse to the last-seen value while
//! keeping the position of the first occurrence.
use vstd::prelude::*;
use vstd::slice::{slice_subrange, slice_to_vec};

verus! {

/// Space, the field separator of the line protocol.
pub const SP: u8 = 32;

/// `;`, the separator between the metric name and its tag segments.
pub const SEMI: u8 = 59;

/// `=`, the separator between a tag key and its value.
pub const EQ: u8 = 61;

/// Index of the first occurrence of `b` in `s` at or after `i`, or `s.len()`
/// if there is none.
pub open spec fn find_from(s: Seq<u8>, b: u8, i: int) -> int
    decreases s.len() - i,
{
    if !(0 <= i < s.len()) {
        s.len() as int
    } else if s[i] == b {
        i
    } else {
        find_from(s, b, i + 1)
    }
}

pub proof fn lemma_find_from(s: Seq<u8>, b: u8, i: int)
    requires
        0 <= i <= s.len(),
    ensures
        i <= find_from(s, b, i) <= s.len(),
        find_from(s, b, i) < s.len() ==> s[find_from(s, b, i)] == b,
        forall|k: int| i <= k < find_from(s, b, i) ==> s[k] != b,
    decreases s.len() - i,
{
    if i < s.len() && s[i] != b {
        lemma_find_from(s, b, i + 1);
    }
}

/// Finding from `i` and from `j` agree when no occurrence lies in `[i, j)`.
pub proof fn lemma_find_from_skip(s: Seq<u8>, b: u8, i: int, j: int)
    requires
        0 <= i <= j <= s.len(),
        forall|k: int| i <= k < j ==> s[k] != b,
    ensures
        find_from(s, b, i) == find_from(s, b, j),
    decreases j - i,
{
    if i < j {
        lemma_find_from_skip(s, b, i + 1, j);
    }
}

/// The whitespace-separated tokens of `s`, starting at index `i`.
pub open spec fn tokens_from(s: Seq<u8>, i: int) -> Seq<Seq<u8>>
    decreases s.len() - i,
    when 0 <= i
    via tokens_from_decreases
{
    if !(0 <= i < s.len()) {
        Seq::empty()
    } else if s[i] == SP {
        tokens_from(s, i + 1)
    } else {
        seq![s.subrange(i, find_from(s, SP, i))] + tokens_from(s, find_from(s, SP, i))
    }
}

#[via_fn]
proof fn tokens_from_decreases(s: Seq<u8>, i: int) {
    if 0 <= i < s.len() && s[i] != SP {
        lemma_find_from(s, SP, i);
    }
}

/// All whitespace-separated tokens of a line.
pub open spec fn line_tokens(s: Seq<u8>) -> Seq<Seq<u8>> {
    tokens_from(s, 0)
}

/// The `;`-separated segments of `m` from index `i` on (`i` points just past
/// a `;`, or to the start of `m`).
pub open spec fn segments_from(m: Seq<u8>, i: int) -> Seq<Seq<u8>>
    decreases m.len() - i,
    when 0 <= i
    via segments_from_decreases
{
    if !(0 <= i <= m.len()) {
        Seq::empty()
    } else {
        let j = find_from(m, SEMI, i);
        if j >= m.len() {
            seq![m.subrange(i, m.len() as int)]
        } else {
            seq![m.subrange(i, j)] + segments_from(m, j + 1)
        }
    }
}

#[via_fn]
proof fn segments_from_decreases(m: Seq<u8>, i: int) {
    if 0 <= i <= m.len() {
        lemma_find_from(m, SEMI, i);
    }
}

/// The metric name: everything before the first `;` of the metric path.
pub open spec fn spec_name(m: Seq<u8>) -> Seq<u8> {
    m.subrange(0, find_from(m, SEMI, 0))
}

/// The raw tag segments of the metric path: everything after the first `;`,
/// split on `;`.
pub open spec fn tail_segments(m: Seq<u8>) -> Seq<Seq<u8>> {
    let j = find_from(m, SEMI, 0);
    if j >= m.len() {
        Seq::empty()
    } else {
        segments_from(m, j + 1)
    }
}

/// The tag pair denoted by one raw segment: `Some((key, value))` when the
/// segment holds exactly one `=`, `None` otherwise (the segment is skipped).
pub open spec fn seg_tag(seg: Seq<u8>) -> Option<(Seq<u8>, Seq<u8>)> {
    let p = find_from(seg, EQ, 0);
    if p >= seg.len() {
        None
    } else if find_from(seg, EQ, p + 1) < seg.len() {
        None
    } else {
        Some((seg.subrange(0, p), seg.subrange(p + 1, seg.len() as int)))
    }
}

/// The tag pairs of a sequence of raw segments, in order, segments without
/// exactly one `=` skipped.
pub open spec fn tags_of_segments(segs: Seq<Seq<u8>>) -> Seq<(Seq<u8>, Seq<u8>)>
    decreases segs.len(),
{
    if segs.len() == 0 {
        Seq::empty()
    } else {
        let rest = tags_of_segments(segs.drop_first());
        match seg_tag(segs.first()) {
            Some(p) => seq![p] + rest,
            None => rest,
        }
    }
}

/// Index of the first pair of `ps` whose key is `k`, or `-1` if none.
pub open spec fn key_index(ps: Seq<(Seq<u8>, Seq<u8>)>, k: Seq<u8>) -> int
    decreases ps.len(),
{
    if ps.len() == 0 {
        -1
    } else if ps.first().0 == k {
        0
    } else {
        let r = key_index(ps.drop_first(), k);
        if r < 0 {
            -1
        } else {
            r + 1
        }
    }
}

/// Insert-or-update of a tag pair: an existing key keeps its position and
/// takes the new value, a new key is appended.
pub open spec fn upsert(ps: Seq<(Seq<u8>, Seq<u8>)>, k: Seq<u8>, v: Seq<u8>) -> Seq<
    (Seq<u8>, Seq<u8>),
> {
    let idx = key_index(ps, k);
    if idx < 0 {
        ps.push((k, v))
    } else {
        ps.update(idx, (k, v))
    }
}

/// Collapse a pair sequence left to right with last-write-wins on keys.
pub open spec fn collapse(ps: Seq<(Seq<u8>, Seq<u8>)>) -> Seq<(Seq<u8>, Seq<u8>)>
    decreases ps.len(),
{
    if ps.len() == 0 {
        Seq::empty()
    } else {
        upsert(collapse(ps.drop_last()), ps.last().0, ps.last().1)
    }
}

/// The tag mapping of a metric path: its raw tag pairs, collapsed.
pub open spec fn spec_tags(m: Seq<u8>) -> Seq<(Seq<u8>, Seq<u8>)> {
    collapse(tags_of_segments(tail_segments(m)))
}

/// No two pairs share a key.
pub open spec fn unique_keys(ps: Seq<(Seq<u8>, Seq<u8>)>) -> bool {
    forall|i: int, j: int|
        0 <= i < j < ps.len() ==> (#[trigger] ps[i]).0 != (#[trigger] ps[j]).0
}

pub proof fn lemma_key_index_props(ps: Seq<(Seq<u8>, Seq<u8>)>, k: Seq<u8>)
    ensures
        key_index(ps, k) == -1 || (0 <= key_index(ps, k) < ps.len() && ps[key_index(ps, k)].0
            == k),
        key_index(ps, k) == -1 ==> forall|t: int| 0 <= t < ps.len() ==> (#[trigger] ps[t]).0 != k,
    decreases ps.len(),
{
    if ps.len() > 0 && ps.first().0 != k {
        lemma_key_index_props(ps.drop_first(), k);
        if key_index(ps.drop_first(), k) == -1 {
            assert forall|t: int| 0 <= t < ps.len() implies (#[trigger] ps[t]).0 != k by {
                if t >= 1 {
                    assert(ps[t] == ps.drop_first()[t - 1]);
                }
            }
        }
    }
}

proof fn lemma_upsert_unique(ps: Seq<(Seq<u8>, Seq<u8>)>, k: Seq<u8>, v: Seq<u8>)
    requires
        unique_keys(ps),
    ensures
        unique_keys(upsert(ps, k, v)),
{
    lemma_key_index_props(ps, k);
    let idx = key_index(ps, k);
    let r = upsert(ps, k, v);
    if idx < 0 {
        assert forall|i: int, j: int| 0 <= i < j < r.len() implies (#[trigger] r[i]).0 != (
        #[trigger] r[j]).0 by {
            if j == r.len() - 1 {
                assert(ps[i].0 != k);
            }
        }
    } else {
        assert forall|i: int, j: int| 0 <= i < j < r.len() implies (#[trigger] r[i]).0 != (
        #[trigger] r[j]).0 by {
            assert(ps[i].0 != ps[j].0);
        }
    }
}

/// Collapsing leaves the keys unique: the parsed tag set is a mapping.
pub proof fn lemma_collapse_unique(ps: Seq<(Seq<u8>, Seq<u8>)>)
    ensures
        unique_keys(collapse(ps)),
    decreases ps.len(),
{
    if ps.len() > 0 {
        lemma_collapse_unique(ps.drop_last());
        lemma_upsert_unique(collapse(ps.drop_last()), ps.last().0, ps.last().1);
    }
}

/// ASCII decimal digit.
pub open spec fn is_digit(b: u8) -> bool {
    48 <= b <= 57
}

pub open spec fn all_digits(s: Seq<u8>) -> bool {
    forall|k: int| 0 <= k < s.len() ==> is_digit(#[trigger] s[k])
}

/// The number denoted by a sequence of decimal digits, most significant first.
pub open spec fn digits_val(s: Seq<u8>) -> int
    decreases s.len(),
{
    if s.len() == 0 {
        0
    } else {
        digits_val(s.drop_last()) * 10 + (s.last() as int - 48)
    }
}

/// `s` with one leading `+` or `-` removed, if present.
pub open spec fn strip_sign(s: Seq<u8>) -> Seq<u8> {
    if s.len() > 0 && (s[0] == 43 || s[0] == 45) {
        s.drop_first()
    } else {
        s
    }
}

/// Whether `s` starts with a `-`.
pub open spec fn is_negative(s: Seq<u8>) -> bool {
    s.len() > 0 && s[0] == 45
}

/// The signed integer denoted by `s` under the usual decimal grammar
/// (`[+-]?[0-9]+`), or `None` when `s` does not match it or the value does
/// not fit a 64-bit signed integer.  This is the acceptance and value of the
/// standard library's 64-bit integer parse.
pub open spec fn int_of(s: Seq<u8>) -> Option<int> {
    let ds = strip_sign(s);
    if ds.len() == 0 || !all_digits(ds) {
        None
    } else {
        let v = if is_negative(s) {
            -digits_val(ds)
        } else {
            digits_val(ds)
        };
        if i64::MIN <= v <= i64::MAX {
            Some(v)
        } else {
            None
        }
    }
}

/// ASCII upper-case letters folded to lower case; other bytes unchanged.
pub open spec fn lower(b: u8) -> u8 {
    if 65 <= b <= 90 {
        (b + 32) as u8
    } else {
        b
    }
}

pub open spec fn lower_seq(s: Seq<u8>) -> Seq<u8> {
    s.map_values(|b: u8| lower(b))
}

/// The case-insensitive special values of the float grammar:
/// `inf`, `infinity` and `nan`.
pub open spec fn is_special_float(s: Seq<u8>) -> bool {
    let t = lower_seq(s);
    t == seq![105u8, 110u8, 102u8] || t == seq![
        105u8,
        110u8,
        102u8,
        105u8,
        110u8,
        105u8,
        116u8,
        121u8,
    ] || t == seq![110u8, 97u8, 110u8]
}

/// Mantissa: `digits`, `digits . digits?` or `. digits`, with at least one
/// digit in total and at most one dot.
pub open spec fn is_mantissa(m: Seq<u8>) -> bool {
    let d = find_from(m, 46, 0);
    if d >= m.len() {
        m.len() > 0 && all_digits(m)
    } else {
        all_digits(m.subrange(0, d)) && all_digits(m.subrange(d + 1, m.len() as int)) && (d > 0
            || m.len() > d + 1)
    }
}

/// Exponent tail after the `e`: an optionally signed non-empty digit run.
pub open spec fn is_exponent(t: Seq<u8>) -> bool {
    let ds = strip_sign(t);
    ds.len() > 0 && all_digits(ds)
}

/// Number: a mantissa followed by an optional `e`/`E` exponent.
pub open spec fn is_number(s: Seq<u8>) -> bool {
    let t = lower_seq(s);
    let e = find_from(t, 101, 0);
    if e >= t.len() {
        is_mantissa(s)
    } else {
        is_mantissa(s.subrange(0, e)) && is_exponent(s.subrange(e + 1, s.len() as int))
    }
}

/// Acceptance of the standard library's 64-bit float parse:
/// `[+-]? ( inf | infinity | nan | number )`, case-insensitive on letters.
/// Parsing a well-formed literal never fails (out-of-range magnitudes round
/// to infinity or zero), so acceptance is purely grammatical.
pub open spec fn is_float_literal(s: Seq<u8>) -> bool {
    let t = strip_sign(s);
    is_special_float(t) || is_number(t)
}

/// First index of `b` in `s` at or after `from`, or `s.len()` if none.
pub fn find_byte(s: &[u8], b: u8, from: usize) -> (j: usize)
    requires
        from <= s@.len(),
    ensures
        j == find_from(s@, b, from as int),
{
    let mut k: usize = from;
    while k < s.len()
        invariant
            from <= k <= s@.len(),
            forall|t: int| from <= t < k ==> s@[t] != b,
        decreases s@.len() - k,
    {
        if s[k] == b {
            proof {
                lemma_find_from_skip(s@, b, from as int, k as int);
            }
            return k;
        }
        k += 1;
    }
    proof {
        lemma_find_from_skip(s@, b, from as int, k as int);
    }
    k
}

/// Whether two byte vectors hold the same bytes.
pub fn bytes_eq(a: &Vec<u8>, b: &Vec<u8>) -> (r: bool)
    ensures
        r == (a@ == b@),
{
    if a.len() != b.len() {
        return false;
    }
    let mut k: usize = 0;
    while k < a.len()
        invariant
            k <= a@.len(),
            a@.len() == b@.len(),
            forall|t: int| 0 <= t < k ==> a@[t] == b@[t],
        decreases a@.len() - k,
    {
        if a[k] != b[k] {
            return false;
        }
        k += 1;
    }
    proof {
        assert(a@ =~= b@);
    }
    true
}

/// Whether every byte of `s` in `[from, to)` is a decimal digit.
pub fn digits_in(s: &[u8], from: usize, to: usize) -> (r: bool)
    requires
        from <= to <= s@.len(),
    ensures
        r == all_digits(s@.subrange(from as int, to as int)),
{
    let ghost sub = s@.subrange(from as int, to as int);
    let mut k: usize = from;
    while k < to
        invariant
            from <= k <= to <= s@.len(),
            sub == s@.subrange(from as int, to as int),
            forall|t: int| 0 <= t < k - from ==> is_digit(#[trigger] sub[t]),
        decreases to - k,
    {
        if s[k] < 48 || s[k] > 57 {
            proof {
                assert(sub[k - from] == s@[k as int]);
            }
            return false;
        }
        k += 1;
    }
    true
}

pub proof fn lemma_digits_val_nonneg(s: Seq<u8>)
    requires
        all_digits(s),
    ensures
        0 <= digits_val(s),
    decreases s.len(),
{
    if s.len() > 0 {
        assert(forall|k: int| 0 <= k < s.len() - 1 ==> is_digit(#[trigger] s.drop_last()[k]));
        lemma_digits_val_nonneg(s.drop_last());
    }
}

/// A digit run is worth at least any of its prefixes.
pub proof fn lemma_digits_val_prefix(s: Seq<u8>, m: int)
    requires
        all_digits(s),
        0 <= m <= s.len(),
    ensures
        digits_val(s.subrange(0, m)) <= digits_val(s),
    decreases s.len(),
{
    if m == s.len() {
        assert(s.subrange(0, m) =~= s);
    } else {
        let p = s.drop_last();
        assert(forall|k: int| 0 <= k < p.len() ==> is_digit(#[trigger] p[k]));
        lemma_digits_val_nonneg(p);
        lemma_digits_val_prefix(p, m);
        assert(p.subrange(0, m) =~= s.subrange(0, m));
    }
}

/// Parse a decimal 64-bit signed integer, exactly as `int_of` describes.
pub fn parse_i64(s: &[u8]) -> (r: Option<i64>)
    ensures
        match r {
            Some(x) => int_of(s@) == Some(x as int),
            None => int_of(s@) is None,
        },
{
    if s.len() == 0 {
        return None;
    }
    let neg = s[0] == 45;
    let start: usize = if neg || s[0] == 43 {
        1
    } else {
        0
    };
    let ghost ds = strip_sign(s@);
    proof {
        assert(ds =~= s@.subrange(start as int, s@.len() as int));
    }
    if s.len() == start {
        return None;
    }
    let bound: u64 = if neg {
        9223372036854775808
    } else {
        9223372036854775807
    };
    let mut acc: u64 = 0;
    let mut k: usize = start;
    while k < s.len()
        invariant
            start <= k <= s@.len(),
            start < s@.len(),
            start <= 1,
            ds == strip_sign(s@),
            ds =~= s@.subrange(start as int, s@.len() as int),
            neg == is_negative(s@),
            bound == (if neg {
                9223372036854775808u64
            } else {
                9223372036854775807u64
            }),
            all_digits(ds.subrange(0, k - start)),
            acc == digits_val(ds.subrange(0, k - start)),
            acc <= bound,
        decreases s@.len() - k,
    {
        let c = s[k];
        if c < 48 || c > 57 {
            proof {
                assert(ds[k - start] == s@[k as int]);
            }
            return None;
        }
        let d: u64 = (c - 48) as u64;
        let q = (bound - d) / 10;
        proof {
            assert(10 * ((bound - d) / 10) <= bound - d < 10 * ((bound - d) / 10) + 10) by (nonlinear_arith)
                requires
                    d <= bound,
            ;
        }
        if acc > q {
            proof {
                let ghost pref = ds.subrange(0, k + 1 - start);
                assert(pref.drop_last() =~= ds.subrange(0, k - start));
                assert(forall|t: int|
                    0 <= t < pref.len() ==> is_digit(#[trigger] pref[t]) == is_digit(ds[t]));
                assert(digits_val(pref) == acc * 10 + d);
                assert(acc * 10 + d > bound) by (nonlinear_arith)
                    requires
                        acc > q,
                        q == (bound - d) / 10,
                        d <= bound,
                        10 * ((bound - d) / 10) <= bound - d,
                ;
                if all_digits(ds) {
                    lemma_digits_val_prefix(ds, k + 1 - start);
                }
            }
            return None;
        }
        proof {
            assert(acc * 10 + d <= bound) by (nonlinear_arith)
                requires
                    acc <= q,
                    q == (bound - d) / 10,
                    d <= bound,
                    10 * ((bound - d) / 10) <= bound - d,
            ;
            let ghost pref = ds.subrange(0, k + 1 - start);
            assert(pref.drop_last() =~= ds.subrange(0, k - start));
            assert(forall|t: int|
                0 <= t < pref.len() ==> is_digit(#[trigger] pref[t]) == is_digit(ds[t]));
            assert(digits_val(pref) == acc * 10 + d);
        }
        acc = acc * 10 + d;
        k += 1;
    }
    proof {
        assert(ds.subrange(0, k - start) =~= ds);
    }
    if neg {
        if acc == 9223372036854775808 {
            Some(i64::MIN)
        } else {
            Some(-(acc as i64))
        }
    } else {
        Some(acc as i64)
    }
}

fn lower_byte(b: u8) -> (r: u8)
    ensures
        r == lower(b),
{
    if 65 <= b && b <= 90 {
        b + 32
    } else {
        b
    }
}

/// Whether `m` is a well-formed mantissa.
fn is_mantissa_token(m: &[u8]) -> (r: bool)
    ensures
        r == is_mantissa(m@),
{
    let d = find_byte(m, 46, 0);
    proof {
        lemma_find_from(m@, 46, 0);
    }
    if d == m.len() {
        proof {
            assert(m@.subrange(0, m@.len() as int) =~= m@);
        }
        m.len() > 0 && digits_in(m, 0, m.len())
    } else {
        digits_in(m, 0, d) && digits_in(m, d + 1, m.len()) && (d > 0 || m.len() > d + 1)
    }
}

/// Whether `t` is a well-formed exponent tail.
fn is_exp_token(t: &[u8]) -> (r: bool)
    ensures
        r == is_exponent(t@),
{
    let start: usize = if t.len() > 0 && (t[0] == 43 || t[0] == 45) {
        1
    } else {
        0
    };
    proof {
        assert(strip_sign(t@) =~= t@.subrange(start as int, t@.len() as int));
    }
    t.len() > start && digits_in(t, start, t.len())
}

/// Whether `s` is a well-formed float literal, exactly as `is_float_literal`
/// describes.
pub fn is_float_token(s: &[u8]) -> (r: bool)
    ensures
        r == is_float_literal(s@),
{
    let start: usize = if s.len() > 0 && (s[0] == 43 || s[0] == 45) {
        1
    } else {
        0
    };
    let ghost t = strip_sign(s@);
    proof {
        assert(t =~= s@.subrange(start as int, s@.len() as int));
    }
    let mut lv: Vec<u8> = Vec::new();
    let mut k: usize = start;
    while k < s.len()
        invariant
            start <= k <= s@.len(),
            t == strip_sign(s@),
            t =~= s@.subrange(start as int, s@.len() as int),
            lv@.len() == k - start,
            forall|u: int| 0 <= u < lv@.len() ==> lv@[u] == lower(t[u]),
        decreases s@.len() - k,
    {
        let lb = lower_byte(s[k]);
        lv.push(lb);
        k += 1;
    }
    proof {
        assert(lv@ =~= lower_seq(t));
    }
    let special = (lv.len() == 3 && lv[0] == 105 && lv[1] == 110 && lv[2] == 102) || (lv.len() == 8
        && lv[0] == 105 && lv[1] == 110 && lv[2] == 102 && lv[3] == 105 && lv[4] == 110 && lv[5]
        == 105 && lv[6] == 116 && lv[7] == 121) || (lv.len() == 3 && lv[0] == 110 && lv[1] == 97
        && lv[2] == 110);
    proof {
        if lv@.len() == 3 && lv@[0] == 105 && lv@[1] == 110 && lv@[2] == 102 {
            assert(lv@ =~= seq![105u8, 110u8, 102u8]);
        }
        if lv@.len() == 8 && lv@[0] == 105 && lv@[1] == 110 && lv@[2] == 102 && lv@[3] == 105
            && lv@[4] == 110 && lv@[5] == 105 && lv@[6] == 116 && lv@[7] == 121 {
            assert(lv@ =~= seq![105u8, 110u8, 102u8, 105u8, 110u8, 105u8, 116u8, 121u8]);
        }
        if lv@.len() == 3 && lv@[0] == 110 && lv@[1] == 97 && lv@[2] == 110 {
            assert(lv@ =~= seq![110u8, 97u8, 110u8]);
        }
        assert(special == is_special_float(t));
    }
    if special {
        return true;
    }
    let e = find_byte(lv.as_slice(), 101, 0);
    proof {
        lemma_find_from(lv@, 101, 0);
    }
    if e == lv.len() {
        proof {
            assert(s@.subrange(start as int, s@.len() as int) == t);
        }
        is_mantissa_token(slice_subrange(s, start, s.len()))
    } else {
        proof {
            assert(t.subrange(0, e as int) =~= s@.subrange(start as int, (start + e) as int));
            assert(t.subrange(e + 1, t.len() as int) =~= s@.subrange(
                (start + e + 1) as int,
                s@.len() as int,
            ));
        }
        let m_ok = is_mantissa_token(slice_subrange(s, start, start + e));
        let x_ok = is_exp_token(slice_subrange(s, start + e + 1, s.len()));
        m_ok && x_ok
    }
}

/// Split a line into its whitespace-separated tokens.
pub fn tokenize(s: &[u8]) -> (toks: Vec<Vec<u8>>)
    ensures
        toks.deep_view() == line_tokens(s@),
{
    let mut toks: Vec<Vec<u8>> = Vec::new();
    let mut i: usize = 0;
    while i < s.len()
        invariant
            i <= s@.len(),
            toks.deep_view() + tokens_from(s@, i as int) =~= line_tokens(s@),
        decreases s@.len() - i,
    {
        if s[i] == SP {
            i += 1;
        } else {
            let j = find_byte(s, SP, i);
            proof {
                lemma_find_from(s@, SP, i as int);
            }
            let tok = slice_to_vec(slice_subrange(s, i, j));
            let ghost prev = toks.deep_view();
            toks.push(tok);
            proof {
                assert(toks.deep_view() =~~= prev + seq![s@.subrange(i as int, j as int)]);
            }
            i = j;
        }
    }
    proof {
        assert(toks.deep_view() =~= toks.deep_view() + tokens_from(s@, i as int));
    }
    toks
}

/// View of a vector of byte-vector pairs as a sequence of byte-sequence
/// pairs.
pub open spec fn pairs_view(ts: Seq<(Vec<u8>, Vec<u8>)>) -> Seq<(Seq<u8>, Seq<u8>)> {
    ts.map_values(|p: (Vec<u8>, Vec<u8>)| (p.0@, p.1@))
}

pub proof fn lemma_key_index_hit(ps: Seq<(Seq<u8>, Seq<u8>)>, k: Seq<u8>, idx: int)
    requires
        0 <= idx < ps.len(),
        ps[idx].0 == k,
        forall|t: int| 0 <= t < idx ==> ps[t].0 != k,
    ensures
        key_index(ps, k) == idx,
    decreases ps.len(),
{
    if idx > 0 {
        assert(forall|t: int| 0 <= t < idx - 1 ==> ps.drop_first()[t].0 != k);
        lemma_key_index_hit(ps.drop_first(), k, idx - 1);
    }
}

pub proof fn lemma_key_index_miss(ps: Seq<(Seq<u8>, Seq<u8>)>, k: Seq<u8>)
    requires
        forall|t: int| 0 <= t < ps.len() ==> ps[t].0 != k,
    ensures
        key_index(ps, k) == -1,
    decreases ps.len(),
{
    if ps.len() > 0 {
        assert(forall|t: int| 0 <= t < ps.len() - 1 ==> ps.drop_first()[t].0 != k);
        lemma_key_index_miss(ps.drop_first(), k);
    }
}

/// One segment in front of a segment sequence contributes its tag pair, if
/// any, in front of the rest's pairs.
pub proof fn lemma_tags_cons(a: Seq<u8>, rest: Seq<Seq<u8>>)
    ensures
        tags_of_segments(seq![a] + rest) == (match seg_tag(a) {
            Some(p) => seq![p] + tags_of_segments(rest),
            None => tags_of_segments(rest),
        }),
{
    let whole = seq![a] + rest;
    assert(whole.first() == a);
    assert(whole.drop_first() =~= rest);
}

/// Insert-or-update a tag pair in a tag vector, as `upsert` describes.
fn upsert_pair(tags: &mut Vec<(Vec<u8>, Vec<u8>)>, key: Vec<u8>, val: Vec<u8>)
    ensures
        pairs_view(final(tags)@) == upsert(pairs_view(old(tags)@), key@, val@),
{
    let ghost ps = pairs_view(tags@);
    let mut idx: usize = 0;
    while idx < tags.len()
        invariant
            idx <= tags@.len(),
            ps == pairs_view(tags@),
            ps == pairs_view(old(tags)@),
            forall|t: int| 0 <= t < idx ==> ps[t].0 != key@,
        decreases tags@.len() - idx,
    {
        let hit = bytes_eq(&tags[idx].0, &key);
        if hit {
            proof {
                lemma_key_index_hit(ps, key@, idx as int);
            }
            tags.set(idx, (key, val));
            proof {
                assert(key_index(ps, key@) == idx as int);
                assert(pairs_view(tags@) =~= ps.update(idx as int, (key@, val@)));
                assert(upsert(ps, key@, val@) == ps.update(idx as int, (key@, val@)));
                assert(pairs_view(tags@) == upsert(pairs_view(old(tags)@), key@, val@));
            }
            return ;
        }
        idx += 1;
    }
    proof {
        lemma_key_index_miss(ps, key@);
    }
    tags.push((key, val));
    proof {
        assert(pairs_view(tags@) =~= ps.push((key@, val@)));
    }
}

/// One metric sample as parsed from a line: name, tag pairs, the raw bytes
/// of its well-formed numeric value, and its timestamp.
#[derive(Debug)]
pub struct GraphiteMetric {
    /// Metric name; never empty.
    pub name: Vec<u8>,
    /// Tag pairs in first-encounter order, keys unique, last-seen value.
    pub tags: Vec<(Vec<u8>, Vec<u8>)>,
    /// The raw value token; always a well-formed float literal.
    pub value: Vec<u8>,
    /// Seconds since epoch; no range validation beyond the 64-bit field.
    pub timestamp: i64,
}

/// Why a line was rejected.
#[derive(Debug, Clone, Copy, PartialEq, Eq, Structural)]
pub enum ParseError {
    /// Not exactly three fields, or an empty metric name.
    MalformedLine,
    /// The value field is not a float literal.
    InvalidValue,
    /// The timestamp field is not a 64-bit integer.
    InvalidTimestamp,
}

impl GraphiteMetric {
    /// The well-formedness invariant of a parsed sample: a non-empty name,
    /// a well-formed value literal, and unique tag keys.
    pub open spec fn wf(self) -> bool {
        &&& self.name@.len() > 0
        &&& is_float_literal(self.value@)
        &&& unique_keys(pairs_view(self.tags@))
    }

    /// Parse one line.  Exactly three space-separated fields are expected:
    /// the metric path, a float value and an integer timestamp; the metric
    /// path must begin with a non-empty name.
    pub fn parse(line: &[u8]) -> (r: Result<GraphiteMetric, ParseError>)
        ensures
            ({
                let toks = line_tokens(line@);
                match r {
                    Ok(m) => {
                        &&& toks.len() == 3
                        &&& spec_name(toks[0]).len() > 0
                        &&& m.name@ == spec_name(toks[0])
                        &&& pairs_view(m.tags@) == spec_tags(toks[0])
                        &&& m.value@ == toks[1]
                        &&& is_float_literal(toks[1])
                        &&& int_of(toks[2]) == Some(m.timestamp as int)
                        &&& m.wf()
                    },
                    Err(ParseError::MalformedLine) => toks.len() != 3 || spec_name(
                        toks[0],
                    ).len() == 0,
                    Err(ParseError::InvalidValue) => {
                        &&& toks.len() == 3
                        &&& spec_name(toks[0]).len() > 0
                        &&& !is_float_literal(toks[1])
                    },
                    Err(ParseError::InvalidTimestamp) => {
                        &&& toks.len() == 3
                        &&& spec_name(toks[0]).len() > 0
                        &&& is_float_literal(toks[1])
                        &&& int_of(toks[2]) is None
                    },
                }
            }),
    {
        let toks = tokenize(line);
        if toks.len() != 3 {
            return Err(ParseError::MalformedLine);
        }
        let metric = &toks[0];
        let ghost m = line_tokens(line@)[0];
        proof {
            assert(metric@ =~= m);
        }
        let j = find_byte(metric.as_slice(), SEMI, 0);
        proof {
            lemma_find_from(m, SEMI, 0);
        }
        let name = slice_to_vec(slice_subrange(metric.as_slice(), 0, j));
        if name.len() == 0 {
            return Err(ParseError::MalformedLine);
        }
        let vtok = &toks[1];
        proof {
            assert(vtok@ =~= line_tokens(line@)[1]);
        }
        if !is_float_token(vtok.as_slice()) {
            return Err(ParseError::InvalidValue);
        }
        let ttok = &toks[2];
        proof {
            assert(ttok@ =~= line_tokens(line@)[2]);
        }
        let timestamp = match parse_i64(ttok.as_slice()) {
            Some(t) => t,
            None => {
                return Err(ParseError::InvalidTimestamp);
            },
        };
        let mut tags: Vec<(Vec<u8>, Vec<u8>)> = Vec::new();
        let ghost all_pairs = tags_of_segments(tail_segments(m));
        let ghost mut pairs: Seq<(Seq<u8>, Seq<u8>)> = Seq::empty();
        if j < metric.len() {
            let mut i: usize = j + 1;
            proof {
                assert(pairs + tags_of_segments(segments_from(m, i as int)) =~= all_pairs);
            }
            while i <= metric.len()
                invariant_except_break
                    metric@ == m,
                    1 <= i <= m.len(),
                    pairs + tags_of_segments(segments_from(m, i as int)) =~= all_pairs,
                    pairs_view(tags@) =~= collapse(pairs),
                ensures
                    pairs == all_pairs,
                    pairs_view(tags@) =~= collapse(pairs),
                decreases m.len() + 1 - i,
            {
                let k2 = find_byte(metric.as_slice(), SEMI, i);
                proof {
                    lemma_find_from(m, SEMI, i as int);
                }
                let seg = slice_subrange(metric.as_slice(), i, k2);
                proof {
                    assert(segments_from(m, i as int) =~= seq![seg@] + segments_from(m, k2 + 1));
                    lemma_tags_cons(seg@, segments_from(m, k2 + 1));
                }
                let p = find_byte(seg, EQ, 0);
                proof {
                    lemma_find_from(seg@, EQ, 0);
                }
                let is_pair = if p < seg.len() {
                    let p2 = find_byte(seg, EQ, p + 1);
                    proof {
                        lemma_find_from(seg@, EQ, p + 1);
                    }
                    p2 == seg.len()
                } else {
                    false
                };
                if is_pair {
                    let key = slice_to_vec(slice_subrange(seg, 0, p));
                    let val = slice_to_vec(slice_subrange(seg, p + 1, seg.len()));
                    upsert_pair(&mut tags, key, val);
                    proof {
                        let pr = (seg@.subrange(0, p as int), seg@.subrange(
                            p + 1,
                            seg@.len() as int,
                        ));
                        assert(seg_tag(seg@) == Some(pr));
                        assert(pairs.push(pr).drop_last() =~= pairs);
                        assert(pairs.push(pr).last() == pr);
                        assert(collapse(pairs.push(pr)) == upsert(collapse(pairs), pr.0, pr.1));
                        assert(pairs.push(pr) + tags_of_segments(segments_from(m, k2 + 1)) =~= (
                        pairs + (seq![pr] + tags_of_segments(segments_from(m, k2 + 1)))));
                        pairs = pairs.push(pr);
                        assert(pairs + tags_of_segments(segments_from(m, k2 + 1)) =~= all_pairs);
                    }
                } else {
                    proof {
                        assert(seg_tag(seg@) is None);
                    }
                }
                if k2 == metric.len() {
                    proof {
                        assert(segments_from(m, k2 + 1) =~= Seq::<Seq<u8>>::empty());
                        assert(tags_of_segments(Seq::<Seq<u8>>::empty()) =~= Seq::<
                            (Seq<u8>, Seq<u8>),
                        >::empty());
                        assert(pairs + Seq::<(Seq<u8>, Seq<u8>)>::empty() =~= pairs);
                        assert(pairs =~= all_pairs);
                    }
                    break ;
                }
                i = k2 + 1;
            }
        } else {
            proof {
                assert(tail_segments(m) =~= Seq::<Seq<u8>>::empty());
                assert(pairs_view(tags@) =~= collapse(pairs));
            }
        }
        proof {
            assert(pairs =~= all_pairs);
            assert(pairs_view(tags@) == spec_tags(m));
            lemma_collapse_unique(tags_of_segments(tail_segments(m)));
        }
        let value = slice_to_vec(vtok.as_slice());
        Ok(GraphiteMetric { name, tags, value, timestamp })
    }
}

} // verus!
