//! One-way obfuscation of metric identifiers.
//!
//! The metric name and every tag value are replaced by `obf_` followed by the
//! 16-digit lowercase hexadecimal rendering of a 64-bit hash; tag keys pass
//! through unchanged.  The hash itself comes from an outside hasher whose
//! keys are fixed for the lifetime of the process, so nothing is assumed
//! about its values: rendering is specified exactly as a function of the
//! hashes, and every property proved here holds whatever the hasher returns.
use crate::graphite::GraphiteMetric;
use crate::graphite::pairs_view;
use vstd::prelude::*;

verus! {

/// The nibble of `n` at position `k` (0 = least significant).
pub open spec fn nibble(n: u64, k: int) -> u64 {
    (n >> ((4 * k) as u64)) & 15
}

/// Lowercase hexadecimal digit for a value in `0..16`.
pub open spec fn hex_digit(d: u64) -> u8 {
    if d < 10 {
        (48 + d) as u8
    } else {
        (87 + d) as u8
    }
}

/// The 16 hexadecimal digits of `n`, most significant first.
pub open spec fn hex16_of(n: u64) -> Seq<u8> {
    Seq::new(16, |i: int| hex_digit(nibble(n, 15 - i)))
}

/// An obfuscated field: the `obf_` marker followed by 16 hex digits.
pub open spec fn hex_field(h: u64) -> Seq<u8> {
    seq![111u8, 98u8, 102u8, 95u8] + hex16_of(h)
}

/// One rendered tag: `;key=obf_<hex>`.
pub open spec fn rendered_tag(key: Seq<u8>, vh: u64) -> Seq<u8> {
    seq![59u8] + key + seq![61u8] + hex_field(vh)
}

/// All rendered tags, in order, one value hash per tag.
pub open spec fn rendered_tags(ts: Seq<(Seq<u8>, Seq<u8>)>, hs: Seq<u64>) -> Seq<u8>
    decreases ts.len(),
{
    if ts.len() == 0 {
        Seq::empty()
    } else {
        rendered_tag(ts.first().0, hs.first()) + rendered_tags(ts.drop_first(), hs.drop_first())
    }
}

/// The full obfuscated path: hashed name, then the rendered tags.
pub open spec fn rendered_path(nh: u64, ts: Seq<(Seq<u8>, Seq<u8>)>, hs: Seq<u64>) -> Seq<u8> {
    hex_field(nh) + rendered_tags(ts, hs)
}

pub proof fn lemma_rendered_tags_snoc(ts: Seq<(Seq<u8>, Seq<u8>)>, hs: Seq<u64>)
    requires
        ts.len() == hs.len(),
        ts.len() > 0,
    ensures
        rendered_tags(ts, hs) == rendered_tags(ts.drop_last(), hs.drop_last()) + rendered_tag(
            ts.last().0,
            hs.last(),
        ),
    decreases ts.len(),
{
    if ts.len() == 1 {
        assert(ts.drop_last() =~= Seq::<(Seq<u8>, Seq<u8>)>::empty());
        assert(rendered_tags(ts.drop_first(), hs.drop_first()) =~= Seq::<u8>::empty());
        assert(rendered_tag(ts.first().0, hs.first()) + Seq::<u8>::empty() =~= rendered_tag(
            ts.last().0,
            hs.last(),
        ));
        assert(Seq::<u8>::empty() + rendered_tag(ts.last().0, hs.last()) =~= rendered_tag(
            ts.last().0,
            hs.last(),
        ));
    } else {
        lemma_rendered_tags_snoc(ts.drop_first(), hs.drop_first());
        assert(ts.drop_first().drop_last() =~= ts.drop_last().drop_first());
        assert(hs.drop_first().drop_last() =~= hs.drop_last().drop_first());
        assert(ts.drop_first().last() == ts.last());
        assert(hs.drop_first().last() == hs.last());
        assert(rendered_tag(ts.first().0, hs.first()) + (rendered_tags(
            ts.drop_last().drop_first(),
            hs.drop_last().drop_first(),
        ) + rendered_tag(ts.last().0, hs.last())) =~= (rendered_tag(ts.first().0, hs.first())
            + rendered_tags(ts.drop_last().drop_first(), hs.drop_last().drop_first()))
            + rendered_tag(ts.last().0, hs.last()));
        assert(ts.drop_last().first() == ts.first());
        assert(hs.drop_last().first() == hs.first());
    }
}

/// Lowercase hexadecimal alphabet.
pub open spec fn is_hex_byte(b: u8) -> bool {
    48 <= b <= 57 || 97 <= b <= 102
}

/// Whether `b` occurs in some tag key of `ts`.
pub open spec fn key_byte(ts: Seq<(Seq<u8>, Seq<u8>)>, b: u8) -> bool {
    exists|i: int, j: int|
        0 <= i < ts.len() && 0 <= j < ts[i].0.len() && #[trigger] ts[i].0[j] == b
}

/// The alphabet a rendered path draws from: the marker bytes of `obf_`, the
/// separators `;` and `=`, hexadecimal digits, and bytes of tag keys.
pub open spec fn path_alphabet(ts: Seq<(Seq<u8>, Seq<u8>)>, b: u8) -> bool {
    b == 111 || b == 98 || b == 102 || b == 95 || b == 59 || b == 61 || is_hex_byte(b) || key_byte(
        ts,
        b,
    )
}

proof fn lemma_nibble_bound(n: u64, s: u64)
    ensures
        (n >> s) & 15 < 16,
{
    assert((n >> s) & 15 < 16) by (bit_vector);
}

pub proof fn lemma_hex16_bytes(n: u64)
    ensures
        forall|t: int| 0 <= t < 16 ==> is_hex_byte(#[trigger] hex16_of(n)[t]),
{
    assert forall|t: int| 0 <= t < 16 implies is_hex_byte(#[trigger] hex16_of(n)[t]) by {
        lemma_nibble_bound(n, (4 * (15 - t)) as u64);
        assert(hex16_of(n)[t] == hex_digit(nibble(n, 15 - t)));
    }
}

proof fn lemma_rendered_tags_bytes(ts: Seq<(Seq<u8>, Seq<u8>)>, hs: Seq<u64>)
    requires
        hs.len() == ts.len(),
    ensures
        forall|t: int|
            0 <= t < rendered_tags(ts, hs).len() ==> path_alphabet(
                ts,
                #[trigger] rendered_tags(ts, hs)[t],
            ),
    decreases ts.len(),
{
    if ts.len() > 0 {
        let head = rendered_tag(ts.first().0, hs.first());
        let rest = rendered_tags(ts.drop_first(), hs.drop_first());
        lemma_rendered_tags_bytes(ts.drop_first(), hs.drop_first());
        lemma_hex16_bytes(hs.first());
        assert forall|t: int|
            0 <= t < rendered_tags(ts, hs).len() implies path_alphabet(
            ts,
            #[trigger] rendered_tags(ts, hs)[t],
        ) by {
            let b = rendered_tags(ts, hs)[t];
            if t < head.len() {
                assert(b == head[t]);
                let key = ts.first().0;
                if 1 <= t < 1 + key.len() {
                    assert(b == key[t - 1]);
                    assert(ts[0].0[t - 1] == b);
                    assert(key_byte(ts, b));
                } else if t >= 1 + key.len() + 1 + 4 {
                    assert(b == hex16_of(hs.first())[t - (1 + key.len() + 1 + 4)]);
                }
            } else {
                assert(b == rest[t - head.len()]);
                assert(path_alphabet(ts.drop_first(), b));
                if key_byte(ts.drop_first(), b) {
                    let (i, j) = choose|i: int, j: int|
                        0 <= i < ts.drop_first().len() && 0 <= j < ts.drop_first()[i].0.len()
                            && #[trigger] ts.drop_first()[i].0[j] == b;
                    assert(ts[i + 1].0[j] == b);
                    assert(key_byte(ts, b));
                }
            }
        }
    }
}

/// Every byte of a rendered path lies in its alphabet.
pub proof fn lemma_rendered_path_bytes(nh: u64, ts: Seq<(Seq<u8>, Seq<u8>)>, hs: Seq<u64>)
    requires
        hs.len() == ts.len(),
    ensures
        forall|t: int|
            0 <= t < rendered_path(nh, ts, hs).len() ==> path_alphabet(
                ts,
                #[trigger] rendered_path(nh, ts, hs)[t],
            ),
{
    lemma_hex16_bytes(nh);
    lemma_rendered_tags_bytes(ts, hs);
    assert forall|t: int|
        0 <= t < rendered_path(nh, ts, hs).len() implies path_alphabet(
        ts,
        #[trigger] rendered_path(nh, ts, hs)[t],
    ) by {
        let b = rendered_path(nh, ts, hs)[t];
        if 4 <= t < 20 {
            assert(b == hex16_of(nh)[t - 4]);
        } else if t >= 20 {
            assert(b == rendered_tags(ts, hs)[t - 20]);
        }
    }
}

/// Whether `needle` occurs as a contiguous substring of `hay`.
pub open spec fn contains_seq(hay: Seq<u8>, needle: Seq<u8>) -> bool {
    exists|o: int|
        0 <= o && o + needle.len() <= hay.len() && #[trigger] hay.subrange(o, o + needle.len())
            == needle
}

/// Obfuscation hides inputs: a string holding any byte outside the rendered
/// path's alphabet — in particular any byte that is not a marker byte, a
/// separator, a hex digit or part of a tag key — never occurs in the
/// rendered path.  This covers the hashed name and hashed tag values
/// themselves whenever they carry at least one such byte.
pub proof fn lemma_path_hides_foreign_strings(
    nh: u64,
    ts: Seq<(Seq<u8>, Seq<u8>)>,
    hs: Seq<u64>,
    needle: Seq<u8>,
)
    requires
        hs.len() == ts.len(),
        exists|k: int| 0 <= k < needle.len() && !path_alphabet(ts, #[trigger] needle[k]),
    ensures
        !contains_seq(rendered_path(nh, ts, hs), needle),
{
    let path = rendered_path(nh, ts, hs);
    lemma_rendered_path_bytes(nh, ts, hs);
    let k = choose|k: int| 0 <= k < needle.len() && !path_alphabet(ts, #[trigger] needle[k]);
    assert forall|o: int|
        0 <= o && o + needle.len() <= path.len() implies #[trigger] path.subrange(
        o,
        o + needle.len(),
    ) != needle by {
        if path.subrange(o, o + needle.len()) == needle {
            assert(needle[k] == path.subrange(o, o + needle.len())[k]);
            assert(needle[k] == path[o + k]);
            assert(path_alphabet(ts, path[o + k]));
        }
    }
}

/// The same hiding guarantee, shaped to `obfuscate`'s contract: whatever
/// hashes the hasher returned, the path it rendered never contains a string
/// with a byte outside the path's alphabet.
pub proof fn lemma_obfuscated_path_hides(
    path: Seq<u8>,
    ts: Seq<(Seq<u8>, Seq<u8>)>,
    needle: Seq<u8>,
)
    requires
        exists|nh: u64, vhs: Seq<u64>|
            vhs.len() == ts.len() && path == rendered_path(nh, ts, vhs),
        exists|k: int| 0 <= k < needle.len() && !path_alphabet(ts, #[trigger] needle[k]),
    ensures
        !contains_seq(path, needle),
{
    let (nh, vhs) = choose|nh: u64, vhs: Seq<u64>|
        vhs.len() == ts.len() && path == rendered_path(nh, ts, vhs);
    lemma_path_hides_foreign_strings(nh, ts, vhs, needle);
}

/// Occurrences of `b` in `s`.
pub open spec fn count_byte(s: Seq<u8>, b: u8) -> int
    decreases s.len(),
{
    if s.len() == 0 {
        0
    } else {
        count_byte(s.drop_last(), b) + if s.last() == b {
            1int
        } else {
            0int
        }
    }
}

pub proof fn lemma_count_concat(a: Seq<u8>, b: Seq<u8>, c: u8)
    ensures
        count_byte(a + b, c) == count_byte(a, c) + count_byte(b, c),
    decreases b.len(),
{
    if b.len() == 0 {
        assert(a + b =~= a);
    } else {
        assert((a + b).drop_last() =~= a + b.drop_last());
        assert((a + b).last() == b.last());
        lemma_count_concat(a, b.drop_last(), c);
    }
}

pub proof fn lemma_count_zero(s: Seq<u8>, b: u8)
    requires
        forall|k: int| 0 <= k < s.len() ==> s[k] != b,
    ensures
        count_byte(s, b) == 0,
    decreases s.len(),
{
    if s.len() > 0 {
        lemma_count_zero(s.drop_last(), b);
    }
}

proof fn lemma_count_single(s: Seq<u8>, b: u8, i: int)
    requires
        0 <= i < s.len(),
        s[i] == b,
        forall|k: int| 0 <= k < s.len() && k != i ==> s[k] != b,
    ensures
        count_byte(s, b) == 1,
    decreases s.len(),
{
    if i == s.len() - 1 {
        lemma_count_zero(s.drop_last(), b);
    } else {
        lemma_count_single(s.drop_last(), b, i);
    }
}

proof fn lemma_hex_field_marker_count(h: u64)
    ensures
        count_byte(hex_field(h), 111) == 1,
{
    lemma_hex16_bytes(h);
    assert(forall|t: int| 0 <= t < 16 ==> hex16_of(h)[t] != 111);
    assert(hex_field(h)[0] == 111);
    assert forall|k: int| 0 <= k < hex_field(h).len() && k != 0 implies hex_field(h)[k] != 111 by {
        if k >= 4 {
            assert(hex_field(h)[k] == hex16_of(h)[k - 4]);
        }
    }
    lemma_count_single(hex_field(h), 111, 0);
}

/// Obfuscation marks outputs: the marker byte `o` of `obf_` occurs exactly
/// once per hashed field — once for the name and once per tag — provided no
/// tag key carries that byte itself.
pub proof fn lemma_path_marker_count(nh: u64, ts: Seq<(Seq<u8>, Seq<u8>)>, hs: Seq<u64>)
    requires
        hs.len() == ts.len(),
        forall|i: int, j: int|
            0 <= i < ts.len() && 0 <= j < ts[i].0.len() ==> #[trigger] ts[i].0[j] != 111,
    ensures
        count_byte(rendered_path(nh, ts, hs), 111) == 1 + ts.len(),
    decreases ts.len(),
{
    lemma_hex_field_marker_count(nh);
    lemma_tags_marker_count(ts, hs);
    lemma_count_concat(hex_field(nh), rendered_tags(ts, hs), 111);
}

proof fn lemma_tags_marker_count(ts: Seq<(Seq<u8>, Seq<u8>)>, hs: Seq<u64>)
    requires
        hs.len() == ts.len(),
        forall|i: int, j: int|
            0 <= i < ts.len() && 0 <= j < ts[i].0.len() ==> #[trigger] ts[i].0[j] != 111,
    ensures
        count_byte(rendered_tags(ts, hs), 111) == ts.len(),
    decreases ts.len(),
{
    if ts.len() > 0 {
        let key = ts.first().0;
        let head = rendered_tag(key, hs.first());
        assert(forall|j: int| 0 <= j < key.len() ==> (#[trigger] key[j]) != 111) by {
            assert(forall|j: int| 0 <= j < ts[0].0.len() ==> #[trigger] ts[0].0[j] != 111);
        }
        lemma_count_zero(seq![59u8], 111);
        lemma_count_zero(key, 111);
        lemma_count_zero(seq![61u8], 111);
        lemma_hex_field_marker_count(hs.first());
        lemma_count_concat(seq![59u8], key, 111);
        lemma_count_concat(seq![59u8] + key, seq![61u8], 111);
        lemma_count_concat(seq![59u8] + key + seq![61u8], hex_field(hs.first()), 111);
        assert(count_byte(head, 111) == 1);
        assert(forall|i: int, j: int|
            0 <= i < ts.drop_first().len() && 0 <= j < ts.drop_first()[i].0.len()
                ==> #[trigger] ts.drop_first()[i].0[j] != 111) by {
            assert(forall|i: int, j: int|
                0 <= i < ts.len() && 0 <= j < ts[i].0.len() ==> #[trigger] ts[i].0[j] != 111);
            assert(forall|i: int| 0 <= i < ts.drop_first().len() ==> ts.drop_first()[i] == ts[i
                + 1]);
        }
        lemma_tags_marker_count(ts.drop_first(), hs.drop_first());
        lemma_count_concat(head, rendered_tags(ts.drop_first(), hs.drop_first()), 111);
    }
}

/// Append the 16 hexadecimal digits of `n`, most significant first.
pub fn write_hex(n: u64, buf: &mut Vec<u8>)
    ensures
        final(buf)@ == old(buf)@ + hex16_of(n),
{
    let ghost start = buf@;
    let mut i: usize = 0;
    while i < 16
        invariant
            i <= 16,
            buf@ =~= start + hex16_of(n).subrange(0, i as int),
        decreases 16 - i,
    {
        let sh: u64 = (60 - 4 * (i as u64));
        let nib: u64 = (n >> sh) & 15;
        proof {
            assert((n >> sh) & 15 < 16) by (bit_vector);
            assert(sh == (4 * (15 - i)) as u64);
            assert(nib == nibble(n, 15 - i as int));
        }
        let d: u8 = if nib < 10 {
            (48 + nib) as u8
        } else {
            (87 + nib) as u8
        };
        proof {
            assert(d == hex_digit(nib));
            assert(hex16_of(n)[i as int] == hex_digit(nibble(n, 15 - i as int)));
        }
        buf.push(d);
        proof {
            assert(buf@ =~= start + hex16_of(n).subrange(0, i + 1));
        }
        i += 1;
    }
    proof {
        assert(hex16_of(n).subrange(0, 16) =~= hex16_of(n));
    }
}

/// Relies on ahash's `AHasher` under its `Default` keys: the keys are fixed
/// once per process, so this call returns equal values for equal inputs
/// within one run; no further property of the value is assumed, and the
/// value is not stable across processes or machines, so nothing is promised
/// here.
#[verifier::external_body]
fn fast_hash(input: &[u8]) -> u64 {
    let mut h = ahash::AHasher::default();
    std::hash::Hasher::write(&mut h, input);
    std::hash::Hasher::finish(&h)
}

/// Render the obfuscated path from the hashes: `obf_<hex of name hash>`,
/// then `;key=obf_<hex of value hash>` for each tag, in order.
pub fn render_path(name_hash: u64, tags: &Vec<(Vec<u8>, Vec<u8>)>, value_hashes: &Vec<u64>) -> (path:
    Vec<u8>)
    requires
        value_hashes@.len() == tags@.len(),
    ensures
        path@ == rendered_path(name_hash, pairs_view(tags@), value_hashes@),
{
    let ghost ts = pairs_view(tags@);
    let ghost hs = value_hashes@;
    let mut path: Vec<u8> = Vec::new();
    path.push(111);
    path.push(98);
    path.push(102);
    path.push(95);
    write_hex(name_hash, &mut path);
    proof {
        assert(rendered_tags(ts.subrange(0, 0), hs.subrange(0, 0)) =~= Seq::<u8>::empty());
        assert(path@ =~= hex_field(name_hash) + rendered_tags(
            ts.subrange(0, 0),
            hs.subrange(0, 0),
        ));
    }
    let mut i: usize = 0;
    while i < tags.len()
        invariant
            i <= tags@.len(),
            value_hashes@.len() == tags@.len(),
            ts == pairs_view(tags@),
            hs == value_hashes@,
            path@ =~= hex_field(name_hash) + rendered_tags(
                ts.subrange(0, i as int),
                hs.subrange(0, i as int),
            ),
        decreases tags@.len() - i,
    {
        let ghost before = path@;
        path.push(59);
        let pair = &tags[i];
        path.extend_from_slice(pair.0.as_slice());
        path.push(61);
        path.push(111);
        path.push(98);
        path.push(102);
        path.push(95);
        let vh = value_hashes[i];
        write_hex(vh, &mut path);
        proof {
            assert(path@ =~= before + rendered_tag(ts[i as int].0, hs[i as int]));
            let tsub = ts.subrange(0, i + 1);
            let hsub = hs.subrange(0, i + 1);
            lemma_rendered_tags_snoc(tsub, hsub);
            assert(tsub.drop_last() =~= ts.subrange(0, i as int));
            assert(hsub.drop_last() =~= hs.subrange(0, i as int));
            assert(path@ =~= hex_field(name_hash) + rendered_tags(tsub, hsub));
        }
        i += 1;
    }
    proof {
        assert(ts.subrange(0, ts.len() as int) =~= ts);
        assert(hs.subrange(0, hs.len() as int) =~= hs);
    }
    path
}

/// Obfuscate one metric: hash the name and each tag value, then render.
/// The hashes themselves are unspecified, so the contract says only that
/// the result is a rendering of the tags under some hash assignment; every
/// structural property of renderings applies to it.
pub fn obfuscate(metric: &GraphiteMetric) -> (path: Vec<u8>)
    ensures
        exists|nh: u64, vhs: Seq<u64>|
            vhs.len() == metric.tags@.len() && path@ == rendered_path(
                nh,
                pairs_view(metric.tags@),
                vhs,
            ),
{
    let nh = fast_hash(metric.name.as_slice());
    let mut vhs: Vec<u64> = Vec::new();
    let mut i: usize = 0;
    while i < metric.tags.len()
        invariant
            i <= metric.tags@.len(),
            vhs@.len() == i,
        decreases metric.tags@.len() - i,
    {
        let pair = &metric.tags[i];
        let h = fast_hash(pair.1.as_slice());
        vhs.push(h);
        i += 1;
    }
    let path = render_path(nh, &metric.tags, &vhs);
    proof {
        assert(vhs@.len() == metric.tags@.len() && path@ == rendered_path(
            nh,
            pairs_view(metric.tags@),
            vhs@,
        ));
    }
    path
}

} // verus!
