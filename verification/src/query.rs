//! Query-string parsing: form-style percent-decoding, splitting on `&` and
//! `=`, and resolution of duplicate keys in favour of the last occurrence.

use vstd::prelude::*;
use vstd::slice::{slice_subrange, slice_to_vec};
use crate::{spec_hex_val, spec_is_hex_digit, hex_val};

verus! {

/// ASCII `%`.
pub const PERCENT: u8 = 37;

/// ASCII `+`.
pub const PLUS: u8 = 43;

/// ASCII space.
pub const SPACE: u8 = 32;

/// ASCII `&`.
pub const AMP: u8 = 38;

/// ASCII `=`.
pub const EQ: u8 = 61;

/// Form-style percent-decoding: `%XY` with two hexadecimal digits becomes the
/// byte those digits name, `+` becomes a space, and every other byte (and
/// every `%` not followed by two hexadecimal digits) is kept as it stands.
pub open spec fn spec_pct_decode(s: Seq<u8>) -> Seq<u8>
    decreases s.len(),
{
    if s.len() == 0 {
        Seq::empty()
    } else if s[0] == PERCENT && s.len() >= 3 && spec_is_hex_digit(s[1]) && spec_is_hex_digit(s[2]) {
        seq![(spec_hex_val(s[1]) * 16 + spec_hex_val(s[2])) as u8] + spec_pct_decode(s.skip(3))
    } else if s[0] == PLUS {
        seq![SPACE] + spec_pct_decode(s.skip(1))
    } else {
        seq![s[0]] + spec_pct_decode(s.skip(1))
    }
}

/// Percent-decodes a form-encoded byte string.
pub fn pct_decode(s: &[u8]) -> (r: Vec<u8>)
    ensures
        r@ == spec_pct_decode(s@),
{
    let mut out: Vec<u8> = Vec::new();
    let mut i: usize = 0;
    proof {
        assert(s@.skip(0) =~= s@);
    }
    while i < s.len()
        invariant
            0 <= i <= s@.len(),
            spec_pct_decode(s@) == out@ + spec_pct_decode(s@.skip(i as int)),
        decreases s@.len() - i,
    {
        let ghost pre = s@.skip(i as int);
        proof {
            assert(pre.len() == s@.len() - i);
            assert(pre[0] == s@[i as int]);
        }
        let b = s[i];
        if b == PERCENT && s.len() - i >= 3 && hex_val(s[i + 1]) < 16 && hex_val(s[i + 2]) < 16 {
            proof {
                assert(pre[1] == s@[i as int + 1]);
                assert(pre[2] == s@[i as int + 2]);
                assert(pre.skip(3) =~= s@.skip(i as int + 3));
            }
            let v: u8 = hex_val(s[i + 1]) * 16 + hex_val(s[i + 2]);
            let ghost out0 = out@;
            out.push(v);
            proof {
                assert(spec_pct_decode(pre) == seq![v] + spec_pct_decode(pre.skip(3)));
                assert(out@ + spec_pct_decode(s@.skip(i as int + 3)) =~= out0
                    + spec_pct_decode(pre));
            }
            i = i + 3;
        } else if b == PLUS {
            proof {
                assert(pre.skip(1) =~= s@.skip(i as int + 1));
            }
            let ghost out0 = out@;
            out.push(SPACE);
            proof {
                assert(spec_pct_decode(pre) == seq![SPACE] + spec_pct_decode(pre.skip(1)));
                assert(out@ + spec_pct_decode(s@.skip(i as int + 1)) =~= out0
                    + spec_pct_decode(pre));
            }
            i = i + 1;
        } else {
            proof {
                assert(pre.skip(1) =~= s@.skip(i as int + 1));
            }
            let ghost out0 = out@;
            out.push(b);
            proof {
                assert(spec_pct_decode(pre) == seq![b] + spec_pct_decode(pre.skip(1)));
                assert(out@ + spec_pct_decode(s@.skip(i as int + 1)) =~= out0
                    + spec_pct_decode(pre));
            }
            i = i + 1;
        }
    }
    proof {
        assert(s@.skip(s@.len() as int) =~= Seq::<u8>::empty());
        assert(out@ =~= spec_pct_decode(s@));
    }
    out
}

/// The index of the first occurrence of `sep` in `s`, or -1 if there is none.
pub open spec fn spec_find(s: Seq<u8>, sep: u8) -> int
    decreases s.len(),
{
    if s.len() == 0 {
        -1
    } else if s[0] == sep {
        0
    } else {
        let r = spec_find(s.skip(1), sep);
        if r < 0 {
            -1
        } else {
            r + 1
        }
    }
}

/// What `spec_find` returns: the first occurrence of `sep`, or -1 when `sep`
/// does not occur.
pub proof fn lemma_spec_find(s: Seq<u8>, sep: u8)
    ensures
        spec_find(s, sep) < 0 ==> forall|k: int| 0 <= k < s.len() ==> s[k] != sep,
        spec_find(s, sep) >= 0 ==> {
            &&& spec_find(s, sep) < s.len()
            &&& s[spec_find(s, sep)] == sep
            &&& forall|k: int| 0 <= k < spec_find(s, sep) ==> s[k] != sep
        },
    decreases s.len(),
{
    if s.len() == 0 {
    } else if s[0] == sep {
    } else {
        lemma_spec_find(s.skip(1), sep);
        let r = spec_find(s.skip(1), sep);
        if r < 0 {
            assert forall|k: int| 0 <= k < s.len() implies s[k] != sep by {
                if k > 0 {
                    assert(s.skip(1)[k - 1] == s[k]);
                }
            }
        } else {
            assert(s.skip(1)[r] == s[r + 1]);
            assert forall|k: int| 0 <= k < r + 1 implies s[k] != sep by {
                if k > 0 {
                    assert(s.skip(1)[k - 1] == s[k]);
                }
            }
        }
    }
}

/// A position holding `sep` with no earlier occurrence is the one `spec_find`
/// names; a full scan without a hit means `spec_find` returns -1.
pub proof fn lemma_find_unique(s: Seq<u8>, sep: u8, j: int)
    requires
        0 <= j <= s.len(),
        j < s.len() ==> s[j] == sep,
        forall|k: int| 0 <= k < j ==> s[k] != sep,
    ensures
        j < s.len() ==> spec_find(s, sep) == j,
        j == s.len() ==> spec_find(s, sep) == -1,
{
    lemma_spec_find(s, sep);
    let f = spec_find(s, sep);
    if j < s.len() {
        if f < 0 {
            assert(s[j] != sep);
        } else {
            if f < j {
                assert(s[f] != sep);
            }
            if f > j {
                assert(s[j] != sep);
            }
        }
    } else {
        if f >= 0 {
            assert(s[f] != sep);
        }
    }
}

/// The index of the first occurrence of `sep` in `s` at or after `from`, or
/// the length of `s` if there is none.
fn find_from(s: &[u8], from: usize, sep: u8) -> (r: usize)
    requires
        from <= s@.len(),
    ensures
        from <= r <= s@.len(),
        r < s@.len() ==> s@[r as int] == sep,
        forall|k: int| from <= k < r ==> s@[k] != sep,
{
    let mut i: usize = from;
    while i < s.len()
        invariant
            from <= i <= s@.len(),
            forall|k: int| from <= k < i ==> s@[k] != sep,
        decreases s@.len() - i,
    {
        if s[i] == sep {
            return i;
        }
        i = i + 1;
    }
    i
}

/// The decoded key/value pair of one `key=value` segment: the part before the
/// first `=` is the key, the part after it the value, both percent-decoded; a
/// segment without `=` is a key with an empty value.
pub open spec fn spec_segment_pair(seg: Seq<u8>) -> (Seq<u8>, Seq<u8>) {
    let j = spec_find(seg, EQ);
    if 0 <= j < seg.len() {
        (spec_pct_decode(seg.take(j)), spec_pct_decode(seg.skip(j + 1)))
    } else {
        (spec_pct_decode(seg), Seq::empty())
    }
}

/// Decodes one `key=value` segment into its key/value pair.
fn segment_pair(seg: &[u8]) -> (p: (Vec<u8>, Vec<u8>))
    ensures
        (p.0@, p.1@) == spec_segment_pair(seg@),
{
    let j = find_from(seg, 0, EQ);
    proof {
        lemma_find_unique(seg@, EQ, j as int);
    }
    if j == seg.len() {
        (pct_decode(seg), Vec::new())
    } else {
        let k = slice_subrange(seg, 0, j);
        let v = slice_subrange(seg, j + 1, seg.len());
        proof {
            assert(k@ =~= seg@.take(j as int));
            assert(v@ =~= seg@.skip(j as int + 1));
        }
        (pct_decode(k), pct_decode(v))
    }
}

/// The decoded key/value pairs of a query string, in order of occurrence:
/// the string splits on `&`, empty segments are skipped, and each remaining
/// segment yields one pair.
pub open spec fn spec_raw_pairs(q: Seq<u8>) -> Seq<(Seq<u8>, Seq<u8>)>
    decreases q.len(),
{
    if q.len() == 0 {
        Seq::empty()
    } else {
        let i = spec_find(q, AMP);
        if 0 <= i < q.len() {
            let rest = spec_raw_pairs(q.skip(i + 1));
            if i == 0 {
                rest
            } else {
                seq![spec_segment_pair(q.take(i))] + rest
            }
        } else {
            seq![spec_segment_pair(q)]
        }
    }
}

/// The mathematical view of a vector of byte-string pairs.
pub open spec fn pairs_view(v: Seq<(Vec<u8>, Vec<u8>)>) -> Seq<(Seq<u8>, Seq<u8>)> {
    v.map_values(|p: (Vec<u8>, Vec<u8>)| (p.0@, p.1@))
}

/// Splits a query string on `&`, skips empty segments, and decodes each
/// remaining segment into its key/value pair, in order of occurrence.
pub fn raw_pairs(q: &[u8]) -> (r: Vec<(Vec<u8>, Vec<u8>)>)
    ensures
        pairs_view(r@) == spec_raw_pairs(q@),
{
    let mut out: Vec<(Vec<u8>, Vec<u8>)> = Vec::new();
    let mut i: usize = 0;
    proof {
        assert(q@.skip(0) =~= q@);
        assert(pairs_view(out@) =~= Seq::<(Seq<u8>, Seq<u8>)>::empty());
    }
    while i < q.len()
        invariant
            0 <= i <= q@.len(),
            spec_raw_pairs(q@) == pairs_view(out@) + spec_raw_pairs(q@.skip(i as int)),
        decreases q@.len() - i,
    {
        let ghost pre = q@.skip(i as int);
        let j = find_from(q, i, AMP);
        proof {
            assert forall|k: int| 0 <= k < (j - i) implies pre[k] != AMP by {
                assert(pre[k] == q@[k + i]);
            }
            if j < q@.len() {
                assert(pre[j - i] == q@[j as int]);
            }
            lemma_find_unique(pre, AMP, j - i);
        }
        if j == i {
            // an empty segment between two separators yields nothing
            proof {
                assert(pre.skip(1) =~= q@.skip(i as int + 1));
            }
            i = j + 1;
        } else {
            let seg = slice_subrange(q, i, j);
            proof {
                assert(seg@ =~= pre.take(j - i));
            }
            let pair = segment_pair(seg);
            let ghost out0 = out@;
            out.push(pair);
            proof {
                assert(pairs_view(out@) =~= pairs_view(out0).push(
                    (pair.0@, pair.1@),
                ));
            }
            if j == q.len() {
                proof {
                    assert(pre.take(j - i) =~= pre);
                    assert(q@.skip(q@.len() as int) =~= Seq::<u8>::empty());
                    assert(spec_raw_pairs(pre) =~= seq![spec_segment_pair(pre)]);
                    assert(pairs_view(out@) + spec_raw_pairs(q@.skip(q@.len() as int))
                        =~= pairs_view(out0) + spec_raw_pairs(pre));
                }
                i = j;
            } else {
                proof {
                    assert(pre.skip(j - i + 1) =~= q@.skip(j as int + 1));
                    assert(spec_raw_pairs(pre) =~= seq![spec_segment_pair(pre.take(j - i))]
                        + spec_raw_pairs(q@.skip(j as int + 1)));
                    assert(pairs_view(out@) + spec_raw_pairs(q@.skip(j as int + 1))
                        =~= pairs_view(out0) + spec_raw_pairs(pre));
                }
                i = j + 1;
            }
        }
    }
    proof {
        assert(q@.skip(q@.len() as int) =~= Seq::<u8>::empty());
        assert(pairs_view(out@) =~= spec_raw_pairs(q@));
    }
    out
}

/// Whether some pair in `ps` has key `k`.
pub open spec fn spec_has_key(ps: Seq<(Seq<u8>, Seq<u8>)>, k: Seq<u8>) -> bool {
    exists|i: int| 0 <= i < ps.len() && ps[i].0 == k
}

/// An index of a pair with key `k`.
pub open spec fn spec_key_index(ps: Seq<(Seq<u8>, Seq<u8>)>, k: Seq<u8>) -> int {
    choose|i: int| 0 <= i < ps.len() && ps[i].0 == k
}

/// The keys of `ps` are pairwise distinct.
pub open spec fn spec_unique_keys(ps: Seq<(Seq<u8>, Seq<u8>)>) -> bool {
    forall|i: int, j: int| 0 <= i < j < ps.len() ==> ps[i].0 != ps[j].0
}

/// Duplicate keys resolved: each key stands at the position of its first
/// occurrence and carries the value of its last occurrence.
pub open spec fn spec_dedup(ps: Seq<(Seq<u8>, Seq<u8>)>) -> Seq<(Seq<u8>, Seq<u8>)>
    decreases ps.len(),
{
    if ps.len() == 0 {
        Seq::empty()
    } else {
        let prev = spec_dedup(ps.drop_last());
        let p = ps.last();
        if spec_has_key(prev, p.0) {
            prev.update(spec_key_index(prev, p.0), p)
        } else {
            prev.push(p)
        }
    }
}

/// Resolving duplicates leaves pairwise distinct keys.
pub proof fn lemma_dedup_unique_keys(ps: Seq<(Seq<u8>, Seq<u8>)>)
    ensures
        spec_unique_keys(spec_dedup(ps)),
    decreases ps.len(),
{
    if ps.len() == 0 {
    } else {
        lemma_dedup_unique_keys(ps.drop_last());
        let prev = spec_dedup(ps.drop_last());
        let p = ps.last();
        if spec_has_key(prev, p.0) {
            let j = spec_key_index(prev, p.0);
            assert(0 <= j < prev.len() && prev[j].0 == p.0);
            let cur = prev.update(j, p);
            assert forall|a: int, b: int| 0 <= a < b < cur.len() implies cur[a].0 != cur[b].0 by {
                assert(prev[a].0 != prev[b].0);
            }
        }
    }
}

/// Whether two byte strings hold the same bytes.
fn bytes_eq(a: &[u8], b: &[u8]) -> (r: bool)
    ensures
        r == (a@ == b@),
{
    if a.len() != b.len() {
        return false;
    }
    let mut i: usize = 0;
    while i < a.len()
        invariant
            a@.len() == b@.len(),
            0 <= i <= a@.len(),
            forall|k: int| 0 <= k < i ==> a@[k] == b@[k],
        decreases a@.len() - i,
    {
        if a[i] != b[i] {
            return false;
        }
        i = i + 1;
    }
    proof {
        assert(a@ =~= b@);
    }
    true
}

/// A copy of a byte string.
fn bytes_clone(v: &Vec<u8>) -> (r: Vec<u8>)
    ensures
        r@ == v@,
{
    slice_to_vec(v.as_slice())
}

/// Resolves duplicate keys among decoded pairs: a key keeps the position of
/// its first occurrence and takes the value of its last occurrence.
pub fn dedup_pairs(ps: &Vec<(Vec<u8>, Vec<u8>)>) -> (r: Vec<(Vec<u8>, Vec<u8>)>)
    ensures
        pairs_view(r@) == spec_dedup(pairs_view(ps@)),
        spec_unique_keys(pairs_view(r@)),
{
    let mut out: Vec<(Vec<u8>, Vec<u8>)> = Vec::new();
    let mut n: usize = 0;
    proof {
        assert(pairs_view(ps@).take(0) =~= Seq::<(Seq<u8>, Seq<u8>)>::empty());
        assert(pairs_view(out@) =~= Seq::<(Seq<u8>, Seq<u8>)>::empty());
        lemma_dedup_unique_keys(pairs_view(ps@).take(0));
    }
    while n < ps.len()
        invariant
            0 <= n <= ps@.len(),
            pairs_view(out@) == spec_dedup(pairs_view(ps@).take(n as int)),
            spec_unique_keys(pairs_view(out@)),
        decreases ps@.len() - n,
    {
        let pair = (bytes_clone(&ps[n].0), bytes_clone(&ps[n].1));
        let ghost pv = (pair.0@, pair.1@);
        let ghost prev = pairs_view(out@);
        proof {
            assert(pairs_view(ps@).take(n as int + 1).drop_last() =~= pairs_view(ps@).take(
                n as int,
            ));
            assert(pairs_view(ps@).take(n as int + 1).last() == pairs_view(ps@)[n as int]);
            assert(pairs_view(ps@)[n as int] == pv);
        }
        let mut j: usize = 0;
        while j < out.len() && !bytes_eq(out[j].0.as_slice(), pair.0.as_slice())
            invariant
                0 <= j <= out@.len(),
                forall|k: int| 0 <= k < j ==> pairs_view(out@)[k].0 != pv.0,
                pairs_view(out@) == prev,
                pair.0@ == pv.0 && pair.1@ == pv.1,
            decreases out@.len() - j,
        {
            j = j + 1;
        }
        let found = j < out.len();
        proof {
            if found {
                assert(pairs_view(out@)[j as int].0 == pv.0);
            }
        }
        let ghost out0 = out@;
        if found {
            proof {
                assert(spec_has_key(prev, pv.0));
                let ci = spec_key_index(prev, pv.0);
                assert(0 <= ci < prev.len() && prev[ci].0 == pv.0);
                if ci < j {
                    assert(prev[ci].0 != prev[j as int].0);
                }
                if ci > j {
                    assert(prev[j as int].0 != prev[ci].0);
                }
                assert(ci == j);
            }
            out[j] = pair;
            proof {
                assert(pairs_view(out@) =~= prev.update(j as int, pv));
                assert forall|a: int, b: int|
                    0 <= a < b < pairs_view(out@).len() implies pairs_view(out@)[a].0
                    != pairs_view(out@)[b].0 by {
                    assert(prev[a].0 != prev[b].0);
                }
            }
        } else {
            proof {
                assert forall|k: int| 0 <= k < prev.len() implies prev[k].0 != pv.0 by {}
                assert(!spec_has_key(prev, pv.0));
            }
            out.push(pair);
            proof {
                assert(pairs_view(out@) =~= prev.push(pv));
            }
        }
        n = n + 1;
    }
    proof {
        assert(pairs_view(ps@).take(ps@.len() as int) =~= pairs_view(ps@));
    }
    out
}

/// The decoded key/value pairs of a query string: split on `&`, each part
/// percent-decoded around its first `=`, duplicate keys resolved so that a
/// key stands at its first occurrence with the value of its last.
pub open spec fn spec_parse_query(q: Seq<u8>) -> Seq<(Seq<u8>, Seq<u8>)> {
    spec_dedup(spec_raw_pairs(q))
}

/// Parses a query string into its decoded key/value pairs.
pub fn parse_query(q: &[u8]) -> (r: Vec<(Vec<u8>, Vec<u8>)>)
    ensures
        pairs_view(r@) == spec_parse_query(q@),
        spec_unique_keys(pairs_view(r@)),
{
    let pairs = raw_pairs(q);
    dedup_pairs(&pairs)
}

/// The mapping a pair sequence defines: each key maps to a value, a later
/// pair overriding an earlier one with the same key.
pub open spec fn spec_pairs_map(ps: Seq<(Seq<u8>, Seq<u8>)>) -> Map<Seq<u8>, Seq<u8>>
    decreases ps.len(),
{
    if ps.len() == 0 {
        Map::empty()
    } else {
        spec_pairs_map(ps.drop_last()).insert(ps.last().0, ps.last().1)
    }
}

/// Updating the one pair that holds key `k` to value `v` is, as a mapping,
/// the same as inserting `(k, v)`, provided no later pair holds `k`.
proof fn lemma_pairs_map_update(s: Seq<(Seq<u8>, Seq<u8>)>, j: int, k: Seq<u8>, v: Seq<u8>)
    requires
        0 <= j < s.len(),
        s[j].0 == k,
        forall|i: int| j < i < s.len() ==> s[i].0 != k,
    ensures
        spec_pairs_map(s.update(j, (k, v))) == spec_pairs_map(s).insert(k, v),
    decreases s.len(),
{
    let su = s.update(j, (k, v));
    if j == s.len() - 1 {
        assert(su.drop_last() =~= s.drop_last());
        assert(su.last() == (k, v));
        assert(spec_pairs_map(s.drop_last()).insert(k, s.last().1).insert(k, v)
            =~= spec_pairs_map(s.drop_last()).insert(k, v));
        assert(s.last().0 == k);
    } else {
        assert(su.drop_last() =~= s.drop_last().update(j, (k, v)));
        assert(su.last() == s.last());
        lemma_pairs_map_update(s.drop_last(), j, k, v);
        let t = s.last();
        assert(s[s.len() - 1].0 != k);
        assert(spec_pairs_map(s.drop_last()).insert(k, v).insert(t.0, t.1)
            =~= spec_pairs_map(s.drop_last()).insert(t.0, t.1).insert(k, v));
    }
}

/// Resolving duplicate keys does not change the mapping the pairs define.
pub proof fn lemma_dedup_map(ps: Seq<(Seq<u8>, Seq<u8>)>)
    ensures
        spec_pairs_map(spec_dedup(ps)) == spec_pairs_map(ps),
    decreases ps.len(),
{
    if ps.len() == 0 {
    } else {
        lemma_dedup_map(ps.drop_last());
        lemma_dedup_unique_keys(ps.drop_last());
        let prev = spec_dedup(ps.drop_last());
        let p = ps.last();
        if spec_has_key(prev, p.0) {
            let j = spec_key_index(prev, p.0);
            assert(0 <= j < prev.len() && prev[j].0 == p.0);
            assert forall|i: int| j < i < prev.len() implies prev[i].0 != p.0 by {
                assert(prev[j].0 != prev[i].0);
            }
            lemma_pairs_map_update(prev, j, p.0, p.1);
            assert(p == (p.0, p.1));
        } else {
            assert((prev.push(p)).drop_last() =~= prev);
            assert((prev.push(p)).last() == p);
        }
    }
}

/// Parsing keeps exactly the decoded pairs of the query string: as a mapping,
/// the parsed pairs equal the raw decoded pairs with every duplicate key
/// resolved to its last occurrence, and the parsed keys are pairwise
/// distinct.
pub proof fn lemma_parse_query_last_wins(q: Seq<u8>)
    ensures
        spec_pairs_map(spec_parse_query(q)) == spec_pairs_map(spec_raw_pairs(q)),
        spec_unique_keys(spec_parse_query(q)),
{
    lemma_dedup_map(spec_raw_pairs(q));
    lemma_dedup_unique_keys(spec_raw_pairs(q));
}

} // verus!
