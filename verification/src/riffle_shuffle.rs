//! A riffle shuffle in the Gilbert–Shannon–Reeds model, as analysed by
//! Bayer and Diaconis ("Trailing the Dovetail Shuffle to its Lair", 1992).
//!
//! One uniform sample per card is drawn from (0, 1], held in fixed-point
//! form as an integer numerator over `SAMPLE_ONE`.  The samples are tagged
//! with their original positions, sorted, doubled-and-reduced (the standard
//! encoding of which virtual packet a card falls into), split at the single
//! descent of the reduced sequence, and the two ascending runs are merged
//! back by value.  The resulting order of tags, applied to the deck, is the
//! shuffled deck.

use vstd::prelude::*;
use vstd::relations::sorted_by;
use vstd::relations::total_ordering;
use vstd::seq_lib::lemma_sorted_unique;
use rand::Rng;

verus! {

/// Fixed-point denominator for samples: a sample `s` stands for the real
/// number `s / SAMPLE_ONE`, so samples from (0, 1] lie in `1 ..= SAMPLE_ONE`.
pub const SAMPLE_ONE: u64 = 1_000_000;

/// Order on tagged samples: by sample value, ties broken by the original
/// position, so that sorting is deterministic.
pub open spec fn tag_le(a: (u64, usize), b: (u64, usize)) -> bool {
    a.0 < b.0 || (a.0 == b.0 && a.1 <= b.1)
}

/// The ordering on tagged samples as a function value, for `sort_by`.
pub open spec fn tag_order() -> spec_fn((u64, usize), (u64, usize)) -> bool {
    |a: (u64, usize), b: (u64, usize)| tag_le(a, b)
}

/// Each sample paired with its original position.
pub open spec fn tag_seq(samples: Seq<u64>) -> Seq<(u64, usize)> {
    Seq::new(samples.len(), |i: int| (samples[i], i as usize))
}

/// The doubling step: a sample for the real `p` becomes one for the
/// fractional part of `2 * p`.
pub open spec fn scale_val(s: u64) -> u64 {
    ((2 * (s as int)) % (SAMPLE_ONE as int)) as u64
}

/// Doubling applied to every tagged sample, tags kept.
pub open spec fn scale_seq(sorted: Seq<(u64, usize)>) -> Seq<(u64, usize)> {
    Seq::new(sorted.len(), |i: int| (scale_val(sorted[i].0), sorted[i].1))
}

/// The sample values of a tagged sequence.
pub open spec fn vals_of(s: Seq<(u64, usize)>) -> Seq<u64> {
    s.map_values(|p: (u64, usize)| p.0)
}

/// Scan for the first descent at or after window position `i`: the least
/// `b > i` with `vals[b - 1] > vals[b]`, or the length if none exists.
pub open spec fn break_from(vals: Seq<u64>, i: int) -> int
    decreases vals.len() - i,
{
    if i < 0 || i + 1 >= vals.len() {
        vals.len() as int
    } else if vals[i] > vals[i + 1] {
        i + 1
    } else {
        break_from(vals, i + 1)
    }
}

/// The break point of a value sequence: the position of the first descent,
/// or the length if the sequence is entirely ascending.
pub open spec fn break_of(vals: Seq<u64>) -> int {
    break_from(vals, 0)
}

proof fn lemma_break_from_none(vals: Seq<u64>, i: int)
    requires
        0 <= i,
        forall|j: int| i + 1 <= j < vals.len() ==> vals[j - 1] <= #[trigger] vals[j],
    ensures
        break_from(vals, i) == vals.len(),
    decreases vals.len() - i,
{
    if i + 1 < vals.len() {
        assert(vals[i] <= vals[i + 1]);
        lemma_break_from_none(vals, i + 1);
    }
}

proof fn lemma_break_from_some(vals: Seq<u64>, i: int, b: int)
    requires
        0 <= i <= b - 1,
        b < vals.len(),
        vals[b - 1] > vals[b],
        forall|j: int| i + 1 <= j < b ==> vals[j - 1] <= #[trigger] vals[j],
    ensures
        break_from(vals, i) == b,
    decreases b - i,
{
    if i + 1 == b {
        assert(vals[i] > vals[i + 1]);
    } else {
        assert(vals[i] <= vals[i + 1]);
        lemma_break_from_some(vals, i + 1, b);
    }
}

/// The break point never leaves the sequence: it is a position in
/// `0 ..= vals.len()`.
proof fn lemma_break_from_bounds(vals: Seq<u64>, i: int)
    requires
        0 <= i,
    ensures
        0 <= break_from(vals, i) <= vals.len(),
    decreases vals.len() - i,
{
    if i + 1 < vals.len() && !(vals[i] > vals[i + 1]) {
        lemma_break_from_bounds(vals, i + 1);
    }
}

/// The ordering on tagged samples is a total order: sorting by it is
/// deterministic.
pub proof fn lemma_tag_total_ordering()
    ensures
        total_ordering(tag_order()),
{
    let r = tag_order();
    assert forall|a: (u64, usize)| #[trigger] r(a, a) by {}
    assert forall|a: (u64, usize), b: (u64, usize)| #[trigger] r(a, b) && #[trigger] r(b, a)
        implies a == b by {}
    assert forall|a: (u64, usize), b: (u64, usize), c: (u64, usize)|
        #[trigger] r(a, b) && #[trigger] r(b, c) implies r(a, c) by {}
    assert forall|a: (u64, usize), b: (u64, usize)| #[trigger] r(a, b) || #[trigger] r(b, a) by {}
}

/// The stable merge of the two ascending runs: take from the first run
/// while its head value is at most the second run's head value, so a value
/// tie prefers the first run and each run's internal order is kept.
pub open spec fn merge_tagged(a: Seq<(u64, usize)>, b: Seq<(u64, usize)>) -> Seq<(u64, usize)>
    decreases a.len(), b.len(),
{
    if a.len() == 0 {
        b
    } else if b.len() == 0 {
        a
    } else if a.first().0 <= b.first().0 {
        seq![a.first()] + merge_tagged(a.drop_first(), b)
    } else {
        seq![b.first()] + merge_tagged(a, b.drop_first())
    }
}

/// Merging two runs rearranges their concatenation: the multiset of tagged
/// samples, and hence the length, is preserved.
proof fn lemma_merge_tagged_multiset(a: Seq<(u64, usize)>, b: Seq<(u64, usize)>)
    ensures
        merge_tagged(a, b).to_multiset() == (a + b).to_multiset(),
        merge_tagged(a, b).len() == a.len() + b.len(),
    decreases a.len(), b.len(),
{
    broadcast use vstd::seq_lib::group_to_multiset_ensures;
    broadcast use vstd::seq_lib::lemma_multiset_commutative;
    broadcast use vstd::multiset::group_multiset_axioms;

    if a.len() == 0 {
        assert(a + b =~= b);
    } else if b.len() == 0 {
        assert(a + b =~= a);
    } else if a.first().0 <= b.first().0 {
        lemma_merge_tagged_multiset(a.drop_first(), b);
        assert(a =~= seq![a.first()] + a.drop_first());
        assert((seq![a.first()] + a.drop_first()) + b =~= seq![a.first()] + (a.drop_first() + b));
        assert(merge_tagged(a, b).to_multiset() =~= (a + b).to_multiset());
    } else {
        lemma_merge_tagged_multiset(a, b.drop_first());
        assert(b =~= seq![b.first()] + b.drop_first());
        assert((a + b).to_multiset() =~= a.to_multiset().add(
            seq![b.first()].to_multiset().add(b.drop_first().to_multiset()),
        ));
        assert(merge_tagged(a, b).to_multiset() =~= seq![b.first()].to_multiset().add(
            (a + b.drop_first()).to_multiset(),
        ));
        assert(merge_tagged(a, b).to_multiset() =~= (a + b).to_multiset());
    }
}

/// A sorted sequence stays sorted when its first element is dropped.
proof fn lemma_sorted_drop_first(s: Seq<(u64, usize)>)
    requires
        sorted_by(s, tag_order()),
        s.len() > 0,
    ensures
        sorted_by(s.drop_first(), tag_order()),
{
    assert forall|i: int, j: int| 0 <= i < j < s.drop_first().len() implies tag_order()(
        #[trigger] s.drop_first()[i],
        #[trigger] s.drop_first()[j],
    ) by {
        assert(tag_order()(s[i + 1], s[j + 1]));
    }
}

/// Merging two runs that are each sorted, when every value tie across the
/// runs respects the tag order, yields a sequence sorted by value and tag:
/// the tie rule of the merge then agrees with the tag order throughout.
proof fn lemma_merge_tagged_sorted(a: Seq<(u64, usize)>, b: Seq<(u64, usize)>)
    requires
        sorted_by(a, tag_order()),
        sorted_by(b, tag_order()),
        forall|i: int, j: int| #![trigger a[i], b[j]]
            0 <= i < a.len() && 0 <= j < b.len() && a[i].0 == b[j].0 ==> a[i].1 <= b[j].1,
    ensures
        sorted_by(merge_tagged(a, b), tag_order()),
    decreases a.len(), b.len(),
{
    broadcast use vstd::seq_lib::group_to_multiset_ensures;

    if a.len() == 0 || b.len() == 0 {
    } else {
        let m = merge_tagged(a, b);
        if a.first().0 <= b.first().0 {
            lemma_sorted_drop_first(a);
            assert forall|i: int, j: int| #![trigger a.drop_first()[i], b[j]]
                0 <= i < a.drop_first().len() && 0 <= j < b.len() && a.drop_first()[i].0
                    == b[j].0 implies a.drop_first()[i].1 <= b[j].1 by {
                assert(a.drop_first()[i] == a[i + 1]);
            }
            lemma_merge_tagged_sorted(a.drop_first(), b);
            let rest = merge_tagged(a.drop_first(), b);
            lemma_merge_tagged_multiset(a.drop_first(), b);
            assert forall|t: int| 0 <= t < rest.len() implies tag_le(
                a.first(),
                #[trigger] rest[t],
            ) by {
                assert(rest.contains(rest[t]));
                assert(rest.to_multiset().count(rest[t]) > 0);
                assert((a.drop_first() + b).contains(rest[t]));
                let w = choose|w: int|
                    0 <= w < (a.drop_first() + b).len() && (a.drop_first() + b)[w] == rest[t];
                if w < a.drop_first().len() {
                    assert(rest[t] == a[w + 1]);
                    assert(tag_order()(a[0], a[w + 1]));
                } else {
                    let u = w - (a.len() - 1);
                    assert(rest[t] == b[u]);
                    if u > 0 {
                        assert(tag_order()(b[0], b[u]));
                    }
                    if a[0].0 == b[u].0 {
                        assert(a[0].1 <= b[u].1);
                    }
                }
            }
            assert forall|i: int, j: int| 0 <= i < j < m.len() implies tag_order()(
                #[trigger] m[i],
                #[trigger] m[j],
            ) by {
                assert(m == seq![a.first()] + rest);
                if i == 0 {
                    assert(tag_le(a.first(), rest[j - 1]));
                } else {
                    assert(tag_order()(rest[i - 1], rest[j - 1]));
                }
            }
        } else {
            lemma_sorted_drop_first(b);
            assert forall|i: int, j: int| #![trigger a[i], b.drop_first()[j]]
                0 <= i < a.len() && 0 <= j < b.drop_first().len() && a[i].0
                    == b.drop_first()[j].0 implies a[i].1 <= b.drop_first()[j].1 by {
                assert(b.drop_first()[j] == b[j + 1]);
            }
            lemma_merge_tagged_sorted(a, b.drop_first());
            let rest = merge_tagged(a, b.drop_first());
            lemma_merge_tagged_multiset(a, b.drop_first());
            assert forall|t: int| 0 <= t < rest.len() implies tag_le(
                b.first(),
                #[trigger] rest[t],
            ) by {
                assert(rest.contains(rest[t]));
                assert(rest.to_multiset().count(rest[t]) > 0);
                assert((a + b.drop_first()).contains(rest[t]));
                let w = choose|w: int|
                    0 <= w < (a + b.drop_first()).len() && (a + b.drop_first())[w] == rest[t];
                if w < a.len() {
                    assert(rest[t] == a[w]);
                    if w > 0 {
                        assert(tag_order()(a[0], a[w]));
                    }
                    assert(b.first().0 < a[w].0);
                } else {
                    let u = w - a.len();
                    assert(rest[t] == b[u + 1]);
                    assert(tag_order()(b[0], b[u + 1]));
                }
            }
            assert forall|i: int, j: int| 0 <= i < j < m.len() implies tag_order()(
                #[trigger] m[i],
                #[trigger] m[j],
            ) by {
                assert(m == seq![b.first()] + rest);
                if i == 0 {
                    assert(tag_le(b.first(), rest[j - 1]));
                } else {
                    assert(tag_order()(rest[i - 1], rest[j - 1]));
                }
            }
        }
    }
}

/// Law (merge equals re-sort): wherever a split leaves two runs that are
/// each sorted under the value-then-tag order, with every cross-run value
/// tie respecting it, the single merge of the runs is exactly `sort_by`
/// under that order — the re-sort of the doubled pairs that the naive
/// construction performs.  The split at the first descent leaves such runs
/// whenever the doubled values fall into at most two ascending stretches,
/// the shape the doubling transform gives a sorted draw; only a draw that
/// holds the sample for one itself, which doubling wraps to zero, can open
/// a third stretch, and there the single merge and a full re-sort part
/// ways.
pub proof fn lemma_merge_equals_resort(scaled: Seq<(u64, usize)>, bp: int)
    requires
        0 <= bp <= scaled.len(),
        sorted_by(scaled.take(bp), tag_order()),
        sorted_by(scaled.skip(bp), tag_order()),
        forall|i: int, j: int| #![trigger scaled[i], scaled[j]]
            0 <= i < bp <= j < scaled.len() && scaled[i].0 == scaled[j].0 ==> scaled[i].1
                <= scaled[j].1,
    ensures
        merge_tagged(scaled.take(bp), scaled.skip(bp)) == scaled.sort_by(tag_order()),
{
    let a = scaled.take(bp);
    let b = scaled.skip(bp);
    assert forall|i: int, j: int| #![trigger a[i], b[j]]
        0 <= i < a.len() && 0 <= j < b.len() && a[i].0 == b[j].0 implies a[i].1 <= b[j].1 by {
        assert(a[i] == scaled[i]);
        assert(b[j] == scaled[bp + j]);
    }
    lemma_merge_tagged_sorted(a, b);
    lemma_merge_tagged_multiset(a, b);
    assert(a + b =~= scaled);
    lemma_tag_total_ordering();
    scaled.lemma_sort_by_ensures(tag_order());
    lemma_sorted_unique(merge_tagged(a, b), scaled.sort_by(tag_order()), tag_order());
}

/// Mapping a function over two sequences with equal multisets yields equal
/// multisets again.
proof fn lemma_to_multiset_map<A, B>(s: Seq<A>, t: Seq<A>, f: spec_fn(A) -> B)
    requires
        s.to_multiset() == t.to_multiset(),
    ensures
        s.map_values(f).to_multiset() == t.map_values(f).to_multiset(),
    decreases s.len(),
{
    broadcast use vstd::seq_lib::group_to_multiset_ensures;
    broadcast use vstd::multiset::group_multiset_axioms;

    if s.len() == 0 {
        assert(s.to_multiset().len() == 0);
        assert(t.to_multiset().len() == 0);
        assert(t.len() == 0);
        assert(s.map_values(f) =~= t.map_values(f));
    } else {
        let x = s[0];
        assert(s.contains(x));
        assert(t.to_multiset().count(x) > 0);
        assert(t.contains(x));
        let k = choose|k: int| 0 <= k < t.len() && t[k] == x;
        assert(s.remove(0).to_multiset() == t.remove(k).to_multiset()) by {
            assert(s.remove(0).to_multiset() == s.to_multiset().remove(x));
            assert(t.remove(k).to_multiset() == t.to_multiset().remove(t[k]));
        }
        lemma_to_multiset_map(s.remove(0), t.remove(k), f);
        assert(s.map_values(f) =~= s.remove(0).map_values(f).insert(0, f(x)));
        assert(t.map_values(f) =~= t.remove(k).map_values(f).insert(k, f(x)));
        assert(s.map_values(f).to_multiset() == s.remove(0).map_values(f).to_multiset().insert(
            f(x),
        ));
        assert(t.map_values(f).to_multiset() == t.remove(k).map_values(f).to_multiset().insert(
            f(x),
        ));
    }
}

/// Reading a card of the deck off a tagged sample's original position.
pub open spec fn pick_from<T>(deck: Seq<T>) -> spec_fn((u64, usize)) -> T {
    |p: (u64, usize)| deck[p.1 as int]
}

/// The whole shuffle as a function of the deck and the drawn samples: tag,
/// sort, double-and-reduce, split at the first descent, merge the two runs
/// stably by value, and read the deck off in the merged tag order.
pub open spec fn spec_shuffle<T>(deck: Seq<T>, samples: Seq<u64>) -> Seq<T> {
    let sorted = tag_seq(samples).sort_by(tag_order());
    let scaled = scale_seq(sorted);
    let bp = break_of(vals_of(scaled));
    let merged = merge_tagged(scaled.take(bp), scaled.skip(bp));
    merged.map_values(pick_from(deck))
}

/// Law (multiset preservation): for every deck and every sample draw of
/// matching length, the shuffle is a permutation — it keeps exactly the
/// deck's elements, with multiplicity, and in particular its length.
pub proof fn lemma_shuffle_preserves_multiset<T>(deck: Seq<T>, samples: Seq<u64>)
    requires
        samples.len() == deck.len(),
        deck.len() <= usize::MAX,
    ensures
        spec_shuffle(deck, samples).to_multiset() == deck.to_multiset(),
        spec_shuffle(deck, samples).len() == deck.len(),
{
    broadcast use vstd::seq_lib::group_to_multiset_ensures;

    let tagged = tag_seq(samples);
    let sorted = tagged.sort_by(tag_order());
    let scaled = scale_seq(sorted);
    let bp = break_of(vals_of(scaled));
    let merged = merge_tagged(scaled.take(bp), scaled.skip(bp));
    let pick = pick_from(deck);
    lemma_tag_total_ordering();
    tagged.lemma_sort_by_ensures(tag_order());
    assert(sorted.to_multiset().len() == tagged.to_multiset().len());
    assert(sorted.len() == tagged.len());
    lemma_break_from_bounds(vals_of(scaled), 0);
    assert(vals_of(scaled).len() == scaled.len());
    assert(scaled.take(bp) + scaled.skip(bp) =~= scaled);
    lemma_merge_tagged_multiset(scaled.take(bp), scaled.skip(bp));
    lemma_to_multiset_map(merged, scaled, pick);
    assert(scaled.map_values(pick) =~= sorted.map_values(pick));
    lemma_to_multiset_map(sorted, tagged, pick);
    assert forall|i: int| 0 <= i < tagged.len() implies #[trigger] tagged.map_values(pick)[i]
        == deck[i] by {
        assert(tagged[i] == (samples[i], i as usize));
        assert(tagged[i].1 as int == i);
    }
    assert(tagged.map_values(pick) =~= deck);
    assert(spec_shuffle(deck, samples).to_multiset() == deck.to_multiset());
    assert(spec_shuffle(deck, samples).to_multiset().len() == deck.to_multiset().len());
}

/// Law (identity on trivial inputs): a deck of length zero or one comes
/// back unchanged, whatever the samples were.
pub proof fn lemma_shuffle_identity_on_trivial<T>(deck: Seq<T>, samples: Seq<u64>)
    requires
        samples.len() == deck.len(),
        deck.len() <= 1,
    ensures
        spec_shuffle(deck, samples) == deck,
{
    broadcast use vstd::seq_lib::group_to_multiset_ensures;

    lemma_shuffle_preserves_multiset(deck, samples);
    let out = spec_shuffle(deck, samples);
    if deck.len() == 0 {
        assert(out =~= deck);
    } else {
        assert(out.contains(out[0]));
        assert(deck.to_multiset().count(out[0]) > 0);
        assert(deck.contains(out[0]));
        assert(out =~= deck);
    }
}

/// The executable form of the tagged-sample ordering.
fn tag_le_exec(a: (u64, usize), b: (u64, usize)) -> (r: bool)
    ensures
        r == tag_le(a, b),
{
    a.0 < b.0 || (a.0 == b.0 && a.1 <= b.1)
}

/// Sort tagged samples ascending by value, ties by original position.  The
/// order is total, so the result is the one sorted rearrangement of the
/// input: `Seq::sort_by` under `tag_order`.
#[verifier::loop_isolation(false)]
fn sort_tagged(v: &Vec<(u64, usize)>) -> (out: Vec<(u64, usize)>)
    ensures
        out@ == v@.sort_by(tag_order()),
        sorted_by(out@, tag_order()),
        out@.to_multiset() == v@.to_multiset(),
        out@.len() == v@.len(),
{
    broadcast use vstd::seq_lib::group_to_multiset_ensures;

    let n = v.len();
    let mut out: Vec<(u64, usize)> = Vec::new();
    let mut k: usize = 0;
    while k < n
        invariant
            k <= n,
            out@.len() == k,
            sorted_by(out@, tag_order()),
            out@.to_multiset() == v@.take(k as int).to_multiset(),
        decreases n - k,
    {
        let x = v[k];
        let mut pos: usize = 0;
        while pos < out.len() && tag_le_exec(out[pos], x)
            invariant
                pos <= out@.len(),
                forall|q: int| 0 <= q < pos ==> tag_le(#[trigger] out@[q], x),
            decreases out@.len() - pos,
        {
            pos = pos + 1;
        }
        proof {
            assert forall|q: int| pos <= q < out@.len() implies tag_le(x, #[trigger] out@[q]) by {
                assert(!tag_le(out@[pos as int], x));
                if q > pos {
                    assert(tag_order()(out@[pos as int], out@[q]));
                }
            }
            assert(v@.take(k + 1) =~= v@.take(k as int).push(v@[k as int]));
        }
        let ghost prev = out@;
        out.insert(pos, x);
        proof {
            assert forall|i: int, j: int| 0 <= i < j < out@.len() implies tag_order()(
                out@[i],
                out@[j],
            ) by {
                assert(out@ == prev.insert(pos as int, x));
                if i < pos && j > pos {
                    assert(tag_order()(prev[i], prev[j - 1]));
                }
            }
        }
        k = k + 1;
    }
    proof {
        assert(v@.take(n as int) =~= v@);
        lemma_tag_total_ordering();
        v@.lemma_sort_by_ensures(tag_order());
        lemma_sorted_unique(out@, v@.sort_by(tag_order()), tag_order());
    }
    out
}

/// Locate the first descent of `vals`: `Some(b)` where `b` is the least
/// position with `vals[b - 1] > vals[b]`, or `None` when the sequence is
/// ascending throughout (equal neighbours do not count as a descent).
pub fn find_break(vals: &Vec<u64>) -> (r: Option<usize>)
    ensures
        match r {
            Some(b) => {
                &&& 1 <= b < vals@.len()
                &&& vals@[b - 1] > vals@[b as int]
                &&& forall|j: int| 1 <= j < b ==> vals@[j - 1] <= #[trigger] vals@[j]
                &&& b as int == break_of(vals@)
            },
            None => {
                &&& forall|j: int| 1 <= j < vals@.len() ==> vals@[j - 1] <= #[trigger] vals@[j]
                &&& break_of(vals@) == vals@.len()
            },
        },
{
    let n = vals.len();
    let mut i: usize = 1;
    while i < n
        invariant
            1 <= i,
            n == vals@.len(),
            i <= n || n == 0,
            forall|j: int| 1 <= j < i ==> vals@[j - 1] <= #[trigger] vals@[j],
        decreases n - i,
    {
        if vals[i - 1] > vals[i] {
            proof {
                lemma_break_from_some(vals@, 0, i as int);
            }
            return Some(i);
        }
        i = i + 1;
    }
    proof {
        lemma_break_from_none(vals@, 0);
    }
    None
}

/// Merge the two runs `scaled[..bp]` and `scaled[bp..]` by simultaneous
/// ascending comparison on the sample value, preferring the first run on a
/// tie: exactly the stable merge `merge_tagged` describes.
#[verifier::loop_isolation(false)]
fn merge_halves(scaled: &Vec<(u64, usize)>, bp: usize) -> (out: Vec<(u64, usize)>)
    requires
        bp <= scaled@.len(),
    ensures
        out@ == merge_tagged(scaled@.take(bp as int), scaled@.skip(bp as int)),
{
    let ghost a = scaled@.take(bp as int);
    let ghost b = scaled@.skip(bp as int);
    let n = scaled.len();
    let mut out: Vec<(u64, usize)> = Vec::new();
    let mut i: usize = 0;
    let mut j: usize = bp;
    proof {
        assert(a.skip(0) =~= a);
        assert(b.skip(0) =~= b);
        assert(Seq::<(u64, usize)>::empty() + merge_tagged(a, b) =~= merge_tagged(a, b));
    }
    while i < bp || j < n
        invariant
            i <= bp,
            bp <= j <= n,
            merge_tagged(a, b) == out@ + merge_tagged(
                a.skip(i as int),
                b.skip(j - bp as int),
            ),
        decreases n - i + n - j,
    {
        let take_first = i < bp && (j == n || scaled[i].0 <= scaled[j].0);
        let ghost ai = a.skip(i as int);
        let ghost bj = b.skip(j - bp as int);
        if take_first {
            proof {
                assert(ai.first() == a[i as int]);
                assert(ai.drop_first() =~= a.skip(i as int + 1));
                if j == n {
                    assert(bj.len() == 0);
                    assert(merge_tagged(ai, bj) == ai);
                    assert(ai =~= seq![ai.first()] + ai.drop_first());
                    assert(merge_tagged(ai.drop_first(), bj) == ai.drop_first());
                } else {
                    assert(bj.first() == b[j - bp as int]);
                    assert(b[j - bp as int] == scaled@[j as int]);
                }
                assert(merge_tagged(ai, bj) == seq![a[i as int]] + merge_tagged(
                    a.skip(i as int + 1),
                    bj,
                ));
                assert((out@ + seq![a[i as int]]) + merge_tagged(a.skip(i as int + 1), bj) =~= out@
                    + merge_tagged(ai, bj));
            }
            let x = scaled[i];
            out.push(x);
            i = i + 1;
        } else {
            proof {
                assert(bj.first() == b[j - bp as int]);
                assert(b[j - bp as int] == scaled@[j as int]);
                assert(bj.drop_first() =~= b.skip(j - bp as int + 1));
                if i == bp {
                    assert(ai.len() == 0);
                    assert(merge_tagged(ai, bj) == bj);
                    assert(bj =~= seq![bj.first()] + bj.drop_first());
                    assert(merge_tagged(ai, bj.drop_first()) == bj.drop_first());
                } else {
                    assert(ai.first() == a[i as int]);
                    assert(!(ai.first().0 <= bj.first().0));
                }
                assert(merge_tagged(ai, bj) == seq![b[j - bp as int]] + merge_tagged(
                    ai,
                    b.skip(j - bp as int + 1),
                ));
                assert((out@ + seq![b[j - bp as int]]) + merge_tagged(ai, b.skip(j - bp as int + 1))
                    =~= out@ + merge_tagged(ai, bj));
            }
            let x = scaled[j];
            out.push(x);
            j = j + 1;
        }
    }
    proof {
        assert(a.skip(bp as int).len() == 0);
        assert(b.skip(n - bp as int).len() == 0);
        assert(merge_tagged(a.skip(bp as int), b.skip(n - bp as int)) =~= Seq::<(
            u64,
            usize,
        )>::empty());
        assert(out@ + Seq::<(u64, usize)>::empty() =~= out@);
    }
    out
}

/// The deterministic part of the shuffle: apply the riffle transform to the
/// deck under the given fixed-point samples, one per card, each from
/// (0, 1].  The output is pinned exactly by `spec_shuffle`, and is a
/// permutation of the deck.
#[verifier::loop_isolation(false)]
pub fn shuffle_with_samples<T: Copy>(deck: &Vec<T>, samples: Vec<u64>) -> (out: Vec<T>)
    requires
        samples@.len() == deck@.len(),
        forall|i: int| 0 <= i < samples@.len() ==> #[trigger] samples@[i] <= SAMPLE_ONE,
    ensures
        out@ == spec_shuffle(deck@, samples@),
        out@.to_multiset() == deck@.to_multiset(),
        out@.len() == deck@.len(),
{
    broadcast use vstd::seq_lib::group_to_multiset_ensures;

    let n = deck.len();
    let mut tagged: Vec<(u64, usize)> = Vec::new();
    let mut i: usize = 0;
    while i < n
        invariant
            i <= n,
            tagged@ == tag_seq(samples@).take(i as int),
        decreases n - i,
    {
        tagged.push((samples[i], i));
        proof {
            assert(tag_seq(samples@).take(i + 1) =~= tag_seq(samples@).take(i as int).push(
                (samples@[i as int], i),
            ));
        }
        i = i + 1;
    }
    proof {
        assert(tag_seq(samples@).take(n as int) =~= tag_seq(samples@));
    }
    let sorted = sort_tagged(&tagged);
    let ghost sorted_spec = tag_seq(samples@).sort_by(tag_order());
    proof {
        assert forall|k: int| 0 <= k < sorted@.len() implies #[trigger] sorted@[k].0
            <= SAMPLE_ONE by {
            assert(sorted@.contains(sorted@[k]));
            assert(sorted@.to_multiset().count(sorted@[k]) > 0);
            assert(tagged@.contains(sorted@[k]));
            let w = choose|w: int| 0 <= w < tagged@.len() && tagged@[w] == sorted@[k];
            assert(tagged@[w].0 == samples@[w]);
        }
    }
    let mut scaled: Vec<(u64, usize)> = Vec::new();
    let mut k: usize = 0;
    while k < sorted.len()
        invariant
            k <= sorted@.len(),
            scaled@ == scale_seq(sorted@).take(k as int),
        decreases sorted@.len() - k,
    {
        let (value, position) = sorted[k];
        scaled.push(((2 * value) % SAMPLE_ONE, position));
        proof {
            assert(scale_seq(sorted@).take(k + 1) =~= scale_seq(sorted@).take(k as int).push(
                (scale_val(sorted@[k as int].0), sorted@[k as int].1),
            ));
        }
        k = k + 1;
    }
    proof {
        assert(scale_seq(sorted@).take(sorted@.len() as int) =~= scale_seq(sorted@));
    }
    let mut vals: Vec<u64> = Vec::new();
    let mut k: usize = 0;
    while k < scaled.len()
        invariant
            k <= scaled@.len(),
            vals@ == vals_of(scaled@).take(k as int),
        decreases scaled@.len() - k,
    {
        vals.push(scaled[k].0);
        proof {
            assert(vals_of(scaled@).take(k + 1) =~= vals_of(scaled@).take(k as int).push(
                scaled@[k as int].0,
            ));
        }
        k = k + 1;
    }
    proof {
        assert(vals_of(scaled@).take(scaled@.len() as int) =~= vals_of(scaled@));
    }
    let bp = match find_break(&vals) {
        Some(b) => b,
        None => vals.len(),
    };
    proof {
        assert(bp as int == break_of(vals_of(scaled@)));
    }
    let merged = merge_halves(&scaled, bp);
    proof {
        lemma_break_from_bounds(vals_of(scaled@), 0);
        assert(scaled@.take(bp as int) + scaled@.skip(bp as int) =~= scaled@);
        lemma_merge_tagged_multiset(scaled@.take(bp as int), scaled@.skip(bp as int));
        assert forall|k: int| 0 <= k < merged@.len() implies #[trigger] merged@[k].1 < n by {
            assert(merged@.contains(merged@[k]));
            assert(merged@.to_multiset().count(merged@[k]) > 0);
            assert(scaled@.contains(merged@[k]));
            let w = choose|w: int| 0 <= w < scaled@.len() && scaled@[w] == merged@[k];
            assert(scaled@[w].1 == sorted@[w].1);
            assert(sorted@.contains(sorted@[w]));
            assert(sorted@.to_multiset().count(sorted@[w]) > 0);
            assert(tagged@.contains(sorted@[w]));
            let u = choose|u: int| 0 <= u < tagged@.len() && tagged@[u] == sorted@[w];
            assert(tagged@[u].1 == u as usize);
        }
    }
    let mut out: Vec<T> = Vec::new();
    let mut k: usize = 0;
    while k < merged.len()
        invariant
            k <= merged@.len(),
            out@ == merged@.take(k as int).map_values(pick_from(deck@)),
        decreases merged@.len() - k,
    {
        let (_, position) = merged[k];
        out.push(deck[position]);
        proof {
            assert(merged@.take(k + 1).map_values(pick_from(deck@)) =~= merged@.take(
                k as int,
            ).map_values(pick_from(deck@)).push(pick_from(deck@)(merged@[k as int])));
        }
        k = k + 1;
    }
    proof {
        assert(merged@.take(merged@.len() as int) =~= merged@);
        assert(out@ == spec_shuffle(deck@, samples@));
        lemma_shuffle_preserves_multiset(deck@, samples@);
    }
    out
}

/// Relies on rand: `rand::thread_rng` supplies the generator and
/// `rand::Rng::gen_range` draws one value uniformly from the non-empty
/// range `1 ..= SAMPLE_ONE` — one fixed-point sample from (0, 1].
#[verifier::external_body]
fn draw_sample() -> (r: u64)
    ensures
        1 <= r <= SAMPLE_ONE,
{
    rand::thread_rng().gen_range(1..=SAMPLE_ONE)
}

/// Draw `size` independent uniform samples from (0, 1], in fixed-point
/// form.  The values themselves are chance; only their number and range
/// are promised.
fn random_samples(size: usize) -> (r: Vec<u64>)
    ensures
        r@.len() == size,
        forall|i: int| 0 <= i < size ==> 1 <= #[trigger] r@[i] <= SAMPLE_ONE,
{
    let mut samples: Vec<u64> = Vec::new();
    let mut i: usize = 0;
    while i < size
        invariant
            i <= size,
            samples@.len() == i,
            forall|j: int| 0 <= j < i ==> 1 <= #[trigger] samples@[j] <= SAMPLE_ONE,
        decreases size - i,
    {
        samples.push(draw_sample());
        i = i + 1;
    }
    samples
}

/// One riffle shuffle of the deck under the Gilbert–Shannon–Reeds model:
/// draw one uniform sample per card and apply the riffle transform.  The
/// samples are chance, so the output is pinned only as every draw leaves
/// it: a permutation of the deck (`shuffle_with_samples` is the
/// deterministic transform, pinned exactly).  Elements are copied; the
/// input is untouched, and the output composes as the input of a further
/// shuffle.
pub fn riffle_shuffle<T: Copy>(deck: &Vec<T>) -> (out: Vec<T>)
    ensures
        out@.to_multiset() == deck@.to_multiset(),
        out@.len() == deck@.len(),
        deck@.len() <= 1 ==> out@ == deck@,
        exists|samples: Seq<u64>|
            {
                &&& samples.len() == deck@.len()
                &&& (forall|i: int| 0 <= i < samples.len() ==> 1 <= #[trigger] samples[i] <= SAMPLE_ONE)
                &&& out@ == spec_shuffle(deck@, samples)
            },
{
    let samples = random_samples(deck.len());
    let ghost samples_view = samples@;
    let out = shuffle_with_samples(deck, samples);
    proof {
        if deck@.len() <= 1 {
            lemma_shuffle_identity_on_trivial(deck@, samples_view);
        }
        assert({
            &&& samples_view.len() == deck@.len()
            &&& (forall|i: int|
                0 <= i < samples_view.len() ==> 1 <= #[trigger] samples_view[i] <= SAMPLE_ONE)
            &&& out@ == spec_shuffle(deck@, samples_view)
        });
    }
    out
}

/// A standard 52-card deck, as card numbers.
pub struct Deck(pub Vec<u8>);

impl Deck {
    /// A fresh deck: the cards 1 through 52 in order.
    pub fn new() -> (d: Deck)
        ensures
            d.0@.len() == 52,
            forall|i: int| 0 <= i < 52 ==> #[trigger] d.0@[i] == i + 1,
    {
        let mut cards: Vec<u8> = Vec::new();
        let mut c: u8 = 1;
        while c < 53
            invariant
                1 <= c <= 53,
                cards@.len() == c - 1,
                forall|i: int| 0 <= i < c - 1 ==> #[trigger] cards@[i] == i + 1,
            decreases 53 - c,
        {
            cards.push(c);
            c = c + 1;
        }
        Deck(cards)
    }

    /// Shuffle the deck in place with one riffle pass: afterwards it holds
    /// the same cards, in the order the riffle transform gives them under
    /// some draw of samples.
    pub fn riffle_shuffle(&mut self)
        ensures
            final(self).0@.to_multiset() == old(self).0@.to_multiset(),
            final(self).0@.len() == old(self).0@.len(),
            exists|samples: Seq<u64>|
                {
                    &&& samples.len() == old(self).0@.len()
                    &&& (forall|i: int|
                        0 <= i < samples.len() ==> 1 <= #[trigger] samples[i] <= SAMPLE_ONE)
                    &&& final(self).0@ == spec_shuffle(old(self).0@, samples)
                },
    {
        let ghost deck0 = self.0@;
        let v = riffle_shuffle(&self.0);
        self.0 = v;
        proof {
            let s = choose|s: Seq<u64>|
                {
                    &&& s.len() == deck0.len()
                    &&& (forall|i: int| 0 <= i < s.len() ==> 1 <= #[trigger] s[i] <= SAMPLE_ONE)
                    &&& v@ == spec_shuffle(deck0, s)
                };
            assert({
                &&& s.len() == old(self).0@.len()
                &&& (forall|i: int| 0 <= i < s.len() ==> 1 <= #[trigger] s[i] <= SAMPLE_ONE)
                &&& final(self).0@ == spec_shuffle(old(self).0@, s)
            });
        }
    }
}

} // verus!
