//! Colour distance, coarse colour buckets, and the choice of the most
//! frequent buckets among a set of samples.

use vstd::prelude::*;
use crate::num::abs_diff;

verus! {

/// Number of coarse buckets: sixteen levels for each of the three channels.
pub const BUCKETS: usize = 4096;

/// Sum of the absolute channel differences of two colours.
pub open spec fn color_distance(c1: [u8; 3], c2: [u8; 3]) -> int {
    abs_diff(c1[0] as int, c2[0] as int) + abs_diff(c1[1] as int, c2[1] as int) + abs_diff(
        c1[2] as int,
        c2[2] as int,
    )
}

fn channel_gap(a: u8, b: u8) -> (d: i32)
    ensures
        d == abs_diff(a as int, b as int),
{
    if a >= b {
        (a - b) as i32
    } else {
        (b - a) as i32
    }
}

/// Distance between two colours as the sum of absolute channel differences.
pub fn rgb_color_distance(c1: &[u8; 3], c2: &[u8; 3]) -> (d: i32)
    ensures
        d == color_distance(*c1, *c2),
        0 <= d <= 765,
{
    channel_gap(c1[0], c2[0]) + channel_gap(c1[1], c2[1]) + channel_gap(c1[2], c2[2])
}

/// The bucket that a colour falls into: each channel divided by 16, the
/// three quotients read as base-16 digits.
pub open spec fn bucket_index(c: [u8; 3]) -> int {
    (c[0] / 16) * 256 + (c[1] / 16) * 16 + (c[2] / 16)
}

/// The colour that stands for a bucket: each channel rounded down to a
/// multiple of 16.
pub open spec fn bucket_color(b: int) -> [u8; 3] {
    [((b / 256) * 16) as u8, (((b / 16) % 16) * 16) as u8, ((b % 16) * 16) as u8]
}

/// How many of the samples fall into bucket `b`.
pub open spec fn occurrences(samples: Seq<[u8; 3]>, b: int) -> int
    decreases samples.len(),
{
    if samples.len() == 0 {
        0
    } else {
        occurrences(samples.drop_last(), b) + if bucket_index(samples.last()) == b {
            1int
        } else {
            0int
        }
    }
}

/// The number of samples in each bucket.
pub open spec fn bucket_counts(samples: Seq<[u8; 3]>) -> Seq<int> {
    Seq::new(BUCKETS as nat, |b: int| occurrences(samples, b))
}

/// `b` holds the largest count, and every earlier index holds a smaller one.
pub open spec fn is_most_frequent(counts: Seq<int>, b: int) -> bool {
    &&& 0 <= b < counts.len()
    &&& forall|i: int| 0 <= i < counts.len() ==> counts[i] <= counts[b]
    &&& forall|i: int| 0 <= i < b ==> counts[i] < counts[b]
}

/// The first index that holds the largest count.
pub open spec fn most_frequent(counts: Seq<int>) -> int {
    choose|b: int| is_most_frequent(counts, b)
}

/// Up to `limit` indices with a positive count, the most frequent first and
/// the smaller index first among equals.
pub open spec fn ranked(counts: Seq<int>, limit: nat) -> Seq<int>
    decreases limit,
{
    if limit == 0 || counts.len() == 0 || counts[most_frequent(counts)] <= 0 {
        Seq::empty()
    } else {
        seq![most_frequent(counts)] + ranked(counts.update(most_frequent(counts), 0), (limit - 1) as nat)
    }
}

/// The colours of the up to `limit` most frequent buckets of the samples.
pub open spec fn background_colors(samples: Seq<[u8; 3]>, limit: nat) -> Seq<[u8; 3]> {
    ranked(bucket_counts(samples), limit).map_values(|b: int| bucket_color(b))
}

/// Only one index can be the most frequent.
pub proof fn lemma_most_frequent_unique(counts: Seq<int>, b: int)
    requires
        is_most_frequent(counts, b),
    ensures
        most_frequent(counts) == b,
{
    let m = most_frequent(counts);
    assert(is_most_frequent(counts, m));
    if m < b {
        assert(counts[m] < counts[b]);
    } else if b < m {
        assert(counts[b] < counts[m]);
    }
}

/// The ranked indices are distinct positions with a positive count, at most
/// `limit` of them.
pub proof fn lemma_ranked(counts: Seq<int>, limit: nat)
    ensures
        ranked(counts, limit).len() <= limit,
        forall|j: int|
            0 <= j < ranked(counts, limit).len() ==> 0 <= #[trigger] ranked(counts, limit)[j] < counts.len()
                && counts[ranked(counts, limit)[j]] > 0,
        forall|i: int, j: int|
            0 <= i < j < ranked(counts, limit).len() ==> ranked(counts, limit)[i] != ranked(counts, limit)[j],
        forall|i: int, j: int|
            0 <= i < j < ranked(counts, limit).len() ==> counts[ranked(counts, limit)[i]]
                >= counts[ranked(counts, limit)[j]],
    decreases limit,
{
    if limit == 0 || counts.len() == 0 || counts[most_frequent(counts)] <= 0 {
    } else {
        let m = most_frequent(counts);
        if exists|b: int| is_most_frequent(counts, b) {
            assert(is_most_frequent(counts, m));
        } else {
            lemma_most_frequent_exists(counts);
        }
        let rest_counts = counts.update(m, 0);
        let rest = ranked(rest_counts, (limit - 1) as nat);
        lemma_ranked(rest_counts, (limit - 1) as nat);
        let all = ranked(counts, limit);
        assert(all =~= seq![m] + rest);
        assert forall|j: int| 0 <= j < all.len() implies 0 <= #[trigger] all[j] < counts.len() && counts[all[j]]
            > 0 by {
            if j > 0 {
                assert(all[j] == rest[j - 1]);
                assert(rest_counts[rest[j - 1]] > 0);
            }
        }
        assert forall|i: int, j: int| 0 <= i < j < all.len() implies all[i] != all[j] && counts[all[i]]
            >= counts[all[j]] by {
            assert(all[j] == rest[j - 1]);
            assert(rest_counts[rest[j - 1]] > 0);
            if i > 0 {
                assert(all[i] == rest[i - 1]);
                assert(rest_counts[rest[i - 1]] > 0);
                assert(rest[i - 1] != rest[j - 1]);
            }
        }
    }
}

/// A sequence that is not empty has a most frequent index.
pub proof fn lemma_most_frequent_exists(counts: Seq<int>)
    requires
        counts.len() > 0,
    ensures
        is_most_frequent(counts, most_frequent(counts)),
    decreases counts.len(),
{
    if counts.len() == 1 {
        assert(is_most_frequent(counts, 0));
    } else {
        let p = counts.drop_last();
        lemma_most_frequent_exists(p);
        let m = most_frequent(p);
        let last = counts.len() - 1;
        if counts[last] > p[m] {
            assert forall|i: int| 0 <= i < counts.len() implies counts[i] <= counts[last] by {
                if i < last {
                    assert(p[i] <= p[m]);
                }
            }
            assert forall|i: int| 0 <= i < last implies counts[i] < counts[last] by {
                assert(p[i] <= p[m]);
            }
            assert(is_most_frequent(counts, last));
        } else {
            assert forall|i: int| 0 <= i < counts.len() implies counts[i] <= counts[m] by {
                if i < last {
                    assert(p[i] <= p[m]);
                }
            }
            assert forall|i: int| 0 <= i < m implies counts[i] < counts[m] by {
                assert(p[i] < p[m]);
            }
            assert(is_most_frequent(counts, m));
        }
    }
}

/// A further sample adds one to the count of its bucket and nothing to the
/// others; no count exceeds the number of samples.
pub proof fn lemma_occurrences_push(samples: Seq<[u8; 3]>, c: [u8; 3], b: int)
    ensures
        occurrences(samples.push(c), b) == occurrences(samples, b) + if bucket_index(c) == b {
            1int
        } else {
            0int
        },
        0 <= occurrences(samples, b) <= samples.len(),
    decreases samples.len(),
{
    assert(samples.push(c).drop_last() =~= samples);
    if samples.len() > 0 {
        lemma_occurrences_push(samples.drop_last(), samples.last(), b);
        assert(samples.drop_last().push(samples.last()) =~= samples);
    }
}

/// There are at most `limit` background colours; there is none exactly when
/// there is no sample or `limit` is zero.
pub proof fn lemma_background_colors_len(samples: Seq<[u8; 3]>, limit: nat)
    ensures
        background_colors(samples, limit).len() <= limit,
        samples.len() == 0 ==> background_colors(samples, limit).len() == 0,
        samples.len() > 0 && limit > 0 ==> background_colors(samples, limit).len() > 0,
{
    let counts = bucket_counts(samples);
    lemma_ranked(counts, limit);
    lemma_most_frequent_exists(counts);
    let m = most_frequent(counts);
    if samples.len() == 0 {
        assert(counts[m] == 0);
    } else if limit > 0 {
        let c = samples.last();
        let b = bucket_index(c);
        assert(0 <= b < BUCKETS);
        lemma_occurrences_push(samples.drop_last(), c, b);
        lemma_occurrences_push(samples.drop_last(), c, b);
        assert(samples.drop_last().push(c) =~= samples);
        assert(counts[b] >= 1);
        assert(counts[b] <= counts[m]);
        assert(ranked(counts, limit) == seq![m] + ranked(counts.update(m, 0), (limit - 1) as nat));
    }
}

/// The plain integers held by a vector of counters.
pub open spec fn ints(v: Seq<usize>) -> Seq<int> {
    v.map_values(|x: usize| x as int)
}

fn bucket_id(c: &[u8; 3]) -> (b: usize)
    ensures
        b == bucket_index(*c),
        b < BUCKETS,
{
    let r: usize = (c[0] / 16) as usize;
    let g: usize = (c[1] / 16) as usize;
    let b: usize = (c[2] / 16) as usize;
    r * 256 + g * 16 + b
}

fn bucket_rgb(b: usize) -> (c: [u8; 3])
    requires
        b < BUCKETS,
    ensures
        c == bucket_color(b as int),
{
    let c: [u8; 3] = [((b / 256) * 16) as u8, (((b / 16) % 16) * 16) as u8, ((b % 16) * 16) as u8];
    assert(c@ =~= bucket_color(b as int)@);
    c
}

fn most_frequent_index(counts: &Vec<usize>) -> (best: usize)
    requires
        counts@.len() > 0,
    ensures
        is_most_frequent(ints(counts@), best as int),
{
    let mut best: usize = 0;
    let mut i: usize = 1;
    while i < counts.len()
        invariant
            1 <= i <= counts@.len(),
            0 <= best < i,
            forall|j: int| 0 <= j < i ==> counts@[j] <= counts@[best as int],
            forall|j: int| 0 <= j < best ==> counts@[j] < counts@[best as int],
        decreases counts@.len() - i,
    {
        if counts[i] > counts[best] {
            best = i;
        }
        i = i + 1;
    }
    best
}

/// The representative colours of the up to `max_colors` buckets that hold
/// the most samples, the most frequent first. Buckets that hold equally many
/// samples come in the order of their index, that is by red, then green, then
/// blue.
pub fn find_background_colors(edge_colors: &[[u8; 3]], max_colors: usize) -> (colors: Vec<[u8; 3]>)
    ensures
        colors@ == background_colors(edge_colors@, max_colors as nat),
        colors@.len() <= max_colors,
        edge_colors@.len() == 0 ==> colors@.len() == 0,
        edge_colors@.len() > 0 && max_colors > 0 ==> colors@.len() > 0,
{
    let mut counts: Vec<usize> = Vec::new();
    let mut b: usize = 0;
    while b < BUCKETS
        invariant
            b <= BUCKETS,
            counts@.len() == b,
            forall|j: int| 0 <= j < b ==> counts@[j] == 0,
        decreases BUCKETS - b,
    {
        counts.push(0);
        b = b + 1;
    }
    let mut i: usize = 0;
    while i < edge_colors.len()
        invariant
            i <= edge_colors@.len(),
            counts@.len() == BUCKETS,
            forall|j: int| 0 <= j < BUCKETS ==> counts@[j] == occurrences(edge_colors@.take(i as int), j),
        decreases edge_colors@.len() - i,
    {
        let id: usize = bucket_id(&edge_colors[i]);
        proof {
            let before = edge_colors@.take(i as int);
            assert(edge_colors@.take(i as int + 1) =~= before.push(edge_colors@[i as int]));
            assert forall|j: int| 0 <= j < BUCKETS implies occurrences(edge_colors@.take(i as int + 1), j)
                == occurrences(before, j) + if j == id {
                1int
            } else {
                0int
            } && occurrences(before, j) <= i by {
                lemma_occurrences_push(before, edge_colors@[i as int], j);
            }
        }
        counts[id] = counts[id] + 1;
        i = i + 1;
    }
    proof {
        assert(edge_colors@.take(i as int) =~= edge_colors@);
        assert(ints(counts@) =~= bucket_counts(edge_colors@));
    }
    let ghost start = ints(counts@);
    let ghost mut picked: Seq<int> = Seq::empty();
    let mut colors: Vec<[u8; 3]> = Vec::new();
    let mut done: bool = false;
    while !done && colors.len() < max_colors
        invariant
            counts@.len() == BUCKETS,
            colors@.len() == picked.len(),
            colors@.len() <= max_colors,
            colors@ == picked.map_values(|b: int| bucket_color(b)),
            !done ==> ranked(start, max_colors as nat) == picked + ranked(
                ints(counts@),
                (max_colors - picked.len()) as nat,
            ),
            done ==> ranked(start, max_colors as nat) == picked,
        decreases (if done { 0int } else { 1int }), max_colors - colors@.len(),
    {
        let best: usize = most_frequent_index(&counts);
        proof {
            lemma_most_frequent_unique(ints(counts@), best as int);
        }
        if counts[best] == 0 {
            done = true;
        } else {
            let color: [u8; 3] = bucket_rgb(best);
            proof {
                let rest = ranked(ints(counts@).update(best as int, 0), (max_colors - picked.len() - 1) as nat);
                assert(ranked(ints(counts@), (max_colors - picked.len()) as nat) == seq![best as int] + rest);
                assert(picked + (seq![best as int] + rest) =~= picked.push(best as int) + rest);
                assert(picked.push(best as int).map_values(|b: int| bucket_color(b)) =~= picked.map_values(
                    |b: int| bucket_color(b),
                ).push(color));
                picked = picked.push(best as int);
            }
            let ghost before = counts@;
            colors.push(color);
            counts[best] = 0;
            proof {
                assert(ints(counts@) =~= ints(before).update(best as int, 0));
            }
        }
    }
    proof {
        if !done {
            assert(ranked(ints(counts@), 0) =~= Seq::<int>::empty());
        }
        assert(picked + Seq::<int>::empty() =~= picked);
        lemma_background_colors_len(edge_colors@, max_colors as nat);
    }
    colors
}

} // verus!
