use vstd::prelude::*;
use vstd::multiset::Multiset;
use crate::filter::{selected, Filter};
use crate::grouping::{kinds_of, reported_groups};
use crate::model::{LanguageGroup, LanguageKind};
use crate::path::path_key;
use crate::order::{
    lemma_map_multiset, lemma_ordered_ranks_unique, lemma_rank_lt_total, lemma_strict_ranks_unique,
    rank_lt, ranked_in_order, utf8, Rank, Ranked,
};
use crate::report::{file_breakdown, hundredths, language_split, total_files, Style};
use crate::strategy::{
    detections, entry_lines, entry_pairs, has_bucket, pairs_with, strategy_breakdown,
    strategy_summary, Detected, Entry, StrategyBucket,
};

verus! {

/// The sum of the printed shares of a sequence of groups, in hundredths of a percent.
pub open spec fn sum_hundredths(groups: Seq<LanguageGroup>, total: nat) -> nat
    decreases groups.len(),
{
    if groups.len() == 0 {
        0
    } else {
        sum_hundredths(groups.drop_last(), total) + hundredths(groups.last().count(), total)
    }
}

proof fn lemma_hundredths_bounds(count: nat, total: nat)
    requires
        total > 0,
    ensures
        20000 * count <= 2 * total * hundredths(count, total) + total,
        2 * total * hundredths(count, total) <= 20000 * count + total,
{
    let x = 10000 * count;
    vstd::arithmetic::div_mod::lemma_fundamental_div_mod(x as int, total as int);
    let q = x / total;
    let r = x % total;
    assert(x == total * q + r);
    let h = hundredths(count, total);
    assert(h == q || h == q + 1);
    if h == q {
        assert(2 * r <= total);
        assert(2 * total * h == 2 * (total * q)) by (nonlinear_arith)
            requires
                h == q,
        ;
    } else {
        assert(2 * r >= total);
        assert(2 * total * h == 2 * (total * q) + 2 * total) by (nonlinear_arith)
            requires
                h == q + 1,
        ;
    }
}

proof fn lemma_sum_bounds(groups: Seq<LanguageGroup>, total: nat)
    requires
        total > 0,
    ensures
        20000 * total_files(groups) <= 2 * total * sum_hundredths(groups, total) + groups.len()
            * total,
        2 * total * sum_hundredths(groups, total) <= 20000 * total_files(groups) + groups.len()
            * total,
    decreases groups.len(),
{
    if groups.len() > 0 {
        let rest = groups.drop_last();
        lemma_sum_bounds(rest, total);
        lemma_hundredths_bounds(groups.last().count(), total);
        let s = sum_hundredths(rest, total);
        let h = hundredths(groups.last().count(), total);
        let c = groups.last().count();
        let f = total_files(rest);
        let n = rest.len();
        assert(total_files(groups) == f + c);
        assert(sum_hundredths(groups, total) == s + h);
        assert(groups.len() == n + 1);
        assert(2 * total * (s + h) <= 20000 * (f + c) + (n + 1) * total) by (nonlinear_arith)
            requires
                2 * total * s <= 20000 * f + n * total,
                2 * total * h <= 20000 * c + total,
        ;
        assert(20000 * (f + c) <= 2 * total * (s + h) + (n + 1) * total) by (nonlinear_arith)
            requires
                20000 * f <= 2 * total * s + n * total,
                20000 * c <= 2 * total * h + total,
        ;
        assert(2 * total * sum_hundredths(groups, total) == 2 * total * (s + h));
        assert(groups.len() * total == (n + 1) * total);
        assert(20000 * total_files(groups) == 20000 * (f + c));
    } else {
        assert(groups.len() * total == 0) by (nonlinear_arith)
            requires
                groups.len() == 0,
        ;
        assert(2 * total * sum_hundredths(groups, total) == 0) by (nonlinear_arith)
            requires
                sum_hundredths(groups, total) == 0,
        ;
    }
}

/// The printed percentages of a non-empty grouping add up to 100.00 within
/// half a hundredth of a percent per language: their sum in hundredths is
/// 10000 give or take `n / 2`, for `n` languages.
pub proof fn lemma_percentages_sum(groups: Seq<LanguageGroup>)
    requires
        total_files(groups) > 0,
    ensures
        2 * sum_hundredths(groups, total_files(groups)) <= 20000 + groups.len(),
        20000 <= 2 * sum_hundredths(groups, total_files(groups)) + groups.len(),
{
    let t = total_files(groups);
    let s = sum_hundredths(groups, t);
    let n = groups.len();
    lemma_sum_bounds(groups, t);
    assert(2 * s <= 20000 + n) by (nonlinear_arith)
        requires
            2 * t * s <= 20000 * t + n * t,
            t > 0,
    ;
    assert(20000 <= 2 * s + n) by (nonlinear_arith)
        requires
            20000 * t <= 2 * t * s + n * t,
            t > 0,
    ;
}

/// A filter that matches no language name leaves the file breakdown empty.
pub proof fn lemma_file_breakdown_filtered_out(
    groups: Seq<LanguageGroup>,
    condensed: bool,
    filter: Option<Filter>,
)
    requires
        forall|i: int| 0 <= i < groups.len() ==> !selected(filter, #[trigger] groups[i].language@),
    ensures
        file_breakdown(groups, condensed, filter) == Seq::<(Style, Seq<char>)>::empty(),
    decreases groups.len(),
{
    if groups.len() > 0 {
        assert(!selected(filter, groups[groups.len() - 1].language@));
        lemma_file_breakdown_filtered_out(groups.drop_last(), condensed, filter);
        assert(file_breakdown(groups, condensed, filter) =~= Seq::<(Style, Seq<char>)>::empty());
    }
}

/// A filter that matches no strategy name leaves the strategy breakdown empty.
pub proof fn lemma_strategy_breakdown_filtered_out(
    buckets: Seq<StrategyBucket>,
    condensed: bool,
    filter: Option<Filter>,
)
    requires
        forall|i: int| 0 <= i < buckets.len() ==> !selected(filter, #[trigger] buckets[i].strategy@),
    ensures
        strategy_breakdown(buckets, condensed, filter) == Seq::<(Style, Seq<char>)>::empty(),
    decreases buckets.len(),
{
    if buckets.len() > 0 {
        assert(!selected(filter, buckets[buckets.len() - 1].strategy@));
        lemma_strategy_breakdown_filtered_out(buckets.drop_last(), condensed, filter);
        assert(strategy_breakdown(buckets, condensed, filter) =~= Seq::<(Style, Seq<char>)>::empty());
    }
}

proof fn lemma_pairs_with_contains(ds: Seq<Detected>, s: Seq<char>, x: (Seq<char>, Seq<char>))
    ensures
        pairs_with(ds, s).contains(x) <==> exists|k: int|
            0 <= k < ds.len() && (#[trigger] ds[k]).0 == s && (ds[k].1, ds[k].2) == x,
    decreases ds.len(),
{
    if ds.len() > 0 {
        let rest = ds.drop_last();
        lemma_pairs_with_contains(rest, s, x);
        let n = ds.len() - 1;
        if pairs_with(ds, s).contains(x) {
            let m = choose|m: int| 0 <= m < pairs_with(ds, s).len() && pairs_with(ds, s)[m] == x;
            if m < pairs_with(rest, s).len() {
                assert(pairs_with(rest, s)[m] == x);
                let k = choose|k: int|
                    0 <= k < rest.len() && (#[trigger] rest[k]).0 == s && (rest[k].1, rest[k].2) == x;
                assert(ds[k] == rest[k]);
            } else {
                assert(ds[n] == ds.last());
            }
        }
        if exists|k: int| 0 <= k < ds.len() && (#[trigger] ds[k]).0 == s && (ds[k].1, ds[k].2) == x {
            let k = choose|k: int|
                0 <= k < ds.len() && (#[trigger] ds[k]).0 == s && (ds[k].1, ds[k].2) == x;
            if k < n {
                assert(rest[k] == ds[k]);
                let m = choose|m: int| 0 <= m < pairs_with(rest, s).len() && pairs_with(rest, s)[m] == x;
                assert(pairs_with(ds, s)[m] == x);
            } else {
                assert(pairs_with(ds, s).last() == x);
                assert(pairs_with(ds, s)[pairs_with(ds, s).len() - 1] == x);
            }
        }
    }
}

proof fn lemma_bucket_contains(groups: Seq<LanguageGroup>, bs: Seq<StrategyBucket>, i: int, x: (Seq<char>, Seq<char>))
    requires
        strategy_summary(groups, bs),
        0 <= i < bs.len(),
    ensures
        entry_pairs(bs[i].entries@).contains(x) <==> pairs_with(detections(groups), bs[i].strategy@).contains(x),
{
    let a = entry_pairs(bs[i].entries@);
    let b = pairs_with(detections(groups), bs[i].strategy@);
    assert(a.to_multiset() == b.to_multiset());
    a.to_multiset_ensures();
    b.to_multiset_ensures();
    assert(a.contains(x) == (a.to_multiset().count(x) > 0));
    assert(b.contains(x) == (b.to_multiset().count(x) > 0));
}

/// Each file path occurs in one detection only.
pub open spec fn paths_unique(ds: Seq<Detected>) -> bool {
    forall|a: int, b: int| 0 <= a < ds.len() && 0 <= b < ds.len() && (#[trigger] ds[a]).2 == (#[trigger] ds[b]).2 ==> a == b
}

/// Strategy buckets partition the detections: a (language, path) pair is
/// detected exactly when some bucket holds it, and where every path is
/// detected once no path lies in two buckets.
pub proof fn lemma_buckets_partition(
    groups: Seq<LanguageGroup>,
    bs: Seq<StrategyBucket>,
    x: (Seq<char>, Seq<char>),
)
    requires
        strategy_summary(groups, bs),
    ensures
        (exists|k: int|
            0 <= k < detections(groups).len() && ((#[trigger] detections(groups)[k]).1,
            detections(groups)[k].2) == x) <==> (exists|i: int|
            0 <= i < bs.len() && entry_pairs(#[trigger] bs[i].entries@).contains(x)),
        paths_unique(detections(groups)) ==> forall|i: int, j: int, y: (Seq<char>, Seq<char>), z: (Seq<char>, Seq<char>)|
            0 <= i < bs.len() && 0 <= j < bs.len() && #[trigger] entry_pairs(bs[i].entries@).contains(y)
                && #[trigger] entry_pairs(bs[j].entries@).contains(z) && y.1 == z.1 ==> i == j,
{
    let ds = detections(groups);
    if exists|k: int| 0 <= k < ds.len() && ((#[trigger] ds[k]).1, ds[k].2) == x {
        let k = choose|k: int| 0 <= k < ds.len() && ((#[trigger] ds[k]).1, ds[k].2) == x;
        assert(has_bucket(bs, ds[k].0));
        let i = choose|i: int| 0 <= i < bs.len() && #[trigger] bs[i].strategy@ == ds[k].0;
        lemma_pairs_with_contains(ds, bs[i].strategy@, x);
        lemma_bucket_contains(groups, bs, i, x);
        assert(entry_pairs(bs[i].entries@).contains(x));
    }
    if exists|i: int| 0 <= i < bs.len() && entry_pairs(#[trigger] bs[i].entries@).contains(x) {
        let i = choose|i: int| 0 <= i < bs.len() && entry_pairs(#[trigger] bs[i].entries@).contains(x);
        lemma_bucket_contains(groups, bs, i, x);
        lemma_pairs_with_contains(ds, bs[i].strategy@, x);
        let k = choose|k: int| 0 <= k < ds.len() && (#[trigger] ds[k]).0 == bs[i].strategy@ && (ds[k].1, ds[k].2) == x;
        assert(((ds[k]).1, ds[k].2) == x);
    }
    if paths_unique(ds) {
        assert forall|i: int, j: int, y: (Seq<char>, Seq<char>), z: (Seq<char>, Seq<char>)|
            0 <= i < bs.len() && 0 <= j < bs.len() && #[trigger] entry_pairs(bs[i].entries@).contains(y)
                && #[trigger] entry_pairs(bs[j].entries@).contains(z) && y.1 == z.1 implies i == j by {
            lemma_bucket_contains(groups, bs, i, y);
            lemma_bucket_contains(groups, bs, j, z);
            lemma_pairs_with_contains(ds, bs[i].strategy@, y);
            lemma_pairs_with_contains(ds, bs[j].strategy@, z);
            let a = choose|a: int| 0 <= a < ds.len() && (#[trigger] ds[a]).0 == bs[i].strategy@ && (ds[a].1, ds[a].2) == y;
            let b = choose|b: int| 0 <= b < ds.len() && (#[trigger] ds[b]).0 == bs[j].strategy@ && (ds[b].1, ds[b].2) == z;
            assert(ds[a].2 == ds[b].2);
            assert(a == b);
        }
    }
}

/// No two groups of a breakdown share a language name.
pub open spec fn names_distinct(groups: Seq<LanguageGroup>) -> bool {
    forall|a: int, b: int|
        0 <= a < groups.len() && 0 <= b < groups.len() && (#[trigger] groups[a]).language@ == (
        #[trigger] groups[b]).language@ ==> a == b
}

proof fn lemma_reported_from(
    groups: Seq<LanguageGroup>,
    kinds: Seq<Option<LanguageKind>>,
    g: LanguageGroup,
)
    requires
        reported_groups(groups, kinds).contains(g),
    ensures
        groups.contains(g),
    decreases groups.len(),
{
    if groups.len() > 0 {
        let rest = reported_groups(groups.drop_first(), kinds.drop_first());
        let m = choose|m: int|
            0 <= m < reported_groups(groups, kinds).len() && reported_groups(groups, kinds)[m] == g;
        if g != groups[0] {
            if crate::grouping::reported(kinds[0]) {
                assert(rest[m - 1] == g);
            } else {
                assert(rest[m] == g);
            }
            lemma_reported_from(groups.drop_first(), kinds.drop_first(), g);
            let k = choose|k: int| 0 <= k < groups.drop_first().len() && groups.drop_first()[k] == g;
            assert(groups[k + 1] == g);
        } else {
            assert(groups[0] == g);
        }
    }
}

pub open spec fn group_ranks(groups: Seq<LanguageGroup>) -> Seq<Rank> {
    groups.map_values(|g: LanguageGroup| g.rank())
}

proof fn lemma_utf8_injective(a: Seq<char>, b: Seq<char>)
    requires
        utf8(a) == utf8(b),
    ensures
        a == b,
{
    vstd::utf8::encode_utf8_decode_utf8(a);
    vstd::utf8::encode_utf8_decode_utf8(b);
}

proof fn lemma_entry_lines_by_pairs(e1: Seq<Entry>, e2: Seq<Entry>)
    requires
        entry_pairs(e1) == entry_pairs(e2),
    ensures
        entry_lines(e1) == entry_lines(e2),
    decreases e1.len(),
{
    assert(e1.len() == entry_pairs(e1).len());
    assert(e2.len() == entry_pairs(e2).len());
    if e1.len() > 0 {
        let n = e1.len() - 1;
        assert(entry_pairs(e1)[n] == entry_pairs(e2)[n]);
        assert(entry_pairs(e1.drop_last()) =~= entry_pairs(e2.drop_last())) by {
            assert forall|i: int| 0 <= i < n implies entry_pairs(e1.drop_last())[i] == entry_pairs(
                e2.drop_last(),
            )[i] by {
                assert(entry_pairs(e1)[i] == entry_pairs(e2)[i]);
            }
        }
        lemma_entry_lines_by_pairs(e1.drop_last(), e2.drop_last());
    }
}

proof fn lemma_entries_determined(e1: Seq<Entry>, e2: Seq<Entry>)
    requires
        entry_pairs(e1).to_multiset() == entry_pairs(e2).to_multiset(),
        ranked_in_order(e1),
        ranked_in_order(e2),
    ensures
        entry_pairs(e1) == entry_pairs(e2),
{
    let g = |p: (Seq<char>, Seq<char>)|
        Rank { count: 0, first: utf8(p.0), second: path_key(p.1), third: utf8(p.1) };
    let pairs_a = entry_pairs(e1);
    let pairs_b = entry_pairs(e2);
    lemma_map_multiset(pairs_a, pairs_b, g);
    let a = pairs_a.map_values(g);
    let b = pairs_b.map_values(g);
    assert forall|i: int, j: int| 0 <= i < j < a.len() implies !rank_lt(#[trigger] a[j], #[trigger] a[i]) by {
        assert(a[i] == e1[i].rank());
        assert(a[j] == e1[j].rank());
    }
    assert forall|i: int, j: int| 0 <= i < j < b.len() implies !rank_lt(#[trigger] b[j], #[trigger] b[i]) by {
        assert(b[i] == e2[i].rank());
        assert(b[j] == e2[j].rank());
    }
    lemma_ordered_ranks_unique(a, b);
    assert forall|i: int| 0 <= i < pairs_a.len() implies pairs_a[i] == pairs_b[i] by {
        assert(a[i] == b[i]);
        lemma_utf8_injective(pairs_a[i].0, pairs_b[i].0);
        lemma_utf8_injective(pairs_a[i].1, pairs_b[i].1);
    }
    assert(pairs_a =~= pairs_b);
}

proof fn lemma_breakdown_by_views(
    bs1: Seq<StrategyBucket>,
    bs2: Seq<StrategyBucket>,
    condensed: bool,
    filter: Option<Filter>,
)
    requires
        bs1.len() == bs2.len(),
        forall|i: int|
            0 <= i < bs1.len() ==> (#[trigger] bs1[i]).strategy@ == bs2[i].strategy@ && entry_pairs(
                bs1[i].entries@,
            ) == entry_pairs(bs2[i].entries@),
    ensures
        strategy_breakdown(bs1, condensed, filter) == strategy_breakdown(bs2, condensed, filter),
    decreases bs1.len(),
{
    if bs1.len() > 0 {
        let n = bs1.len() - 1;
        assert(bs1[n].strategy@ == bs2[n].strategy@);
        lemma_entry_lines_by_pairs(bs1[n].entries@, bs2[n].entries@);
        assert(bs1[n].entries@.len() == entry_pairs(bs1[n].entries@).len());
        assert(bs2[n].entries@.len() == entry_pairs(bs2[n].entries@).len());
        assert forall|i: int| 0 <= i < n implies (#[trigger] bs1.drop_last()[i]).strategy@
            == bs2.drop_last()[i].strategy@ && entry_pairs(bs1.drop_last()[i].entries@)
            == entry_pairs(bs2.drop_last()[i].entries@) by {
            assert(bs1.drop_last()[i] == bs1[i]);
            assert(bs2.drop_last()[i] == bs2[i]);
        }
        lemma_breakdown_by_views(bs1.drop_last(), bs2.drop_last(), condensed, filter);
    }
}

proof fn lemma_pairs_with_counts(ds: Seq<Detected>, s: Seq<char>, x: (Seq<char>, Seq<char>))
    ensures
        pairs_with(ds, s).to_multiset().count(x) == ds.to_multiset().count((s, x.0, x.1)),
    decreases ds.len(),
{
    broadcast use vstd::seq_lib::group_to_multiset_ensures;
    broadcast use vstd::multiset::group_multiset_axioms;

    if ds.len() == 0 {
        assert(ds.to_multiset() =~= Multiset::empty());
        assert(pairs_with(ds, s).to_multiset() =~= Multiset::empty());
    } else {
        let p = ds.drop_last();
        let t = ds.last();
        lemma_pairs_with_counts(p, s, x);
        assert(p.push(t) =~= ds);
        p.to_multiset_ensures();
        pairs_with(p, s).to_multiset_ensures();
    }
}

proof fn lemma_pairs_with_permuted(ds1: Seq<Detected>, ds2: Seq<Detected>, s: Seq<char>)
    requires
        ds1.to_multiset() == ds2.to_multiset(),
    ensures
        pairs_with(ds1, s).to_multiset() == pairs_with(ds2, s).to_multiset(),
{
    assert forall|x: (Seq<char>, Seq<char>)| pairs_with(ds1, s).to_multiset().count(x)
        == pairs_with(ds2, s).to_multiset().count(x) by {
        lemma_pairs_with_counts(ds1, s, x);
        lemma_pairs_with_counts(ds2, s, x);
    }
    assert(pairs_with(ds1, s).to_multiset() =~= pairs_with(ds2, s).to_multiset());
}

proof fn lemma_bucket_rank_in(
    groups: Seq<LanguageGroup>,
    groups2: Seq<LanguageGroup>,
    bs1: Seq<StrategyBucket>,
    bs2: Seq<StrategyBucket>,
    i: int,
) -> (j: int)
    requires
        strategy_summary(groups, bs1),
        strategy_summary(groups2, bs2),
        detections(groups).to_multiset() == detections(groups2).to_multiset(),
        0 <= i < bs1.len(),
    ensures
        0 <= j < bs2.len(),
        bs2[j].rank() == bs1[i].rank(),
{
    let ds = detections(groups);
    let ds2 = detections(groups2);
    let s = bs1[i].strategy@;
    let e = entry_pairs(bs1[i].entries@);
    assert(e.len() > 0);
    e.to_multiset_ensures();
    assert(e.contains(e[0]));
    let pw = pairs_with(ds, s);
    pw.to_multiset_ensures();
    assert(pw.to_multiset().count(e[0]) > 0);
    assert(pw.contains(e[0]));
    lemma_pairs_with_contains(ds, s, e[0]);
    let k = choose|k: int| 0 <= k < ds.len() && (#[trigger] ds[k]).0 == s && (ds[k].1, ds[k].2) == e[0];
    assert(ds.contains(ds[k]));
    lemma_contains_transfer(ds, ds2, ds[k]);
    let k2 = choose|k2: int| 0 <= k2 < ds2.len() && ds2[k2] == ds[k];
    assert(has_bucket(bs2, ds2[k2].0));
    let j = choose|j: int| 0 <= j < bs2.len() && #[trigger] bs2[j].strategy@ == ds[k].0;
    let e2 = entry_pairs(bs2[j].entries@);
    e2.to_multiset_ensures();
    lemma_pairs_with_permuted(ds, ds2, s);
    assert(e2.to_multiset() == pairs_with(ds2, s).to_multiset());
    assert(e2.to_multiset() == pw.to_multiset());
    assert(e.to_multiset() == pw.to_multiset());
    assert(bs2[j].entries@.len() == e2.len());
    assert(bs1[i].entries@.len() == e.len());
    j
}

proof fn lemma_bucket_ranks_strict(bs: Seq<StrategyBucket>, groups: Seq<LanguageGroup>, i: int, j: int)
    requires
        strategy_summary(groups, bs),
        0 <= i < j < bs.len(),
    ensures
        rank_lt(bs[i].rank(), bs[j].rank()),
{
    assert(!rank_lt(bs[j].rank(), bs[i].rank()));
    if bs[i].rank() == bs[j].rank() {
        lemma_utf8_injective(bs[i].strategy@, bs[j].strategy@);
        assert(bs[i].strategy@ != bs[j].strategy@);
    }
    lemma_rank_lt_total(bs[i].rank(), bs[j].rank());
}

/// Bucketing and rendering two sets of language groups that hold the same
/// detections, in any order of groups and of files, prints the same strategy
/// breakdown: the buckets, their order and the order within each bucket are
/// fixed by the detections alone.
pub proof fn lemma_strategy_output_repeatable(
    groups: Seq<LanguageGroup>,
    groups2: Seq<LanguageGroup>,
    bs1: Seq<StrategyBucket>,
    bs2: Seq<StrategyBucket>,
    condensed: bool,
    filter: Option<Filter>,
)
    requires
        detections(groups).to_multiset() == detections(groups2).to_multiset(),
        strategy_summary(groups, bs1),
        strategy_summary(groups2, bs2),
    ensures
        strategy_breakdown(bs1, condensed, filter) == strategy_breakdown(bs2, condensed, filter),
{
    let f = |b: StrategyBucket| b.rank();
    let a = bs1.map_values(f);
    let b = bs2.map_values(f);
    assert forall|x: Rank| a.contains(x) <==> b.contains(x) by {
        if a.contains(x) {
            let i = choose|i: int| 0 <= i < a.len() && a[i] == x;
            let j = lemma_bucket_rank_in(groups, groups2, bs1, bs2, i);
            assert(b[j] == x);
        }
        if b.contains(x) {
            let i = choose|i: int| 0 <= i < b.len() && b[i] == x;
            let j = lemma_bucket_rank_in(groups2, groups, bs2, bs1, i);
            assert(a[j] == x);
        }
    }
    assert forall|i: int, j: int| 0 <= i < j < a.len() implies rank_lt(#[trigger] a[i], #[trigger] a[j]) by {
        lemma_bucket_ranks_strict(bs1, groups, i, j);
    }
    assert forall|i: int, j: int| 0 <= i < j < b.len() implies rank_lt(#[trigger] b[i], #[trigger] b[j]) by {
        lemma_bucket_ranks_strict(bs2, groups2, i, j);
    }
    lemma_strict_ranks_unique(a, b);
    assert forall|i: int|
        0 <= i < bs1.len() implies (#[trigger] bs1[i]).strategy@ == bs2[i].strategy@ && entry_pairs(
        bs1[i].entries@,
    ) == entry_pairs(bs2[i].entries@) by {
        assert(a[i] == b[i]);
        lemma_utf8_injective(bs1[i].strategy@, bs2[i].strategy@);
        lemma_pairs_with_permuted(detections(groups), detections(groups2), bs1[i].strategy@);
        lemma_entries_determined(bs1[i].entries@, bs2[i].entries@);
    }
    lemma_breakdown_by_views(bs1, bs2, condensed, filter);
}

proof fn lemma_reported_contains(
    groups: Seq<LanguageGroup>,
    kinds: Seq<Option<LanguageKind>>,
    g: LanguageGroup,
)
    requires
        kinds.len() == groups.len(),
    ensures
        reported_groups(groups, kinds).contains(g) <==> exists|i: int|
            0 <= i < groups.len() && groups[i] == g && crate::grouping::reported(
                #[trigger] kinds[i],
            ),
    decreases groups.len(),
{
    if groups.len() > 0 {
        let x = reported_groups(groups, kinds);
        let rest = reported_groups(groups.drop_first(), kinds.drop_first());
        lemma_reported_contains(groups.drop_first(), kinds.drop_first(), g);
        if x.contains(g) {
            let m = choose|m: int| 0 <= m < x.len() && x[m] == g;
            if crate::grouping::reported(kinds[0]) && m == 0 {
                assert(groups[0] == g && crate::grouping::reported(kinds[0]));
            } else {
                if crate::grouping::reported(kinds[0]) {
                    assert(rest[m - 1] == g);
                } else {
                    assert(rest[m] == g);
                }
                let i = choose|i: int|
                    0 <= i < groups.drop_first().len() && groups.drop_first()[i] == g
                        && crate::grouping::reported(#[trigger] kinds.drop_first()[i]);
                assert(groups[i + 1] == g && kinds[i + 1] == kinds.drop_first()[i]);
            }
        }
        if exists|i: int|
            0 <= i < groups.len() && groups[i] == g && crate::grouping::reported(#[trigger] kinds[i]) {
            let i = choose|i: int|
                0 <= i < groups.len() && groups[i] == g && crate::grouping::reported(
                    #[trigger] kinds[i],
                );
            if i == 0 {
                assert(x[0] == g);
            } else {
                assert(groups.drop_first()[i - 1] == g && kinds.drop_first()[i - 1] == kinds[i]);
                let m = choose|m: int| 0 <= m < rest.len() && rest[m] == g;
                if crate::grouping::reported(kinds[0]) {
                    assert(x[m + 1] == g);
                } else {
                    assert(x[m] == g);
                }
            }
        }
    }
}

proof fn lemma_reported_count(
    groups: Seq<LanguageGroup>,
    kinds: Seq<Option<LanguageKind>>,
    g: LanguageGroup,
)
    requires
        kinds.len() == groups.len(),
        names_distinct(groups),
    ensures
        reported_groups(groups, kinds).to_multiset().count(g) <= 1,
    decreases groups.len(),
{
    broadcast use vstd::seq_lib::group_to_multiset_ensures;

    if groups.len() > 0 {
        let x = reported_groups(groups, kinds);
        let tail = groups.drop_first();
        let rest = reported_groups(tail, kinds.drop_first());
        assert forall|a: int, b: int|
            0 <= a < tail.len() && 0 <= b < tail.len() && (#[trigger] tail[a]).language@ == (
            #[trigger] tail[b]).language@ implies a == b by {
            assert(groups[a + 1] == tail[a] && groups[b + 1] == tail[b]);
        }
        lemma_reported_count(tail, kinds.drop_first(), g);
        if crate::grouping::reported(kinds[0]) {
            assert(x == seq![groups[0]] + rest);
            x.to_multiset_ensures();
            assert(x.remove(0) =~= rest);
            assert(x.remove(0).to_multiset() == x.to_multiset().remove(x[0]));
            if g == groups[0] {
                lemma_reported_contains(tail, kinds.drop_first(), g);
                if rest.contains(g) {
                    let i = choose|i: int|
                        0 <= i < tail.len() && tail[i] == g && crate::grouping::reported(
                            #[trigger] kinds.drop_first()[i],
                        );
                    assert(groups[i + 1] == groups[0]);
                }
                rest.to_multiset_ensures();
                assert(rest.to_multiset().count(g) == 0);
            }
        }
    }
}

proof fn lemma_contains_transfer<A>(a: Seq<A>, b: Seq<A>, v: A)
    requires
        a.to_multiset() == b.to_multiset(),
        a.contains(v),
    ensures
        b.contains(v),
{
    a.to_multiset_ensures();
    b.to_multiset_ensures();
    assert(a.to_multiset().count(v) > 0);
    assert(b.to_multiset().count(v) > 0);
}

proof fn lemma_count_two<A>(s: Seq<A>, i: int, j: int)
    requires
        0 <= i < s.len(),
        0 <= j < s.len(),
        i != j,
        s[i] == s[j],
    ensures
        s.to_multiset().count(s[i]) >= 2,
{
    broadcast use vstd::seq_lib::group_to_multiset_ensures;

    s.to_multiset_ensures();
    assert(s.remove(j).to_multiset() == s.to_multiset().remove(s[j]));
    let t = s.remove(j);
    if i < j {
        assert(t[i] == s[i]);
    } else {
        assert(t[i - 1] == s[i]);
    }
    t.to_multiset_ensures();
    assert(t.contains(s[i]));
    assert(t.to_multiset().count(s[i]) > 0);
    assert(s.contains(s[i]));
    assert(s.to_multiset().count(s[i]) > 0);
    assert(s.to_multiset().remove(s[i]).count(s[i]) == s.to_multiset().count(s[i]) - 1) by {
        broadcast use vstd::multiset::group_multiset_axioms;

    }
}

proof fn lemma_grouped_rank_strict(
    breakdown: Seq<LanguageGroup>,
    r: Seq<LanguageGroup>,
    i: int,
    j: int,
)
    requires
        names_distinct(breakdown),
        r.to_multiset() == reported_groups(breakdown, kinds_of(breakdown)).to_multiset(),
        ranked_in_order(r),
        0 <= i < j < r.len(),
    ensures
        rank_lt(r[i].rank(), r[j].rank()),
{
    broadcast use vstd::seq_lib::group_to_multiset_ensures;

    let x = reported_groups(breakdown, kinds_of(breakdown));
    assert(!rank_lt(r[j].rank(), r[i].rank()));
    if r[i].rank() == r[j].rank() {
        lemma_utf8_injective(r[i].language@, r[j].language@);
        r.to_multiset_ensures();
        x.to_multiset_ensures();
        assert(r.contains(r[i]));
        lemma_contains_transfer(r, x, r[i]);
        assert(r.contains(r[j]));
        lemma_contains_transfer(r, x, r[j]);
        lemma_reported_from(breakdown, kinds_of(breakdown), r[i]);
        lemma_reported_from(breakdown, kinds_of(breakdown), r[j]);
        let p = choose|p: int| 0 <= p < breakdown.len() && breakdown[p] == r[i];
        let q = choose|q: int| 0 <= q < breakdown.len() && breakdown[q] == r[j];
        assert(breakdown[p].language@ == breakdown[q].language@);
        assert(r[i] == r[j]);
        lemma_count_two(r, i, j);
        lemma_reported_count(breakdown, kinds_of(breakdown), r[i]);
    }
    lemma_rank_lt_total(r[i].rank(), r[j].rank());
}

proof fn lemma_grouped_member(
    b1: Seq<LanguageGroup>,
    b2: Seq<LanguageGroup>,
    r1: Seq<LanguageGroup>,
    r2: Seq<LanguageGroup>,
    g: LanguageGroup,
)
    requires
        b1.to_multiset() == b2.to_multiset(),
        r1.to_multiset() == reported_groups(b1, kinds_of(b1)).to_multiset(),
        r2.to_multiset() == reported_groups(b2, kinds_of(b2)).to_multiset(),
        r1.contains(g),
    ensures
        r2.contains(g),
{
    broadcast use vstd::seq_lib::group_to_multiset_ensures;

    let x1 = reported_groups(b1, kinds_of(b1));
    let x2 = reported_groups(b2, kinds_of(b2));
    r1.to_multiset_ensures();
    r2.to_multiset_ensures();
    x1.to_multiset_ensures();
    x2.to_multiset_ensures();
    b1.to_multiset_ensures();
    b2.to_multiset_ensures();
    lemma_contains_transfer(r1, x1, g);
    lemma_reported_contains(b1, kinds_of(b1), g);
    let i = choose|i: int|
        0 <= i < b1.len() && b1[i] == g && crate::grouping::reported(#[trigger] kinds_of(b1)[i]);
    assert(b1.contains(g));
    lemma_contains_transfer(b1, b2, g);
    let m = choose|m: int| 0 <= m < b2.len() && b2[m] == g;
    assert(kinds_of(b2)[m] == kinds_of(b1)[i]);
    lemma_reported_contains(b2, kinds_of(b2), g);
    assert(x2.contains(g));
    lemma_contains_transfer(x2, r2, g);
}

/// Grouping two breakdowns that hold the same groups in any order (distinct
/// language names) yields the same groups in the same order; so the
/// percentage summary and the file breakdown are byte-identical.
pub proof fn lemma_grouping_order_independent(
    b1: Seq<LanguageGroup>,
    b2: Seq<LanguageGroup>,
    r1: Seq<LanguageGroup>,
    r2: Seq<LanguageGroup>,
    condensed: bool,
    filter: Option<Filter>,
)
    requires
        names_distinct(b1),
        names_distinct(b2),
        b1.to_multiset() == b2.to_multiset(),
        r1.to_multiset() == reported_groups(b1, kinds_of(b1)).to_multiset(),
        r2.to_multiset() == reported_groups(b2, kinds_of(b2)).to_multiset(),
        ranked_in_order(r1),
        ranked_in_order(r2),
    ensures
        r1 == r2,
        language_split(r1) == language_split(r2),
        file_breakdown(r1, condensed, filter) == file_breakdown(r2, condensed, filter),
{
    let a = group_ranks(r1);
    let b = group_ranks(r2);
    assert forall|x: Rank| a.contains(x) <==> b.contains(x) by {
        if a.contains(x) {
            let i = choose|i: int| 0 <= i < a.len() && a[i] == x;
            assert(r1.contains(r1[i]));
            lemma_grouped_member(b1, b2, r1, r2, r1[i]);
            let j = choose|j: int| 0 <= j < r2.len() && r2[j] == r1[i];
            assert(b[j] == x);
        }
        if b.contains(x) {
            let i = choose|i: int| 0 <= i < b.len() && b[i] == x;
            assert(r2.contains(r2[i]));
            lemma_grouped_member(b2, b1, r2, r1, r2[i]);
            let j = choose|j: int| 0 <= j < r1.len() && r1[j] == r2[i];
            assert(a[j] == x);
        }
    }
    assert forall|i: int, j: int| 0 <= i < j < a.len() implies rank_lt(#[trigger] a[i], #[trigger] a[j]) by {
        lemma_grouped_rank_strict(b1, r1, i, j);
    }
    assert forall|i: int, j: int| 0 <= i < j < b.len() implies rank_lt(#[trigger] b[i], #[trigger] b[j]) by {
        lemma_grouped_rank_strict(b2, r2, i, j);
    }
    lemma_strict_ranks_unique(a, b);
    assert forall|i: int| 0 <= i < r1.len() implies r1[i] == r2[i] by {
        assert(a[i] == b[i]);
        lemma_utf8_injective(r1[i].language@, r2[i].language@);
        assert(r1.contains(r1[i]));
        lemma_grouped_member(b1, b2, r1, r2, r1[i]);
        let j = choose|j: int| 0 <= j < r2.len() && r2[j] == r1[i];
        if j != i {
            if i < j {
                lemma_grouped_rank_strict(b2, r2, i, j);
            } else {
                lemma_grouped_rank_strict(b2, r2, j, i);
            }
            assert(r2[j].rank() == a[i]);
            lemma_utf8_injective(r2[j].language@, r2[i].language@);
            crate::order::lemma_rank_lt_not_both(b[i], b[i]);
        }
    }
    assert(r1 =~= r2);
}

/// The sum of the bucket sizes, which the strategy headers print.
pub open spec fn bucket_sizes(bs: Seq<StrategyBucket>) -> nat
    decreases bs.len(),
{
    if bs.len() == 0 {
        0
    } else {
        bucket_sizes(bs.drop_last()) + bs.last().entries@.len()
    }
}

spec fn pair_counts(bs: Seq<StrategyBucket>, ds: Seq<Detected>) -> nat
    decreases bs.len(),
{
    if bs.len() == 0 {
        0
    } else {
        pair_counts(bs.drop_last(), ds) + pairs_with(ds, bs.last().strategy@).len()
    }
}

spec fn buckets_named(bs: Seq<StrategyBucket>, s: Seq<char>) -> nat
    decreases bs.len(),
{
    if bs.len() == 0 {
        0
    } else {
        buckets_named(bs.drop_last(), s) + if bs.last().strategy@ == s {
            1nat
        } else {
            0nat
        }
    }
}

proof fn lemma_distinct_prefix(bs: Seq<StrategyBucket>)
    requires
        crate::strategy::distinct_strategies(bs),
        bs.len() > 0,
    ensures
        crate::strategy::distinct_strategies(bs.drop_last()),
{
    let p = bs.drop_last();
    assert forall|i: int, j: int|
        0 <= i < p.len() && 0 <= j < p.len() && i != j implies #[trigger] p[i].strategy@
        != #[trigger] p[j].strategy@ by {
        assert(p[i] == bs[i] && p[j] == bs[j]);
    }
}

proof fn lemma_buckets_named(bs: Seq<StrategyBucket>, s: Seq<char>)
    requires
        crate::strategy::distinct_strategies(bs),
    ensures
        buckets_named(bs, s) == (if has_bucket(bs, s) {
            1nat
        } else {
            0nat
        }),
    decreases bs.len(),
{
    if bs.len() > 0 {
        let p = bs.drop_last();
        let n = bs.len() - 1;
        lemma_distinct_prefix(bs);
        lemma_buckets_named(p, s);
        if has_bucket(p, s) {
            let i = choose|i: int| 0 <= i < p.len() && #[trigger] p[i].strategy@ == s;
            assert(bs[i] == p[i]);
            assert(bs[i].strategy@ != bs[n].strategy@);
            assert(has_bucket(bs, s));
        }
        if has_bucket(bs, s) && bs.last().strategy@ != s {
            let i = choose|i: int| 0 <= i < bs.len() && #[trigger] bs[i].strategy@ == s;
            assert(i != n);
            assert(p[i] == bs[i]);
            assert(has_bucket(p, s));
        }
        if bs.last().strategy@ == s {
            assert(bs[n].strategy@ == s);
            assert(has_bucket(bs, s));
        }
    }
}

proof fn lemma_pair_counts_step(bs: Seq<StrategyBucket>, ds: Seq<Detected>, t: Detected)
    ensures
        pair_counts(bs, ds.push(t)) == pair_counts(bs, ds) + buckets_named(bs, t.0),
    decreases bs.len(),
{
    assert(ds.push(t).drop_last() =~= ds);
    if bs.len() > 0 {
        lemma_pair_counts_step(bs.drop_last(), ds, t);
    }
}

proof fn lemma_pair_counts_total(bs: Seq<StrategyBucket>, ds: Seq<Detected>)
    requires
        crate::strategy::distinct_strategies(bs),
        crate::strategy::covers(bs, ds),
    ensures
        pair_counts(bs, ds) == ds.len(),
    decreases ds.len(),
{
    if ds.len() == 0 {
        lemma_pair_counts_empty(bs, ds);
    } else {
        let p = ds.drop_last();
        let t = ds.last();
        assert forall|k: int| 0 <= k < p.len() implies has_bucket(bs, (#[trigger] p[k]).0) by {
            assert(p[k] == ds[k]);
        }
        lemma_pair_counts_total(bs, p);
        assert(p.push(t) =~= ds);
        lemma_pair_counts_step(bs, p, t);
        assert(ds[ds.len() - 1] == t);
        assert(has_bucket(bs, t.0));
        lemma_buckets_named(bs, t.0);
    }
}

proof fn lemma_pair_counts_empty(bs: Seq<StrategyBucket>, ds: Seq<Detected>)
    requires
        ds.len() == 0,
    ensures
        pair_counts(bs, ds) == 0,
    decreases bs.len(),
{
    if bs.len() > 0 {
        lemma_pair_counts_empty(bs.drop_last(), ds);
    }
}

proof fn lemma_sizes_are_pair_counts(bs: Seq<StrategyBucket>, ds: Seq<Detected>)
    requires
        forall|i: int|
            0 <= i < bs.len() ==> (#[trigger] bs[i]).entries@.len() == pairs_with(
                ds,
                bs[i].strategy@,
            ).len(),
    ensures
        bucket_sizes(bs) == pair_counts(bs, ds),
    decreases bs.len(),
{
    if bs.len() > 0 {
        let p = bs.drop_last();
        assert forall|i: int| 0 <= i < p.len() implies (#[trigger] p[i]).entries@.len()
            == pairs_with(ds, p[i].strategy@).len() by {
            assert(p[i] == bs[i]);
        }
        lemma_sizes_are_pair_counts(p, ds);
        assert(bs[bs.len() - 1] == bs.last());
    }
}

/// The counts in the strategy headers add up to the number of detections:
/// every detection is listed under exactly one strategy.
pub proof fn lemma_bucket_sizes_total(groups: Seq<LanguageGroup>, bs: Seq<StrategyBucket>)
    requires
        strategy_summary(groups, bs),
    ensures
        bucket_sizes(bs) == detections(groups).len(),
{
    let ds = detections(groups);
    assert forall|i: int| 0 <= i < bs.len() implies (#[trigger] bs[i]).entries@.len()
        == pairs_with(ds, bs[i].strategy@).len() by {
        let e = entry_pairs(bs[i].entries@);
        let pw = pairs_with(ds, bs[i].strategy@);
        assert(e.to_multiset() == pw.to_multiset());
        e.to_multiset_ensures();
        pw.to_multiset_ensures();
        assert(e.len() == bs[i].entries@.len());
    }
    lemma_sizes_are_pair_counts(bs, ds);
    lemma_pair_counts_total(bs, ds);
}

} // verus!
