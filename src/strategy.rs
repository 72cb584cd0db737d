use vstd::prelude::*;
use crate::filter::{selected, Filter, ReportOptions};
use crate::model::LanguageGroup;
use crate::path::{normalized, path_component_key, path_key, strip_relative_parts};
use crate::report::{header, push_blank_line, push_header, segments_view, Segment, Style};
use vstd::string::StringExecFns;
use crate::order::{compare_bytes, compare_text, lemma_map_multiset, ranked_in_order, sort_ranked, utf8, Rank, Ranked};

verus! {

/// A file in a strategy bucket, with the language it was detected as.
pub struct Entry {
    pub language: String,
    pub path: String,
}

/// The files whose language one strategy determined.
pub struct StrategyBucket {
    pub strategy: String,
    pub entries: Vec<Entry>,
}

impl Ranked for Entry {
    open spec fn rank(&self) -> Rank {
        Rank {
            count: 0,
            first: utf8(self.language@),
            second: path_key(self.path@),
            third: utf8(self.path@),
        }
    }

    /// By language, then by path as `std::path::Path` orders paths; paths
    /// that `Path` holds equal (`a//b`, `a/b`) then by their text.
    fn precedes(&self, other: &Self) -> (r: bool) {
        let c = compare_text(self.language.as_str(), other.language.as_str());
        if c != 0 {
            c < 0
        } else {
            let ka = path_component_key(self.path.as_str());
            let kb = path_component_key(other.path.as_str());
            let d = compare_bytes(ka.as_slice(), kb.as_slice());
            if d != 0 {
                d < 0
            } else {
                compare_text(self.path.as_str(), other.path.as_str()) < 0
            }
        }
    }
}

impl Ranked for StrategyBucket {
    open spec fn rank(&self) -> Rank {
        Rank { count: self.entries@.len() as int, first: utf8(self.strategy@), second: seq![], third: seq![] }
    }

    fn precedes(&self, other: &Self) -> (r: bool) {
        let a = self.entries.len();
        let b = other.entries.len();
        if a != b {
            a > b
        } else {
            let r = compare_text(self.strategy.as_str(), other.strategy.as_str()) < 0;
            assert(!crate::order::bytes_lt(Seq::<u8>::empty(), Seq::<u8>::empty()));
            r
        }
    }
}

/// A detection as (strategy, language, path).
pub type Detected = (Seq<char>, Seq<char>, Seq<char>);

pub open spec fn group_detections(g: LanguageGroup) -> Seq<Detected> {
    g.files@.map_values(|f: crate::model::FileDetection| (f.strategy@, g.language@, f.path@))
}

/// Every detection of every group, in group order and then file order.
pub open spec fn detections(groups: Seq<LanguageGroup>) -> Seq<Detected>
    decreases groups.len(),
{
    if groups.len() == 0 {
        seq![]
    } else {
        detections(groups.drop_last()) + group_detections(groups.last())
    }
}

/// The (language, path) pairs that `strategy` determined, in order.
pub open spec fn pairs_with(ds: Seq<Detected>, strategy: Seq<char>) -> Seq<(Seq<char>, Seq<char>)>
    decreases ds.len(),
{
    if ds.len() == 0 {
        seq![]
    } else {
        let rest = pairs_with(ds.drop_last(), strategy);
        if ds.last().0 == strategy {
            rest.push((ds.last().1, ds.last().2))
        } else {
            rest
        }
    }
}

pub open spec fn entry_pairs(es: Seq<Entry>) -> Seq<(Seq<char>, Seq<char>)> {
    es.map_values(|e: Entry| (e.language@, e.path@))
}

/// No two buckets share a strategy.
pub open spec fn distinct_strategies(bs: Seq<StrategyBucket>) -> bool {
    forall|i: int, j: int|
        0 <= i < bs.len() && 0 <= j < bs.len() && i != j ==> #[trigger] bs[i].strategy@
            != #[trigger] bs[j].strategy@
}

/// Some bucket is that of `strategy`.
pub open spec fn has_bucket(bs: Seq<StrategyBucket>, strategy: Seq<char>) -> bool {
    exists|i: int| 0 <= i < bs.len() && #[trigger] bs[i].strategy@ == strategy
}

/// Every detection's strategy has a bucket.
pub open spec fn covers(bs: Seq<StrategyBucket>, ds: Seq<Detected>) -> bool {
    forall|k: int| 0 <= k < ds.len() ==> has_bucket(bs, (#[trigger] ds[k]).0)
}

proof fn lemma_pairs_with_absent(ds: Seq<Detected>, s: Seq<char>)
    requires
        forall|k: int| 0 <= k < ds.len() ==> (#[trigger] ds[k]).0 != s,
    ensures
        pairs_with(ds, s) == Seq::<(Seq<char>, Seq<char>)>::empty(),
    decreases ds.len(),
{
    if ds.len() > 0 {
        assert(ds.last() == ds[ds.len() - 1]);
        lemma_pairs_with_absent(ds.drop_last(), s);
    }
}

proof fn lemma_detections_step(groups: Seq<LanguageGroup>, i: int)
    requires
        0 <= i < groups.len(),
    ensures
        detections(groups.take(i + 1)) == detections(groups.take(i)) + group_detections(groups[i]),
{
    assert(groups.take(i + 1).drop_last() =~= groups.take(i));
}

/// Buckets every detection by its strategy, keeping detection order within a bucket.
pub fn collect_buckets(groups: &Vec<LanguageGroup>) -> (r: Vec<StrategyBucket>)
    ensures
        distinct_strategies(r@),
        covers(r@, detections(groups@)),
        forall|i: int|
            0 <= i < r@.len() ==> entry_pairs(#[trigger] r@[i].entries@) == pairs_with(
                detections(groups@),
                r@[i].strategy@,
            ) && r@[i].entries@.len() > 0,
{
    let mut buckets: Vec<StrategyBucket> = Vec::new();
    let ghost mut ds: Seq<Detected> = seq![];
    let mut gi: usize = 0;
    while gi < groups.len()
        invariant
            gi <= groups@.len(),
            ds == detections(groups@.take(gi as int)),
            distinct_strategies(buckets@),
            covers(buckets@, ds),
            forall|i: int|
                0 <= i < buckets@.len() ==> entry_pairs(#[trigger] buckets@[i].entries@)
                    == pairs_with(ds, buckets@[i].strategy@) && buckets@[i].entries@.len() > 0,
        decreases groups@.len() - gi,
    {
        let g = &groups[gi];
        let ghost base = ds;
        let mut fi: usize = 0;
        while fi < g.files.len()
            invariant
                gi < groups@.len(),
                g == groups@[gi as int],
                fi <= g.files@.len(),
                ds == base + group_detections(*g).take(fi as int),
                distinct_strategies(buckets@),
                covers(buckets@, ds),
                forall|i: int|
                    0 <= i < buckets@.len() ==> entry_pairs(#[trigger] buckets@[i].entries@)
                        == pairs_with(ds, buckets@[i].strategy@) && buckets@[i].entries@.len() > 0,
            decreases g.files@.len() - fi,
        {
            let f = &g.files[fi];
            let ghost t: Detected = (f.strategy@, g.language@, f.path@);
            let ghost old_ds = ds;
            let ghost old_buckets = buckets@;
            proof {
                ds = old_ds.push(t);
                assert(ds.drop_last() =~= old_ds);
                assert(base + group_detections(*g).take(fi + 1) =~= ds);
            }
            let mut j: usize = 0;
            while j < buckets.len() && !(buckets[j].strategy == f.strategy)
                invariant
                    j <= buckets@.len(),
                    forall|i: int| 0 <= i < j ==> #[trigger] buckets@[i].strategy@ != f.strategy@,
                decreases buckets@.len() - j,
            {
                j = j + 1;
            }
            let entry = Entry { language: g.language.clone(), path: f.path.clone() };
            if j < buckets.len() {
                let mut b = buckets.remove(j);
                let ghost old_entries = b.entries@;
                b.entries.push(entry);
                proof {
                    assert(entry_pairs(b.entries@) =~= entry_pairs(old_entries).push(
                        (g.language@, f.path@),
                    ));
                }
                buckets.insert(j, b);
                proof {
                    assert(buckets@ =~= old_buckets.update(j as int, b));
                }
            } else {
                proof {
                    assert forall|k: int| 0 <= k < old_ds.len() implies (#[trigger] old_ds[k]).0
                        != f.strategy@ by {
                        if old_ds[k].0 == f.strategy@ {
                            assert(has_bucket(old_buckets, old_ds[k].0));
                            let i = choose|i: int|
                                0 <= i < old_buckets.len() && #[trigger] old_buckets[i].strategy@
                                    == old_ds[k].0;
                            assert(old_buckets[i].strategy@ != f.strategy@);
                        }
                    }
                    lemma_pairs_with_absent(old_ds, f.strategy@);
                }
                let mut entries: Vec<Entry> = Vec::new();
                entries.push(entry);
                let b = StrategyBucket { strategy: f.strategy.clone(), entries };
                proof {
                    assert(entry_pairs(b.entries@) =~= seq![(g.language@, f.path@)]);
                }
                buckets.push(b);
            }
            proof {
                assert forall|k: int| 0 <= k < ds.len() implies has_bucket(buckets@, (
                    #[trigger] ds[k]).0) by {
                    if k < old_ds.len() {
                        assert(ds[k] == old_ds[k]);
                        assert(has_bucket(old_buckets, old_ds[k].0));
                        let i = choose|i: int|
                            0 <= i < old_buckets.len() && #[trigger] old_buckets[i].strategy@
                                == old_ds[k].0;
                        assert(buckets@[i].strategy@ == old_buckets[i].strategy@);
                    } else {
                        assert(buckets@[j as int].strategy@ == ds[k].0);
                    }
                }
                assert forall|i: int| 0 <= i < buckets@.len() implies entry_pairs(
                    #[trigger] buckets@[i].entries@,
                ) == pairs_with(ds, buckets@[i].strategy@) && buckets@[i].entries@.len() > 0 by {
                    if i != j {
                        assert(buckets@[i] == old_buckets[i]);
                        assert(old_buckets[i].strategy@ != old_buckets[j as int].strategy@
                            || j == old_buckets.len());
                    }
                }
            }
            fi = fi + 1;
        }
        proof {
            assert(group_detections(*g).take(fi as int) =~= group_detections(*g));
            lemma_detections_step(groups@, gi as int);
        }
        gi = gi + 1;
    }
    assert(groups@.take(gi as int) =~= groups@);
    buckets
}

proof fn lemma_covers_permuted(a: Seq<StrategyBucket>, b: Seq<StrategyBucket>, ds: Seq<Detected>)
    requires
        covers(a, ds),
        a.to_multiset() == b.to_multiset(),
    ensures
        covers(b, ds),
{
    assert forall|k: int| 0 <= k < ds.len() implies has_bucket(b, (#[trigger] ds[k]).0) by {
        assert(has_bucket(a, ds[k].0));
        let u = choose|u: int| 0 <= u < a.len() && #[trigger] a[u].strategy@ == ds[k].0;
        a.to_multiset_ensures();
        b.to_multiset_ensures();
        assert(a.contains(a[u]));
        assert(b.to_multiset().count(a[u]) > 0);
        assert(b.contains(a[u]));
        let i = choose|i: int| 0 <= i < b.len() && b[i] == a[u];
        assert(b[i].strategy@ == ds[k].0);
    }
}

/// What the strategy buckets of a set of language groups are: one bucket per
/// strategy in use, holding exactly the (language, path) pairs that it
/// determined in ascending order, buckets by descending size and then name.
pub open spec fn strategy_summary(groups: Seq<LanguageGroup>, bs: Seq<StrategyBucket>) -> bool {
    &&& distinct_strategies(bs)
    &&& covers(bs, detections(groups))
    &&& ranked_in_order(bs)
    &&& forall|i: int|
        0 <= i < bs.len() ==> {
            &&& entry_pairs(#[trigger] bs[i].entries@).to_multiset() == pairs_with(
                detections(groups),
                bs[i].strategy@,
            ).to_multiset()
            &&& ranked_in_order(bs[i].entries@)
            &&& bs[i].entries@.len() > 0
        }
}

/// Repartitions all detections by strategy, each bucket in ascending
/// (language, path) order and the buckets by descending size, then name.
#[verifier::rlimit(40)]
pub fn aggregate_strategies(groups: &Vec<LanguageGroup>) -> (r: Vec<StrategyBucket>)
    ensures
        strategy_summary(groups@, r@),
{
    broadcast use vstd::seq_lib::group_to_multiset_ensures;

    let buckets = collect_buckets(groups);
    let ghost unsorted = buckets@;
    let ghost ds = detections(groups@);
    let mut rest = buckets;
    let mut out: Vec<StrategyBucket> = Vec::new();
    assert(unsorted.skip(0) =~= unsorted);
    while rest.len() > 0
        invariant
            out@.len() + rest@.len() == unsorted.len(),
            rest@ == unsorted.skip(out@.len() as int),
            forall|i: int|
                0 <= i < out@.len() ==> {
                    &&& (#[trigger] out@[i]).strategy@ == unsorted[i].strategy@
                    &&& out@[i].entries@.to_multiset() == unsorted[i].entries@.to_multiset()
                    &&& ranked_in_order(out@[i].entries@)
                    &&& out@[i].entries@.len() == unsorted[i].entries@.len()
                },
        decreases rest@.len(),
    {
        let ghost n = out@.len() as int;
        let b = rest.remove(0);
        proof {
            assert(rest@ =~= unsorted.skip(n + 1));
        }
        let StrategyBucket { strategy, entries } = b;
        let sorted = sort_ranked(entries);
        proof {
            sorted@.to_multiset_ensures();
            unsorted[n].entries@.to_multiset_ensures();
        }
        out.push(StrategyBucket { strategy, entries: sorted });
    }
    let r = sort_ranked(out);
    proof {
        let p = choose|p: Seq<int>|
            #![trigger p.len()]
            p.len() == r@.len() && (forall|i: int|
                0 <= i < p.len() ==> 0 <= #[trigger] p[i] < out@.len() && r@[i] == out@[p[i]])
                && (forall|i: int, j: int| 0 <= i < j < p.len() ==> #[trigger] p[i] != #[trigger] p[j]);
        assert forall|i: int, j: int|
            0 <= i < r@.len() && 0 <= j < r@.len() && i != j implies #[trigger] r@[i].strategy@
            != #[trigger] r@[j].strategy@ by {
            if i < j {
                assert(p[i] != p[j]);
            } else {
                assert(p[j] != p[i]);
            }
            assert(out@[p[i]].strategy@ == unsorted[p[i]].strategy@);
            assert(out@[p[j]].strategy@ == unsorted[p[j]].strategy@);
        }
        assert forall|i: int| 0 <= i < r@.len() implies {
            &&& entry_pairs(#[trigger] r@[i].entries@).to_multiset() == pairs_with(
                ds,
                r@[i].strategy@,
            ).to_multiset()
            &&& ranked_in_order(r@[i].entries@)
            &&& r@[i].entries@.len() > 0
        } by {
            let q = p[i];
            assert(r@[i] == out@[q]);
            assert(out@[q].strategy@ == unsorted[q].strategy@);
            lemma_map_multiset(
                out@[q].entries@,
                unsorted[q].entries@,
                |e: Entry| (e.language@, e.path@),
            );
        }
        assert forall|k: int| 0 <= k < ds.len() implies has_bucket(out@, (#[trigger] ds[k]).0) by {
            assert(has_bucket(unsorted, ds[k].0));
            let u = choose|u: int|
                0 <= u < unsorted.len() && #[trigger] unsorted[u].strategy@ == ds[k].0;
            assert(out@[u].strategy@ == ds[k].0);
        }
        lemma_covers_permuted(out@, r@, ds);
        assert(distinct_strategies(r@));
        assert(covers(r@, ds));
    }
    r
}

/// One line per entry: the display path, then ` (<language>)` in the language style.
pub open spec fn entry_lines(es: Seq<Entry>) -> Seq<(Style, Seq<char>)>
    decreases es.len(),
{
    if es.len() == 0 {
        seq![]
    } else {
        entry_lines(es.drop_last()) + seq![
            (Style::Plain, normalized(es.last().path@)),
            (Style::Language, seq![' ', '('] + es.last().language@ + seq![')', '\n']),
        ]
    }
}

/// The part of the strategy breakdown that belongs to one bucket.
pub open spec fn strategy_block(b: StrategyBucket, condensed: bool, filter: Option<Filter>) -> Seq<
    (Style, Seq<char>),
> {
    if !selected(filter, b.strategy@) {
        seq![]
    } else if condensed {
        header(b.strategy@, b.entries@.len())
    } else {
        header(b.strategy@, b.entries@.len()) + entry_lines(b.entries@) + seq![
            (Style::Plain, seq!['\n']),
        ]
    }
}

/// The strategy breakdown: each shown bucket in the given order.
pub open spec fn strategy_breakdown(
    bs: Seq<StrategyBucket>,
    condensed: bool,
    filter: Option<Filter>,
) -> Seq<(Style, Seq<char>)>
    decreases bs.len(),
{
    if bs.len() == 0 {
        seq![]
    } else {
        strategy_breakdown(bs.drop_last(), condensed, filter) + strategy_block(
            bs.last(),
            condensed,
            filter,
        )
    }
}

proof fn lemma_segments_push2(v: Seq<Segment>, a: Segment, b: Segment)
    ensures
        segments_view(v.push(a).push(b)) == segments_view(v) + seq![
            (a.style, a.text@),
            (b.style, b.text@),
        ],
{
    assert(segments_view(v.push(a).push(b)) =~= segments_view(v) + seq![
        (a.style, a.text@),
        (b.style, b.text@),
    ]);
}

/// Renders buckets: for each strategy the filter shows, a header with its
/// size and, unless condensed, each entry in order and a blank line.
pub fn render_strategy_breakdown(buckets: &Vec<StrategyBucket>, options: &ReportOptions) -> (r: Vec<
    Segment,
>)
    ensures
        segments_view(r@) == strategy_breakdown(buckets@, options.condensed, options.filter),
{
    proof {
        reveal_strlit(" (");
        reveal_strlit(")\n");
        assert(" ("@ =~= seq![' ', '(']);
        assert(")\n"@ =~= seq![')', '\n']);
    }
    let mut out: Vec<Segment> = Vec::new();
    let mut i: usize = 0;
    while i < buckets.len()
        invariant
            i <= buckets@.len(),
            " ("@ == seq![' ', '('],
            ")\n"@ == seq![')', '\n'],
            segments_view(out@) == strategy_breakdown(
                buckets@.take(i as int),
                options.condensed,
                options.filter,
            ),
        decreases buckets@.len() - i,
    {
        let b = &buckets[i];
        let ghost before = segments_view(out@);
        if options.selects(b.strategy.as_str()) {
            push_header(&mut out, b.strategy.as_str(), b.entries.len());
            if !options.condensed {
                let ghost mid = segments_view(out@);
                let mut k: usize = 0;
                while k < b.entries.len()
                    invariant
                        k <= b.entries@.len(),
                        " ("@ == seq![' ', '('],
                        ")\n"@ == seq![')', '\n'],
                        segments_view(out@) == mid + entry_lines(b.entries@.take(k as int)),
                    decreases b.entries@.len() - k,
                {
                    let e = &b.entries[k];
                    let path = strip_relative_parts(e.path.as_str()).to_owned();
                    let mut lang = String::new();
                    lang.append(" (");
                    lang.append(e.language.as_str());
                    lang.append(")\n");
                    let ghost prev = out@;
                    let first = Segment { style: Style::Plain, text: path };
                    let second = Segment { style: Style::Language, text: lang };
                    out.push(first);
                    out.push(second);
                    proof {
                        lemma_segments_push2(prev, first, second);
                        assert(b.entries@.take(k + 1).drop_last() =~= b.entries@.take(k as int));
                        assert(second.text@ =~= seq![' ', '('] + e.language@ + seq![')', '\n']);
                        assert(segments_view(out@) =~= mid + entry_lines(b.entries@.take(k + 1)));
                    }
                    k = k + 1;
                }
                assert(b.entries@.take(k as int) =~= b.entries@);
                push_blank_line(&mut out);
            }
        }
        proof {
            assert(buckets@.take(i + 1).drop_last() =~= buckets@.take(i as int));
            assert(segments_view(out@) =~= before + strategy_block(
                buckets@[i as int],
                options.condensed,
                options.filter,
            ));
        }
        i = i + 1;
    }
    assert(buckets@.take(i as int) =~= buckets@);
    out
}

/// Renders the strategy breakdown of language groups.
pub fn print_strategy_breakdown(groups: &Vec<LanguageGroup>, options: &ReportOptions) -> (r: Vec<
    Segment,
>)
    ensures
        exists|bs: Seq<StrategyBucket>|
            strategy_summary(groups@, bs) && segments_view(r@) == strategy_breakdown(
                bs,
                options.condensed,
                options.filter,
            ),
{
    let buckets = aggregate_strategies(groups);
    let r = render_strategy_breakdown(&buckets, options);
    assert(strategy_summary(groups@, buckets@));
    r
}

} // verus!
