use vstd::prelude::*;
use vstd::seq_lib::to_multiset_insert;
use vstd::utf8::encode_utf8;
use vstd::multiset::Multiset;

verus! {

/// The bytes of a text, which is how `str` orders texts.
pub open spec fn utf8(s: Seq<char>) -> Seq<u8> {
    encode_utf8(s)
}

/// Strict lexicographic order on byte strings; a proper prefix comes first.
pub open spec fn bytes_lt(a: Seq<u8>, b: Seq<u8>) -> bool
    decreases a.len(),
{
    if b.len() == 0 {
        false
    } else if a.len() == 0 {
        true
    } else if a[0] < b[0] {
        true
    } else if a[0] > b[0] {
        false
    } else {
        bytes_lt(a.drop_first(), b.drop_first())
    }
}

pub proof fn lemma_bytes_lt_irreflexive(a: Seq<u8>)
    ensures
        !bytes_lt(a, a),
    decreases a.len(),
{
    if a.len() > 0 {
        lemma_bytes_lt_irreflexive(a.drop_first());
    }
}

pub proof fn lemma_bytes_lt_transitive(a: Seq<u8>, b: Seq<u8>, c: Seq<u8>)
    requires
        bytes_lt(a, b),
        bytes_lt(b, c),
    ensures
        bytes_lt(a, c),
    decreases a.len(),
{
    if a.len() > 0 && b.len() > 0 && c.len() > 0 && a[0] == b[0] && b[0] == c[0] {
        lemma_bytes_lt_transitive(a.drop_first(), b.drop_first(), c.drop_first());
    }
}

pub proof fn lemma_bytes_lt_total(a: Seq<u8>, b: Seq<u8>)
    requires
        a != b,
    ensures
        bytes_lt(a, b) || bytes_lt(b, a),
    decreases a.len(),
{
    if a.len() > 0 && b.len() > 0 && a[0] == b[0] {
        if a.drop_first() == b.drop_first() {
            assert(a =~= seq![a[0]] + a.drop_first());
            assert(b =~= seq![b[0]] + b.drop_first());
        }
        lemma_bytes_lt_total(a.drop_first(), b.drop_first());
    } else if a.len() == 0 && b.len() == 0 {
        assert(a =~= b);
    }
}

/// Compares two byte strings: negative, zero or positive as `a` comes
/// before, equals or comes after `b`.
pub fn compare_bytes(a: &[u8], b: &[u8]) -> (r: i8)
    ensures
        r < 0 <==> bytes_lt(a@, b@),
        r == 0 <==> a@ == b@,
        r > 0 <==> bytes_lt(b@, a@),
{
    let mut i: usize = 0;
    assert(a@.skip(0) =~= a@);
    assert(b@.skip(0) =~= b@);
    while i < a.len() && i < b.len() && a[i] == b[i]
        invariant
            i <= a@.len(),
            i <= b@.len(),
            bytes_lt(a@, b@) == bytes_lt(a@.skip(i as int), b@.skip(i as int)),
            bytes_lt(b@, a@) == bytes_lt(b@.skip(i as int), a@.skip(i as int)),
            (a@ == b@) == (a@.skip(i as int) == b@.skip(i as int)),
        decreases a@.len() - i,
    {
        let ghost sa = a@.skip(i as int);
        let ghost sb = b@.skip(i as int);
        proof {
            assert(sa.drop_first() =~= a@.skip(i + 1));
            assert(sb.drop_first() =~= b@.skip(i + 1));
            assert(sa =~= seq![sa[0]] + sa.drop_first());
            assert(sb =~= seq![sb[0]] + sb.drop_first());
            if sa.drop_first() == sb.drop_first() {
                assert(sa == sb);
            }
        }
        i = i + 1;
    }
    let ghost sa = a@.skip(i as int);
    let ghost sb = b@.skip(i as int);
    if i < a.len() && i < b.len() {
        if a[i] < b[i] {
            -1
        } else {
            assert(sa[0] != sb[0]);
            1
        }
    } else if i < b.len() {
        assert(sa.len() == 0 && sb.len() > 0);
        -1
    } else if i < a.len() {
        assert(sb.len() == 0 && sa.len() > 0);
        1
    } else {
        assert(sa =~= sb);
        0
    }
}

/// Compares two texts in the order of `str`.
pub fn compare_text(a: &str, b: &str) -> (r: i8)
    ensures
        r < 0 <==> bytes_lt(utf8(a@), utf8(b@)),
        r == 0 <==> utf8(a@) == utf8(b@),
        r > 0 <==> bytes_lt(utf8(b@), utf8(a@)),
{
    compare_bytes(a.as_bytes(), b.as_bytes())
}

/// A display rank: a larger count first, then three byte keys in ascending order.
pub struct Rank {
    pub count: int,
    pub first: Seq<u8>,
    pub second: Seq<u8>,
    pub third: Seq<u8>,
}

pub open spec fn rank_lt(a: Rank, b: Rank) -> bool {
    a.count > b.count || (a.count == b.count && (bytes_lt(a.first, b.first) || (a.first
        == b.first && (bytes_lt(a.second, b.second) || (a.second == b.second && bytes_lt(
        a.third,
        b.third,
    ))))))
}

pub proof fn lemma_rank_lt_transitive(a: Rank, b: Rank, c: Rank)
    requires
        rank_lt(a, b),
        rank_lt(b, c),
    ensures
        rank_lt(a, c),
{
    if a.count == c.count {
        if bytes_lt(a.first, b.first) && bytes_lt(b.first, c.first) {
            lemma_bytes_lt_transitive(a.first, b.first, c.first);
        }
        if bytes_lt(a.second, b.second) && bytes_lt(b.second, c.second) {
            lemma_bytes_lt_transitive(a.second, b.second, c.second);
        }
        if bytes_lt(a.third, b.third) && bytes_lt(b.third, c.third) {
            lemma_bytes_lt_transitive(a.third, b.third, c.third);
        }
    }
}

pub proof fn lemma_rank_lt_not_both(a: Rank, b: Rank)
    ensures
        !(rank_lt(a, b) && rank_lt(b, a)),
{
    if rank_lt(a, b) && rank_lt(b, a) {
        lemma_rank_lt_transitive(a, b, a);
        lemma_bytes_lt_irreflexive(a.first);
        lemma_bytes_lt_irreflexive(a.second);
        lemma_bytes_lt_irreflexive(a.third);
    }
}

pub proof fn lemma_rank_lt_total(a: Rank, b: Rank)
    requires
        !rank_lt(b, a),
    ensures
        rank_lt(a, b) || a == b,
{
    if a.first != b.first {
        lemma_bytes_lt_total(a.first, b.first);
    }
    if a.second != b.second {
        lemma_bytes_lt_total(a.second, b.second);
    }
    if a.third != b.third {
        lemma_bytes_lt_total(a.third, b.third);
    }
}

/// Items that carry a display rank.
pub trait Ranked: Sized {
    spec fn rank(&self) -> Rank;

    fn precedes(&self, other: &Self) -> (r: bool)
        ensures
            r == rank_lt(self.rank(), other.rank()),
    ;
}

/// No item is ranked before one that comes earlier.
pub open spec fn ranked_in_order<T: Ranked>(s: Seq<T>) -> bool {
    forall|i: int, j: int| 0 <= i < j < s.len() ==> !rank_lt(#[trigger] s[j].rank(), #[trigger] s[i].rank())
}

/// `r` holds at each place a distinct place of `s`.
pub open spec fn drawn_from<T>(r: Seq<T>, s: Seq<T>) -> bool {
    exists|p: Seq<int>|
        #![trigger p.len()]
        p.len() == r.len() && (forall|i: int|
            0 <= i < p.len() ==> 0 <= #[trigger] p[i] < s.len() && r[i] == s[p[i]]) && (forall|
            i: int,
            j: int,
        | 0 <= i < j < p.len() ==> #[trigger] p[i] != #[trigger] p[j])
}

/// Sorts by rank; items of equal rank keep their relative order.
pub fn sort_ranked<T: Ranked>(items: Vec<T>) -> (r: Vec<T>)
    ensures
        r@.to_multiset() == items@.to_multiset(),
        ranked_in_order(r@),
        drawn_from(r@, items@),
{
    broadcast use vstd::seq_lib::group_to_multiset_ensures;

    let ghost all = items@;
    let mut rest = items;
    let mut out: Vec<T> = Vec::new();
    let ghost mut p: Seq<int> = seq![];
    let ghost mut n: int = 0;
    assert(all.skip(0) =~= all);
    while rest.len() > 0
        invariant
            out@.to_multiset().add(rest@.to_multiset()) == all.to_multiset(),
            ranked_in_order(out@),
            0 <= n <= all.len(),
            rest@ == all.skip(n),
            p.len() == out@.len(),
            forall|i: int| 0 <= i < p.len() ==> 0 <= #[trigger] p[i] < n && out@[i] == all[p[i]],
            forall|i: int, j: int| 0 <= i < j < p.len() ==> #[trigger] p[i] != #[trigger] p[j],
        decreases rest.len(),
    {
        let ghost old_rest = rest@;
        let x = rest.remove(0);
        proof {
            old_rest.to_multiset_ensures();
            assert(old_rest.remove(0).to_multiset() == old_rest.to_multiset().remove(old_rest[0]));
            assert(old_rest.contains(old_rest[0]));
            assert(rest@ == old_rest.remove(0));
        }
        let mut pos: usize = 0;
        while pos < out.len() && !x.precedes(&out[pos])
            invariant
                pos <= out@.len(),
                forall|k: int| 0 <= k < pos ==> !rank_lt(x.rank(), #[trigger] out@[k].rank()),
            decreases out@.len() - pos,
        {
            pos = pos + 1;
        }
        let ghost before = out@;
        proof {
            to_multiset_insert(before, pos as int, x);
            assert forall|k: int| 0 <= k < pos implies !rank_lt(x.rank(), #[trigger] before[k].rank()) by {}
        }
        out.insert(pos, x);
        proof {
            assert(rest@ =~= all.skip(n + 1));
            let prior = p;
            p = prior.insert(pos as int, n);
            assert forall|i: int| 0 <= i < p.len() implies 0 <= #[trigger] p[i] < n + 1 && out@[i] == all[p[i]] by {
                if i < pos {
                    assert(p[i] == prior[i]);
                } else if i > pos {
                    assert(p[i] == prior[i - 1]);
                }
            }
            assert forall|i: int, j: int| 0 <= i < j < p.len() implies #[trigger] p[i] != #[trigger] p[j] by {
                if i < pos && j < pos {
                    assert(p[i] == prior[i] && p[j] == prior[j]);
                } else if i < pos && j > pos {
                    assert(p[i] == prior[i] && p[j] == prior[j - 1]);
                } else if i > pos {
                    assert(p[i] == prior[i - 1] && p[j] == prior[j - 1]);
                } else if i == pos {
                    assert(p[j] == prior[j - 1]);
                } else {
                    assert(p[i] == prior[i]);
                }
            }
            n = n + 1;
            assert(out@.to_multiset() == before.to_multiset().insert(x));
            assert(old_rest.to_multiset().count(x) > 0);
            assert(out@.to_multiset().add(rest@.to_multiset()) =~= before.to_multiset().add(
                old_rest.to_multiset(),
            ));
            assert forall|i: int, j: int| 0 <= i < j < out@.len() implies !rank_lt(
                #[trigger] out@[j].rank(),
                #[trigger] out@[i].rank(),
            ) by {
                if j == pos as int {
                    lemma_rank_lt_not_both(x.rank(), before[i].rank());
                    if rank_lt(x.rank(), before[i].rank()) {
                    } else {
                        lemma_rank_lt_total(before[i].rank(), x.rank());
                        if rank_lt(before[i].rank(), x.rank()) {
                            lemma_rank_lt_not_both(before[i].rank(), x.rank());
                        }
                    }
                } else if i == pos as int {
                    // x precedes before[pos], which is not after before[j - 1]
                    if rank_lt(before[j - 1].rank(), x.rank()) {
                        if j - 1 > pos {
                            assert(!rank_lt(before[j - 1].rank(), before[pos as int].rank()));
                            lemma_rank_lt_total(before[pos as int].rank(), before[j - 1].rank());
                            if rank_lt(before[pos as int].rank(), before[j - 1].rank()) {
                                lemma_rank_lt_transitive(x.rank(), before[pos as int].rank(), before[j - 1].rank());
                            }
                        }
                        lemma_rank_lt_not_both(x.rank(), before[j - 1].rank());
                    }
                } else if i < pos as int && j > pos as int {
                    assert(!rank_lt(before[j - 1].rank(), before[i].rank()));
                } else if i > pos as int {
                    assert(!rank_lt(before[j - 1].rank(), before[i - 1].rank()));
                }
            }
        }
    }
    assert(rest@.to_multiset() =~= Multiset::empty());
    assert(p.len() == out@.len());
    out
}

/// Mapping each item keeps two sequences with equal multisets so.
pub proof fn lemma_map_multiset<A, B>(a: Seq<A>, b: Seq<A>, f: spec_fn(A) -> B)
    requires
        a.to_multiset() == b.to_multiset(),
    ensures
        a.map_values(f).to_multiset() == b.map_values(f).to_multiset(),
    decreases a.len(),
{
    broadcast use vstd::seq_lib::group_to_multiset_ensures;

    a.to_multiset_ensures();
    b.to_multiset_ensures();
    if a.len() == 0 {
        assert(b.to_multiset().len() == 0);
        assert(a.map_values(f) =~= b.map_values(f));
    } else {
        let x = a.last();
        let n = a.len() - 1;
        assert(a.remove(n) =~= a.drop_last());
        assert(a.contains(x));
        assert(b.to_multiset().count(x) > 0);
        let k = choose|k: int| 0 <= k < b.len() && b[k] == x;
        assert(b.remove(k).to_multiset() == b.to_multiset().remove(x));
        assert(a.drop_last().to_multiset() == a.to_multiset().remove(x));
        lemma_map_multiset(a.drop_last(), b.remove(k), f);
        let ma = a.map_values(f);
        let mb = b.map_values(f);
        ma.to_multiset_ensures();
        mb.to_multiset_ensures();
        a.drop_last().map_values(f).to_multiset_ensures();
        assert(ma =~= a.drop_last().map_values(f).push(f(x)));
        assert(mb.remove(k) =~= b.remove(k).map_values(f));
        assert(mb.remove(k).to_multiset() == mb.to_multiset().remove(f(x)));
        assert(mb.contains(mb[k]));
        assert(mb.to_multiset() =~= mb.to_multiset().remove(f(x)).insert(f(x)));
    }
}

/// Two rank sequences in order with the same ranks are the same sequence.
pub proof fn lemma_ordered_ranks_unique(a: Seq<Rank>, b: Seq<Rank>)
    requires
        a.to_multiset() == b.to_multiset(),
        forall|i: int, j: int| 0 <= i < j < a.len() ==> !rank_lt(#[trigger] a[j], #[trigger] a[i]),
        forall|i: int, j: int| 0 <= i < j < b.len() ==> !rank_lt(#[trigger] b[j], #[trigger] b[i]),
    ensures
        a == b,
    decreases a.len(),
{
    broadcast use vstd::seq_lib::group_to_multiset_ensures;

    a.to_multiset_ensures();
    b.to_multiset_ensures();
    if a.len() == 0 {
        assert(b.len() == 0);
        assert(a =~= b);
    } else {
        assert(b.len() == a.len());
        assert(a.contains(a[0]));
        assert(b.to_multiset().count(a[0]) > 0);
        let k = choose|k: int| 0 <= k < b.len() && b[k] == a[0];
        assert(b.contains(b[0]));
        assert(a.to_multiset().count(b[0]) > 0);
        let m = choose|m: int| 0 <= m < a.len() && a[m] == b[0];
        lemma_rank_lt_not_both(a[0], a[0]);
        if k > 0 {
            assert(!rank_lt(b[k], b[0]));
        }
        if m > 0 {
            assert(!rank_lt(a[m], a[0]));
        }
        assert(!rank_lt(b[0], a[0]));
        assert(!rank_lt(a[0], b[0]));
        lemma_rank_lt_total(a[0], b[0]);
        assert(a[0] == b[0]);
        assert(a.remove(0) =~= a.drop_first());
        assert(b.remove(0) =~= b.drop_first());
        assert(a.drop_first().to_multiset() == b.drop_first().to_multiset());
        lemma_ordered_ranks_unique(a.drop_first(), b.drop_first());
        assert(a =~= seq![a[0]] + a.drop_first());
        assert(b =~= seq![b[0]] + b.drop_first());
    }
}

/// Two rank sequences in strictly ascending order that hold the same ranks
/// are the same sequence.
pub proof fn lemma_strict_ranks_unique(a: Seq<Rank>, b: Seq<Rank>)
    requires
        forall|x: Rank| a.contains(x) <==> b.contains(x),
        forall|i: int, j: int| 0 <= i < j < a.len() ==> rank_lt(#[trigger] a[i], #[trigger] a[j]),
        forall|i: int, j: int| 0 <= i < j < b.len() ==> rank_lt(#[trigger] b[i], #[trigger] b[j]),
    ensures
        a == b,
    decreases a.len() + b.len(),
{
    if a.len() == 0 {
        if b.len() > 0 {
            assert(b.contains(b[0]));
        }
        assert(a =~= b);
    } else if b.len() == 0 {
        assert(a.contains(a[0]));
    } else {
        assert(a.contains(a[0]));
        let k = choose|k: int| 0 <= k < b.len() && b[k] == a[0];
        assert(b.contains(b[0]));
        let m = choose|m: int| 0 <= m < a.len() && a[m] == b[0];
        if k > 0 && m > 0 {
            lemma_rank_lt_transitive(a[0], b[0], a[0]);
            lemma_rank_lt_not_both(a[0], a[0]);
        } else if k > 0 {
            assert(b[0] == a[0]);
            lemma_rank_lt_not_both(b[0], b[0]);
        } else if m > 0 {
            lemma_rank_lt_not_both(a[0], a[0]);
        }
        assert(a[0] == b[0]);
        let ta = a.drop_first();
        let tb = b.drop_first();
        assert forall|x: Rank| ta.contains(x) <==> tb.contains(x) by {
            if ta.contains(x) {
                let i = choose|i: int| 0 <= i < ta.len() && ta[i] == x;
                assert(a[i + 1] == x);
                assert(rank_lt(a[0], a[i + 1]));
                lemma_rank_lt_not_both(x, x);
                assert(b.contains(x));
                let j = choose|j: int| 0 <= j < b.len() && b[j] == x;
                assert(j != 0);
                assert(tb[j - 1] == x);
            }
            if tb.contains(x) {
                let i = choose|i: int| 0 <= i < tb.len() && tb[i] == x;
                assert(b[i + 1] == x);
                assert(rank_lt(b[0], b[i + 1]));
                lemma_rank_lt_not_both(x, x);
                assert(a.contains(x));
                let j = choose|j: int| 0 <= j < a.len() && a[j] == x;
                assert(j != 0);
                assert(ta[j - 1] == x);
            }
        }
        lemma_strict_ranks_unique(ta, tb);
        assert(a =~= seq![a[0]] + ta);
        assert(b =~= seq![b[0]] + tb);
    }
}

} // verus!
