use vstd::prelude::*;
use crate::model::{LanguageGroup, LanguageKind};
use crate::order::{ranked_in_order, sort_ranked};

verus! {

/// The type category that the language table gives a language name.
pub uninterp spec fn language_kind_of(name: Seq<char>) -> Option<LanguageKind>;

/// Relies on `hyperpolyglot::Language::try_from`: the table entry for the
/// name, if any, and its `language_type`.
#[verifier::external_body]
fn lookup_language_kind(name: &str) -> (r: Option<LanguageKind>)
    ensures
        r == language_kind_of(name@),
{
    hyperpolyglot::Language::try_from(name).ok().map(|l| match l.language_type {
        hyperpolyglot::LanguageType::Data => LanguageKind::Data,
        hyperpolyglot::LanguageType::Markup => LanguageKind::Markup,
        hyperpolyglot::LanguageType::Programming => LanguageKind::Programming,
        hyperpolyglot::LanguageType::Prose => LanguageKind::Prose,
    })
}

/// Only markup and programming languages are reported.
pub open spec fn reported(kind: Option<LanguageKind>) -> bool {
    kind == Some(LanguageKind::Markup) || kind == Some(LanguageKind::Programming)
}

/// Whether a language of this kind is reported.
pub fn is_reported_kind(kind: Option<LanguageKind>) -> (r: bool)
    ensures
        r == reported(kind),
{
    match kind {
        Some(LanguageKind::Markup) | Some(LanguageKind::Programming) => true,
        _ => false,
    }
}

/// The groups whose kind (at the same index) is reported, in their order.
pub open spec fn reported_groups(
    groups: Seq<LanguageGroup>,
    kinds: Seq<Option<LanguageKind>>,
) -> Seq<LanguageGroup>
    decreases groups.len(),
{
    if groups.len() == 0 {
        seq![]
    } else {
        let rest = reported_groups(groups.drop_first(), kinds.drop_first());
        if reported(kinds[0]) {
            seq![groups[0]] + rest
        } else {
            rest
        }
    }
}

/// Keeps the groups whose kind is reported; `kinds[i]` is the kind of `groups[i]`.
pub fn select_reported(groups: Vec<LanguageGroup>, kinds: &Vec<Option<LanguageKind>>) -> (r: Vec<
    LanguageGroup,
>)
    requires
        kinds@.len() == groups@.len(),
    ensures
        r@ == reported_groups(groups@, kinds@),
{
    let mut rest = groups;
    let mut out: Vec<LanguageGroup> = Vec::new();
    let mut i: usize = 0;
    let n = kinds.len();
    assert(kinds@.skip(0) =~= kinds@);
    assert(out@ + reported_groups(rest@, kinds@) =~= reported_groups(rest@, kinds@));
    while rest.len() > 0
        invariant
            i + rest@.len() == n,
            n == kinds@.len(),
            out@ + reported_groups(rest@, kinds@.skip(i as int)) == reported_groups(groups@, kinds@),
        decreases rest@.len(),
    {
        let ghost old_rest = rest@;
        let ghost ks = kinds@.skip(i as int);
        let g = rest.remove(0);
        proof {
            assert(rest@ =~= old_rest.drop_first());
            assert(ks.drop_first() =~= kinds@.skip(i + 1));
            assert(ks[0] == kinds@[i as int]);
        }
        if is_reported_kind(kinds[i]) {
            let ghost before = out@;
            out.push(g);
            proof {
                assert(out@ =~= before + seq![old_rest[0]]);
                assert(out@ + reported_groups(rest@, kinds@.skip(i + 1)) =~= before + (seq![
                    old_rest[0],
                ] + reported_groups(rest@, kinds@.skip(i + 1))));
            }
        }
        i = i + 1;
    }
    assert(out@ =~= out@ + reported_groups(rest@, kinds@.skip(i as int)));
    out
}

/// Orders groups by descending file count, then ascending language name.
pub fn sort_by_count(groups: Vec<LanguageGroup>) -> (r: Vec<LanguageGroup>)
    ensures
        r@.to_multiset() == groups@.to_multiset(),
        ranked_in_order(r@),
{
    sort_ranked(groups)
}

/// The kinds of the languages of a sequence of groups.
pub open spec fn kinds_of(groups: Seq<LanguageGroup>) -> Seq<Option<LanguageKind>> {
    Seq::new(groups.len(), |i: int| language_kind_of(groups[i].language@))
}

/// Drops every language that is neither markup nor programming, and orders
/// the rest by descending file count, then ascending language name.
pub fn group_languages(breakdown: Vec<LanguageGroup>) -> (r: Vec<LanguageGroup>)
    ensures
        r@.to_multiset() == reported_groups(breakdown@, kinds_of(breakdown@)).to_multiset(),
        ranked_in_order(r@),
{
    let mut kinds: Vec<Option<LanguageKind>> = Vec::new();
    let mut i: usize = 0;
    while i < breakdown.len()
        invariant
            i <= breakdown@.len(),
            kinds@ =~= kinds_of(breakdown@).take(i as int),
        decreases breakdown@.len() - i,
    {
        let k = lookup_language_kind(breakdown[i].language.as_str());
        kinds.push(k);
        i = i + 1;
    }
    assert(kinds@ =~= kinds_of(breakdown@));
    let selected = select_reported(breakdown, &kinds);
    sort_by_count(selected)
}

} // verus!
