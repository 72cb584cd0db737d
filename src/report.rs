use vstd::prelude::*;
use vstd::string::StringExecFns;
use crate::filter::{selected, ReportOptions, Filter};
use crate::model::{FileDetection, LanguageGroup};
use crate::path::{normalized, strip_relative_parts};

verus! {

/// The text style of a piece of output.
#[derive(Clone, Copy, Debug, PartialEq, Eq, Structural)]
pub enum Style {
    /// Group headers.
    Title,
    /// Ordinary text.
    Plain,
    /// Language names beside a path.
    Language,
}

/// A piece of output text in one style.
pub struct Segment {
    pub style: Style,
    pub text: String,
}

pub open spec fn segments_view(v: Seq<Segment>) -> Seq<(Style, Seq<char>)> {
    v.map_values(|s: Segment| (s.style, s.text@))
}

proof fn lemma_segments_push(v: Seq<Segment>, s: Segment)
    ensures
        segments_view(v.push(s)) == segments_view(v).push((s.style, s.text@)),
{
    assert(segments_view(v.push(s)) =~= segments_view(v).push((s.style, s.text@)));
}

pub open spec fn digit_char(d: int) -> char {
    seq!['0', '1', '2', '3', '4', '5', '6', '7', '8', '9'][d]
}

/// The decimal digits of a number, without leading zeros.
pub open spec fn decimal(n: nat) -> Seq<char>
    decreases n,
{
    if n < 10 {
        seq![digit_char(n as int)]
    } else {
        decimal(n / 10) + seq![digit_char((n % 10) as int)]
    }
}

fn digit_text(d: u128) -> (r: &'static str)
    requires
        d < 10,
    ensures
        r@ == seq![digit_char(d as int)],
{
    proof {
        reveal_strlit("0");
        reveal_strlit("1");
        reveal_strlit("2");
        reveal_strlit("3");
        reveal_strlit("4");
        reveal_strlit("5");
        reveal_strlit("6");
        reveal_strlit("7");
        reveal_strlit("8");
        reveal_strlit("9");
    }
    match d {
        0 => "0",
        1 => "1",
        2 => "2",
        3 => "3",
        4 => "4",
        5 => "5",
        6 => "6",
        7 => "7",
        8 => "8",
        _ => "9",
    }
}

/// Appends the decimal digits of `n`.
pub fn append_decimal(out: &mut String, n: u128)
    ensures
        final(out)@ == old(out)@ + decimal(n as nat),
    decreases n,
{
    if n >= 10 {
        append_decimal(out, n / 10);
        out.append(digit_text(n % 10));
        assert(final(out)@ =~= old(out)@ + decimal(n as nat));
    } else {
        out.append(digit_text(n));
    }
}

/// The total number of files over all groups.
pub open spec fn total_files(groups: Seq<LanguageGroup>) -> nat
    decreases groups.len(),
{
    if groups.len() == 0 {
        0
    } else {
        total_files(groups.drop_last()) + groups.last().count()
    }
}

/// A share of `count` in `total`, in hundredths of a percent, rounded to
/// the nearest; an exact half goes to the even neighbour, as `{:.2}` does.
pub open spec fn hundredths(count: nat, total: nat) -> nat
    recommends
        total > 0,
{
    let q = (10000 * count) / total;
    let r = (10000 * count) % total;
    if 2 * r > total || (2 * r == total && q % 2 == 1) {
        (q + 1) as nat
    } else {
        q as nat
    }
}

/// A share in hundredths of a percent, written with two decimals.
pub open spec fn percent_text(h: nat) -> Seq<char> {
    decimal(h / 100) + seq!['.', digit_char(((h % 100) / 10) as int), digit_char((h % 10) as int)]
}

/// One summary line: `<percentage>% <language>`.
pub open spec fn share_line(g: LanguageGroup, total: nat) -> Seq<char> {
    percent_text(hundredths(g.count(), total)) + seq!['%', ' '] + g.language@ + seq!['\n']
}

pub open spec fn share_lines(groups: Seq<LanguageGroup>, total: nat) -> Seq<char>
    decreases groups.len(),
{
    if groups.len() == 0 {
        seq![]
    } else {
        share_lines(groups.drop_last(), total) + share_line(groups.last(), total)
    }
}

/// The percentage summary: nothing when there are no files.
pub open spec fn language_split(groups: Seq<LanguageGroup>) -> Seq<char> {
    if total_files(groups) == 0 {
        seq![]
    } else {
        share_lines(groups, total_files(groups))
    }
}

proof fn lemma_total_files_prefix(groups: Seq<LanguageGroup>, i: int)
    requires
        0 <= i < groups.len(),
    ensures
        total_files(groups.take(i + 1)) == total_files(groups.take(i)) + groups[i].count(),
        total_files(groups.take(i)) <= total_files(groups),
    decreases groups.len(),
{
    assert(groups.take(i + 1).drop_last() =~= groups.take(i));
    if i + 1 < groups.len() {
        lemma_total_files_prefix(groups.drop_last(), i);
        assert(groups.drop_last().take(i) =~= groups.take(i));
    } else {
        assert(groups.take(i + 1) =~= groups);
    }
}

/// Writes the percentage summary, one line per group in the given order.
pub fn print_language_split(groups: &Vec<LanguageGroup>) -> (r: String)
    requires
        total_files(groups@) <= u64::MAX,
    ensures
        r@ == language_split(groups@),
{
    let mut total: u128 = 0;
    let mut i: usize = 0;
    while i < groups.len()
        invariant
            i <= groups@.len(),
            total == total_files(groups@.take(i as int)),
            total_files(groups@) <= u64::MAX,
        decreases groups@.len() - i,
    {
        proof {
            lemma_total_files_prefix(groups@, i as int);
        }
        total = total + groups[i].files.len() as u128;
        i = i + 1;
    }
    assert(groups@.take(i as int) =~= groups@);
    let mut out = String::new();
    if total == 0 {
        return out;
    }
    let ghost t = total as nat;
    let mut j: usize = 0;
    while j < groups.len()
        invariant
            j <= groups@.len(),
            t == total_files(groups@),
            t == total,
            0 < total <= u64::MAX,
            out@ == share_lines(groups@.take(j as int), t),
        decreases groups@.len() - j,
    {
        let g = &groups[j];
        proof {
            lemma_total_files_prefix(groups@, j as int);
        }
        let count = g.files.len() as u128;
        assert(count <= total) by {
            if j + 1 < groups@.len() {
                lemma_total_files_prefix(groups@, j as int + 1);
            } else {
                assert(groups@.take(j + 1) =~= groups@);
            }
        }
        let q = 10000 * count / total;
        let rem = 10000 * count % total;
        let h = if 2 * rem > total || (2 * rem == total && q % 2 == 1) {
            q + 1
        } else {
            q
        };
        let ghost before = out@;
        append_decimal(&mut out, h / 100);
        out.append(".");
        out.append(digit_text((h % 100) / 10));
        out.append(digit_text(h % 10));
        out.append("% ");
        out.append(g.language.as_str());
        out.append("\n");
        proof {
            reveal_strlit(".");
            reveal_strlit("% ");
            reveal_strlit("\n");
            assert(groups@.take(j + 1).drop_last() =~= groups@.take(j as int));
            assert(out@ =~= before + share_line(groups@[j as int], t));
        }
        j = j + 1;
    }
    assert(groups@.take(j as int) =~= groups@);
    out
}

/// ` (<n>)` and a line end.
pub open spec fn count_label(n: nat) -> Seq<char> {
    seq![' ', '('] + decimal(n) + seq![')', '\n']
}

/// A group header: the name in the title style, then its count.
pub open spec fn header(name: Seq<char>, n: nat) -> Seq<(Style, Seq<char>)> {
    seq![(Style::Title, name), (Style::Plain, count_label(n))]
}

/// One line per file: its display path.
pub open spec fn file_lines(files: Seq<FileDetection>) -> Seq<(Style, Seq<char>)>
    decreases files.len(),
{
    if files.len() == 0 {
        seq![]
    } else {
        file_lines(files.drop_last()).push(
            (Style::Plain, normalized(files.last().path@) + seq!['\n']),
        )
    }
}

/// The part of the file breakdown that belongs to one language.
pub open spec fn language_block(g: LanguageGroup, condensed: bool, filter: Option<Filter>) -> Seq<
    (Style, Seq<char>),
> {
    if !selected(filter, g.language@) {
        seq![]
    } else if condensed {
        header(g.language@, g.count())
    } else {
        header(g.language@, g.count()) + file_lines(g.files@) + seq![(Style::Plain, seq!['\n'])]
    }
}

/// The file breakdown: each shown language in the given order.
pub open spec fn file_breakdown(
    groups: Seq<LanguageGroup>,
    condensed: bool,
    filter: Option<Filter>,
) -> Seq<(Style, Seq<char>)>
    decreases groups.len(),
{
    if groups.len() == 0 {
        seq![]
    } else {
        file_breakdown(groups.drop_last(), condensed, filter) + language_block(
            groups.last(),
            condensed,
            filter,
        )
    }
}

/// Appends a group header.
pub fn push_header(out: &mut Vec<Segment>, name: &str, n: usize)
    ensures
        segments_view(final(out)@) == segments_view(old(out)@) + header(name@, n as nat),
{
    proof {
        reveal_strlit(" (");
        reveal_strlit(")\n");
        assert(" ("@ =~= seq![' ', '(']);
        assert(")\n"@ =~= seq![')', '\n']);
    }
    let mut label = String::new();
    label.append(" (");
    append_decimal(&mut label, n as u128);
    label.append(")\n");
    let ghost before = out@;
    let title = Segment { style: Style::Title, text: name.to_owned() };
    out.push(title);
    let ghost mid = out@;
    let count = Segment { style: Style::Plain, text: label };
    out.push(count);
    proof {
        lemma_segments_push(before, title);
        lemma_segments_push(mid, count);
        assert(label@ =~= count_label(n as nat));
        assert(title.text@ == name@);
        reveal_strlit(" (");
        reveal_strlit(")\n");
        assert(segments_view(out@) =~= segments_view(before) + header(name@, n as nat));
    }
}

/// Appends a blank separator line.
pub fn push_blank_line(out: &mut Vec<Segment>)
    ensures
        segments_view(final(out)@) == segments_view(old(out)@) + seq![(Style::Plain, seq!['\n'])],
{
    let ghost before = out@;
    let text = "\n".to_owned();
    proof {
        reveal_strlit("\n");
        assert(text@ =~= seq!['\n']);
    }
    let seg = Segment { style: Style::Plain, text };
    out.push(seg);
    proof {
        lemma_segments_push(before, seg);
    }
    assert(segments_view(out@) =~= segments_view(before) + seq![(Style::Plain, seq!['\n'])]);
}

/// Renders the file breakdown: for each language the filter shows, a header
/// with its file count and, unless condensed, each display path and a blank line.
pub fn print_file_breakdown(groups: &Vec<LanguageGroup>, options: &ReportOptions) -> (r: Vec<
    Segment,
>)
    ensures
        segments_view(r@) == file_breakdown(groups@, options.condensed, options.filter),
{
    let mut out: Vec<Segment> = Vec::new();
    let mut i: usize = 0;
    while i < groups.len()
        invariant
            i <= groups@.len(),
            segments_view(out@) == file_breakdown(groups@.take(i as int), options.condensed, options.filter),
        decreases groups@.len() - i,
    {
        let g = &groups[i];
        let ghost before = segments_view(out@);
        if options.selects(g.language.as_str()) {
            push_header(&mut out, g.language.as_str(), g.files.len());
            if !options.condensed {
                let ghost mid = segments_view(out@);
                let mut k: usize = 0;
                while k < g.files.len()
                    invariant
                        k <= g.files@.len(),
                        segments_view(out@) == mid + file_lines(g.files@.take(k as int)),
                    decreases g.files@.len() - k,
                {
                    let mut line = strip_relative_parts(g.files[k].path.as_str()).to_owned();
                    proof {
                        reveal_strlit("\n");
                        assert("\n"@ =~= seq!['\n']);
                    }
                    line.append("\n");
                    let ghost prev = out@;
                    let seg = Segment { style: Style::Plain, text: line };
                    out.push(seg);
                    proof {
                        lemma_segments_push(prev, seg);
                        reveal_strlit("\n");
                        assert(g.files@.take(k + 1).drop_last() =~= g.files@.take(k as int));
                        assert(segments_view(out@) =~= segments_view(prev) + seq![
                            (Style::Plain, normalized(g.files@[k as int].path@) + seq!['\n']),
                        ]);
                    }
                    k = k + 1;
                }
                assert(g.files@.take(k as int) =~= g.files@);
                push_blank_line(&mut out);
            }
        }
        proof {
            assert(groups@.take(i + 1).drop_last() =~= groups@.take(i as int));
            assert(segments_view(out@) =~= before + language_block(groups@[i as int], options.condensed, options.filter));
        }
        i = i + 1;
    }
    assert(groups@.take(i as int) =~= groups@);
    out
}

} // verus!
