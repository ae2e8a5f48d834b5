//! Laws of the counting model: facts that hold of every file, proved once
//! over the model that the executable counters are specified against.

use crate::text::{
    count_ch, drop_trailing_cr, is_space_char, lemma_all_space_trimmed_empty,
    lemma_split_lines_append, lemma_split_lines_step, split_lines, trimmed,
};
use crate::tracker::{
    file_counts, init_model, line_is_marker, run_from, step_line, CountModel, RegionModel,
};
use vstd::prelude::*;

verus! {

/// A state the tracker can be in: no more test lines than total lines.
pub open spec fn counts_wf(st: CountModel) -> bool {
    st.test <= st.total
}

/// One line keeps the counts well formed: a line counts as a test line only
/// if it counts at all.
pub proof fn lemma_step_line_wf(st: CountModel, line: Seq<char>)
    requires
        counts_wf(st),
    ensures
        counts_wf(step_line(st, line)),
{
}

/// Any run of lines keeps the counts well formed.
pub proof fn lemma_run_from_wf(st: CountModel, lines: Seq<Seq<char>>)
    requires
        counts_wf(st),
    ensures
        counts_wf(run_from(st, lines)),
    decreases lines.len(),
{
    if lines.len() > 0 {
        lemma_step_line_wf(st, lines[0]);
        lemma_run_from_wf(step_line(st, lines[0]), lines.drop_first());
    }
}

/// For every file, the test lines are at most the total lines; both counts
/// are nonnegative by type.
pub proof fn lemma_file_counts_wf(content: Seq<char>)
    ensures
        file_counts(content).test <= file_counts(content).total,
{
    lemma_run_from_wf(init_model(), split_lines(content));
}

/// Counting is a function of the text alone: two results that both meet the
/// counter's contract on the same text are the same pair.
pub proof fn lemma_counts_repeatable(content: Seq<char>, a: (usize, usize), b: (usize, usize))
    requires
        a.0 == file_counts(content).total,
        a.1 == file_counts(content).test,
        b.0 == file_counts(content).total,
        b.1 == file_counts(content).test,
    ensures
        a == b,
{
}

/// A line that is blank after trimming changes nothing.
pub proof fn lemma_blank_line_inert(st: CountModel, line: Seq<char>)
    requires
        trimmed(line).len() == 0,
    ensures
        step_line(st, line) == st,
{
}

/// Inserting a blank line anywhere leaves the whole run unchanged, so
/// neither count moves.
pub proof fn lemma_insert_blank_line(
    st: CountModel,
    lines: Seq<Seq<char>>,
    i: int,
    blank: Seq<char>,
)
    requires
        0 <= i <= lines.len(),
        trimmed(blank).len() == 0,
    ensures
        run_from(st, lines.insert(i, blank)) == run_from(st, lines),
    decreases i,
{
    if i == 0 {
        assert(lines.insert(0, blank)[0] == blank);
        assert(lines.insert(0, blank).drop_first() =~= lines);
        lemma_blank_line_inert(st, blank);
    } else {
        assert(lines.insert(i, blank)[0] == lines[0]);
        assert(lines.insert(i, blank).drop_first() =~= lines.drop_first().insert(i - 1, blank));
        lemma_insert_blank_line(step_line(st, lines[0]), lines.drop_first(), i - 1, blank);
    }
}

/// Removing a blank line leaves the whole run unchanged, so neither count
/// moves.
pub proof fn lemma_remove_blank_line(st: CountModel, lines: Seq<Seq<char>>, i: int)
    requires
        0 <= i < lines.len(),
        trimmed(lines[i]).len() == 0,
    ensures
        run_from(st, lines.remove(i)) == run_from(st, lines),
{
    assert(lines.remove(i).insert(i, lines[i]) =~= lines);
    lemma_insert_blank_line(st, lines.remove(i), i, lines[i]);
}

/// Running lines in two stretches is the same as running them in one.
pub proof fn lemma_run_from_append(st: CountModel, xs: Seq<Seq<char>>, ys: Seq<Seq<char>>)
    ensures
        run_from(st, xs + ys) == run_from(run_from(st, xs), ys),
    decreases xs.len(),
{
    if xs.len() == 0 {
        assert(xs + ys =~= ys);
    } else {
        assert((xs + ys)[0] == xs[0]);
        assert((xs + ys).drop_first() =~= xs.drop_first() + ys);
        lemma_run_from_append(step_line(st, xs[0]), xs.drop_first(), ys);
    }
}

/// Inserting one whitespace-only line at a line boundary of a file's text
/// changes neither count; read the other way, removing one changes neither.
/// `a` is the text up to the boundary (empty, or ending at a line break),
/// `w` the inserted line's characters, `b` the rest of the file.
pub proof fn lemma_insert_blank_text(a: Seq<char>, w: Seq<char>, b: Seq<char>)
    requires
        a.len() == 0 || a.last() == '\n',
        forall|j: int| 0 <= j < w.len() ==> is_space_char(w[j]),
        forall|j: int| 0 <= j < w.len() ==> w[j] != '\n',
    ensures
        file_counts(a + w + seq!['\n'] + b) == file_counts(a + b),
{
    assert(a + w + seq!['\n'] + b =~= a + (w + seq!['\n'] + b));
    lemma_split_lines_append(a, w + seq!['\n'] + b);
    lemma_split_lines_step(w, b);
    lemma_split_lines_append(a, b);
    let w1 = drop_trailing_cr(w);
    assert forall|j: int| 0 <= j < w1.len() implies is_space_char(w1[j]) by {
        assert(w1[j] == w[j]);
    }
    lemma_all_space_trimmed_empty(w1);
    let la = split_lines(a);
    let lb = split_lines(b);
    assert(split_lines(a + w + seq!['\n'] + b) == la + (seq![w1] + lb));
    assert(split_lines(a + b) == la + lb);
    lemma_run_from_append(init_model(), la, seq![w1] + lb);
    lemma_run_from_append(init_model(), la, lb);
    let st1 = run_from(init_model(), la);
    assert((seq![w1] + lb)[0] == w1);
    assert((seq![w1] + lb).drop_first() =~= lb);
    lemma_blank_line_inert(st1, w1);
    assert(run_from(st1, seq![w1] + lb) == run_from(step_line(st1, w1), lb));
}

/// Inside an open region, a non-blank line closes the region exactly when a
/// brace has been seen, on this line or before, and its braces bring the
/// depth back to zero: nested braces, still unmatched, keep it open.
pub proof fn lemma_region_closes_at_zero(st: CountModel, r0: RegionModel, line: Seq<char>)
    requires
        st.region == Some(r0),
        trimmed(line).len() > 0,
    ensures
        step_line(st, line).total == st.total + 1,
        step_line(st, line).test == st.test + 1,
        (step_line(st, line).region is None) <==> ((r0.found || count_ch(trimmed(line), '{') > 0)
            && r0.depth + count_ch(trimmed(line), '{') - count_ch(trimmed(line), '}') == 0),
        step_line(st, line).region is Some ==> step_line(st, line).region == Some(
            RegionModel {
                found: r0.found || count_ch(trimmed(line), '{') > 0,
                depth: r0.depth + count_ch(trimmed(line), '{') - count_ch(trimmed(line), '}'),
            },
        ),
{
}

/// With no region open and no marker line in sight, no line is ever counted
/// as a test line, whatever braces the lines hold.
pub proof fn lemma_no_marker_no_test(st: CountModel, lines: Seq<Seq<char>>)
    requires
        st.region is None,
        forall|i: int| 0 <= i < lines.len() ==> !line_is_marker(trimmed(lines[i])),
    ensures
        run_from(st, lines).test == st.test,
        run_from(st, lines).region is None,
    decreases lines.len(),
{
    if lines.len() > 0 {
        assert(!line_is_marker(trimmed(lines[0])));
        let st1 = step_line(st, lines[0]);
        assert forall|i: int| 0 <= i < lines.drop_first().len() implies !line_is_marker(
            trimmed(lines.drop_first()[i]),
        ) by {
            assert(lines.drop_first()[i] == lines[i + 1]);
        }
        lemma_no_marker_no_test(st1, lines.drop_first());
    }
}

/// A file without a marker line has zero test lines.
pub proof fn lemma_no_marker_file(content: Seq<char>)
    requires
        forall|i: int|
            0 <= i < split_lines(content).len() ==> !line_is_marker(
                trimmed(split_lines(content)[i]),
            ),
    ensures
        file_counts(content).test == 0,
{
    lemma_no_marker_no_test(init_model(), split_lines(content));
}

/// How many of the lines are non-blank after trimming.
pub open spec fn nonblank_count(lines: Seq<Seq<char>>) -> nat
    decreases lines.len(),
{
    if lines.len() == 0 {
        0
    } else {
        (if trimmed(lines[0]).len() > 0 {
            1nat
        } else {
            0nat
        }) + nonblank_count(lines.drop_first())
    }
}

/// A region in which no opening brace has been seen can never close: with
/// no `{` on any later line it absorbs the rest of the file, and every
/// non-blank line to the end counts as a test line.
pub proof fn lemma_unbraced_region_absorbs(st: CountModel, r0: RegionModel, lines: Seq<Seq<char>>)
    requires
        st.region == Some(r0),
        !r0.found,
        forall|i: int| 0 <= i < lines.len() ==> count_ch(trimmed(lines[i]), '{') == 0,
    ensures
        run_from(st, lines).total == st.total + nonblank_count(lines),
        run_from(st, lines).test == st.test + nonblank_count(lines),
        run_from(st, lines).region matches Some(r) && !r.found,
    decreases lines.len(),
{
    if lines.len() == 0 {
    } else {
        let st1 = step_line(st, lines[0]);
        assert(count_ch(trimmed(lines[0]), '{') == 0);
        assert forall|i: int| 0 <= i < lines.drop_first().len() implies count_ch(
            trimmed(lines.drop_first()[i]),
            '{',
        ) == 0 by {
            assert(lines.drop_first()[i] == lines[i + 1]);
        }
        if trimmed(lines[0]).len() == 0 {
            lemma_unbraced_region_absorbs(st1, r0, lines.drop_first());
        } else {
            let r1 = RegionModel { found: false, depth: r0.depth - count_ch(trimmed(lines[0]), '}') };
            assert(st1.region == Some(r1));
            lemma_unbraced_region_absorbs(st1, r1, lines.drop_first());
        }
    }
}

} // verus!
