//! The per-file region tracker. It counts every non-blank line, opens a test
//! region when a trimmed line starts with `#[cfg(test)]` or `#[test]`, counts
//! every line of an open region as a test line, and closes the region once a
//! brace was opened inside it and the brace depth is back to zero at the end
//! of a line.

use crate::lexer::{count_tok, lemma_count_tok_take, lemma_lex_braces, tokenize_chars, Token};
use crate::text::{
    count_ch, has_prefix, lemma_count_ch_le, lemma_trimmed_len, split_content, str_to_chars,
    trim_bounds, trimmed,
};
use vstd::prelude::*;

verus! {

/// The brace state of one open test region: whether a `{` was ever seen,
/// and the running count of unmatched `{` since the region opened. The
/// depth may go below zero on unmatched `}`; the region closes only once a
/// brace was found and the depth is exactly zero again.
pub ghost struct RegionModel {
    pub found: bool,
    pub depth: int,
}

/// Brace bookkeeping for one test region.
pub struct BraceCnt {
    found_brace: bool,
    brace_cnt: i128,
}

impl View for BraceCnt {
    type V = RegionModel;

    closed spec fn view(&self) -> RegionModel {
        RegionModel { found: self.found_brace, depth: self.brace_cnt as int }
    }
}

impl BraceCnt {
    /// A counter for a region in which no brace has been seen yet.
    pub fn new() -> (r: Self)
        ensures
            r@.found == false,
            r@.depth == 0,
    {
        BraceCnt { found_brace: false, brace_cnt: 0 }
    }

    /// Whether the region has closed: a `{` was seen and the depth is back
    /// to zero.
    pub fn lex_end(&self) -> (r: bool)
        ensures
            r == (self@.found && self@.depth == 0),
    {
        self.brace_cnt == 0 && self.found_brace
    }

    /// Feeds the characters `chars[lo..hi]` of a line to the lexer and
    /// absorbs its brace tokens: each `{` deepens the nesting by one and
    /// marks the region as braced, each `}` undoes one level. Tokens other
    /// than braces, and lexical errors, change nothing.
    pub fn lex_range(&mut self, chars: &Vec<char>, lo: usize, hi: usize)
        requires
            lo <= hi <= chars@.len(),
            old(self)@.depth - (hi - lo) >= i128::MIN,
            old(self)@.depth + (hi - lo) <= i128::MAX,
        ensures
            final(self)@.found == (old(self)@.found || count_ch(
                chars@.subrange(lo as int, hi as int),
                '{',
            ) > 0),
            final(self)@.depth == old(self)@.depth + count_ch(
                chars@.subrange(lo as int, hi as int),
                '{',
            ) - count_ch(chars@.subrange(lo as int, hi as int), '}'),
    {
        let ghost s = chars@.subrange(lo as int, hi as int);
        let toks = tokenize_chars(chars, lo, hi);
        let ghost ts = toks@;
        proof {
            lemma_lex_braces(s);
            lemma_count_ch_le(s, '{');
            lemma_count_ch_le(s, '}');
        }
        let n = toks.len();
        let mut k: usize = 0;
        let ghost found0 = self.found_brace;
        let ghost depth0 = self.brace_cnt as int;
        proof {
            assert(ts.take(0) =~= Seq::<Result<Token, crate::lexer::LexError>>::empty());
        }
        while k < n
            invariant
                k <= n,
                lo <= hi <= chars@.len(),
                n == ts.len(),
                toks@ == ts,
                s == chars@.subrange(lo as int, hi as int),
                count_tok(ts, Token::LBrace) == count_ch(s, '{'),
                count_tok(ts, Token::RBrace) == count_ch(s, '}'),
                count_ch(s, '{') <= hi - lo,
                count_ch(s, '}') <= hi - lo,
                depth0 - (hi - lo) >= i128::MIN,
                depth0 + (hi - lo) <= i128::MAX,
                self.found_brace == (found0 || count_tok(ts.take(k as int), Token::LBrace) > 0),
                self.brace_cnt as int == depth0 + count_tok(ts.take(k as int), Token::LBrace)
                    - count_tok(ts.take(k as int), Token::RBrace),
            decreases n - k,
        {
            proof {
                lemma_count_tok_take(ts, Token::LBrace, k as int);
                lemma_count_tok_take(ts, Token::RBrace, k as int);
                lemma_count_tok_take_le(ts, Token::LBrace, k as int + 1);
                lemma_count_tok_take_le(ts, Token::RBrace, k as int + 1);
            }
            match toks[k] {
                Ok(Token::LBrace) => {
                    self.brace_cnt = self.brace_cnt + 1;
                    self.found_brace = true;
                },
                Ok(Token::RBrace) => {
                    self.brace_cnt = self.brace_cnt - 1;
                },
                _ => {},
            }
            k = k + 1;
        }
        proof {
            assert(ts.take(n as int) =~= ts);
        }
    }

    /// Feeds a whole line of text to the lexer, as `lex_range` does for its
    /// characters.
    pub fn lex_line(&mut self, text: &str)
        requires
            old(self)@.depth - text@.len() >= i128::MIN,
            old(self)@.depth + text@.len() <= i128::MAX,
        ensures
            final(self)@.found == (old(self)@.found || count_ch(text@, '{') > 0),
            final(self)@.depth == old(self)@.depth + count_ch(text@, '{') - count_ch(text@, '}'),
    {
        let chars = str_to_chars(text);
        let n = chars.len();
        self.lex_range(&chars, 0, n);
        proof {
            assert(chars@.subrange(0, n as int) =~= text@);
        }
    }
}

/// A prefix of the tokens holds at most as many occurrences as all of them.
pub proof fn lemma_count_tok_take_le(
    ts: Seq<Result<Token, crate::lexer::LexError>>,
    t: Token,
    k: int,
)
    requires
        0 <= k <= ts.len(),
    ensures
        count_tok(ts.take(k), t) <= count_tok(ts, t),
    decreases k,
{
    if k == 0 {
        assert(ts.take(0) =~= Seq::<Result<Token, crate::lexer::LexError>>::empty());
    } else {
        lemma_count_tok_take_le(ts.drop_first(), t, k - 1);
        assert(ts.take(k).drop_first() =~= ts.drop_first().take(k - 1));
        assert(ts.take(k)[0] == ts[0]);
    }
}

/// The marker `#[cfg(test)]`.
pub open spec fn marker_cfg_test() -> Seq<char> {
    seq!['#', '[', 'c', 'f', 'g', '(', 't', 'e', 's', 't', ')', ']']
}

/// The marker `#[test]`.
pub open spec fn marker_test() -> Seq<char> {
    seq!['#', '[', 't', 'e', 's', 't', ']']
}

/// A trimmed line that opens a test region: it starts with one of the two
/// markers.
pub open spec fn line_is_marker(t: Seq<char>) -> bool {
    has_prefix(t, marker_cfg_test()) || has_prefix(t, marker_test())
}

/// The whole state of the tracker after some lines of a file: the two
/// counts, and the brace state of the open test region if one is open.
pub ghost struct CountModel {
    pub total: nat,
    pub test: nat,
    pub region: Option<RegionModel>,
}

/// The state before any line: nothing counted, no region open.
pub open spec fn init_model() -> CountModel {
    CountModel { total: 0, test: 0, region: None }
}

/// What one line of a file does to the tracker state. A line blank after
/// trimming changes nothing. Any other line counts once; it also counts as
/// a test line when a region is already open or the line itself starts one,
/// and then its braces move the depth, and the region closes when a brace
/// has been seen and the depth is back to zero.
pub open spec fn step_line(st: CountModel, line: Seq<char>) -> CountModel {
    let t = trimmed(line);
    if t.len() == 0 {
        st
    } else if st.region is Some || line_is_marker(t) {
        let r0 = match st.region {
            Some(r) => r,
            None => RegionModel { found: false, depth: 0 },
        };
        let r1 = RegionModel {
            found: r0.found || count_ch(t, '{') > 0,
            depth: r0.depth + count_ch(t, '{') - count_ch(t, '}'),
        };
        CountModel {
            total: st.total + 1,
            test: st.test + 1,
            region: if r1.found && r1.depth == 0 {
                None
            } else {
                Some(r1)
            },
        }
    } else {
        CountModel { total: st.total + 1, test: st.test, region: None }
    }
}

/// The tracker state after the given lines, starting from `st`.
pub open spec fn run_from(st: CountModel, lines: Seq<Seq<char>>) -> CountModel
    decreases lines.len(),
{
    if lines.len() == 0 {
        st
    } else {
        run_from(step_line(st, lines[0]), lines.drop_first())
    }
}

/// The counts of a whole file: its text split into lines and run through
/// the tracker from the fresh state.
pub open spec fn file_counts(content: Seq<char>) -> CountModel {
    run_from(init_model(), crate::text::split_lines(content))
}

/// Running one more line steps the state once.
pub proof fn lemma_run_from_take(st: CountModel, lines: Seq<Seq<char>>, i: int)
    requires
        0 <= i < lines.len(),
    ensures
        run_from(st, lines.take(i + 1)) == step_line(run_from(st, lines.take(i)), lines[i]),
    decreases i,
{
    if i == 0 {
        assert(lines.take(0) =~= Seq::<Seq<char>>::empty());
        assert(lines.take(1).drop_first() =~= Seq::<Seq<char>>::empty());
        assert(lines.take(1)[0] == lines[0]);
        assert(run_from(step_line(st, lines[0]), Seq::<Seq<char>>::empty()) == step_line(
            st,
            lines[0],
        ));
        assert(run_from(st, Seq::<Seq<char>>::empty()) == st);
    } else {
        lemma_run_from_take(step_line(st, lines[0]), lines.drop_first(), i - 1);
        assert(lines.take(i + 1).drop_first() =~= lines.drop_first().take(i));
        assert(lines.take(i).drop_first() =~= lines.drop_first().take(i - 1));
        assert(lines.take(i + 1)[0] == lines[0]);
        assert(lines.take(i)[0] == lines[0]);
        assert(lines.drop_first()[i - 1] == lines[i]);
    }
}

/// The brace depth the state carries, or zero while no region is open.
pub open spec fn region_depth(st: CountModel) -> int {
    match st.region {
        Some(r) => r.depth,
        None => 0,
    }
}

/// The machine limits under which the tracker can take one more line of
/// `n` characters: the counters and the brace depth stay representable.
pub open spec fn fits_line(st: CountModel, n: nat) -> bool {
    &&& st.total + 1 <= usize::MAX
    &&& st.test + 1 <= usize::MAX
    &&& region_depth(st) + n <= i128::MAX
    &&& region_depth(st) - n >= i128::MIN
}

/// The per-file accumulator: streams lines in, hands the two counts out.
pub struct RegionTracker {
    total_lines: usize,
    test_lines: usize,
    in_region: bool,
    brace: BraceCnt,
}

impl View for RegionTracker {
    type V = CountModel;

    closed spec fn view(&self) -> CountModel {
        CountModel {
            total: self.total_lines as nat,
            test: self.test_lines as nat,
            region: if self.in_region {
                Some(self.brace@)
            } else {
                None
            },
        }
    }
}

impl RegionTracker {
    /// A tracker for a fresh file.
    pub fn new() -> (r: Self)
        ensures
            r@ == init_model(),
    {
        RegionTracker { total_lines: 0, test_lines: 0, in_region: false, brace: BraceCnt::new() }
    }

    /// The counts so far: total non-blank lines, and test lines among them.
    pub fn result(&self) -> (r: (usize, usize))
        ensures
            r.0 == self@.total,
            r.1 == self@.test,
    {
        (self.total_lines, self.test_lines)
    }

    /// Takes one line, given as its characters, and steps the state.
    pub fn process_chars(&mut self, line: &Vec<char>)
        requires
            fits_line(old(self)@, line@.len()),
        ensures
            final(self)@ == step_line(old(self)@, line@),
    {
        let (lo, hi) = trim_bounds(line);
        let ghost t = trimmed(line@);
        proof {
            lemma_trimmed_len(line@);
            lemma_count_ch_le(t, '{');
            lemma_count_ch_le(t, '}');
        }
        if lo == hi {
            proof {
                assert(t.len() == 0);
            }
            return;
        }
        self.total_lines = self.total_lines + 1;
        if !self.in_region {
            if is_marker(line, lo, hi) {
                self.brace = BraceCnt::new();
                self.in_region = true;
            }
        }
        if self.in_region {
            self.test_lines = self.test_lines + 1;
            self.brace.lex_range(line, lo, hi);
            if self.brace.lex_end() {
                self.in_region = false;
            }
        }
        proof {
            assert(t =~= line@.subrange(lo as int, hi as int));
        }
    }

    /// Takes one line of text and steps the state.
    pub fn process_line(&mut self, line: &str)
        requires
            fits_line(old(self)@, line@.len()),
        ensures
            final(self)@ == step_line(old(self)@, line@),
    {
        let chars = str_to_chars(line);
        self.process_chars(&chars);
    }
}

/// Whether `line[lo..hi]` starts with one of the two test markers.
fn is_marker(line: &Vec<char>, lo: usize, hi: usize) -> (r: bool)
    requires
        lo <= hi <= line@.len(),
    ensures
        r == line_is_marker(line@.subrange(lo as int, hi as int)),
{
    let ghost t = line@.subrange(lo as int, hi as int);
    let len = hi - lo;
    let cfg = len >= 12 && line[lo] == '#' && line[lo + 1] == '[' && line[lo + 2] == 'c' && line[lo
        + 3] == 'f' && line[lo + 4] == 'g' && line[lo + 5] == '(' && line[lo + 6] == 't' && line[lo
        + 7] == 'e' && line[lo + 8] == 's' && line[lo + 9] == 't' && line[lo + 10] == ')' && line[lo
        + 11] == ']';
    let tst = len >= 7 && line[lo] == '#' && line[lo + 1] == '[' && line[lo + 2] == 't' && line[lo
        + 3] == 'e' && line[lo + 4] == 's' && line[lo + 5] == 't' && line[lo + 6] == ']';
    proof {
        if cfg {
            assert(t.subrange(0, 12) =~= marker_cfg_test());
        }
        if tst {
            assert(t.subrange(0, 7) =~= marker_test());
        }
        if has_prefix(t, marker_cfg_test()) {
            assert(t[0] == '#' && t[1] == '[' && t[2] == 'c' && t[3] == 'f' && t[4] == 'g' && t[5]
                == '(' && t[6] == 't' && t[7] == 'e' && t[8] == 's' && t[9] == 't' && t[10] == ')'
                && t[11] == ']') by {
                assert(forall|j: int|
                    0 <= j < 12 ==> t.subrange(0, 12)[j] == marker_cfg_test()[j]);
            }
        }
        if has_prefix(t, marker_test()) {
            assert(t[0] == '#' && t[1] == '[' && t[2] == 't' && t[3] == 'e' && t[4] == 's' && t[5]
                == 't' && t[6] == ']') by {
                assert(forall|j: int| 0 <= j < 7 ==> t.subrange(0, 7)[j] == marker_test()[j]);
            }
        }
    }
    cfg || tst
}

/// The two counts of one file's full text: non-blank lines, and the lines
/// that a test region claims. The result is exactly what the line model
/// names, so equal texts always count equally.
pub fn count_lines_in_content(content: &str) -> (r: (usize, usize))
    ensures
        r.0 == file_counts(content@).total,
        r.1 == file_counts(content@).test,
        r.1 <= r.0,
{
    proof {
        crate::laws::lemma_file_counts_wf(content@);
    }
    let chars = str_to_chars(content);
    let chars_len = chars.len();
    let lines = split_content(&chars);
    let ghost ls = crate::text::split_lines(content@);
    proof {
        assert(lines@.map_values(|l: Vec<char>| l@) == ls);
        crate::text::lemma_sum_len_split_lines(content@);
    }
    let n = lines.len();
    let mut tr = RegionTracker::new();
    let mut i: usize = 0;
    proof {
        assert(ls.take(0) =~= Seq::<Seq<char>>::empty());
        assert(crate::text::sum_len(ls.take(0)) == 0);
    }
    while i < n
        invariant
            i <= n,
            n == lines@.len(),
            chars_len == content@.len(),
            lines@.map_values(|l: Vec<char>| l@) == ls,
            ls.len() <= chars_len,
            crate::text::sum_len(ls) <= chars_len,
            tr@ == run_from(init_model(), ls.take(i as int)),
            tr@.total <= i,
            tr@.test <= i,
            region_depth(tr@) <= crate::text::sum_len(ls.take(i as int)),
            region_depth(tr@) >= -(crate::text::sum_len(ls.take(i as int)) as int),
            crate::text::sum_len(ls.take(i as int)) <= crate::text::sum_len(ls),
        decreases n - i,
    {
        let line = &lines[i];
        proof {
            assert(line@ == ls[i as int]);
            crate::text::lemma_sum_len_take(ls, i as int);
            crate::text::lemma_sum_len_take_le(ls, i as int + 1);
            lemma_trimmed_len(line@);
            lemma_count_ch_le(trimmed(line@), '{');
            lemma_count_ch_le(trimmed(line@), '}');
            lemma_run_from_take(init_model(), ls, i as int);
        }
        tr.process_chars(line);
        i = i + 1;
    }
    proof {
        assert(ls.take(n as int) =~= ls);
    }
    tr.result()
}

} // verus!
