//! Characters, trimming, and line splitting: the model of plain text that
//! the counters work on. A file's content is a sequence of characters; it is
//! split into lines at `'\n'` (a `'\r'` directly before the split is
//! dropped), and each line is trimmed of leading and trailing whitespace
//! before it is classified.

use vstd::prelude::*;
use vstd::string::StrSliceExecFns;

verus! {

/// The Unicode `White_Space` code points: the characters that trimming
/// removes from the ends of a line.
pub open spec fn is_space_char(c: char) -> bool {
    (0x09 <= c as int && c as int <= 0x0d) || c as int == 0x20 || c as int == 0x85
        || c as int == 0xa0 || c as int == 0x1680 || (0x2000 <= c as int && c as int <= 0x200a)
        || c as int == 0x2028 || c as int == 0x2029 || c as int == 0x202f || c as int == 0x205f
        || c as int == 0x3000
}

/// Decides `is_space_char`.
pub fn is_space(c: char) -> (r: bool)
    ensures
        r == is_space_char(c),
{
    let u = c as u32;
    (0x09 <= u && u <= 0x0d) || u == 0x20 || u == 0x85 || u == 0xa0 || u == 0x1680 || (0x2000 <= u
        && u <= 0x200a) || u == 0x2028 || u == 0x2029 || u == 0x202f || u == 0x205f || u == 0x3000
}

/// `s` with its leading whitespace removed.
pub open spec fn trimmed_start(s: Seq<char>) -> Seq<char>
    decreases s.len(),
{
    if s.len() > 0 && is_space_char(s[0]) {
        trimmed_start(s.drop_first())
    } else {
        s
    }
}

/// `s` with its trailing whitespace removed.
pub open spec fn trimmed_end(s: Seq<char>) -> Seq<char>
    decreases s.len(),
{
    if s.len() > 0 && is_space_char(s.last()) {
        trimmed_end(s.drop_last())
    } else {
        s
    }
}

/// `s` with leading and trailing whitespace removed.
pub open spec fn trimmed(s: Seq<char>) -> Seq<char> {
    trimmed_end(trimmed_start(s))
}

proof fn lemma_trimmed_start_len(s: Seq<char>)
    ensures
        trimmed_start(s).len() <= s.len(),
    decreases s.len(),
{
    if s.len() > 0 && is_space_char(s[0]) {
        lemma_trimmed_start_len(s.drop_first());
    }
}

proof fn lemma_trimmed_end_len(s: Seq<char>)
    ensures
        trimmed_end(s).len() <= s.len(),
    decreases s.len(),
{
    if s.len() > 0 && is_space_char(s.last()) {
        lemma_trimmed_end_len(s.drop_last());
    }
}

/// Trimming never lengthens a line.
pub proof fn lemma_trimmed_len(s: Seq<char>)
    ensures
        trimmed(s).len() <= s.len(),
{
    lemma_trimmed_start_len(s);
    lemma_trimmed_end_len(trimmed_start(s));
}

/// The half-open index range of `line` that survives trimming.
pub fn trim_bounds(line: &Vec<char>) -> (r: (usize, usize))
    ensures
        r.0 <= r.1 <= line@.len(),
        line@.subrange(r.0 as int, r.1 as int) == trimmed(line@),
{
    let n = line.len();
    let mut lo: usize = 0;
    proof {
        assert(line@.skip(0) =~= line@);
    }
    while lo < n && is_space(line[lo])
        invariant
            lo <= n,
            n == line@.len(),
            trimmed_start(line@) == trimmed_start(line@.skip(lo as int)),
        decreases n - lo,
    {
        proof {
            assert(line@.skip(lo as int).drop_first() =~= line@.skip(lo as int + 1));
        }
        lo = lo + 1;
    }
    proof {
        assert(trimmed_start(line@.skip(lo as int)) == line@.skip(lo as int));
        assert(line@.skip(lo as int) =~= line@.subrange(lo as int, n as int));
    }
    let mut hi: usize = n;
    while hi > lo && is_space(line[hi - 1])
        invariant
            lo <= hi <= n,
            n == line@.len(),
            trimmed_start(line@) == line@.subrange(lo as int, n as int),
            trimmed_end(line@.subrange(lo as int, n as int)) == trimmed_end(
                line@.subrange(lo as int, hi as int),
            ),
        decreases hi,
    {
        proof {
            assert(line@.subrange(lo as int, hi as int).drop_last() =~= line@.subrange(
                lo as int,
                hi as int - 1,
            ));
        }
        hi = hi - 1;
    }
    proof {
        assert(trimmed_end(line@.subrange(lo as int, hi as int)) == line@.subrange(
            lo as int,
            hi as int,
        ));
    }
    (lo, hi)
}

/// How many times `c` occurs in `s`.
pub open spec fn count_ch(s: Seq<char>, c: char) -> nat
    decreases s.len(),
{
    if s.len() == 0 {
        0
    } else {
        (if s[0] == c {
            1nat
        } else {
            0nat
        }) + count_ch(s.drop_first(), c)
    }
}

/// A character cannot occur more often than the line is long.
pub proof fn lemma_count_ch_le(s: Seq<char>, c: char)
    ensures
        count_ch(s, c) <= s.len(),
    decreases s.len(),
{
    if s.len() > 0 {
        lemma_count_ch_le(s.drop_first(), c);
    }
}

/// `p` is a prefix of `s`.
pub open spec fn has_prefix(s: Seq<char>, p: Seq<char>) -> bool {
    p.len() <= s.len() && s.subrange(0, p.len() as int) == p
}

/// The index of the first `'\n'` in `s`, or `s.len()` if there is none.
pub open spec fn first_newline(s: Seq<char>) -> int
    decreases s.len(),
{
    if s.len() == 0 {
        0
    } else if s[0] == '\n' {
        0
    } else {
        1 + first_newline(s.drop_first())
    }
}

pub proof fn lemma_first_newline(s: Seq<char>)
    ensures
        0 <= first_newline(s) <= s.len(),
        first_newline(s) < s.len() ==> s[first_newline(s)] == '\n',
        forall|j: int| 0 <= j < first_newline(s) ==> s[j] != '\n',
    decreases s.len(),
{
    if s.len() > 0 && s[0] != '\n' {
        lemma_first_newline(s.drop_first());
        assert forall|j: int| 0 <= j < first_newline(s) implies s[j] != '\n' by {
            if j > 0 {
                assert(s.drop_first()[j - 1] != '\n');
            }
        }
    }
}

/// A line as split at a `'\n'`: one carriage return directly before the
/// split is dropped.
pub open spec fn drop_trailing_cr(s: Seq<char>) -> Seq<char> {
    if s.len() > 0 && s.last() == '\r' {
        s.drop_last()
    } else {
        s
    }
}

/// The lines of a text: split at each `'\n'` (dropping a `'\r'` directly
/// before it); a final segment without a line break is a line of its own
/// unless it is empty.
pub open spec fn split_lines(s: Seq<char>) -> Seq<Seq<char>>
    decreases s.len(),
    via split_lines_decreases
{
    if s.len() == 0 {
        Seq::empty()
    } else {
        let i = first_newline(s);
        if i == s.len() {
            seq![s]
        } else {
            seq![drop_trailing_cr(s.subrange(0, i))] + split_lines(s.skip(i + 1))
        }
    }
}

#[via_fn]
proof fn split_lines_decreases(s: Seq<char>) {
    lemma_first_newline(s);
}

/// Splitting steps over the first line: the part before the first `'\n'`
/// becomes one line, the rest is split on its own.
pub proof fn lemma_split_lines_step(pre: Seq<char>, rest: Seq<char>)
    requires
        forall|j: int| 0 <= j < pre.len() ==> pre[j] != '\n',
    ensures
        split_lines(pre + seq!['\n'] + rest) == seq![drop_trailing_cr(pre)] + split_lines(rest),
{
    let s = pre + seq!['\n'] + rest;
    lemma_first_newline_prefix(pre, rest);
    assert(s.subrange(0, pre.len() as int) =~= pre);
    assert(s.skip(pre.len() as int + 1) =~= rest);
}

proof fn lemma_first_newline_prefix(pre: Seq<char>, rest: Seq<char>)
    requires
        forall|j: int| 0 <= j < pre.len() ==> pre[j] != '\n',
    ensures
        first_newline(pre + seq!['\n'] + rest) == pre.len(),
    decreases pre.len(),
{
    let s = pre + seq!['\n'] + rest;
    if pre.len() == 0 {
        assert(s[0] == '\n');
    } else {
        assert(s[0] == pre[0]);
        lemma_first_newline_prefix(pre.drop_first(), rest);
        assert(s.drop_first() =~= pre.drop_first() + seq!['\n'] + rest);
    }
}

proof fn lemma_first_newline_none(s: Seq<char>)
    requires
        forall|j: int| 0 <= j < s.len() ==> s[j] != '\n',
    ensures
        first_newline(s) == s.len(),
    decreases s.len(),
{
    if s.len() > 0 {
        lemma_first_newline_none(s.drop_first());
    }
}

/// A non-empty text without a line break is a single line.
pub proof fn lemma_split_lines_last(pre: Seq<char>)
    requires
        pre.len() > 0,
        forall|j: int| 0 <= j < pre.len() ==> pre[j] != '\n',
    ensures
        split_lines(pre) == seq![pre],
{
    lemma_first_newline_none(pre);
}

proof fn lemma_first_newline_append(a: Seq<char>, b: Seq<char>)
    requires
        first_newline(a) < a.len(),
    ensures
        first_newline(a + b) == first_newline(a),
    decreases a.len(),
{
    lemma_first_newline(a);
    if a[0] == '\n' {
        assert((a + b)[0] == '\n');
    } else {
        lemma_first_newline_append(a.drop_first(), b);
        assert((a + b)[0] == a[0]);
        assert((a + b).drop_first() =~= a.drop_first() + b);
    }
}

/// A text that ends at a line break splits independently of what follows.
pub proof fn lemma_split_lines_append(a: Seq<char>, b: Seq<char>)
    requires
        a.len() == 0 || a.last() == '\n',
    ensures
        split_lines(a + b) == split_lines(a) + split_lines(b),
    decreases a.len(),
{
    if a.len() == 0 {
        assert(a + b =~= b);
        assert(split_lines(a) + split_lines(b) =~= split_lines(b));
    } else {
        lemma_first_newline(a);
        let i = first_newline(a);
        assert(i < a.len()) by {
            assert(a[a.len() - 1] == '\n');
        }
        lemma_first_newline_append(a, b);
        assert((a + b).subrange(0, i) =~= a.subrange(0, i));
        assert((a + b).skip(i + 1) =~= a.skip(i + 1) + b);
        let a2 = a.skip(i + 1);
        assert(a2.len() == 0 || a2.last() == '\n') by {
            if a2.len() > 0 {
                assert(a2.last() == a.last());
            }
        }
        lemma_split_lines_append(a2, b);
        let head = drop_trailing_cr(a.subrange(0, i));
        if i + 1 == a.len() {
            assert(a2 =~= Seq::<char>::empty());
        }
        assert(split_lines(a) == seq![head] + split_lines(a2));
        assert(split_lines(a + b) == seq![head] + (split_lines(a2) + split_lines(b)));
        assert(seq![head] + (split_lines(a2) + split_lines(b)) =~= (seq![head] + split_lines(a2))
            + split_lines(b));
    }
}

proof fn lemma_all_space_trim_start(s: Seq<char>)
    requires
        forall|j: int| 0 <= j < s.len() ==> is_space_char(s[j]),
    ensures
        trimmed_start(s) == Seq::<char>::empty(),
    decreases s.len(),
{
    if s.len() > 0 {
        assert(is_space_char(s[0]));
        assert forall|j: int| 0 <= j < s.drop_first().len() implies is_space_char(
            s.drop_first()[j],
        ) by {
            assert(s.drop_first()[j] == s[j + 1]);
        }
        lemma_all_space_trim_start(s.drop_first());
    } else {
        assert(s =~= Seq::<char>::empty());
    }
}

/// A line of whitespace alone trims to nothing.
pub proof fn lemma_all_space_trimmed_empty(s: Seq<char>)
    requires
        forall|j: int| 0 <= j < s.len() ==> is_space_char(s[j]),
    ensures
        trimmed(s).len() == 0,
{
    lemma_all_space_trim_start(s);
}

/// The characters held by a sequence of lines, in all lines together.
pub open spec fn sum_len(ls: Seq<Seq<char>>) -> nat
    decreases ls.len(),
{
    if ls.len() == 0 {
        0
    } else {
        ls[0].len() + sum_len(ls.drop_first())
    }
}

/// Splitting a text never yields more characters than the text holds.
pub proof fn lemma_sum_len_split_lines(s: Seq<char>)
    ensures
        sum_len(split_lines(s)) <= s.len(),
        split_lines(s).len() <= s.len(),
    decreases s.len(),
{
    lemma_first_newline(s);
    if s.len() > 0 {
        let i = first_newline(s);
        if i == s.len() {
            assert(split_lines(s) == seq![s]);
            assert(seq![s].drop_first() =~= Seq::<Seq<char>>::empty());
            assert(sum_len(Seq::<Seq<char>>::empty()) == 0);
            assert(sum_len(seq![s]) == s.len());
        } else {
            let head = drop_trailing_cr(s.subrange(0, i));
            let tail = split_lines(s.skip(i + 1));
            lemma_sum_len_split_lines(s.skip(i + 1));
            assert((seq![head] + tail).drop_first() =~= tail);
            assert((seq![head] + tail)[0] == head);
            assert(head.len() <= i);
            assert(s.skip(i + 1).len() == s.len() - i - 1);
            assert(sum_len(seq![head] + tail) == head.len() + sum_len(tail));
        }
    }
}

/// One more line adds exactly its length to the character total.
pub proof fn lemma_sum_len_take(ls: Seq<Seq<char>>, i: int)
    requires
        0 <= i < ls.len(),
    ensures
        sum_len(ls.take(i + 1)) == sum_len(ls.take(i)) + ls[i].len(),
    decreases i,
{
    if i == 0 {
        assert(ls.take(1).drop_first() =~= Seq::<Seq<char>>::empty());
        assert(ls.take(0) =~= Seq::<Seq<char>>::empty());
    } else {
        lemma_sum_len_take(ls.drop_first(), i - 1);
        assert(ls.take(i + 1).drop_first() =~= ls.drop_first().take(i));
        assert(ls.take(i).drop_first() =~= ls.drop_first().take(i - 1));
        assert(ls.take(i + 1)[0] == ls[0]);
        assert(ls.take(i)[0] == ls[0]);
        assert(ls.drop_first()[i - 1] == ls[i]);
    }
}

/// A prefix of the lines holds at most as many characters as all of them.
pub proof fn lemma_sum_len_take_le(ls: Seq<Seq<char>>, i: int)
    requires
        0 <= i <= ls.len(),
    ensures
        sum_len(ls.take(i)) <= sum_len(ls),
    decreases i,
{
    if i == 0 {
        assert(ls.take(0) =~= Seq::<Seq<char>>::empty());
    } else {
        lemma_sum_len_take_le(ls.drop_first(), i - 1);
        assert(ls.take(i).drop_first() =~= ls.drop_first().take(i - 1));
        assert(ls.take(i)[0] == ls[0]);
    }
}

/// The characters of `s`, in order, as a vector.
pub fn str_to_chars(s: &str) -> (r: Vec<char>)
    ensures
        r@ == s@,
{
    let n = s.unicode_len();
    let mut r: Vec<char> = Vec::new();
    let mut i: usize = 0;
    while i < n
        invariant
            i <= n,
            n == s@.len(),
            r@ == s@.subrange(0, i as int),
        decreases n - i,
    {
        let c = s.get_char(i);
        r.push(c);
        proof {
            assert(s@.subrange(0, i as int + 1) =~= s@.subrange(0, i as int).push(c));
        }
        i = i + 1;
    }
    proof {
        assert(s@.subrange(0, n as int) =~= s@);
    }
    r
}

/// The lines of `chars`, as `split_lines` names them.
pub fn split_content(chars: &Vec<char>) -> (r: Vec<Vec<char>>)
    ensures
        r@.map_values(|l: Vec<char>| l@) == split_lines(chars@),
{
    let n = chars.len();
    let mut out: Vec<Vec<char>> = Vec::new();
    let mut cur: Vec<char> = Vec::new();
    let mut i: usize = 0;
    proof {
        assert(cur@ + chars@.skip(0) =~= chars@);
        assert(out@.map_values(|l: Vec<char>| l@) =~= Seq::<Seq<char>>::empty());
    }
    while i < n
        invariant
            i <= n,
            n == chars@.len(),
            forall|j: int| 0 <= j < cur@.len() ==> cur@[j] != '\n',
            split_lines(chars@) == out@.map_values(|l: Vec<char>| l@) + split_lines(
                cur@ + chars@.skip(i as int),
            ),
        decreases n - i,
    {
        let c = chars[i];
        if c == '\n' {
            let ghost pre = cur@;
            proof {
                assert(cur@ + chars@.skip(i as int) =~= pre + seq!['\n'] + chars@.skip(
                    i as int + 1,
                ));
                lemma_split_lines_step(pre, chars@.skip(i as int + 1));
            }
            if cur.len() > 0 && cur[cur.len() - 1] == '\r' {
                cur.pop();
            }
            proof {
                assert(cur@ =~= drop_trailing_cr(pre));
            }
            let ghost out0 = out@;
            out.push(cur);
            cur = Vec::new();
            proof {
                assert(out@.map_values(|l: Vec<char>| l@) =~= out0.map_values(|l: Vec<char>| l@)
                    + seq![drop_trailing_cr(pre)]);
                assert(out0.map_values(|l: Vec<char>| l@) + seq![drop_trailing_cr(pre)]
                    + split_lines(chars@.skip(i as int + 1)) =~= out0.map_values(|l: Vec<char>| l@)
                    + (seq![drop_trailing_cr(pre)] + split_lines(chars@.skip(i as int + 1))));
                assert(cur@ + chars@.skip(i as int + 1) =~= chars@.skip(i as int + 1));
            }
        } else {
            proof {
                assert(cur@.push(c) + chars@.skip(i as int + 1) =~= cur@ + chars@.skip(i as int));
            }
            cur.push(c);
        }
        i = i + 1;
    }
    proof {
        assert(cur@ + chars@.skip(n as int) =~= cur@);
    }
    if cur.len() > 0 {
        let ghost out0 = out@;
        let ghost cur0 = cur@;
        proof {
            lemma_split_lines_last(cur0);
        }
        out.push(cur);
        proof {
            assert(out@.map_values(|l: Vec<char>| l@) =~= out0.map_values(|l: Vec<char>| l@)
                + seq![cur0]);
        }
    } else {
        proof {
            assert(split_lines(cur@) =~= Seq::<Seq<char>>::empty());
            assert(out@.map_values(|l: Vec<char>| l@) + Seq::<Seq<char>>::empty() =~= out@
                .map_values(|l: Vec<char>| l@));
        }
    }
    out
}

} // verus!
