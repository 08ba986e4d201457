//! Splitting text into sentences and words, and rendering a word list
//! back into one sentence string.

use vstd::prelude::*;
use vstd::string::StrSliceExecFns;
use vstd::string::StringExecFns;

verus! {

/// Whether `c` carries the Unicode white-space property; word splitting
/// breaks on exactly these characters.
pub open spec fn is_space_char(c: char) -> bool {
    let u = c as u32;
    ||| u == 0x09
    ||| u == 0x0A
    ||| u == 0x0B
    ||| u == 0x0C
    ||| u == 0x0D
    ||| u == 0x20
    ||| u == 0x85
    ||| u == 0xA0
    ||| u == 0x1680
    ||| (0x2000 <= u && u <= 0x200A)
    ||| u == 0x2028
    ||| u == 0x2029
    ||| u == 0x202F
    ||| u == 0x205F
    ||| u == 0x3000
}

/// Runtime check for [`is_space_char`].
pub fn is_space(c: char) -> (r: bool)
    ensures
        r == is_space_char(c),
{
    let u = c as u32;
    u == 0x09 || u == 0x0A || u == 0x0B || u == 0x0C || u == 0x0D || u == 0x20 || u == 0x85 || u
        == 0xA0 || u == 0x1680 || (0x2000 <= u && u <= 0x200A) || u == 0x2028 || u == 0x2029 || u
        == 0x202F || u == 0x205F || u == 0x3000
}

/// The default sentence boundary: a full stop, question or exclamation mark.
pub fn sentence_end(c: char) -> (r: bool)
    ensures
        r == (c == '.' || c == '?' || c == '!'),
{
    c == '.' || c == '?' || c == '!'
}

/// Length of the leading run of characters on which `p` does not hold.
pub open spec fn run_len(s: Seq<char>, p: spec_fn(char) -> bool) -> nat
    decreases s.len(),
{
    if s.len() == 0 || p(s[0]) {
        0
    } else {
        1 + run_len(s.drop_first(), p)
    }
}

pub proof fn lemma_run_len(s: Seq<char>, p: spec_fn(char) -> bool)
    ensures
        run_len(s, p) <= s.len(),
        forall|k: int| 0 <= k < run_len(s, p) ==> !p(s[k]),
        run_len(s, p) < s.len() ==> p(s[run_len(s, p) as int]),
    decreases s.len(),
{
    if s.len() > 0 && !p(s[0]) {
        let d = s.drop_first();
        lemma_run_len(d, p);
        let m = run_len(d, p);
        assert forall|k: int| 0 <= k < run_len(s, p) implies !p(s[k]) by {
            if k > 0 {
                assert(d[k - 1] == s[k]);
            }
        }
        if run_len(s, p) < s.len() {
            assert(d[m as int] == s[m as int + 1]);
        }
    }
}

/// The leading run ends exactly at the first position satisfying `p`.
pub proof fn lemma_run_len_is(s: Seq<char>, p: spec_fn(char) -> bool, m: int)
    requires
        0 <= m <= s.len(),
        forall|k: int| 0 <= k < m ==> !p(s[k]),
        m < s.len() ==> p(s[m]),
    ensures
        run_len(s, p) == m,
    decreases m,
{
    if m == 0 {
    } else {
        let d = s.drop_first();
        assert(forall|k: int| 0 <= k < d.len() ==> #[trigger] d[k] == s[k + 1]);
        lemma_run_len_is(d, p, m - 1);
    }
}

/// The maximal non-empty runs of characters on which `p` does not hold,
/// in order: the common shape of sentence splitting and word splitting.
pub open spec fn split_runs(s: Seq<char>, p: spec_fn(char) -> bool) -> Seq<Seq<char>>
    decreases s.len(),
    via split_runs_decreases
{
    if s.len() == 0 {
        Seq::empty()
    } else if p(s[0]) {
        split_runs(s.drop_first(), p)
    } else {
        seq![s.take(run_len(s, p) as int)] + split_runs(s.skip(run_len(s, p) as int), p)
    }
}

#[via_fn]
proof fn split_runs_decreases(s: Seq<char>, p: spec_fn(char) -> bool) {
    lemma_run_len(s, p);
}

/// The sum of the lengths of a list of character sequences.
pub open spec fn sum_lens(ws: Seq<Seq<char>>) -> nat
    decreases ws.len(),
{
    if ws.len() == 0 {
        0
    } else {
        ws[0].len() + sum_lens(ws.drop_first())
    }
}

/// Every run is non-empty and free of separator characters, and the runs
/// are no more numerous, and no longer in sum, than the split text.
pub proof fn lemma_split_runs_shape(s: Seq<char>, p: spec_fn(char) -> bool)
    ensures
        forall|i: int| 0 <= i < split_runs(s, p).len() ==> (#[trigger] split_runs(s, p)[i]).len()
            >= 1,
        forall|i: int, j: int|
            0 <= i < split_runs(s, p).len() && 0 <= j < split_runs(s, p)[i].len() ==> !p(
                #[trigger] split_runs(s, p)[i][j],
            ),
        split_runs(s, p).len() <= s.len(),
        sum_lens(split_runs(s, p)) <= s.len(),
    decreases s.len(),
{
    lemma_run_len(s, p);
    if s.len() == 0 {
    } else if p(s[0]) {
        lemma_split_runs_shape(s.drop_first(), p);
    } else {
        let m = run_len(s, p) as int;
        let w = s.take(m);
        let rest = split_runs(s.skip(m), p);
        let whole = split_runs(s, p);
        lemma_split_runs_shape(s.skip(m), p);
        assert(whole == seq![w] + rest);
        assert(whole[0] == w);
        assert(forall|i: int| 1 <= i < whole.len() ==> #[trigger] whole[i] == rest[i - 1]);
        assert(forall|k: int| 0 <= k < w.len() ==> !p(#[trigger] w[k]));
        assert(whole.drop_first() =~= rest);
        assert(sum_lens(whole) == w.len() + sum_lens(rest));
        assert(s.skip(m).len() == s.len() - m);
    }
}

/// Skipping a separator character does not change the split.
proof fn lemma_split_runs_skip_sep(s: Seq<char>, p: spec_fn(char) -> bool, i: int)
    requires
        0 <= i < s.len(),
        p(s[i]),
    ensures
        split_runs(s.skip(i), p) == split_runs(s.skip(i + 1), p),
{
    let t = s.skip(i);
    assert(t[0] == s[i]);
    assert(t.drop_first() =~= s.skip(i + 1));
}

/// A maximal run starting at `i` and ending before `j` is the next word
/// of the split.
proof fn lemma_split_runs_take_word(s: Seq<char>, p: spec_fn(char) -> bool, i: int, j: int)
    requires
        0 <= i < j <= s.len(),
        forall|k: int| i <= k < j ==> !p(s[k]),
        j < s.len() ==> p(s[j]),
    ensures
        split_runs(s.skip(i), p) == seq![s.subrange(i, j)] + split_runs(s.skip(j), p),
{
    let t = s.skip(i);
    assert(forall|k: int| 0 <= k < t.len() ==> #[trigger] t[k] == s[k + i]);
    lemma_run_len_is(t, p, j - i);
    assert(!p(t[0]));
    assert(t.take(j - i) =~= s.subrange(i, j));
    assert(t.skip(j - i) =~= s.skip(j));
}

/// The words of a sentence: maximal non-empty runs of non-white-space.
pub open spec fn space_pred() -> spec_fn(char) -> bool {
    |c: char| is_space_char(c)
}

pub open spec fn spec_words(s: Seq<char>) -> Seq<Seq<char>> {
    split_runs(s, space_pred())
}

/// The sentences of a text under a set of boundary characters: maximal
/// non-empty runs of non-boundary characters (empty sentences are skipped).
pub open spec fn delim_pred(d: Seq<char>) -> spec_fn(char) -> bool {
    |c: char| d.contains(c)
}

pub open spec fn spec_sentences(s: Seq<char>, d: Seq<char>) -> Seq<Seq<char>> {
    split_runs(s, delim_pred(d))
}

/// Whether `d` holds the character `c`.
fn contains_char(d: &Vec<char>, c: char) -> (r: bool)
    ensures
        r == d@.contains(c),
{
    let n = d.len();
    let mut i: usize = 0;
    while i < n
        invariant
            i <= n,
            n == d@.len(),
            forall|k: int| 0 <= k < i ==> d@[k] != c,
        decreases n - i,
    {
        if d[i] == c {
            return true;
        }
        i = i + 1;
    }
    false
}

/// Splits a sentence into its white-space-separated words.
pub fn split_words(s: &str) -> (r: Vec<String>)
    ensures
        r.deep_view() == spec_words(s@),
{
    let n = s.unicode_len();
    let mut out: Vec<String> = Vec::new();
    let mut i: usize = 0;
    proof {
        assert(s@.skip(0) =~= s@);
        assert(out.deep_view() + split_runs(s@, space_pred()) =~= split_runs(s@, space_pred()));
    }
    while i < n
        invariant
            i <= n,
            n == s@.len(),
            spec_words(s@) == out.deep_view() + split_runs(s@.skip(i as int), space_pred()),
        decreases n - i,
    {
        let c = s.get_char(i);
        if is_space(c) {
            proof {
                lemma_split_runs_skip_sep(s@, space_pred(), i as int);
            }
            i = i + 1;
        } else {
            let mut j = i + 1;
            while j < n && !is_space(s.get_char(j))
                invariant
                    i < j <= n,
                    n == s@.len(),
                    forall|k: int| i <= k < j ==> !is_space_char(s@[k]),
                decreases n - j,
            {
                j = j + 1;
            }
            let ghost out0 = out.deep_view();
            let w = s.substring_char(i, j).to_owned();
            out.push(w);
            proof {
                lemma_split_runs_take_word(s@, space_pred(), i as int, j as int);
                assert(out.deep_view() =~= out0.push(w@));
                assert(out0.push(w@) + split_runs(s@.skip(j as int), space_pred()) =~= out0 + (
                seq![s@.subrange(i as int, j as int)] + split_runs(
                    s@.skip(j as int),
                    space_pred(),
                )));
            }
            i = j;
        }
    }
    proof {
        assert(s@.skip(n as int) =~= Seq::<char>::empty());
        assert(out.deep_view() + Seq::<Seq<char>>::empty() =~= out.deep_view());
        assert(split_runs(Seq::<char>::empty(), space_pred()) =~= Seq::<Seq<char>>::empty());
    }
    out
}

/// Splits a text into its sentences: the maximal non-empty stretches free
/// of the given boundary characters.
pub fn split_sentences(s: &str, delimiters: &Vec<char>) -> (r: Vec<String>)
    ensures
        r.deep_view() == spec_sentences(s@, delimiters@),
{
    let ghost p = delim_pred(delimiters@);
    let n = s.unicode_len();
    let mut out: Vec<String> = Vec::new();
    let mut i: usize = 0;
    proof {
        assert(s@.skip(0) =~= s@);
        assert(out.deep_view() + split_runs(s@, p) =~= split_runs(s@, p));
    }
    while i < n
        invariant
            i <= n,
            n == s@.len(),
            p == delim_pred(delimiters@),
            spec_sentences(s@, delimiters@) == out.deep_view() + split_runs(s@.skip(i as int), p),
        decreases n - i,
    {
        let c = s.get_char(i);
        if contains_char(delimiters, c) {
            proof {
                lemma_split_runs_skip_sep(s@, p, i as int);
            }
            i = i + 1;
        } else {
            let mut j = i + 1;
            while j < n && !contains_char(delimiters, s.get_char(j))
                invariant
                    i < j <= n,
                    n == s@.len(),
                    forall|k: int| i <= k < j ==> !delimiters@.contains(s@[k]),
                decreases n - j,
            {
                j = j + 1;
            }
            let ghost out0 = out.deep_view();
            let w = s.substring_char(i, j).to_owned();
            out.push(w);
            proof {
                lemma_split_runs_take_word(s@, p, i as int, j as int);
                assert(out.deep_view() =~= out0.push(w@));
                assert(out0.push(w@) + split_runs(s@.skip(j as int), p) =~= out0 + (seq![
                    s@.subrange(i as int, j as int),
                ] + split_runs(s@.skip(j as int), p)));
            }
            i = j;
        }
    }
    proof {
        assert(s@.skip(n as int) =~= Seq::<char>::empty());
        assert(out.deep_view() + Seq::<Seq<char>>::empty() =~= out.deep_view());
        assert(split_runs(Seq::<char>::empty(), p) =~= Seq::<Seq<char>>::empty());
    }
    out
}

/// The words joined by single spaces.
pub open spec fn spec_joined(ws: Seq<Seq<char>>) -> Seq<char>
    decreases ws.len(),
{
    if ws.len() == 0 {
        Seq::empty()
    } else if ws.len() == 1 {
        ws[0]
    } else {
        spec_joined(ws.drop_last()) + seq![' '] + ws.last()
    }
}

/// The words joined by single spaces, with the closing period.
pub open spec fn spec_render(ws: Seq<Seq<char>>) -> Seq<char> {
    spec_joined(ws).push('.')
}

/// Joins words with single spaces and appends the final period.
pub fn render_sentence(words: &Vec<String>) -> (r: String)
    ensures
        r@ == spec_render(words.deep_view()),
{
    let ghost ws = words.deep_view();
    let mut out = String::new();
    let n = words.len();
    let mut i: usize = 0;
    proof {
        assert(ws.take(0) =~= Seq::<Seq<char>>::empty());
    }
    while i < n
        invariant
            i <= n,
            n == words@.len(),
            ws == words.deep_view(),
            out@ == spec_joined(ws.take(i as int)),
        decreases n - i,
    {
        if i > 0 {
            out.append(" ");
            proof {
                reveal_strlit(" ");
            }
        }
        out.append(words[i].as_str());
        proof {
            let t = ws.take(i as int + 1);
            assert(t.drop_last() =~= ws.take(i as int));
            assert(t.last() == ws[i as int]);
            if i > 0 {
                assert(" "@ =~= seq![' ']);
                assert(out@ =~= spec_joined(t.drop_last()) + seq![' '] + t.last());
            }
        }
        i = i + 1;
    }
    proof {
        assert(ws.take(n as int) =~= ws);
        reveal_strlit(".");
    }
    out.append(".");
    proof {
        assert(out@ =~= spec_joined(ws).push('.'));
    }
    out
}

/// A word as training stores it: non-empty and free of white space.
pub open spec fn word_shaped(w: Seq<char>) -> bool {
    w.len() >= 1 && forall|j: int| 0 <= j < w.len() ==> !is_space_char(#[trigger] w[j])
}

/// Shape of a joined word list: it starts and ends with a non-space,
/// and every space stands alone between two non-spaces.
proof fn lemma_joined_format(ws: Seq<Seq<char>>)
    requires
        ws.len() >= 1,
        forall|i: int| 0 <= i < ws.len() ==> word_shaped(#[trigger] ws[i]),
    ensures
        spec_joined(ws).len() >= 1,
        !is_space_char(spec_joined(ws)[0]),
        !is_space_char(spec_joined(ws).last()),
        forall|k: int|
            0 <= k < spec_joined(ws).len() && is_space_char(#[trigger] spec_joined(ws)[k]) ==> 0
                < k < spec_joined(ws).len() - 1 && !is_space_char(spec_joined(ws)[k - 1])
                && !is_space_char(spec_joined(ws)[k + 1]),
        (forall|i: int, j: int|
            0 <= i < ws.len() && 0 <= j < ws[i].len() ==> ws[i][j] != '.') ==> forall|k: int|
            0 <= k < spec_joined(ws).len() ==> spec_joined(ws)[k] != '.',
    decreases ws.len(),
{
    if ws.len() == 1 {
        assert(word_shaped(ws[0]));
        assert(forall|k: int| 0 <= k < ws[0].len() ==> !is_space_char(#[trigger] ws[0][k]));
    } else {
        let front = ws.drop_last();
        let a = spec_joined(front);
        let b = ws.last();
        let whole = spec_joined(ws);
        assert(forall|i: int| 0 <= i < front.len() ==> #[trigger] front[i] == ws[i]);
        lemma_joined_format(front);
        assert(whole == a + seq![' '] + b);
        assert(whole.len() == a.len() + 1 + b.len());
        assert forall|k: int| 0 <= k < whole.len() implies #[trigger] whole[k] == (if k < a.len() {
            a[k]
        } else if k == a.len() {
            ' '
        } else {
            b[k - a.len() - 1]
        }) by {
            if k < a.len() {
                assert((a + seq![' '])[k] == a[k]);
            } else if k == a.len() {
                assert((a + seq![' '])[k] == ' ');
            }
        }
        assert(word_shaped(b));
        assert(whole[0] == a[0]);
        assert(whole.last() == b[b.len() - 1]);
        assert(!is_space_char(whole.last()));
        assert forall|k: int|
            0 <= k < whole.len() && is_space_char(#[trigger] whole[k]) implies 0 < k < whole.len()
            - 1 && !is_space_char(whole[k - 1]) && !is_space_char(whole[k + 1]) by {
            if k < a.len() {
                assert(is_space_char(a[k]));
                assert(k < a.len() - 1);
            } else if k == a.len() {
                assert(!is_space_char(a[a.len() - 1]));
                assert(!is_space_char(b[0]));
            } else {
                assert(is_space_char(b[k - a.len() - 1]));
            }
        }
        if forall|i: int, j: int| 0 <= i < ws.len() && 0 <= j < ws[i].len() ==> ws[i][j] != '.' {
            assert(forall|i: int, j: int|
                0 <= i < front.len() && 0 <= j < front[i].len() ==> front[i][j] != '.');
            assert forall|k: int| 0 <= k < whole.len() implies whole[k] != '.' by {
                if k > a.len() {
                    assert(whole[k] == ws[ws.len() - 1][k - a.len() - 1]);
                }
            }
        }
    }
}

/// A rendered sentence ends in exactly one period, starts and ends with
/// no white space, and separates its words by single spaces.  The single
/// period is guaranteed when no stored word itself holds a period (a word
/// can hold one when training split sentences on other characters).
pub proof fn lemma_render_format(ws: Seq<Seq<char>>)
    requires
        ws.len() >= 1,
        forall|i: int| 0 <= i < ws.len() ==> word_shaped(#[trigger] ws[i]),
    ensures
        spec_render(ws).len() >= 2,
        spec_render(ws).last() == '.',
        !is_space_char(spec_render(ws)[0]),
        !is_space_char(spec_render(ws)[spec_render(ws).len() - 2]),
        forall|k: int|
            0 <= k < spec_render(ws).len() && is_space_char(#[trigger] spec_render(ws)[k]) ==> 0
                < k < spec_render(ws).len() - 2 && !is_space_char(spec_render(ws)[k - 1])
                && !is_space_char(spec_render(ws)[k + 1]),
        (forall|i: int, j: int|
            0 <= i < ws.len() && 0 <= j < ws[i].len() ==> ws[i][j] != '.') ==> forall|k: int|
            0 <= k < spec_render(ws).len() - 1 ==> spec_render(ws)[k] != '.',
{
    lemma_joined_format(ws);
    let j = spec_joined(ws);
    let r = spec_render(ws);
    assert(r == j.push('.'));
    assert(r.len() == j.len() + 1);
    assert(forall|k: int| 0 <= k < j.len() ==> #[trigger] r[k] == j[k]);
    assert(r.last() == '.');
    assert(!is_space_char('.'));
}

} // verus!
