//! Newline-terminated lines: how a file's content splits into lines and how
//! lines join back into content.

use vstd::prelude::*;
use vstd::string::*;

verus! {

/// Whether a piece of text is free of newlines, so it can stand as one line.
pub open spec fn line_ok(l: Seq<char>) -> bool {
    forall|i: int| 0 <= i < l.len() ==> #[trigger] l[i] != '\n'
}

/// Whether every line of a sequence is free of newlines.
pub open spec fn lines_ok(ls: Seq<Seq<char>>) -> bool {
    forall|i: int| 0 <= i < ls.len() ==> line_ok(#[trigger] ls[i])
}

/// The lines of a piece of text: maximal newline-free runs, with each
/// newline ending a line.  A final run without a newline counts as a line,
/// so a trailing newline and its absence give the same lines.
pub open spec fn lines_of(s: Seq<char>) -> Seq<Seq<char>>
    decreases s.len(),
{
    if s.len() == 0 {
        Seq::empty()
    } else if s[0] == '\n' {
        seq![Seq::<char>::empty()] + lines_of(s.skip(1))
    } else {
        let rest = lines_of(s.skip(1));
        if rest.len() == 0 {
            seq![seq![s[0]]]
        } else {
            seq![seq![s[0]] + rest[0]] + rest.skip(1)
        }
    }
}

/// The content that a sequence of lines makes: each line followed by a
/// newline.
pub open spec fn joined(ls: Seq<Seq<char>>) -> Seq<char>
    decreases ls.len(),
{
    if ls.len() == 0 {
        Seq::empty()
    } else {
        ls[0] + seq!['\n'] + joined(ls.skip(1))
    }
}

/// Newline-free nonempty text is a single line.
pub proof fn lemma_lines_of_plain(s: Seq<char>)
    requires
        s.len() > 0,
        line_ok(s),
    ensures
        lines_of(s) == seq![s],
    decreases s.len(),
{
    let t = s.skip(1);
    if s.len() == 1 {
        assert(lines_of(t).len() == 0);
        assert(seq![s[0]] =~= s);
        assert(lines_of(s) =~~= seq![s]);
    } else {
        assert(line_ok(t)) by {
            assert(forall|i: int| 0 <= i < t.len() ==> t[i] == s[i + 1]);
        }
        lemma_lines_of_plain(t);
        assert(seq![s[0]] + t =~= s);
        assert(lines_of(s) =~~= seq![s]);
    }
}

/// Text whose first newline stands at `k` splits into the text before `k`
/// and the lines of the text after `k`.
pub proof fn lemma_lines_of_split(s: Seq<char>, k: int)
    requires
        0 <= k < s.len(),
        s[k] == '\n',
        forall|i: int| 0 <= i < k ==> #[trigger] s[i] != '\n',
    ensures
        lines_of(s) == seq![s.subrange(0, k)] + lines_of(s.skip(k + 1)),
    decreases k,
{
    let t = s.skip(1);
    if k == 0 {
        assert(s.subrange(0, 0) =~= Seq::<char>::empty());
        assert(lines_of(s) =~~= seq![s.subrange(0, 0)] + lines_of(s.skip(1)));
    } else {
        assert(forall|i: int| 0 <= i < t.len() ==> t[i] == s[i + 1]);
        lemma_lines_of_split(t, k - 1);
        let rest = lines_of(t);
        assert(rest == seq![t.subrange(0, k - 1)] + lines_of(t.skip(k)));
        assert(rest.len() >= 1);
        assert(rest[0] == t.subrange(0, k - 1));
        assert(seq![s[0]] + t.subrange(0, k - 1) =~= s.subrange(0, k));
        assert(t.skip(k) =~= s.skip(k + 1));
        assert(rest.skip(1) =~= lines_of(s.skip(k + 1)));
        assert(lines_of(s) =~~= seq![s.subrange(0, k)] + lines_of(s.skip(k + 1)));
    }
}

/// Every line that splitting yields is free of newlines.
pub proof fn lemma_lines_of_ok(s: Seq<char>)
    ensures
        lines_ok(lines_of(s)),
    decreases s.len(),
{
    if s.len() == 0 {
    } else {
        let t = s.skip(1);
        lemma_lines_of_ok(t);
        let rest = lines_of(t);
        if s[0] == '\n' {
            let ls = seq![Seq::<char>::empty()] + rest;
            assert(forall|i: int| 1 <= i < ls.len() ==> ls[i] == rest[i - 1]);
        } else {
            if rest.len() == 0 {
            } else {
                let ls = seq![seq![s[0]] + rest[0]] + rest.skip(1);
                assert(line_ok(rest[0]));
                assert(line_ok(ls[0])) by {
                    let l0 = seq![s[0]] + rest[0];
                    assert(forall|i: int| 1 <= i < l0.len() ==> l0[i] == rest[0][i - 1]);
                }
                assert(forall|i: int| 1 <= i < ls.len() ==> ls[i] == rest[i]);
            }
        }
    }
}

/// Joining distributes over concatenation of line sequences.
pub proof fn lemma_joined_add(a: Seq<Seq<char>>, b: Seq<Seq<char>>)
    ensures
        joined(a + b) == joined(a) + joined(b),
    decreases a.len(),
{
    if a.len() == 0 {
        assert(a + b =~= b);
        assert(joined(a) + joined(b) =~= joined(b));
    } else {
        assert((a + b).skip(1) =~= a.skip(1) + b);
        lemma_joined_add(a.skip(1), b);
        assert(joined(a + b) =~= joined(a) + joined(b));
    }
}

/// Splitting undoes joining, for newline-free lines.
pub proof fn lemma_lines_of_joined(ls: Seq<Seq<char>>)
    requires
        lines_ok(ls),
    ensures
        lines_of(joined(ls)) == ls,
    decreases ls.len(),
{
    if ls.len() == 0 {
    } else {
        let l0 = ls[0];
        let s = joined(ls);
        assert(s == l0 + seq!['\n'] + joined(ls.skip(1)));
        let k = l0.len() as int;
        assert(forall|i: int| 0 <= i < k ==> s[i] == l0[i]);
        assert(s[k] == '\n');
        assert(line_ok(l0));
        lemma_lines_of_split(s, k);
        assert(s.subrange(0, k) =~= l0);
        assert(s.skip(k + 1) =~= joined(ls.skip(1)));
        assert(lines_ok(ls.skip(1))) by {
            assert(forall|i: int| 0 <= i < ls.skip(1).len() ==> ls.skip(1)[i] == ls[i + 1]);
        }
        lemma_lines_of_joined(ls.skip(1));
        assert(lines_of(s) =~~= ls);
    }
}

/// Splits content into its lines.
pub fn split_lines(content: &str) -> (lines: Vec<String>)
    ensures
        lines.deep_view() == lines_of(content@),
{
    let n: usize = content.unicode_len();
    let mut lines: Vec<String> = Vec::new();
    let mut start: usize = 0;
    let mut i: usize = 0;
    proof {
        assert(content@.skip(0) =~= content@);
        assert(lines.deep_view() + lines_of(content@) =~~= lines_of(content@));
    }
    while i < n
        invariant
            start <= i <= n,
            n == content@.len(),
            forall|j: int| start <= j < i ==> #[trigger] content@[j] != '\n',
            lines.deep_view() + lines_of(content@.skip(start as int)) == lines_of(content@),
        decreases n - i,
    {
        let c = content.get_char(i);
        if c == '\n' {
            let line = content.substring_char(start, i).to_owned();
            let ghost pre = lines.deep_view();
            lines.push(line);
            proof {
                let suf = content@.skip(start as int);
                let k = i - start;
                assert(forall|j: int| 0 <= j < suf.len() ==> suf[j] == content@[j + start]);
                lemma_lines_of_split(suf, k);
                assert(suf.subrange(0, k) =~= content@.subrange(start as int, i as int));
                assert(suf.skip(k + 1) =~= content@.skip(i + 1));
                assert(lines.deep_view() =~~= pre.push(line@));
                assert(pre.push(line@) + lines_of(content@.skip(i + 1)) =~~= pre + lines_of(suf));
            }
            start = i + 1;
        }
        i = i + 1;
    }
    if start < n {
        let line = content.substring_char(start, n).to_owned();
        let ghost pre = lines.deep_view();
        lines.push(line);
        proof {
            let suf = content@.skip(start as int);
            assert(forall|j: int| 0 <= j < suf.len() ==> suf[j] == content@[j + start]);
            assert(line_ok(suf));
            lemma_lines_of_plain(suf);
            assert(suf =~= content@.subrange(start as int, n as int));
            assert(lines.deep_view() =~~= pre.push(line@));
            assert(pre.push(line@) =~~= pre + lines_of(suf));
        }
    } else {
        proof {
            assert(content@.skip(start as int).len() == 0);
            assert(lines.deep_view() + lines_of(content@.skip(start as int)) =~~= lines.deep_view());
        }
    }
    lines
}

} // verus!
