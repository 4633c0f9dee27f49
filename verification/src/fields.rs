//! Fields of a record line: how one line splits at each `", "` separator.

use vstd::prelude::*;
use vstd::string::*;

verus! {

/// Whether a `", "` separator begins at position `i` of `s`.
pub open spec fn sep_at(s: Seq<char>, i: int) -> bool {
    0 <= i && i + 1 < s.len() && s[i] == ',' && s[i + 1] == ' '
}

/// Whether no separator begins anywhere in `s`, so `s` can stand as one
/// field.
pub open spec fn sep_free(s: Seq<char>) -> bool {
    forall|i: int| !sep_at(s, i)
}

/// The fields of a line: the runs between `", "` separators, leftmost
/// separator first.  A line without a separator is a single field, so
/// every line has at least one field.
pub open spec fn fields_of(s: Seq<char>) -> Seq<Seq<char>>
    decreases s.len(),
{
    if s.len() >= 2 && s[0] == ',' && s[1] == ' ' {
        seq![Seq::<char>::empty()] + fields_of(s.skip(2))
    } else if s.len() == 0 {
        seq![Seq::<char>::empty()]
    } else {
        let rest = fields_of(s.skip(1));
        seq![seq![s[0]] + rest[0]] + rest.skip(1)
    }
}

/// Every line has at least one field.
pub proof fn lemma_fields_of_len(s: Seq<char>)
    ensures
        fields_of(s).len() >= 1,
    decreases s.len(),
{
    if s.len() >= 2 && s[0] == ',' && s[1] == ' ' {
    } else if s.len() == 0 {
    } else {
        lemma_fields_of_len(s.skip(1));
    }
}

/// A line in which no separator begins is a single field.
pub proof fn lemma_fields_of_plain(s: Seq<char>)
    requires
        forall|i: int| !sep_at(s, i),
    ensures
        fields_of(s) == seq![s],
    decreases s.len(),
{
    if s.len() == 0 {
        assert(Seq::<char>::empty() =~= s);
        assert(fields_of(s) =~~= seq![s]);
    } else {
        assert(!sep_at(s, 0));
        let t = s.skip(1);
        assert(forall|j: int| 0 <= j < t.len() ==> t[j] == s[j + 1]);
        assert(forall|i: int| sep_at(t, i) ==> sep_at(s, i + 1));
        lemma_fields_of_plain(t);
        lemma_fields_of_len(t);
        assert(seq![s[0]] + t =~= s);
        assert(fields_of(s) =~~= seq![s]);
    }
}

/// A line whose first separator begins at `k` splits into the text before
/// `k` and the fields of the text after the separator.
pub proof fn lemma_fields_of_split(s: Seq<char>, k: int)
    requires
        sep_at(s, k),
        forall|i: int| 0 <= i < k ==> !sep_at(s, i),
    ensures
        fields_of(s) == seq![s.subrange(0, k)] + fields_of(s.skip(k + 2)),
    decreases k,
{
    if k == 0 {
        assert(s.subrange(0, 0) =~= Seq::<char>::empty());
        assert(fields_of(s) =~~= seq![s.subrange(0, 0)] + fields_of(s.skip(2)));
    } else {
        assert(!sep_at(s, 0));
        let t = s.skip(1);
        assert(forall|j: int| 0 <= j < t.len() ==> t[j] == s[j + 1]);
        assert(sep_at(t, k - 1));
        assert(forall|i: int| 0 <= i < k - 1 ==> sep_at(t, i) ==> sep_at(s, i + 1));
        lemma_fields_of_split(t, k - 1);
        let rest = fields_of(t);
        lemma_fields_of_len(t.skip(k + 1));
        assert(rest == seq![t.subrange(0, k - 1)] + fields_of(t.skip(k + 1)));
        assert(rest[0] == t.subrange(0, k - 1));
        assert(seq![s[0]] + t.subrange(0, k - 1) =~= s.subrange(0, k));
        assert(t.skip(k + 1) =~= s.skip(k + 2));
        assert(rest.skip(1) =~= fields_of(s.skip(k + 2)));
        assert(fields_of(s) =~~= seq![s.subrange(0, k)] + fields_of(s.skip(k + 2)));
    }
}

/// Splits one line into its fields.
pub fn split_fields(line: &str) -> (fields: Vec<String>)
    ensures
        fields.deep_view() == fields_of(line@),
{
    let n: usize = line.unicode_len();
    let mut fields: Vec<String> = Vec::new();
    let mut start: usize = 0;
    let mut i: usize = 0;
    proof {
        assert(line@.skip(0) =~= line@);
        assert(fields.deep_view() + fields_of(line@) =~~= fields_of(line@));
    }
    while i < n
        invariant
            start <= i <= n,
            n == line@.len(),
            forall|j: int| start <= j < i ==> !sep_at(line@, j),
            fields.deep_view() + fields_of(line@.skip(start as int)) == fields_of(line@),
        decreases n - i,
    {
        if i + 1 < n && line.get_char(i) == ',' && line.get_char(i + 1) == ' ' {
            let f = line.substring_char(start, i).to_owned();
            let ghost pre = fields.deep_view();
            fields.push(f);
            proof {
                let suf = line@.skip(start as int);
                let k = i - start;
                assert(forall|j: int| 0 <= j < suf.len() ==> suf[j] == line@[j + start]);
                assert(sep_at(suf, k));
                assert(forall|j: int| 0 <= j < k ==> sep_at(suf, j) ==> sep_at(line@, j + start));
                lemma_fields_of_split(suf, k);
                assert(suf.subrange(0, k) =~= line@.subrange(start as int, i as int));
                assert(suf.skip(k + 2) =~= line@.skip(i + 2));
                assert(fields.deep_view() =~~= pre.push(f@));
                assert(pre.push(f@) + fields_of(line@.skip(i + 2)) =~~= pre + fields_of(suf));
            }
            start = i + 2;
            i = i + 2;
        } else {
            proof {
                assert(!sep_at(line@, i as int));
            }
            i = i + 1;
        }
    }
    let f = line.substring_char(start, n).to_owned();
    let ghost pre = fields.deep_view();
    fields.push(f);
    proof {
        let suf = line@.skip(start as int);
        assert(forall|j: int| 0 <= j < suf.len() ==> suf[j] == line@[j + start]);
        assert(forall|j: int| sep_at(suf, j) ==> sep_at(line@, j + start));
        lemma_fields_of_plain(suf);
        assert(suf =~= line@.subrange(start as int, n as int));
        assert(fields.deep_view() =~~= pre.push(f@));
        assert(pre.push(f@) =~~= pre + fields_of(suf));
    }
    fields
}

} // verus!
