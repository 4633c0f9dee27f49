//! The store operations on a file's content.
//!
//! A store file is a header line followed by one record line per tracked
//! series, every line newline-terminated.  The operations here take the
//! whole content as a string and return the content the file should hold
//! afterwards; the caller reads and writes the file itself.

use vstd::prelude::*;
use vstd::string::*;
use crate::decimal::int_rep;
use crate::decimal::int_string;
use crate::decimal::matches_id;
use crate::decimal::parse_int;
use crate::fields::fields_of;
use crate::fields::sep_at;
use crate::fields::sep_free;
use crate::lines::joined;
use crate::lines::line_ok;
use crate::lines::lines_of;
use crate::lines::split_lines;

verus! {

/// How a store operation fails: the file cannot be read or written, the
/// file that an operation needs is missing, or a record line of the file
/// is malformed.
#[derive(Clone, Copy, Debug, PartialEq, Eq, Structural)]
pub enum StoreError {
    IoError,
    NotFoundError,
    ParseError,
}

/// The fixed header line, without its newline.
pub open spec fn header_text() -> Seq<char> {
    "maze_id, title, latest"@
}

/// The field separator.
pub open spec fn sep_text() -> Seq<char> {
    seq![',', ' ']
}

/// One record line, without its newline: id, title and latest air date
/// joined by the separator.
pub open spec fn record_text(id: int, title: Seq<char>, latest: Seq<char>) -> Seq<char> {
    int_rep(id) + sep_text() + title + sep_text() + latest
}

/// The content of a freshly initialized store: the header line alone.
pub open spec fn initial_text() -> Seq<char> {
    header_text() + seq!['\n']
}

/// The content after appending one record to `s`.
pub open spec fn appended_text(s: Seq<char>, id: int, title: Seq<char>, latest: Seq<char>) -> Seq<
    char,
> {
    s + record_text(id, title, latest) + seq!['\n']
}

/// Whether a record line carries the id `id`: it has exactly three fields
/// and the first denotes `id`.
pub open spec fn line_matches(l: Seq<char>, id: int) -> bool {
    fields_of(l).len() == 3 && parse_int(fields_of(l)[0]) == Some(id)
}

/// The lines left after removing the id `id`: the header line stays, and
/// of the record lines exactly those that do not carry `id`, in order.
pub open spec fn removed_lines(ls: Seq<Seq<char>>, id: int) -> Seq<Seq<char>> {
    if ls.len() == 0 {
        ls
    } else {
        seq![ls[0]] + ls.skip(1).filter(|l: Seq<char>| !line_matches(l, id))
    }
}

/// The content after removing the id `id` from content `s`.
pub open spec fn removed_text(s: Seq<char>, id: int) -> Seq<char> {
    joined(removed_lines(lines_of(s), id))
}

/// Whether every record line of content `s` splits into exactly three
/// fields, as removal demands.
pub open spec fn content_parses(s: Seq<char>) -> bool {
    forall|i: int| 1 <= i < lines_of(s).len() ==> fields_of(#[trigger] lines_of(s)[i]).len() == 3
}

/// The content a freshly initialized store file holds: exactly the header
/// line, whatever the file held before.
pub fn initialize_content() -> (r: String)
    ensures
        r@ == initial_text(),
{
    let r: String = "maze_id, title, latest\n".to_owned();
    proof {
        reveal_strlit("maze_id, title, latest\n");
        reveal_strlit("maze_id, title, latest");
        assert(r@ =~= initial_text());
    }
    r
}

/// One record line, newline-terminated, as appending writes it.
pub fn record_line(maze_id: i32, title: &str, latest: &str) -> (r: String)
    ensures
        r@ == record_text(maze_id as int, title@, latest@) + seq!['\n'],
{
    let mut r = int_string(maze_id);
    r.append(", ");
    r.append(title);
    r.append(", ");
    r.append(latest);
    r.append("\n");
    proof {
        reveal_strlit(", ");
        reveal_strlit("\n");
        assert(r@ =~= record_text(maze_id as int, title@, latest@) + seq!['\n']);
    }
    r
}

/// The content after appending one record: the prior content untouched,
/// then the new record line.
pub fn append_content(content: &str, maze_id: i32, title: &str, latest: &str) -> (r: String)
    ensures
        r@ == appended_text(content@, maze_id as int, title@, latest@),
{
    let mut r: String = content.to_owned();
    let line = record_line(maze_id, title, latest);
    r.append(line.as_str());
    proof {
        assert(r@ =~= appended_text(content@, maze_id as int, title@, latest@));
    }
    r
}

/// The content after removing every record of the id `maze_id`.
///
/// The header line is kept verbatim; of the record lines, exactly those
/// whose id field does not denote `maze_id` remain, byte for byte and in
/// order.  If some record line does not split into exactly three fields
/// the whole operation fails, and it fails only then.  A record whose id
/// is absent is no error: the content comes back unchanged.
pub fn remove_content(content: &str, maze_id: i32) -> (res: Result<String, StoreError>)
    ensures
        res is Ok <==> content_parses(content@),
        res matches Ok(out) ==> out@ == removed_text(content@, maze_id as int),
        res matches Err(e) ==> e == StoreError::ParseError,
{
    let ghost id = maze_id as int;
    let ghost keep = |l: Seq<char>| !line_matches(l, id);
    let lines = split_lines(content);
    let ghost ls = lines.deep_view();
    let mut out = String::new();
    if lines.len() == 0 {
        proof {
            assert(ls.len() == 0);
            assert(removed_text(content@, id) =~= Seq::<char>::empty());
        }
        return Ok(out);
    }
    out.append(lines[0].as_str());
    out.append("\n");
    proof {
        reveal_strlit("\n");
        reveal(Seq::filter);
        assert(ls[0] == lines@[0]@);
        assert(ls.subrange(1, 1).filter(keep) =~~= Seq::<Seq<char>>::empty());
        lemma_joined_singleton(ls[0]);
        assert(seq![ls[0]] + Seq::<Seq<char>>::empty() =~~= seq![ls[0]]);
        assert(out@ =~= joined(seq![ls[0]] + ls.subrange(1, 1).filter(keep)));
    }
    let mut i: usize = 1;
    while i < lines.len()
        invariant
            1 <= i <= lines.len(),
            ls == lines.deep_view(),
            ls == lines_of(content@),
            ls.len() == lines@.len(),
            id == maze_id as int,
            keep == (|l: Seq<char>| !line_matches(l, id)),
            forall|j: int| 1 <= j < i ==> fields_of(#[trigger] ls[j]).len() == 3,
            out@ == joined(seq![ls[0]] + ls.subrange(1, i as int).filter(keep)),
        decreases lines.len() - i,
    {
        let fs = crate::fields::split_fields(lines[i].as_str());
        proof {
            assert(lines@[i as int]@ == ls[i as int]);
            assert(fs.deep_view().len() == fs@.len());
        }
        if fs.len() != 3 {
            proof {
                assert(fields_of(ls[i as int]).len() != 3);
                assert(!content_parses(content@));
            }
            return Err(StoreError::ParseError);
        }
        let matched = matches_id(fs[0].as_str(), maze_id);
        proof {
            assert(fs@[0]@ == fields_of(ls[i as int])[0]);
            assert(matched == line_matches(ls[i as int], id));
            let pre = ls.subrange(1, i as int);
            let post = ls.subrange(1, i + 1);
            assert(post.drop_last() =~~= pre);
            assert(post.last() == ls[i as int]);
            reveal(Seq::filter);
        }
        if !matched {
            out.append(lines[i].as_str());
            out.append("\n");
            proof {
                reveal_strlit("\n");
                let pre = ls.subrange(1, i as int);
                let post = ls.subrange(1, i + 1);
                assert(post.filter(keep) == pre.filter(keep).push(ls[i as int]));
                assert(seq![ls[0]] + pre.filter(keep).push(ls[i as int]) =~~= (seq![ls[0]]
                    + pre.filter(keep)) + seq![ls[i as int]]);
                crate::lines::lemma_joined_add(seq![ls[0]] + pre.filter(keep), seq![ls[i as int]]);
                lemma_joined_singleton(ls[i as int]);
                assert(out@ =~= joined(seq![ls[0]] + post.filter(keep)));
            }
        } else {
            proof {
                let pre = ls.subrange(1, i as int);
                let post = ls.subrange(1, i + 1);
                assert(post.filter(keep) == pre.filter(keep));
            }
        }
        i = i + 1;
    }
    proof {
        assert(ls.subrange(1, ls.len() as int) =~~= ls.skip(1));
        assert(out@ == removed_text(content@, id));
        assert(content_parses(content@));
    }
    Ok(out)
}

/// A single line joins to itself plus its newline.
proof fn lemma_joined_singleton(l: Seq<char>)
    ensures
        joined(seq![l]) == l + seq!['\n'],
{
    assert(seq![l].skip(1) =~~= Seq::<Seq<char>>::empty());
    assert(joined(seq![l].skip(1)) =~= Seq::<char>::empty());
    assert(joined(seq![l]) =~= l + seq!['\n']);
}

/// A filter that keeps every element changes nothing.
proof fn lemma_filter_all<A>(s: Seq<A>, p: spec_fn(A) -> bool)
    requires
        forall|i: int| 0 <= i < s.len() ==> p(#[trigger] s[i]),
    ensures
        s.filter(p) == s,
    decreases s.len(),
{
    reveal(Seq::filter);
    if s.len() > 0 {
        let t = s.drop_last();
        assert(forall|i: int| 0 <= i < t.len() ==> t[i] == s[i]);
        lemma_filter_all(t, p);
        assert(s.filter(p) =~= s);
    }
}

/// Every element a filter lets through was an element of the input.
proof fn lemma_filter_elements<A>(s: Seq<A>, p: spec_fn(A) -> bool)
    ensures
        forall|i: int| 0 <= i < s.filter(p).len() ==> s.contains(#[trigger] s.filter(p)[i]),
    decreases s.len(),
{
    reveal(Seq::filter);
    if s.len() > 0 {
        let t = s.drop_last();
        lemma_filter_elements(t, p);
        assert forall|i: int| 0 <= i < s.filter(p).len() implies s.contains(
            #[trigger] s.filter(p)[i],
        ) by {
            if i < t.filter(p).len() {
                assert(t.contains(t.filter(p)[i]));
                let j = choose|j: int| 0 <= j < t.len() && t[j] == t.filter(p)[i];
                assert(s[j] == s.filter(p)[i]);
            } else {
                assert(s.filter(p)[i] == s.last());
                assert(s[s.len() - 1] == s.last());
            }
        }
    }
}

/// Filtering twice with the same test is filtering once.
proof fn lemma_filter_idempotent<A>(s: Seq<A>, p: spec_fn(A) -> bool)
    ensures
        s.filter(p).filter(p) == s.filter(p),
{
    broadcast use vstd::seq_lib::group_filter_ensures;

    lemma_filter_all(s.filter(p), p);
}

/// The header line is free of newlines.
proof fn lemma_header_ok()
    ensures
        line_ok(header_text()),
{
    reveal_strlit("maze_id, title, latest");
    assert forall|i: int| 0 <= i < header_text().len() implies #[trigger] header_text()[i]
        != '\n' by {
        assert(header_text().len() == 22);
    }
}

/// A record line is free of newlines when its title and latest air date
/// are.
proof fn lemma_record_text_ok(id: int, title: Seq<char>, latest: Seq<char>)
    requires
        line_ok(title),
        line_ok(latest),
    ensures
        line_ok(record_text(id, title, latest)),
{
    if id < 0 {
        crate::decimal::lemma_dec_rep_digits((-id) as nat);
    } else {
        crate::decimal::lemma_dec_rep_digits(id as nat);
    }
    let r = record_text(id, title, latest);
    assert forall|i: int| 0 <= i < r.len() implies #[trigger] r[i] != '\n' by {
        let a = int_rep(id);
        let b = a + sep_text();
        let c = b + title;
        let d = c + sep_text();
        if i < a.len() {
            assert(r[i] == a[i]);
        } else if i < b.len() {
            assert(r[i] == sep_text()[i - a.len()]);
        } else if i < c.len() {
            assert(r[i] == title[i - b.len()]);
        } else if i < d.len() {
            assert(r[i] == sep_text()[i - c.len()]);
        } else {
            assert(r[i] == latest[i - d.len()]);
        }
    }
}

/// The record lines a sequence of records renders to, in order.  A record
/// is an id with the title and the latest air date.
pub open spec fn record_lines_text(recs: Seq<(int, Seq<char>, Seq<char>)>) -> Seq<Seq<char>> {
    recs.map_values(|r: (int, Seq<char>, Seq<char>)| record_text(r.0, r.1, r.2))
}

/// The content of a store holding the records `recs` in order: the header
/// line, then one record line each.
pub open spec fn store_text(recs: Seq<(int, Seq<char>, Seq<char>)>) -> Seq<char> {
    joined(seq![header_text()] + record_lines_text(recs))
}

/// A store with no records holds exactly the initial content.
pub proof fn lemma_initial_store()
    ensures
        store_text(Seq::empty()) == initial_text(),
{
    assert(record_lines_text(Seq::empty()).len() == 0);
    assert(seq![header_text()] + record_lines_text(Seq::empty()) =~~= seq![header_text()]);
    lemma_joined_singleton(header_text());
}

/// Appending a record to a store's content yields the content of the store
/// with that record at the end: appends grow the store in order.
pub proof fn lemma_append_store(
    recs: Seq<(int, Seq<char>, Seq<char>)>,
    id: int,
    title: Seq<char>,
    latest: Seq<char>,
)
    ensures
        appended_text(store_text(recs), id, title, latest) == store_text(
            recs.push((id, title, latest)),
        ),
{
    let a = seq![header_text()] + record_lines_text(recs);
    let b = seq![record_text(id, title, latest)];
    assert(seq![header_text()] + record_lines_text(recs.push((id, title, latest))) =~~= a + b);
    crate::lines::lemma_joined_add(a, b);
    lemma_joined_singleton(record_text(id, title, latest));
    assert(appended_text(store_text(recs), id, title, latest) =~= joined(a) + joined(b));
}

/// A store holding `n` records splits into exactly `n + 1` lines: the
/// header first, then each record's line in append order, unchanged.
pub proof fn lemma_store_lines(recs: Seq<(int, Seq<char>, Seq<char>)>)
    requires
        forall|i: int|
            0 <= i < recs.len() ==> line_ok((#[trigger] recs[i]).1) && line_ok(recs[i].2),
    ensures
        lines_of(store_text(recs)) == seq![header_text()] + record_lines_text(recs),
        lines_of(store_text(recs)).len() == recs.len() + 1,
        forall|i: int|
            0 <= i < recs.len() ==> lines_of(store_text(recs))[i + 1] == record_text(
                (#[trigger] recs[i]).0,
                recs[i].1,
                recs[i].2,
            ),
        joined(lines_of(store_text(recs))) == store_text(recs),
{
    let lsq = seq![header_text()] + record_lines_text(recs);
    assert(crate::lines::lines_ok(lsq)) by {
        lemma_header_ok();
        assert forall|i: int| 0 <= i < lsq.len() implies line_ok(#[trigger] lsq[i]) by {
            if i >= 1 {
                lemma_record_text_ok(recs[i - 1].0, recs[i - 1].1, recs[i - 1].2);
                assert(lsq[i] == record_text(recs[i - 1].0, recs[i - 1].1, recs[i - 1].2));
            }
        }
    }
    crate::lines::lemma_lines_of_joined(lsq);
}

/// After initializing and appending one record, the content has two lines
/// and the second is exactly that record's line.
pub proof fn lemma_append_after_initialize(id: int, title: Seq<char>, latest: Seq<char>)
    requires
        line_ok(title),
        line_ok(latest),
    ensures
        lines_of(appended_text(initial_text(), id, title, latest)).len() == 2,
        lines_of(appended_text(initial_text(), id, title, latest))[1] == record_text(
            id,
            title,
            latest,
        ),
{
    let one = seq![(id, title, latest)];
    lemma_initial_store();
    lemma_append_store(Seq::empty(), id, title, latest);
    assert(Seq::<(int, Seq<char>, Seq<char>)>::empty().push((id, title, latest)) =~~= one);
    lemma_store_lines(one);
    assert(record_lines_text(one)[0] == record_text(id, title, latest));
}

/// A rendered record line splits back into its three fields, when the
/// title and the latest air date hold no `", "` separator.
proof fn lemma_fields_of_record(id: int, title: Seq<char>, latest: Seq<char>)
    requires
        sep_free(title),
        sep_free(latest),
    ensures
        fields_of(record_text(id, title, latest)) == seq![int_rep(id), title, latest],
{
    let a = int_rep(id);
    let r = record_text(id, title, latest);
    let k1 = a.len() as int;
    assert(forall|i: int| 0 <= i < a.len() ==> #[trigger] a[i] != ',') by {
        if id < 0 {
            crate::decimal::lemma_dec_rep_digits((-id) as nat);
        } else {
            crate::decimal::lemma_dec_rep_digits(id as nat);
        }
    }
    assert(sep_at(r, k1));
    assert(forall|i: int| 0 <= i < k1 ==> !sep_at(r, i));
    crate::fields::lemma_fields_of_split(r, k1);
    let r2 = r.skip(k1 + 2);
    assert(r2 =~= title + sep_text() + latest);
    let k2 = title.len() as int;
    assert(sep_at(r2, k2));
    assert forall|i: int| 0 <= i < k2 implies !sep_at(r2, i) by {
        if i + 1 < k2 {
            assert(r2[i] == title[i] && r2[i + 1] == title[i + 1]);
            assert(!sep_at(title, i));
        } else {
            assert(r2[i + 1] == ',');
        }
    }
    crate::fields::lemma_fields_of_split(r2, k2);
    let r3 = r2.skip(k2 + 2);
    assert(r3 =~= latest);
    assert(forall|i: int| !sep_at(r3, i));
    crate::fields::lemma_fields_of_plain(r3);
    assert(r.subrange(0, k1) =~= a);
    assert(r2.subrange(0, k2) =~= title);
    assert(fields_of(r) =~~= seq![a, title, latest]);
}

/// A rendered record line carries exactly the id it was rendered with:
/// removal by that id finds it, removal by any other id keeps it.
pub proof fn lemma_record_matches(id: int, title: Seq<char>, latest: Seq<char>, probe: int)
    requires
        sep_free(title),
        sep_free(latest),
    ensures
        line_matches(record_text(id, title, latest), probe) <==> probe == id,
{
    lemma_fields_of_record(id, title, latest);
    crate::decimal::lemma_parse_int_rep(id);
}

/// Keeping the record lines that do not carry `id` is rendering the
/// records whose id is not `id`.
proof fn lemma_record_lines_filter(recs: Seq<(int, Seq<char>, Seq<char>)>, id: int)
    requires
        forall|i: int|
            0 <= i < recs.len() ==> sep_free((#[trigger] recs[i]).1) && sep_free(recs[i].2),
    ensures
        record_lines_text(recs).filter(|l: Seq<char>| !line_matches(l, id)) == record_lines_text(
            recs.filter(|r: (int, Seq<char>, Seq<char>)| r.0 != id),
        ),
    decreases recs.len(),
{
    reveal(Seq::filter);
    let keep = |l: Seq<char>| !line_matches(l, id);
    let pred = |r: (int, Seq<char>, Seq<char>)| r.0 != id;
    if recs.len() == 0 {
        assert(record_lines_text(recs).len() == 0);
        assert(recs.filter(pred).len() == 0);
        assert(record_lines_text(recs).filter(keep) =~~= record_lines_text(recs.filter(pred)));
    } else {
        let t = recs.drop_last();
        let last = recs.last();
        assert(forall|i: int| 0 <= i < t.len() ==> t[i] == recs[i]);
        lemma_record_lines_filter(t, id);
        lemma_record_matches(last.0, last.1, last.2, id);
        let ml = record_lines_text(recs);
        assert(ml.drop_last() =~~= record_lines_text(t));
        assert(ml.last() == record_text(last.0, last.1, last.2));
        assert(keep(ml.last()) <==> pred(last));
        if pred(last) {
            assert(ml.filter(keep) == record_lines_text(t).filter(keep).push(ml.last()));
            assert(recs.filter(pred) == t.filter(pred).push(last));
            assert(record_lines_text(t.filter(pred).push(last)) =~~= record_lines_text(
                t.filter(pred),
            ).push(ml.last()));
        } else {
            assert(ml.filter(keep) == record_lines_text(t).filter(keep));
            assert(recs.filter(pred) == t.filter(pred));
        }
    }
}

/// Removing an id from a rendered store parses every line and yields the
/// store of exactly the records whose id differs, in order and unchanged.
pub proof fn lemma_remove_from_store(recs: Seq<(int, Seq<char>, Seq<char>)>, id: int)
    requires
        forall|i: int|
            0 <= i < recs.len() ==> line_ok((#[trigger] recs[i]).1) && line_ok(recs[i].2),
        forall|i: int|
            0 <= i < recs.len() ==> sep_free((#[trigger] recs[i]).1) && sep_free(recs[i].2),
    ensures
        content_parses(store_text(recs)),
        removed_text(store_text(recs), id) == store_text(
            recs.filter(|r: (int, Seq<char>, Seq<char>)| r.0 != id),
        ),
{
    let keep = |l: Seq<char>| !line_matches(l, id);
    let pred = |r: (int, Seq<char>, Seq<char>)| r.0 != id;
    lemma_store_lines(recs);
    let ls = lines_of(store_text(recs));
    assert(ls == seq![header_text()] + record_lines_text(recs));
    assert forall|i: int| 1 <= i < ls.len() implies fields_of(#[trigger] ls[i]).len() == 3 by {
        lemma_fields_of_record(recs[i - 1].0, recs[i - 1].1, recs[i - 1].2);
        assert(ls[i] == record_text(recs[i - 1].0, recs[i - 1].1, recs[i - 1].2));
    }
    assert(ls[0] == header_text());
    assert(ls.skip(1) =~~= record_lines_text(recs));
    lemma_record_lines_filter(recs, id);
    assert(removed_lines(ls, id) =~~= seq![header_text()] + record_lines_text(recs.filter(pred)));
}

/// Removing an id that no record line carries leaves well-formed content
/// unchanged.
pub proof fn lemma_remove_absent_id(s: Seq<char>, id: int)
    requires
        joined(lines_of(s)) == s,
        forall|i: int| 1 <= i < lines_of(s).len() ==> !line_matches(#[trigger] lines_of(s)[i], id),
    ensures
        removed_text(s, id) == s,
{
    let ls = lines_of(s);
    if ls.len() == 0 {
        assert(removed_text(s, id) =~= s);
    } else {
        let keep = |l: Seq<char>| !line_matches(l, id);
        let tail = ls.skip(1);
        assert(forall|j: int| 0 <= j < tail.len() ==> tail[j] == ls[j + 1]);
        assert(forall|j: int| 0 <= j < tail.len() ==> keep(#[trigger] tail[j]));
        lemma_filter_all(tail, keep);
        assert(removed_lines(ls, id) =~~= ls);
    }
}

/// Removing the same id twice is removing it once: the second removal
/// finds well-formed content and changes nothing.
pub proof fn lemma_remove_idempotent(s: Seq<char>, id: int)
    ensures
        removed_text(removed_text(s, id), id) == removed_text(s, id),
        content_parses(s) ==> content_parses(removed_text(s, id)),
{
    let ls = lines_of(s);
    let r = removed_text(s, id);
    if ls.len() == 0 {
        assert(r =~= Seq::<char>::empty());
        assert(lines_of(r).len() == 0);
        assert(removed_text(r, id) =~= r);
    } else {
        let keep = |l: Seq<char>| !line_matches(l, id);
        let tail = ls.skip(1);
        let rl = seq![ls[0]] + tail.filter(keep);
        crate::lines::lemma_lines_of_ok(s);
        lemma_filter_elements(tail, keep);
        assert(crate::lines::lines_ok(rl)) by {
            assert forall|i: int| 0 <= i < rl.len() implies line_ok(#[trigger] rl[i]) by {
                if i == 0 {
                    assert(rl[0] == ls[0]);
                } else {
                    assert(rl[i] == tail.filter(keep)[i - 1]);
                    assert(tail.contains(tail.filter(keep)[i - 1]));
                    let j = choose|j: int|
                        0 <= j < tail.len() && tail[j] == tail.filter(keep)[i - 1];
                    assert(tail[j] == ls[j + 1]);
                }
            }
        }
        crate::lines::lemma_lines_of_joined(rl);
        assert(lines_of(r) == rl);
        assert(rl.skip(1) =~~= tail.filter(keep));
        lemma_filter_idempotent(tail, keep);
        assert(removed_lines(rl, id) =~~= rl);
        if content_parses(s) {
            assert forall|i: int| 1 <= i < rl.len() implies fields_of(#[trigger] rl[i]).len()
                == 3 by {
                assert(rl[i] == tail.filter(keep)[i - 1]);
                assert(tail.contains(tail.filter(keep)[i - 1]));
                let j = choose|j: int| 0 <= j < tail.len() && tail[j] == tail.filter(keep)[i - 1];
                assert(tail[j] == ls[j + 1]);
                assert(fields_of(ls[j + 1]).len() == 3);
            }
        }
    }
}

} // verus!
