//! Reading a replacement table out of delimited text.
use vstd::prelude::*;
use vstd::slice::{slice_subrange, slice_to_vec};
use vstd::string::StringSliceAdditionalSpecFns;
use crate::search::{contains, occurs_at, starts_with, lemma_occurs_in_suffix};
use crate::table::{Pair, Table, keys_unique, table_insert, lookup, lemma_insert};

verus! {

/// Line feed.
pub const NL: u8 = 10;

/// Carriage return.
pub const CR: u8 = 13;

/// A line without its carriage return, if it ended in one.
pub open spec fn strip_cr(l: Seq<u8>) -> Seq<u8> {
    if l.len() > 0 && l.last() == CR {
        l.drop_last()
    } else {
        l
    }
}

/// The lines of `cur + s`, where `cur` is the part of the current line read
/// so far. A line ends at a line feed, which is dropped together with a
/// carriage return just before it; a last line without a line feed is kept
/// as it is, and an empty text after the last line feed is no line.
pub open spec fn lines_from(s: Seq<u8>, cur: Seq<u8>) -> Seq<Seq<u8>>
    decreases s.len(),
{
    if s.len() == 0 {
        if cur.len() == 0 {
            seq![]
        } else {
            seq![cur]
        }
    } else if s[0] == NL {
        seq![strip_cr(cur)] + lines_from(s.drop_first(), seq![])
    } else {
        lines_from(s.drop_first(), cur.push(s[0]))
    }
}

/// The lines of `s`.
pub open spec fn lines_of(s: Seq<u8>) -> Seq<Seq<u8>> {
    lines_from(s, seq![])
}

/// The lines that hold data: all of them, or all but the first when the
/// first is a header (an empty text has no header to drop).
pub open spec fn data_lines(s: Seq<u8>, has_headers: bool) -> Seq<Seq<u8>> {
    if has_headers && lines_of(s).len() > 0 {
        lines_of(s).drop_first()
    } else {
        lines_of(s)
    }
}

/// A line split at the first occurrence of the delimiter `d` into key and
/// value; `None` when `d` does not occur. An empty delimiter occurs at the
/// start, giving an empty key and the whole line as value.
pub open spec fn split_first(line: Seq<u8>, d: Seq<u8>) -> Option<Pair>
    decreases line.len(),
{
    if starts_with(line, d) {
        Some((seq![], line.subrange(d.len() as int, line.len() as int)))
    } else if line.len() == 0 {
        None
    } else {
        match split_first(line.drop_first(), d) {
            Some(p) => Some((seq![line[0]] + p.0, p.1)),
            None => None,
        }
    }
}

/// The table built from `lines` in order: each line that splits sets its
/// key's value, later lines over earlier ones; other lines are skipped.
pub open spec fn table_from(lines: Seq<Seq<u8>>, d: Seq<u8>) -> Seq<Pair>
    decreases lines.len(),
{
    if lines.len() == 0 {
        seq![]
    } else {
        let t = table_from(lines.drop_last(), d);
        match split_first(lines.last(), d) {
            Some(p) => table_insert(t, p.0, p.1),
            None => t,
        }
    }
}

/// The table that the text `s` describes.
pub open spec fn table_of(s: Seq<u8>, d: Seq<u8>, has_headers: bool) -> Seq<Pair> {
    table_from(data_lines(s, has_headers), d)
}

/// The split at the leftmost occurrence of the delimiter.
pub proof fn lemma_split_found(line: Seq<u8>, d: Seq<u8>, i: int)
    requires
        occurs_at(line, d, i),
        forall|j: int| 0 <= j < i ==> !occurs_at(line, d, j),
    ensures
        split_first(line, d) == Some(
            (line.subrange(0, i), line.subrange(i + d.len(), line.len() as int)),
        ),
    decreases i,
{
    if i == 0 {
        assert(line.subrange(0, 0) =~= Seq::<u8>::empty());
    } else {
        let t = line.drop_first();
        assert(t =~= line.subrange(1, line.len() as int));
        assert(!occurs_at(line, d, 0));
        lemma_occurs_in_suffix(line, d, 1, i - 1);
        assert forall|j: int| 0 <= j < i - 1 implies !occurs_at(t, d, j) by {
            lemma_occurs_in_suffix(line, d, 1, j);
        }
        lemma_split_found(t, d, i - 1);
        assert(seq![line[0]] + t.subrange(0, i - 1) =~= line.subrange(0, i));
        assert(t.subrange(i - 1 + d.len(), t.len() as int) =~= line.subrange(
            i + d.len(),
            line.len() as int,
        ));
    }
}

/// No split where the delimiter does not occur.
pub proof fn lemma_split_none(line: Seq<u8>, d: Seq<u8>)
    requires
        !contains(line, d),
    ensures
        split_first(line, d) is None,
    decreases line.len(),
{
    assert(!occurs_at(line, d, 0));
    if line.len() > 0 {
        let t = line.drop_first();
        assert(t =~= line.subrange(1, line.len() as int));
        assert forall|j: int| !occurs_at(t, d, j) by {
            lemma_occurs_in_suffix(line, d, 1, j);
        }
        lemma_split_none(t, d);
    }
}

/// Key, delimiter and value put back together give the line: nothing is
/// trimmed or lost.
pub proof fn lemma_split_reassembles(line: Seq<u8>, d: Seq<u8>)
    requires
        split_first(line, d) is Some,
    ensures
        ({
            let p = split_first(line, d)->Some_0;
            p.0 + d + p.1 == line
        }),
    decreases line.len(),
{
    if starts_with(line, d) {
        assert(Seq::<u8>::empty() + d + line.subrange(d.len() as int, line.len() as int) =~= line);
    } else {
        let t = line.drop_first();
        lemma_split_reassembles(t, d);
        let p = split_first(t, d)->Some_0;
        assert(seq![line[0]] + p.0 + d + p.1 =~= seq![line[0]] + (p.0 + d + p.1));
        assert(seq![line[0]] + t =~= line);
    }
}

/// A line `k`, delimiter, `v`, where no occurrence of the delimiter begins
/// inside `k`, gives key `k` and value `v`: the value may hold the delimiter.
pub proof fn lemma_delimiter_in_value(k: Seq<u8>, d: Seq<u8>, v: Seq<u8>)
    requires
        forall|i: int| 0 <= i < k.len() ==> !occurs_at(k + d + v, d, i),
    ensures
        split_first(k + d + v, d) == Some((k, v)),
{
    let line = k + d + v;
    assert(line.subrange(k.len() as int, (k.len() + d.len()) as int) =~= d);
    lemma_split_found(line, d, k.len() as int);
    assert(line.subrange(0, k.len() as int) =~= k);
    assert(line.subrange((k.len() + d.len()) as int, line.len() as int) =~= v);
}

/// A line without line feeds, then a line feed: the lines that follow are
/// those of the rest of the text.
pub proof fn lemma_lines_after_first(first: Seq<u8>, rest: Seq<u8>, cur: Seq<u8>)
    requires
        forall|i: int| 0 <= i < first.len() ==> first[i] != NL,
    ensures
        lines_from(first + seq![NL] + rest, cur) == seq![strip_cr(cur + first)] + lines_of(rest),
    decreases first.len(),
{
    let s = first + seq![NL] + rest;
    if first.len() == 0 {
        assert(s.drop_first() =~= rest);
        assert(cur + first =~= cur);
    } else {
        assert(s[0] == first[0]);
        assert(s.drop_first() =~= first.drop_first() + seq![NL] + rest);
        lemma_lines_after_first(first.drop_first(), rest, cur.push(first[0]));
        assert(cur.push(first[0]) + first.drop_first() =~= cur + first);
    }
}

/// With the header flag set, the first line never counts as data, whatever
/// it holds: the table is that of the text after it.
pub proof fn lemma_header_skipped(first: Seq<u8>, rest: Seq<u8>, d: Seq<u8>)
    requires
        forall|i: int| 0 <= i < first.len() ==> first[i] != NL,
    ensures
        table_of(first + seq![NL] + rest, d, true) == table_of(rest, d, false),
{
    lemma_lines_after_first(first, rest, seq![]);
    let l = lines_of(first + seq![NL] + rest);
    assert(l.drop_first() =~= lines_of(rest));
}

/// The tables built from lines have unique keys.
pub proof fn lemma_table_from_wf(lines: Seq<Seq<u8>>, d: Seq<u8>)
    ensures
        keys_unique(table_from(lines, d)),
    decreases lines.len(),
{
    if lines.len() > 0 {
        lemma_table_from_wf(lines.drop_last(), d);
        let t = table_from(lines.drop_last(), d);
        if let Some(p) = split_first(lines.last(), d) {
            lemma_insert(t, p.0, p.1);
        }
    }
}

/// Of several lines with the same key, the last one decides its value.
pub proof fn lemma_last_line_wins(lines: Seq<Seq<u8>>, d: Seq<u8>, i: int, k: Seq<u8>, v: Seq<u8>)
    requires
        0 <= i < lines.len(),
        split_first(lines[i], d) == Some((k, v)),
        forall|j: int|
            i < j < lines.len() ==> match #[trigger] split_first(lines[j], d) {
                Some(p) => p.0 != k,
                None => true,
            },
    ensures
        lookup(table_from(lines, d), k) == Some(v),
    decreases lines.len(),
{
    let rest = lines.drop_last();
    lemma_table_from_wf(rest, d);
    let t = table_from(rest, d);
    if i == lines.len() - 1 {
        lemma_insert(t, k, v);
    } else {
        assert forall|j: int| i < j < rest.len() implies match #[trigger] split_first(rest[j], d) {
            Some(p) => p.0 != k,
            None => true,
        } by {
            assert(rest[j] == lines[j]);
        }
        lemma_last_line_wins(rest, d, i, k, v);
        let last = lines[lines.len() - 1];
        assert(last == lines.last());
        if let Some(p) = split_first(last, d) {
            lemma_insert(t, p.0, p.1);
            assert(table_from(lines, d) == table_insert(t, p.0, p.1));
        }
    }
}

/// The view of a list of byte buffers.
pub open spec fn views(v: Seq<Vec<u8>>) -> Seq<Seq<u8>> {
    v.map_values(|l: Vec<u8>| l@)
}

/// Splits `content` into its lines.
pub fn split_lines(content: &[u8]) -> (r: Vec<Vec<u8>>)
    ensures
        views(r@) == lines_of(content@),
{
    let n = content.len();
    let mut r: Vec<Vec<u8>> = Vec::new();
    let mut start: usize = 0;
    let mut pos: usize = 0;
    assert(content@.subrange(0, n as int) =~= content@);
    assert(content@.subrange(0, 0) =~= Seq::<u8>::empty());
    assert(views(r@) + lines_of(content@) =~= lines_of(content@));
    while pos < n
        invariant
            start <= pos <= n == content@.len(),
            views(r@) + lines_from(
                content@.subrange(pos as int, n as int),
                content@.subrange(start as int, pos as int),
            ) == lines_of(content@),
        decreases n - pos,
    {
        let ghost s = content@.subrange(pos as int, n as int);
        let ghost cur = content@.subrange(start as int, pos as int);
        let ghost before = views(r@);
        assert(s.drop_first() =~= content@.subrange(pos + 1, n as int));
        if content[pos] == NL {
            let end = if pos > start && content[pos - 1] == CR {
                pos - 1
            } else {
                pos
            };
            assert(content@.subrange(start as int, end as int) =~= strip_cr(cur));
            let line = slice_to_vec(slice_subrange(content, start, end));
            r.push(line);
            assert(views(r@) =~= before.push(strip_cr(cur)));
            assert(content@.subrange(pos + 1, pos + 1) =~= Seq::<u8>::empty());
            assert(views(r@) + lines_from(s.drop_first(), seq![]) =~= before + (seq![strip_cr(cur)]
                + lines_from(s.drop_first(), seq![])));
            start = pos + 1;
        } else {
            assert(cur.push(s[0]) =~= content@.subrange(start as int, pos + 1));
        }
        pos = pos + 1;
    }
    if start < n {
        let ghost before = views(r@);
        let line = slice_to_vec(slice_subrange(content, start, n));
        r.push(line);
        assert(views(r@) =~= before.push(content@.subrange(start as int, n as int)));
        assert(content@.subrange(n as int, n as int) =~= Seq::<u8>::empty());
    } else {
        assert(content@.subrange(n as int, n as int) =~= Seq::<u8>::empty());
        assert(views(r@) + Seq::<Seq<u8>>::empty() =~= views(r@));
    }
    r
}

/// The replacement table described by `content`: one line per entry, key and
/// value separated by the first occurrence of `delimiter`, the first line
/// skipped when `has_headers` is set. Lines without the delimiter are
/// skipped, and a later line overrides an earlier one with the same key.
pub fn parse_table(content: &str, delimiter: &str, has_headers: bool) -> (t: Table)
    ensures
        t.wf(),
        t@ == table_of(content.spec_bytes(), delimiter.spec_bytes(), has_headers),
{
    let bytes = content.as_bytes();
    let d = delimiter.as_bytes();
    let dlen = d.len();
    let lines = split_lines(bytes);
    let ghost lv = views(lines@);
    let first: usize = if has_headers && lines.len() > 0 {
        1
    } else {
        0
    };
    let mut t = Table::new();
    let mut i: usize = first;
    assert(lv.subrange(first as int, first as int) =~= Seq::<Seq<u8>>::empty());
    while i < lines.len()
        invariant
            first <= i <= lines@.len() == lv.len(),
            lv == views(lines@),
            dlen == d@.len(),
            t.wf(),
            t@ == table_from(lv.subrange(first as int, i as int), d@),
        decreases lines@.len() - i,
    {
        let line = lines[i].as_slice();
        assert(line@ == lv[i as int]);
        let ghost done = lv.subrange(first as int, i + 1);
        assert(done.drop_last() =~= lv.subrange(first as int, i as int));
        assert(done.last() == line@);
        match memchr::memmem::find(line, d) {
            Some(j) => {
                proof {
                    assert(occurs_at(line@, d@, j as int));
                    assert(j + dlen <= line@.len());
                    lemma_split_found(line@, d@, j as int);
                }
                let key = slice_to_vec(slice_subrange(line, 0, j));
                let value = slice_to_vec(slice_subrange(line, j + dlen, line.len()));
                t.insert(key, value);
            },
            None => {
                proof {
                    lemma_split_none(line@, d@);
                }
            },
        }
        i = i + 1;
    }
    assert(lv.subrange(first as int, lv.len() as int) =~= data_lines(bytes@, has_headers));
    t
}

} // verus!
