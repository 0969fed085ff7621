//! One substitution pass per key, and the fold of those passes over a table.
use vstd::prelude::*;
use vstd::slice::slice_subrange;
use vstd::string::StringExecFns;
use crate::search::{contains, occurs_at, starts_with, lemma_occurs_in_suffix, push_range};
use crate::table::{Pair, Table};

verus! {

/// `s` with every leftmost, non-overlapping occurrence of `k` replaced by `v`,
/// scanning from the front. Text produced by `v` is never scanned again. An
/// empty `k` matches at every position, the end included.
pub open spec fn replaced(s: Seq<u8>, k: Seq<u8>, v: Seq<u8>) -> Seq<u8>
    decreases s.len(),
{
    if s.len() == 0 {
        if k.len() == 0 { v } else { s }
    } else if k.len() == 0 {
        v + seq![s[0]] + replaced(s.drop_first(), k, v)
    } else if starts_with(s, k) {
        v + replaced(s.subrange(k.len() as int, s.len() as int), k, v)
    } else {
        seq![s[0]] + replaced(s.drop_first(), k, v)
    }
}

/// A prefix holding no occurrence of `k` is copied unchanged.
pub proof fn lemma_replaced_skip(s: Seq<u8>, k: Seq<u8>, v: Seq<u8>, i: int)
    requires
        k.len() > 0,
        0 <= i <= s.len(),
        forall|j: int| 0 <= j < i ==> !occurs_at(s, k, j),
    ensures
        replaced(s, k, v) == s.subrange(0, i) + replaced(s.subrange(i, s.len() as int), k, v),
    decreases i,
{
    if i == 0 {
        assert(s.subrange(0, 0) + s.subrange(0, s.len() as int) =~= s);
        assert(s.subrange(0, s.len() as int) =~= s);
    } else {
        let t = s.drop_first();
        assert(t =~= s.subrange(1, s.len() as int));
        assert(!occurs_at(s, k, 0));
        assert forall|j: int| 0 <= j < i - 1 implies !occurs_at(t, k, j) by {
            lemma_occurs_in_suffix(s, k, 1, j);
        }
        lemma_replaced_skip(t, k, v, i - 1);
        assert(t.subrange(i - 1, t.len() as int) =~= s.subrange(i, s.len() as int));
        assert(seq![s[0]] + t.subrange(0, i - 1) =~= s.subrange(0, i));
    }
}

/// A buffer in which `k` does not occur is left as it is.
pub proof fn lemma_replaced_absent(s: Seq<u8>, k: Seq<u8>, v: Seq<u8>)
    requires
        !contains(s, k),
    ensures
        replaced(s, k, v) == s,
{
    assert(occurs_at(s, Seq::<u8>::empty(), 0)) by {
        assert(s.subrange(0, 0) =~= Seq::<u8>::empty());
    }
    if k.len() == 0 {
        assert(k =~= Seq::<u8>::empty());
    }
    lemma_replaced_skip(s, k, v, s.len() as int);
    assert(s.subrange(0, s.len() as int) =~= s);
    assert(s.subrange(s.len() as int, s.len() as int) =~= Seq::<u8>::empty());
}

/// A file that holds none of the table's keys is left as it is and counts as
/// unchanged, so nothing is written for it.
pub proof fn lemma_no_key_no_change(s: Seq<u8>, e: Seq<Pair>)
    requires
        forall|i: int| 0 <= i < e.len() ==> !contains(s, #[trigger] e[i].0),
    ensures
        apply_pairs(s, e) == s,
        !any_match(s, e),
    decreases e.len(),
{
    if e.len() > 0 {
        let rest = e.drop_last();
        assert forall|i: int| 0 <= i < rest.len() implies !contains(s, #[trigger] rest[i].0) by {
            assert(rest[i] == e[i]);
        }
        lemma_no_key_no_change(s, rest);
        assert(!contains(s, e[e.len() - 1].0));
        lemma_replaced_absent(s, e.last().0, e.last().1);
    }
}

/// Within one key's pass, the value put in for a match is never scanned
/// again: the pass goes on right after the match. In particular a buffer
/// that is exactly the key becomes exactly the value, whatever the value
/// holds.
pub proof fn lemma_value_not_rescanned(s: Seq<u8>, k: Seq<u8>, v: Seq<u8>, i: int)
    requires
        k.len() > 0,
        occurs_at(s, k, i),
        forall|j: int| 0 <= j < i ==> !occurs_at(s, k, j),
    ensures
        replaced(s, k, v) == s.subrange(0, i) + v + replaced(
            s.subrange(i + k.len(), s.len() as int),
            k,
            v,
        ),
        replaced(k, k, v) == v,
{
    lemma_replaced_skip(s, k, v, i);
    let tail = s.subrange(i, s.len() as int);
    assert(tail.subrange(0, k.len() as int) =~= s.subrange(i, i + k.len()));
    assert(tail.subrange(k.len() as int, tail.len() as int) =~= s.subrange(
        i + k.len(),
        s.len() as int,
    ));
    assert(s.subrange(0, i) + (v + replaced(s.subrange(i + k.len(), s.len() as int), k, v))
        =~= s.subrange(0, i) + v + replaced(s.subrange(i + k.len(), s.len() as int), k, v));
    assert(k.subrange(0, k.len() as int) =~= k);
    assert(starts_with(k, k));
    let e = k.subrange(k.len() as int, k.len() as int);
    assert(e =~= Seq::<u8>::empty());
    assert(replaced(e, k, v) == e);
    assert(replaced(k, k, v) == v + replaced(e, k, v));
    assert(v + e =~= v);
}

/// The number of matches of `k` in one pass over `s`: leftmost and
/// non-overlapping; an empty `k` matches at every position, the end
/// included.
pub open spec fn count_matches(s: Seq<u8>, k: Seq<u8>) -> nat
    decreases s.len(),
{
    if k.len() == 0 {
        s.len() + 1
    } else if s.len() == 0 {
        0
    } else if starts_with(s, k) {
        1 + count_matches(s.subrange(k.len() as int, s.len() as int), k)
    } else {
        count_matches(s.drop_first(), k)
    }
}

/// Each match trades the key's length for the value's.
pub proof fn lemma_replaced_len(s: Seq<u8>, k: Seq<u8>, v: Seq<u8>)
    ensures
        replaced(s, k, v).len() + count_matches(s, k) * k.len() == s.len() + count_matches(s, k)
            * v.len(),
    decreases s.len(),
{
    let c = count_matches(s, k);
    if k.len() == 0 {
        assert(c * k.len() == 0) by (nonlinear_arith)
            requires
                k.len() == 0,
        ;
        if s.len() > 0 {
            let t = s.drop_first();
            lemma_replaced_len(t, k, v);
            let ct = count_matches(t, k);
            assert(ct * k.len() == 0) by (nonlinear_arith)
                requires
                    k.len() == 0,
            ;
            assert(c == ct + 1);
            assert(c * v.len() == v.len() + ct * v.len()) by (nonlinear_arith)
                requires
                    c == ct + 1,
            ;
        } else {
            assert(c == 1);
        }
    } else if s.len() == 0 {
    } else if starts_with(s, k) {
        let t = s.subrange(k.len() as int, s.len() as int);
        lemma_replaced_len(t, k, v);
        let ct = count_matches(t, k);
        assert(c == 1 + ct);
        assert(c * k.len() == k.len() + ct * k.len()) by (nonlinear_arith)
            requires
                c == 1 + ct,
        ;
        assert(c * v.len() == v.len() + ct * v.len()) by (nonlinear_arith)
            requires
                c == 1 + ct,
        ;
    } else {
        lemma_replaced_len(s.drop_first(), k, v);
    }
}

/// A key mapped to the empty value is deleted: every match is removed, and
/// the buffer shrinks by the key's length once per match.
pub proof fn lemma_deletion(s: Seq<u8>, k: Seq<u8>)
    requires
        k.len() > 0,
    ensures
        replaced(s, k, seq![]).len() == s.len() - count_matches(s, k) * k.len(),
        count_matches(s, k) == 0 ==> replaced(s, k, seq![]) == s,
{
    lemma_replaced_len(s, k, seq![]);
    if count_matches(s, k) == 0 {
        lemma_count_zero(s, k);
        lemma_replaced_absent(s, k, seq![]);
    }
}

/// Without a match, the key does not occur.
proof fn lemma_count_zero(s: Seq<u8>, k: Seq<u8>)
    requires
        k.len() > 0,
        count_matches(s, k) == 0,
    ensures
        !contains(s, k),
    decreases s.len(),
{
    if s.len() > 0 {
        assert(!starts_with(s, k));
        let t = s.drop_first();
        assert(t =~= s.subrange(1, s.len() as int));
        lemma_count_zero(t, k);
        assert forall|j: int| !occurs_at(s, k, j) by {
            if j > 0 {
                lemma_occurs_in_suffix(s, k, 1, j - 1);
            }
        }
    } else {
        assert forall|j: int| !occurs_at(s, k, j) by {}
    }
}

/// One pass of `key` over `content`: the new buffer, and whether the key
/// occurred at all.
pub fn replace_key(content: &[u8], key: &[u8], value: &[u8]) -> (r: (Vec<u8>, bool))
    ensures
        r.0@ == replaced(content@, key@, value@),
        r.1 == contains(content@, key@),
{
    let n = content.len();
    let klen = key.len();
    let mut out: Vec<u8> = Vec::new();
    let mut pos: usize = 0;
    let mut matched = false;
    assert(content@.subrange(0, n as int) =~= content@);
    assert(out@ + replaced(content@, key@, value@) =~= replaced(content@, key@, value@));
    loop
        invariant_except_break
            pos <= n == content@.len(),
            klen == key@.len(),
            out@ + replaced(content@.subrange(pos as int, n as int), key@, value@) == replaced(
                content@,
                key@,
                value@,
            ),
            matched ==> contains(content@, key@),
            !matched ==> pos == 0,
        ensures
            out@ == replaced(content@, key@, value@),
            matched == contains(content@, key@),
        decreases n - pos,
    {
        let ghost old_out = out@;
        let rest = slice_subrange(content, pos, n);
        match memchr::memmem::find(rest, key) {
            None => {
                proof {
                    lemma_replaced_absent(rest@, key@, value@);
                    if !matched {
                        assert(rest@ =~= content@);
                    }
                }
                push_range(&mut out, content, pos, n);
                assert(content@.subrange(pos as int, n as int) =~= rest@);
                break;
            },
            Some(i) => {
                proof {
                    lemma_occurs_in_suffix(content@, key@, pos as int, i as int);
                }
                matched = true;
                if klen == 0 {
                    proof {
                        assert(rest@.subrange(0, 0) =~= key@);
                        assert(occurs_at(rest@, key@, 0));
                    }
                    assert(i == 0);
                    push_range(&mut out, value, 0, value.len());
                    assert(value@.subrange(0, value@.len() as int) =~= value@);
                    if pos == n {
                        assert(rest@ =~= Seq::<u8>::empty());
                        break;
                    }
                    out.push(content[pos]);
                    pos = pos + 1;
                    assert(rest@.drop_first() =~= content@.subrange(pos as int, n as int));
                    assert(out@ =~= old_out + value@ + seq![rest@[0]]);
                } else {
                    let ghost tail = rest@.subrange(i as int, rest@.len() as int);
                    proof {
                        lemma_replaced_skip(rest@, key@, value@, i as int);
                        assert(tail.subrange(0, klen as int) =~= rest@.subrange(
                            i as int,
                            i + klen,
                        ));
                        assert(starts_with(tail, key@));
                        assert(tail.subrange(klen as int, tail.len() as int) =~= content@.subrange(
                            pos + i + klen,
                            n as int,
                        ));
                        assert(rest@.subrange(0, i as int) =~= content@.subrange(
                            pos as int,
                            pos + i,
                        ));
                    }
                    push_range(&mut out, content, pos, pos + i);
                    push_range(&mut out, value, 0, value.len());
                    assert(value@.subrange(0, value@.len() as int) =~= value@);
                    pos = pos + i + klen;
                }
            },
        }
    }
    (out, matched)
}

/// The buffer after one pass per entry of `e`, in order, each pass working
/// on what the previous ones left.
pub open spec fn apply_pairs(s: Seq<u8>, e: Seq<Pair>) -> Seq<u8>
    decreases e.len(),
{
    if e.len() == 0 {
        s
    } else {
        replaced(apply_pairs(s, e.drop_last()), e.last().0, e.last().1)
    }
}

/// Some pass of `e` over `s` found its key in the buffer it was given.
pub open spec fn any_match(s: Seq<u8>, e: Seq<Pair>) -> bool
    decreases e.len(),
{
    if e.len() == 0 {
        false
    } else {
        any_match(s, e.drop_last()) || contains(apply_pairs(s, e.drop_last()), e.last().0)
    }
}

/// Applies every entry of `table` to `content`, in the table's order: the
/// resulting buffer, and whether any key matched.
pub fn apply_table(content: Vec<u8>, table: &Table) -> (r: (Vec<u8>, bool))
    ensures
        r.0@ == apply_pairs(content@, table@),
        r.1 == any_match(content@, table@),
{
    let ghost e = table@;
    let mut buf = content;
    let mut modified = false;
    let mut i: usize = 0;
    let n = table.len();
    assert(e.subrange(0, 0) =~= Seq::<Pair>::empty());
    while i < n
        invariant
            e == table@,
            i <= n == e.len(),
            buf@ == apply_pairs(content@, e.subrange(0, i as int)),
            modified == any_match(content@, e.subrange(0, i as int)),
        decreases n - i,
    {
        let ghost done = e.subrange(0, i + 1);
        assert(done.drop_last() =~= e.subrange(0, i as int));
        let (next, m) = replace_key(buf.as_slice(), table.key_at(i), table.value_at(i));
        if m {
            buf = next;
            modified = true;
        } else {
            proof {
                lemma_replaced_absent(buf@, e[i as int].0, e[i as int].1);
            }
        }
        i = i + 1;
    }
    assert(e.subrange(0, n as int) =~= e);
    (buf, modified)
}

/// Where a changed file goes.
pub enum Destination {
    /// Over the input file, at its own path.
    Original,
    /// A new file beside the input, under this name.
    Sibling(String),
}

/// What is written for one file: where, and which bytes.
pub struct Output {
    pub destination: Destination,
    pub content: Vec<u8>,
}

/// The name of the copy of a file called `file_name`: the prefix, then the
/// file's own name.
pub fn copy_name(prefix: &str, file_name: &str) -> (r: String)
    ensures
        r@ == prefix@ + file_name@,
{
    let mut name = prefix.to_owned();
    name.append(file_name);
    name
}

/// Applies `table` to the bytes of the file called `file_name` and decides
/// what is written: nothing when no key matched; otherwise the new bytes,
/// over the original in place mode, else into a copy named by `prefix`.
pub fn plan_output(
    content: Vec<u8>,
    table: &Table,
    inplace: bool,
    prefix: &str,
    file_name: &str,
) -> (r: Option<Output>)
    ensures
        r is None <==> !any_match(content@, table@),
        match r {
            Some(o) => {
                &&& o.content@ == apply_pairs(content@, table@)
                &&& inplace ==> o.destination is Original
                &&& !inplace ==> match o.destination {
                    Destination::Sibling(name) => name@ == prefix@ + file_name@,
                    Destination::Original => false,
                }
            },
            None => true,
        },
{
    let (bytes, modified) = apply_table(content, table);
    if !modified {
        return None;
    }
    let destination = if inplace {
        Destination::Original
    } else {
        Destination::Sibling(copy_name(prefix, file_name))
    };
    Some(Output { destination, content: bytes })
}

} // verus!
