//! The `mime.types` registry format: lines, fields, and first-wins records.
use vstd::prelude::*;
use crate::chars::{
    Stop, chars_of, is_ws, last_slash, last_slash_in, lemma_last_slash_bounds,
    lemma_scan_bounds, lemma_token_start_bounds, scan, scan_from, token_start, token_start_of,
};
use crate::keys::{lemma_insert_sorted, search, sorted, views};
use vstd::string::StrSliceExecFns;
use vstd::string::StringExecFns;

verus! {

/// One registry record: `(extension, type, subtype)`.
pub type Record = (Seq<char>, Seq<char>, Seq<char>);

/// The line that starts at `i`: up to the next `\n`, less a `\r` just before that `\n`.
pub open spec fn line_at(t: Seq<char>, i: int) -> Seq<char> {
    let n = scan(t, i, Stop::Newline);
    if n < t.len() && n > i && t[n - 1] == '\r' {
        t.subrange(i, n - 1)
    } else {
        t.subrange(i, n)
    }
}

/// The lines of `t` from index `i` on; a final line ending adds no empty line.
pub open spec fn lines_from(t: Seq<char>, i: int) -> Seq<Seq<char>>
    decreases t.len() - i,
{
    if i < 0 || i >= t.len() {
        seq![]
    } else {
        proof {
            lemma_scan_bounds(t, i, Stop::Newline);
        }
        let n = scan(t, i, Stop::Newline);
        if n >= t.len() {
            seq![line_at(t, i)]
        } else {
            seq![line_at(t, i)] + lines_from(t, n + 1)
        }
    }
}

/// The lines of a registry text.
pub open spec fn lines(t: Seq<char>) -> Seq<Seq<char>> {
    lines_from(t, 0)
}

/// An empty line or a comment, which the format ignores.
pub open spec fn skipped(l: Seq<char>) -> bool {
    l.len() == 0 || l[0] == '#'
}

/// The record a line holds, if it has the shape `type/subtype [extension]`.
///
/// The first run of non-whitespace that holds a slash is split at its last slash
/// into type and subtype; the extension is the next run of non-whitespace after
/// it, and empty where there is none.
pub open spec fn fields(l: Seq<char>) -> Option<Record> {
    let p = scan(l, 0, Stop::Slash);
    if p >= l.len() {
        None
    } else {
        let q = token_start(l, p);
        let e = scan(l, p, Stop::Space);
        let s = last_slash(l, p, e);
        let w = scan(l, e, Stop::NonSpace);
        let f = scan(l, w, Stop::Space);
        Some((l.subrange(w, f), l.subrange(q, s), l.subrange(s + 1, e)))
    }
}

/// A line that is neither skipped nor of the record shape.
pub open spec fn malformed(l: Seq<char>) -> bool {
    !skipped(l) && fields(l) is None
}

/// The first malformed line, if any.
pub open spec fn first_bad(ls: Seq<Seq<char>>) -> Option<Seq<char>>
    decreases ls.len(),
{
    if ls.len() == 0 {
        None
    } else {
        match first_bad(ls.drop_last()) {
            Some(b) => Some(b),
            None => if malformed(ls.last()) {
                Some(ls.last())
            } else {
                None
            },
        }
    }
}

/// The records of the lines that are not skipped, in order.
pub open spec fn candidates(ls: Seq<Seq<char>>) -> Seq<Record>
    decreases ls.len(),
{
    if ls.len() == 0 {
        seq![]
    } else {
        let c = candidates(ls.drop_last());
        if !skipped(ls.last()) && fields(ls.last()) is Some {
            c.push(fields(ls.last())->0)
        } else {
            c
        }
    }
}

/// Some record of `rs` has extension `k`.
pub open spec fn has_ext(rs: Seq<Record>, k: Seq<char>) -> bool {
    exists|j: int| 0 <= j < rs.len() && (#[trigger] rs[j]).0 == k
}

/// The records of `rs` whose extension no earlier record has, in order.
pub open spec fn dedup(rs: Seq<Record>) -> Seq<Record>
    decreases rs.len(),
{
    if rs.len() == 0 {
        seq![]
    } else if has_ext(rs.drop_last(), rs.last().0) {
        dedup(rs.drop_last())
    } else {
        dedup(rs.drop_last()).push(rs.last())
    }
}

/// What a registry text parses to: the first malformed line, or the first-wins records.
pub open spec fn parse_registry(t: Seq<char>) -> Result<Seq<Record>, Seq<char>> {
    match first_bad(lines(t)) {
        Some(l) => Err(l),
        None => Ok(dedup(candidates(lines(t)))),
    }
}

/// The message that reports a malformed line.
pub open spec fn bad_line_message(l: Seq<char>) -> Seq<char> {
    "'"@ + l + "' does not match the pattern type/subtype [extension]"@
}

pub open spec fn record_view(r: (String, String, String)) -> Record {
    (r.0@, r.1@, r.2@)
}

pub open spec fn record_views(v: Seq<(String, String, String)>) -> Seq<Record> {
    v.map_values(|r: (String, String, String)| record_view(r))
}

/// Copies `t[lo..hi]`.
fn slice_chars(t: &Vec<char>, lo: usize, hi: usize) -> (r: Vec<char>)
    requires
        lo <= hi <= t.len(),
    ensures
        r@ == t@.subrange(lo as int, hi as int),
{
    let mut r: Vec<char> = Vec::new();
    let mut i: usize = lo;
    while i < hi
        invariant
            lo <= i <= hi <= t.len(),
            r@ == t@.subrange(lo as int, i as int),
        decreases hi - i,
    {
        r.push(t[i]);
        i = i + 1;
    }
    r
}

/// The bounds `(q, s, e, w, f)` of the fields of a line: type `q..s`, subtype
/// `s+1..e`, extension `w..f`; `None` where the line holds no slash.
fn field_bounds(l: &Vec<char>) -> (r: Option<(usize, usize, usize, usize, usize)>)
    ensures
        match r {
            None => fields(l@) is None,
            Some((q, s, e, w, f)) => {
                &&& q <= s < e <= w <= f <= l.len()
                &&& fields(l@) == Some(
                    (
                        l@.subrange(w as int, f as int),
                        l@.subrange(q as int, s as int),
                        l@.subrange(s + 1, e as int),
                    ),
                )
            },
        },
{
    let p = scan_from(l, 0, Stop::Slash);
    if p >= l.len() {
        return None;
    }
    proof {
        lemma_scan_bounds(l@, 0, Stop::Slash);
        lemma_scan_bounds(l@, p as int, Stop::Space);
        lemma_token_start_bounds(l@, p as int);
    }
    let q = token_start_of(l, p);
    let e = scan_from(l, p, Stop::Space);
    proof {
        assert(!is_ws(l@[p as int]));
        lemma_last_slash_bounds(l@, p as int, e as int);
        lemma_scan_bounds(l@, e as int, Stop::NonSpace);
    }
    let s = last_slash_in(l, p, e);
    let w = scan_from(l, e, Stop::NonSpace);
    proof {
        lemma_scan_bounds(l@, w as int, Stop::Space);
    }
    let f = scan_from(l, w, Stop::Space);
    Some((q, s, e, w, f))
}

/// Parses a registry text into its records, `(extension, type, subtype)`, in order
/// of first appearance and one per extension; fails with a message that quotes
/// the first malformed line.
pub fn parse_mimes(mimes: &str) -> (r: Result<Vec<(String, String, String)>, String>)
    ensures
        match r {
            Ok(v) => parse_registry(mimes@) == Ok::<Seq<Record>, Seq<char>>(record_views(v@)),
            Err(m) => parse_registry(mimes@) is Err && m@ == bad_line_message(
                parse_registry(mimes@)->Err_0,
            ),
        },
{
    let t = chars_of(mimes);
    let mut out: Vec<(String, String, String)> = Vec::new();
    let mut seen: Vec<Vec<char>> = Vec::new();
    let ghost mut done: Seq<Seq<char>> = seq![];
    let mut i: usize = 0;
    while i < t.len()
        invariant
            i <= t.len(),
            t@ == mimes@,
            lines(t@) == done + lines_from(t@, i as int),
            first_bad(done) is None,
            record_views(out@) == dedup(candidates(done)),
            sorted(views(seen@)),
            forall|k: Seq<char>|
                (exists|j: int| 0 <= j < seen.len() && #[trigger] seen@[j]@ == k) <==> has_ext(
                    candidates(done),
                    k,
                ),
        decreases t.len() - i,
    {
        proof {
            lemma_scan_bounds(t@, i as int, Stop::Newline);
        }
        let n = scan_from(&t, i, Stop::Newline);
        let end: usize = if n < t.len() && n > i && t[n - 1] == '\r' {
            n - 1
        } else {
            n
        };
        let line_str = mimes.substring_char(i, end);
        let line = chars_of(line_str);
        let ghost l = line@;
        assert(l == line_at(t@, i as int));
        assert(lines_from(t@, i as int) == seq![l] + lines_from(t@, n + 1));
        let ghost prev = done;
        proof {
            done = done.push(l);
            assert(done.drop_last() == prev);
            assert(lines(t@) == done + lines_from(t@, n + 1));
        }
        if line.len() == 0 || line[0] == '#' {
            assert(candidates(done) == candidates(prev));
        } else {
            match field_bounds(&line) {
                None => {
                    let mut m = String::from_str("'");
                    m.append(line_str);
                    m.append("' does not match the pattern type/subtype [extension]");
                    proof {
                        assert(first_bad(done) == Some(l));
                        assert(first_bad(lines(t@)) == Some(l)) by {
                            lemma_first_bad_prefix(done, lines_from(t@, n + 1));
                        }
                    }
                    return Err(m);
                },
                Some((q, s, e, w, f)) => {
                    let ext = slice_chars(&line, w, f);
                    let (found, pos) = search(&seen, &ext);
                    let ghost cands = candidates(prev);
                    assert(candidates(done) == cands.push(fields(l)->0));
                    assert(candidates(done).drop_last() == cands);
                    if !found {
                        let rec = (
                            line_str.substring_char(w, f).to_owned(),
                            line_str.substring_char(q, s).to_owned(),
                            line_str.substring_char(s + 1, e).to_owned(),
                        );
                        let ghost seen0 = seen@;
                        proof {
                            lemma_insert_sorted(seen@, pos as int, ext);
                        }
                        seen.insert(pos, ext);
                        let ghost before = out@;
                        out.push(rec);
                        assert(record_views(out@) == record_views(before).push(record_view(rec)));
                        assert forall|k: Seq<char>|
                            (exists|j: int| 0 <= j < seen.len() && #[trigger] seen@[j]@ == k)
                                <==> has_ext(candidates(done), k) by {
                            if has_ext(candidates(done), k) {
                                let j = choose|j: int|
                                    0 <= j < candidates(done).len() && (#[trigger] candidates(
                                        done,
                                    )[j]).0 == k;
                                if j < cands.len() {
                                    assert(cands[j] == candidates(done)[j]);
                                    assert(has_ext(cands, k));
                                    let j2 = choose|j2: int|
                                        0 <= j2 < seen0.len() && #[trigger] seen0[j2]@
                                            == k;
                                    assert(j2 < pos ==> seen@[j2]@ == k);
                                    assert(j2 >= pos ==> seen@[j2 + 1]@ == k);
                                } else {
                                    assert(seen@[pos as int]@ == k);
                                }
                            }
                            if exists|j: int| 0 <= j < seen.len() && #[trigger] seen@[j]@ == k {
                                let j = choose|j: int| 0 <= j < seen.len() && #[trigger] seen@[j]@ == k;
                                if j < pos {
                                    assert(seen0[j]@ == k);
                                    assert(has_ext(cands, k));
                                    let j3 = choose|j3: int|
                                        0 <= j3 < cands.len() && (#[trigger] cands[j3]).0 == k;
                                    assert(candidates(done)[j3] == cands[j3]);
                                } else if j == pos {
                                    assert(candidates(done)[cands.len() as int].0 == k);
                                } else {
                                    assert(seen0[j - 1]@ == k);
                                    assert(has_ext(cands, k));
                                    let j3 = choose|j3: int|
                                        0 <= j3 < cands.len() && (#[trigger] cands[j3]).0 == k;
                                    assert(candidates(done)[j3] == cands[j3]);
                                }
                            }
                        }
                    } else {
                        assert forall|k: Seq<char>|
                            (exists|j: int| 0 <= j < seen.len() && #[trigger] seen@[j]@ == k)
                                <==> has_ext(candidates(done), k) by {
                            if has_ext(candidates(done), k) {
                                let j = choose|j: int|
                                    0 <= j < candidates(done).len() && (#[trigger] candidates(
                                        done,
                                    )[j]).0 == k;
                                if j < cands.len() {
                                    assert(cands[j] == candidates(done)[j]);
                                    assert(has_ext(cands, k));
                                } else {
                                    assert(seen@[pos as int]@ == k);
                                }
                            }
                            if has_ext(cands, k) {
                                let j = choose|j: int| 0 <= j < cands.len() && (#[trigger] cands[j]).0 == k;
                                assert(cands[j] == candidates(done)[j]);
                            }
                        }
                    }
                },
            }
        }
        i = if n < t.len() {
            n + 1
        } else {
            n
        };
    }
    assert(done + lines_from(t@, i as int) == done);
    Ok(out)
}

/// A malformed line in a prefix is the first one of the whole sequence.
proof fn lemma_first_bad_prefix(a: Seq<Seq<char>>, b: Seq<Seq<char>>)
    requires
        first_bad(a) is Some,
    ensures
        first_bad(a + b) == first_bad(a),
    decreases b.len(),
{
    if b.len() > 0 {
        lemma_first_bad_prefix(a, b.drop_last());
        assert((a + b).drop_last() == a + b.drop_last());
    } else {
        assert(a + b == a);
    }
}

} // verus!

verus! {

proof fn lemma_all_skipped(ls: Seq<Seq<char>>)
    requires
        forall|i: int| 0 <= i < ls.len() ==> skipped(#[trigger] ls[i]),
    ensures
        first_bad(ls) is None,
        candidates(ls) == Seq::<Record>::empty(),
    decreases ls.len(),
{
    if ls.len() > 0 {
        assert(skipped(ls[ls.len() - 1]));
        lemma_all_skipped(ls.drop_last());
    }
}

/// A text whose every line is empty or a comment parses, to no records.
pub proof fn lemma_comments_only(t: Seq<char>)
    requires
        forall|i: int| 0 <= i < lines(t).len() ==> skipped(#[trigger] lines(t)[i]),
    ensures
        parse_registry(t) == Ok::<Seq<Record>, Seq<char>>(Seq::<Record>::empty()),
{
    lemma_all_skipped(lines(t));
}

proof fn lemma_first_bad_is_first(ls: Seq<Seq<char>>, i: int)
    requires
        0 <= i < ls.len(),
        malformed(ls[i]),
    ensures
        first_bad(ls) is Some,
        exists|j: int| 0 <= j <= i && ls[j] == first_bad(ls)->0 && malformed(ls[j]),
        (forall|j: int| 0 <= j < i ==> !malformed(#[trigger] ls[j])) ==> first_bad(ls) == Some(ls[i]),
    decreases ls.len(),
{
    if i < ls.len() - 1 {
        lemma_first_bad_is_first(ls.drop_last(), i);
        let j = choose|j: int|
            0 <= j <= i && ls.drop_last()[j] == first_bad(ls.drop_last())->0 && malformed(
                ls.drop_last()[j],
            );
        assert(ls[j] == ls.drop_last()[j]);
        if forall|j: int| 0 <= j < i ==> !malformed(#[trigger] ls[j]) {
            assert forall|j: int| 0 <= j < i implies !malformed(#[trigger] ls.drop_last()[j]) by {
                assert(ls.drop_last()[j] == ls[j]);
            }
        }
    } else {
        if first_bad(ls.drop_last()) is Some {
            lemma_first_bad_found(ls.drop_last());
            let j = choose|j: int|
                0 <= j < ls.drop_last().len() && ls.drop_last()[j] == first_bad(ls.drop_last())->0
                    && malformed(ls.drop_last()[j]);
            assert(ls[j] == ls.drop_last()[j]);
        }
    }
}

proof fn lemma_first_bad_found(ls: Seq<Seq<char>>)
    requires
        first_bad(ls) is Some,
    ensures
        exists|j: int| 0 <= j < ls.len() && ls[j] == first_bad(ls)->0 && malformed(ls[j]),
    decreases ls.len(),
{
    if first_bad(ls.drop_last()) is Some {
        lemma_first_bad_found(ls.drop_last());
        let j = choose|j: int|
            0 <= j < ls.drop_last().len() && ls.drop_last()[j] == first_bad(ls.drop_last())->0
                && malformed(ls.drop_last()[j]);
        assert(ls[j] == ls.drop_last()[j]);
    } else {
        assert(ls[ls.len() - 1] == ls.last());
    }
}

/// A malformed line makes the whole parse fail. The failure names a malformed
/// line at or before it, and that very line when no earlier line is malformed;
/// the message quotes the named line verbatim.
pub proof fn lemma_malformed_rejected(t: Seq<char>, i: int)
    requires
        0 <= i < lines(t).len(),
        malformed(lines(t)[i]),
    ensures
        parse_registry(t) is Err,
        exists|j: int|
            0 <= j <= i && lines(t)[j] == parse_registry(t)->Err_0 && malformed(lines(t)[j]),
        (forall|j: int| 0 <= j < i ==> !malformed(#[trigger] lines(t)[j])) ==> parse_registry(t)
            == Err::<Seq<Record>, Seq<char>>(lines(t)[i]),
        bad_line_message(parse_registry(t)->Err_0).subrange(
            1,
            parse_registry(t)->Err_0.len() + 1 as int,
        ) == parse_registry(t)->Err_0,
{
    lemma_first_bad_is_first(lines(t), i);
    let e = parse_registry(t)->Err_0;
    assert(bad_line_message(e).subrange(1, e.len() + 1 as int) =~= e) by {
        reveal_strlit("'");
    }
}

} // verus!
