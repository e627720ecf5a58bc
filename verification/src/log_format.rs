//! The durable log's record format, as a mathematical model.
//!
//! A log is a sequence of lines separated by newlines; each line is
//! `<name> NUL <url>`. Replaying a log parses every line into a
//! `(name, url)` pair — the part before the single NUL separator is the
//! name, the part after it must be an absolute URL — and folds the pairs
//! into a mapping, later pairs winning. A single malformed line makes the
//! whole replay fail.

use crate::url::abs_url_of;
use crate::url::is_canon_url;
use vstd::prelude::*;

verus! {

/// Index of the first occurrence of `c` in `s`, or `s.len()` when `c` does
/// not occur.
pub open spec fn until_char(s: Seq<char>, c: char) -> nat
    decreases s.len(),
{
    if s.len() == 0 {
        0
    } else if s[0] == c {
        0
    } else {
        1 + until_char(s.skip(1), c)
    }
}

/// `until_char` points at the first occurrence of `c`, or at the end.
pub proof fn lemma_until_char(s: Seq<char>, c: char)
    ensures
        until_char(s, c) <= s.len(),
        forall|j: int| 0 <= j < until_char(s, c) ==> s[j] != c,
        until_char(s, c) < s.len() ==> s[until_char(s, c) as int] == c,
    decreases s.len(),
{
    if s.len() != 0 && s[0] != c {
        lemma_until_char(s.skip(1), c);
        assert forall|j: int| 0 <= j < until_char(s, c) implies s[j] != c by {
            if j > 0 {
                assert(s.skip(1)[j - 1] != c);
            }
        }
        if until_char(s, c) < s.len() {
            assert(s.skip(1)[until_char(s, c) - 1] == c);
        }
    }
}

/// `until_char` is the only index with nothing equal to `c` before it and
/// either `c` or the end of the sequence at it.
pub proof fn lemma_until_char_unique(s: Seq<char>, c: char, i: int)
    requires
        0 <= i <= s.len(),
        forall|j: int| 0 <= j < i ==> s[j] != c,
        i < s.len() ==> s[i] == c,
    ensures
        until_char(s, c) == i,
    decreases s.len(),
{
    if s.len() == 0 {
    } else if s[0] == c {
    } else {
        assert(i > 0);
        let t = s.skip(1);
        assert forall|j: int| 0 <= j < i - 1 implies t[j] != c by {
            assert(s[j + 1] != c);
        }
        assert(i - 1 < t.len() ==> t[i - 1] == c);
        lemma_until_char_unique(t, c, i - 1);
    }
}

/// The lines of a log text: maximal runs between newlines. A trailing
/// newline ends the last line; without one, the trailing partial line still
/// counts.
pub open spec fn split_lines(s: Seq<char>) -> Seq<Seq<char>>
    decreases s.len(),
{
    if s.len() == 0 {
        Seq::empty()
    } else {
        let b = until_char(s, '\n');
        if b >= s.len() {
            seq![s]
        } else {
            seq![s.take(b as int)] + split_lines(s.skip(b + 1int))
        }
    }
}

/// The name part of a line: everything before the first NUL.
pub open spec fn record_name(l: Seq<char>) -> Seq<char> {
    l.take(until_char(l, '\0') as int)
}

/// The URL part of a line: everything after the first NUL.
pub open spec fn record_url_text(l: Seq<char>) -> Seq<char> {
    l.skip(until_char(l, '\0') + 1int)
}

/// A line is well-separated when it holds exactly one NUL.
pub open spec fn record_sep_ok(l: Seq<char>) -> bool {
    until_char(l, '\0') < l.len() && !record_url_text(l).contains('\0')
}

/// Parse one line into a `(name, url)` pair: the line must hold exactly one
/// NUL, and its URL part must parse as an absolute URL, whose canonical text
/// is kept.
pub open spec fn parse_record(l: Seq<char>) -> Option<(Seq<char>, Seq<char>)> {
    if record_sep_ok(l) {
        match abs_url_of(record_url_text(l)) {
            Some(u) => Some((record_name(l), u)),
            None => None,
        }
    } else {
        None
    }
}

/// Parse every line, all or nothing.
pub open spec fn parse_records(ls: Seq<Seq<char>>) -> Option<Seq<(Seq<char>, Seq<char>)>>
    decreases ls.len(),
{
    if ls.len() == 0 {
        Some(Seq::empty())
    } else {
        match (parse_records(ls.drop_last()), parse_record(ls.last())) {
            (Some(rs), Some(r)) => Some(rs.push(r)),
            _ => None,
        }
    }
}

/// Fold parsed pairs into a mapping, in order, later pairs winning.
pub open spec fn fold_records(rs: Seq<(Seq<char>, Seq<char>)>) -> Map<Seq<char>, Seq<char>>
    decreases rs.len(),
{
    if rs.len() == 0 {
        Map::empty()
    } else {
        fold_records(rs.drop_last()).insert(rs.last().0, rs.last().1)
    }
}

/// The mapping a log text replays to, or `None` when some line is malformed.
pub open spec fn replay(s: Seq<char>) -> Option<Map<Seq<char>, Seq<char>>> {
    match parse_records(split_lines(s)) {
        Some(rs) => Some(fold_records(rs)),
        None => None,
    }
}

/// The one record a successful insert appends to the log.
pub open spec fn encode_record(n: Seq<char>, u: Seq<char>) -> Seq<char> {
    n + seq!['\0'] + u + seq!['\n']
}

/// All lines parse iff the whole log parses, and the parsed pairs are the
/// lines' pairs, in order.
pub proof fn lemma_parse_records(ls: Seq<Seq<char>>)
    ensures
        parse_records(ls) is Some <==> (forall|i: int|
            0 <= i < ls.len() ==> #[trigger] parse_record(ls[i]) is Some),
        parse_records(ls) matches Some(rs) ==> rs.len() == ls.len() && (forall|i: int|
            0 <= i < ls.len() ==> #[trigger] parse_record(ls[i]) == Some(rs[i])),
    decreases ls.len(),
{
    if ls.len() > 0 {
        lemma_parse_records(ls.drop_last());
        assert(ls.last() == ls[ls.len() - 1]);
        assert forall|i: int| 0 <= i < ls.len() - 1 implies ls.drop_last()[i] == ls[i] by {}
        if parse_records(ls.drop_last()) is Some && parse_record(ls.last()) is Some {
            assert forall|i: int|
                0 <= i < ls.len() implies #[trigger] parse_record(ls[i]) is Some by {
                if i < ls.len() - 1 {
                    assert(parse_record(ls.drop_last()[i]) is Some);
                }
            }
        }
    }
}

/// A key is in the folded mapping iff some pair carries it.
pub proof fn lemma_fold_records_domain(rs: Seq<(Seq<char>, Seq<char>)>, k: Seq<char>)
    ensures
        fold_records(rs).contains_key(k) <==> exists|i: int|
            0 <= i < rs.len() && (#[trigger] rs[i]).0 == k,
    decreases rs.len(),
{
    if rs.len() > 0 {
        lemma_fold_records_domain(rs.drop_last(), k);
        if rs.last().0 == k {
            assert(rs[rs.len() - 1].0 == k);
        } else if fold_records(rs.drop_last()).contains_key(k) {
            let i = choose|i: int| 0 <= i < rs.drop_last().len() && (#[trigger] rs.drop_last()[i]).0 == k;
            assert(rs[i].0 == k);
        } else if exists|i: int| 0 <= i < rs.len() && (#[trigger] rs[i]).0 == k {
            let i = choose|i: int| 0 <= i < rs.len() && (#[trigger] rs[i]).0 == k;
            assert(rs.drop_last()[i].0 == k);
        }
    }
}

/// Splitting distributes over concatenation at a newline boundary.
pub proof fn lemma_split_lines_append(s: Seq<char>, t: Seq<char>)
    requires
        s.len() == 0 || s.last() == '\n',
    ensures
        split_lines(s + t) == split_lines(s) + split_lines(t),
    decreases s.len(),
{
    if s.len() == 0 {
        assert(s + t =~= t);
        assert(split_lines(s) + split_lines(t) =~= split_lines(t));
    } else {
        let b = until_char(s, '\n') as int;
        lemma_until_char(s, '\n');
        assert(s[s.len() - 1] == '\n');
        assert(b < s.len());
        lemma_until_char_unique(s + t, '\n', b);
        let rest = s.skip(b + 1);
        assert((s + t).take(b) =~= s.take(b));
        assert((s + t).skip(b + 1) =~= rest + t);
        if rest.len() > 0 {
            assert(rest.last() == s.last());
        }
        lemma_split_lines_append(rest, t);
        assert(seq![s.take(b)] + (split_lines(rest) + split_lines(t)) =~= (seq![s.take(b)]
            + split_lines(rest)) + split_lines(t));
    }
}

/// An encoded record splits into its one line.
pub proof fn lemma_split_encoded(n: Seq<char>, u: Seq<char>)
    requires
        !n.contains('\n'),
        !u.contains('\n'),
    ensures
        split_lines(encode_record(n, u)) == seq![n + seq!['\0'] + u],
{
    let line = n + seq!['\0'] + u;
    let s = encode_record(n, u);
    assert(s =~= line + seq!['\n']);
    assert forall|j: int| 0 <= j < line.len() implies s[j] != '\n' by {
        if j < n.len() {
            assert(s[j] == n[j]);
            assert(!n.contains('\n'));
        } else if j == n.len() {
            assert(s[j] == '\0');
        } else {
            assert(s[j] == u[j - n.len() - 1]);
            assert(!u.contains('\n'));
        }
    }
    assert(s[line.len() as int] == '\n');
    lemma_until_char_unique(s, '\n', line.len() as int);
    assert(s.take(line.len() as int) =~= line);
    assert(s.skip(line.len() + 1int) =~= Seq::<char>::empty());
    assert(split_lines(s) == seq![s.take(line.len() as int)] + split_lines(
        s.skip(line.len() + 1int),
    ));
    assert(seq![line] + Seq::<Seq<char>>::empty() =~= seq![line]);
}

/// An encoded record's line parses back to its pair, provided the name holds
/// no NUL and the URL text is canonical (and holds no NUL).
pub proof fn lemma_parse_encoded(n: Seq<char>, u: Seq<char>)
    requires
        !n.contains('\0'),
        !u.contains('\0'),
        is_canon_url(u),
    ensures
        parse_record(n + seq!['\0'] + u) == Some((n, u)),
{
    let line = n + seq!['\0'] + u;
    assert forall|j: int| 0 <= j < n.len() implies line[j] != '\0' by {
        assert(line[j] == n[j]);
        assert(!n.contains('\0'));
    }
    assert(line[n.len() as int] == '\0');
    lemma_until_char_unique(line, '\0', n.len() as int);
    assert(record_name(line) =~= n);
    assert(record_url_text(line) =~= u);
}

/// Appending one well-formed record to a well-formed log replays to the old
/// mapping plus that pair. This is the durability step: a log that replays,
/// extended by the record a successful insert emits, replays to the updated
/// mapping — so a fresh instance rebuilt from the extended log resolves the
/// new name to the inserted URL.
pub proof fn lemma_replay_append(s: Seq<char>, m: Map<Seq<char>, Seq<char>>, n: Seq<char>, u: Seq<char>)
    requires
        replay(s) == Some(m),
        s.len() == 0 || s.last() == '\n',
        !n.contains('\0'),
        !n.contains('\n'),
        !u.contains('\0'),
        !u.contains('\n'),
        is_canon_url(u),
    ensures
        replay(s + encode_record(n, u)) == Some(m.insert(n, u)),
{
    let rec = encode_record(n, u);
    let line = n + seq!['\0'] + u;
    lemma_split_lines_append(s, rec);
    lemma_split_encoded(n, u);
    lemma_parse_encoded(n, u);
    let ls = split_lines(s);
    let rs = parse_records(ls)->Some_0;
    assert(split_lines(s + rec) =~= ls.push(line));
    assert(ls.push(line).drop_last() =~= ls);
    assert(ls.push(line).last() == line);
    assert(parse_records(ls.push(line)) == Some(rs.push((n, u))));
    assert(rs.push((n, u)).drop_last() =~= rs);
    assert(fold_records(rs.push((n, u))) == fold_records(rs).insert(n, u));
}

/// Replay idempotence: a log whose lines parse to pairs with pairwise
/// distinct names replays to the mapping that sends each parsed name to its
/// parsed URL. Replay is a function of the log text alone, so a second
/// instance rebuilt from the same text resolves every name identically.
pub proof fn lemma_replay_idempotent(s: Seq<char>, rs: Seq<(Seq<char>, Seq<char>)>)
    requires
        parse_records(split_lines(s)) == Some(rs),
        forall|i: int, j: int|
            0 <= i < j < rs.len() ==> (#[trigger] rs[i]).0 != (#[trigger] rs[j]).0,
    ensures
        replay(s) == Some(fold_records(rs)),
        forall|i: int|
            0 <= i < rs.len() ==> fold_records(rs).contains_key((#[trigger] rs[i]).0)
                && fold_records(rs)[rs[i].0] == rs[i].1,
{
    assert forall|i: int|
        0 <= i < rs.len() implies fold_records(rs).contains_key((#[trigger] rs[i]).0)
        && fold_records(rs)[rs[i].0] == rs[i].1 by {
        lemma_fold_records_last_wins(rs, i);
    }
}

/// A replayed mapping holds a name iff some line of the log carries it.
pub proof fn lemma_replay_domain(s: Seq<char>, m: Map<Seq<char>, Seq<char>>, k: Seq<char>)
    requires
        replay(s) == Some(m),
    ensures
        m.contains_key(k) <==> exists|i: int|
            0 <= i < split_lines(s).len() && record_name(#[trigger] split_lines(s)[i]) == k,
{
    let ls = split_lines(s);
    let rs = parse_records(ls)->Some_0;
    lemma_parse_records(ls);
    lemma_fold_records_domain(rs, k);
    assert forall|i: int|
        0 <= i < ls.len() implies ((#[trigger] rs[i]).0 == record_name(ls[i])) by {
        assert(parse_record(ls[i]) == Some(rs[i]));
    }
    if m.contains_key(k) {
        let i = choose|i: int| 0 <= i < rs.len() && (#[trigger] rs[i]).0 == k;
        assert(record_name(ls[i]) == k);
    } else {
        if exists|i: int|
            0 <= i < ls.len() && record_name(#[trigger] ls[i]) == k {
            let i = choose|i: int| 0 <= i < ls.len() && record_name(#[trigger] ls[i]) == k;
            assert(rs[i].0 == k);
        }
    }
}

/// A pair whose name does not recur later decides the folded mapping at its
/// name.
pub proof fn lemma_fold_records_last_wins(rs: Seq<(Seq<char>, Seq<char>)>, i: int)
    requires
        0 <= i < rs.len(),
        forall|j: int| i < j < rs.len() ==> (#[trigger] rs[j]).0 != rs[i].0,
    ensures
        fold_records(rs).contains_key(rs[i].0),
        fold_records(rs)[rs[i].0] == rs[i].1,
    decreases rs.len(),
{
    if i == rs.len() - 1 {
        assert(rs.last() == rs[i]);
    } else {
        assert forall|j: int| i < j < rs.drop_last().len() implies (#[trigger] rs.drop_last()[j]).0
            != rs.drop_last()[i].0 by {
            assert(rs[j].0 != rs[i].0);
        }
        lemma_fold_records_last_wins(rs.drop_last(), i);
        assert(rs.last().0 != rs[i].0);
    }
}

} // verus!
