//! The two mapping backends.
//!
//! `MemoryStore` keeps name-to-URL pairs in process memory only.
//! `SimpleFile` wraps a `MemoryStore` as the read cache of a durable
//! append-only log: it is built by replaying the log's text and queues one
//! record per successful insert for the process shell to append to the
//! backing file.

use crate::log_format::encode_record;
use crate::log_format::fold_records;
use crate::log_format::lemma_fold_records_domain;
use crate::log_format::lemma_fold_records_last_wins;
use crate::log_format::lemma_parse_records;
use crate::log_format::lemma_until_char;
use crate::log_format::lemma_until_char_unique;
use crate::log_format::parse_record;
use crate::log_format::parse_records;
use crate::log_format::record_sep_ok;
use crate::log_format::record_url_text;
use crate::log_format::replay;
use crate::log_format::split_lines;
use crate::log_format::until_char;
use crate::url::abs_url_of;
use crate::url::Url;
use crate::UrlMap;
use vstd::prelude::*;
use vstd::string::StrSliceExecFns;
use vstd::string::StringExecFns;

verus! {

/// One stored pair: a name and the destination it resolves to.
#[derive(Debug)]
pub struct Record {
    pub name: String,
    pub url: Url,
}

/// The pairs a sequence of records carries, as plain values.
pub open spec fn recs_view(rs: Seq<Record>) -> Seq<(Seq<char>, Seq<char>)> {
    rs.map_values(|r: Record| (r.name@, r.url@))
}

/// The in-memory backend: an associative store of name-to-URL pairs with no
/// persistence. Lookups scan backward, so where bulk construction handed in
/// duplicate names the later pair wins — the same choice the replay fold
/// makes.
#[derive(Debug)]
pub struct MemoryStore {
    entries: Vec<Record>,
}

impl MemoryStore {
    /// An empty store.
    pub fn new() -> (r: Self)
        ensures
            r.mapping() == Map::<Seq<char>, Seq<char>>::empty(),
    {
        MemoryStore::default()
    }

    /// Bulk construction from a sequence of pairs, for cache rebuilding;
    /// duplicate names resolve to the later pair.
    pub fn from_pairs(pairs: Vec<Record>) -> (r: Self)
        ensures
            r.mapping() == fold_records(recs_view(pairs@)),
    {
        MemoryStore { entries: pairs }
    }
}

impl Default for MemoryStore {
    /// An empty store.
    fn default() -> (r: Self)
        ensures
            r.mapping() == Map::<Seq<char>, Seq<char>>::empty(),
    {
        let r = MemoryStore { entries: Vec::new() };
        proof {
            assert(recs_view(r.entries@) =~= Seq::<(Seq<char>, Seq<char>)>::empty());
        }
        r
    }
}

impl UrlMap for MemoryStore {
    closed spec fn mapping(&self) -> Map<Seq<char>, Seq<char>> {
        fold_records(recs_view(self.entries@))
    }

    open spec fn pending_records(&self) -> Seq<Seq<char>> {
        Seq::empty()
    }

    open spec fn persists(&self) -> bool {
        false
    }

    fn lookup(&self, key: &str) -> (r: Option<&Url>) {
        let k: String = key.to_owned();
        let ghost rs = recs_view(self.entries@);
        let mut i: usize = self.entries.len();
        while i > 0
            invariant
                i <= self.entries.len(),
                k@ == key@,
                rs == recs_view(self.entries@),
                forall|j: int|
                    i <= j < self.entries@.len() ==> (#[trigger] self.entries@[j]).name@ != key@,
            decreases i,
        {
            i = i - 1;
            if self.entries[i].name == k {
                proof {
                    let ii = i as int;
                    assert(rs[ii].0 == key@);
                    assert forall|j: int| ii < j < rs.len() implies (#[trigger] rs[j]).0
                        != rs[ii].0 by {
                        assert(rs[j].0 == self.entries@[j].name@);
                    }
                    lemma_fold_records_last_wins(rs, i as int);
                }
                return Some(&self.entries[i].url);
            }
        }
        proof {
            lemma_fold_records_domain(rs, key@);
            assert forall|j: int| 0 <= j < rs.len() implies (#[trigger] rs[j]).0 != key@ by {
                assert(rs[j].0 == self.entries@[j].name@);
            }
        }
        None
    }

    fn maybe_insert(&mut self, key: &str, value: Url) -> (r: bool) {
        let ghost v = value@;
        if self.lookup(key).is_some() {
            return false;
        }
        let ghost old_rs = recs_view(self.entries@);
        self.entries.push(Record { name: key.to_owned(), url: value });
        proof {
            let rs = recs_view(self.entries@);
            assert(rs =~= old_rs.push((key@, v)));
            assert(rs.drop_last() =~= old_rs);
            assert(fold_records(rs) == fold_records(old_rs).insert(key@, v));
        }
        true
    }

    fn take_pending(&mut self) -> (r: Vec<String>) {
        let r: Vec<String> = Vec::new();
        proof {
            assert(r.deep_view() =~= Seq::<Seq<char>>::empty());
        }
        r
    }
}

/// Why constructing a persistent backend failed: the log is inconsistent
/// and the process must not start.
#[derive(Debug)]
pub enum LogError {
    /// A line without exactly one NUL separator, by zero-based index.
    BadSeparator { line: usize },
    /// A line whose URL part is not an absolute URL, by zero-based index,
    /// with the parser's reason.
    BadUrl { line: usize, reason: String },
}

/// Index of the first occurrence of `c` in `s`, or `s`'s length when `c`
/// does not occur.
fn find_char(s: &str, c: char) -> (r: usize)
    ensures
        r as nat == until_char(s@, c),
{
    let n = s.unicode_len();
    let mut i: usize = 0;
    while i < n
        invariant
            i <= n,
            n == s@.len(),
            forall|j: int| 0 <= j < i ==> s@[j] != c,
        decreases n - i,
    {
        if s.get_char(i) == c {
            proof {
                lemma_until_char_unique(s@, c, i as int);
            }
            return i;
        }
        i = i + 1;
    }
    proof {
        lemma_until_char_unique(s@, c, n as int);
    }
    n
}

/// Parse one log line, `<name> NUL <url>`: exactly one NUL, and the part
/// after it an absolute URL.
fn parse_line(line: &str, line_no: usize) -> (r: Result<Record, LogError>)
    ensures
        r matches Ok(rec) ==> parse_record(line@) == Some((rec.name@, rec.url@)),
        r is Err <==> parse_record(line@) is None,
        r matches Err(e) ==> match e {
            LogError::BadSeparator { line: l } => l == line_no && !record_sep_ok(line@),
            LogError::BadUrl { line: l, reason: _ } => l == line_no && record_sep_ok(line@)
                && abs_url_of(record_url_text(line@)) is None,
        },
{
    let n = line.unicode_len();
    let z = find_char(line, '\0');
    proof {
        lemma_until_char(line@, '\0');
    }
    if z == n {
        return Err(LogError::BadSeparator { line: line_no });
    }
    let name = line.substring_char(0, z);
    let rest = line.substring_char(z + 1, n);
    proof {
        assert(name@ =~= line@.take(until_char(line@, '\0') as int));
        assert(rest@ =~= record_url_text(line@));
        lemma_until_char(rest@, '\0');
    }
    let z2 = find_char(rest, '\0');
    if z2 < n - z - 1 {
        proof {
            assert(rest@[z2 as int] == '\0');
            assert(rest@.contains('\0'));
        }
        return Err(LogError::BadSeparator { line: line_no });
    }
    proof {
        assert(z2 as nat == rest@.len());
        assert(!rest@.contains('\0'));
        assert(record_sep_ok(line@));
    }
    match Url::parse(rest.to_owned()) {
        Ok(url) => Ok(Record { name: name.to_owned(), url }),
        Err(reason) => Err(LogError::BadUrl { line: line_no, reason }),
    }
}

/// The persistent backend's core: the in-memory cache rebuilt from the
/// durable log, plus the queue of records the log still has to gain. The
/// process shell owns the backing file itself: it hands the file's text to
/// `new` and appends every record `take_pending` yields.
#[derive(Debug)]
pub struct SimpleFile {
    cache: MemoryStore,
    pending: Vec<String>,
}

impl SimpleFile {
    /// Rebuild the cache by replaying a log's text. Fails — and the process
    /// must not start — exactly when some line is malformed: no single NUL
    /// separator, or a URL part that is not an absolute URL. The error names
    /// the first bad line.
    pub fn new(log: &str) -> (r: Result<SimpleFile, LogError>)
        ensures
            r is Ok <==> replay(log@) is Some,
            r matches Ok(sf) ==> replay(log@) == Some(sf.mapping()) && sf.pending_records()
                == Seq::<Seq<char>>::empty(),
            r matches Err(e) ==> match e {
                LogError::BadSeparator { line: l } => l < split_lines(log@).len()
                    && !record_sep_ok(split_lines(log@)[l as int]) && (forall|i: int|
                    0 <= i < l ==> parse_record(#[trigger] split_lines(log@)[i]) is Some),
                LogError::BadUrl { line: l, reason: _ } => l < split_lines(log@).len()
                    && record_sep_ok(split_lines(log@)[l as int]) && abs_url_of(
                    record_url_text(split_lines(log@)[l as int]),
                ) is None && (forall|i: int|
                    0 <= i < l ==> parse_record(#[trigger] split_lines(log@)[i]) is Some),
            },
    {
        let n = log.unicode_len();
        let ghost ls = split_lines(log@);
        let mut records: Vec<Record> = Vec::new();
        let mut pos: usize = 0;
        let mut line_no: usize = 0;
        proof {
            assert(log@.subrange(0, n as int) =~= log@);
            assert(ls.skip(0) =~= ls);
            assert(ls.take(0) =~= Seq::<Seq<char>>::empty());
            assert(recs_view(records@) =~= Seq::<(Seq<char>, Seq<char>)>::empty());
        }
        while pos < n
            invariant
                n == log@.len(),
                pos <= n,
                line_no <= pos,
                line_no == records@.len(),
                ls == split_lines(log@),
                line_no <= ls.len(),
                parse_records(ls.take(line_no as int)) == Some(recs_view(records@)),
                ls.skip(line_no as int) == split_lines(log@.subrange(pos as int, n as int)),
            decreases n - pos,
        {
            let ghost suffix = log@.subrange(pos as int, n as int);
            let ghost k = line_no as int;
            let tail = log.substring_char(pos, n);
            let b = find_char(tail, '\n');
            proof {
                lemma_until_char(suffix, '\n');
            }
            let line_end = pos + b;
            let line = log.substring_char(pos, line_end);
            proof {
                assert(suffix.len() > 0);
                assert(line@ =~= suffix.take(b as int));
                if b as nat >= suffix.len() {
                    assert(split_lines(suffix) == seq![suffix]);
                    assert(line@ =~= suffix);
                } else {
                    assert(split_lines(suffix) == seq![suffix.take(b as int)] + split_lines(
                        suffix.skip(b + 1int),
                    ));
                }
                assert(ls.skip(k)[0] == ls[k]);
                assert(k < ls.len());
                assert(ls[k] == line@);
            }
            match parse_line(line, line_no) {
                Err(e) => {
                    proof {
                        lemma_parse_records(ls.take(k));
                        assert forall|i: int|
                            0 <= i < k implies parse_record(#[trigger] ls[i]) is Some by {
                            assert(parse_record(ls.take(k)[i]) is Some);
                        }
                        lemma_parse_records(ls);
                        assert(parse_record(ls[k]) is None);
                        assert(parse_records(ls) is None);
                    }
                    return Err(e);
                },
                Ok(rec) => {
                    let ghost old_recs = recs_view(records@);
                    records.push(rec);
                    proof {
                        let pair = (rec.name@, rec.url@);
                        assert(recs_view(records@) =~= old_recs.push(pair));
                        let taken = ls.take(k + 1);
                        assert(taken =~= ls.take(k).push(ls[k]));
                        assert(taken.drop_last() =~= ls.take(k));
                        assert(taken.last() == ls[k]);
                        assert(parse_records(taken) == Some(old_recs.push(pair)));
                        // the rest of the log is what follows this line
                        if b as nat >= suffix.len() {
                            assert(ls.len() == k + 1);
                            assert(ls.skip(k + 1) =~= Seq::<Seq<char>>::empty());
                            assert(log@.subrange(n as int, n as int) =~= Seq::<char>::empty());
                        } else {
                            assert(ls.skip(k + 1) =~= ls.skip(k).skip(1));
                            assert(ls.skip(k).skip(1) =~= split_lines(suffix.skip(b + 1int)));
                            assert(log@.subrange(pos + b + 1int, n as int) =~= suffix.skip(
                                b + 1int,
                            ));
                        }
                    }
                    if line_end == n {
                        pos = n;
                    } else {
                        pos = line_end + 1;
                    }
                    line_no = line_no + 1;
                },
            }
        }
        proof {
            assert(log@.subrange(pos as int, n as int) =~= Seq::<char>::empty());
            assert(ls.skip(line_no as int).len() == 0);
            assert(ls.take(line_no as int) =~= ls);
        }
        let cache = MemoryStore::from_pairs(records);
        let sf = SimpleFile { cache, pending: Vec::new() };
        proof {
            assert(sf.pending_records() =~= Seq::<Seq<char>>::empty());
        }
        Ok(sf)
    }
}

/// The one record a successful insert appends: the name, a NUL, the URL's
/// canonical text, a newline.
fn encode_line(key: &str, url: &Url) -> (r: String)
    ensures
        r@ == encode_record(key@, url@),
{
    let mut s = String::from_str(key);
    s.append("\0");
    s.append(url.as_str());
    s.append("\n");
    proof {
        reveal_strlit("\0");
        reveal_strlit("\n");
        assert(s@ =~= encode_record(key@, url@));
    }
    s
}

impl UrlMap for SimpleFile {
    closed spec fn mapping(&self) -> Map<Seq<char>, Seq<char>> {
        self.cache.mapping()
    }

    closed spec fn pending_records(&self) -> Seq<Seq<char>> {
        self.pending.deep_view()
    }

    open spec fn persists(&self) -> bool {
        true
    }

    fn lookup(&self, key: &str) -> (r: Option<&Url>) {
        self.cache.lookup(key)
    }

    fn maybe_insert(&mut self, key: &str, value: Url) -> (r: bool) {
        let rec = encode_line(key, &value);
        if self.cache.maybe_insert(key, value) {
            let ghost old_pending = self.pending.deep_view();
            self.pending.push(rec);
            proof {
                assert(self.pending.deep_view() =~= old_pending.push(rec@));
            }
            true
        } else {
            false
        }
    }

    fn take_pending(&mut self) -> (r: Vec<String>) {
        let mut out: Vec<String> = Vec::new();
        core::mem::swap(&mut out, &mut self.pending);
        proof {
            assert(self.pending.deep_view() =~= Seq::<Seq<char>>::empty());
        }
        out
    }
}

/// The one backend a process runs with, chosen once at startup from
/// configuration: a sentinel value selects the in-memory store, any other
/// value names the persistent backend's log file.
#[derive(Debug)]
pub enum Backend {
    Memory(MemoryStore),
    AppendLog(SimpleFile),
}

impl UrlMap for Backend {
    open spec fn mapping(&self) -> Map<Seq<char>, Seq<char>> {
        match self {
            Backend::Memory(m) => m.mapping(),
            Backend::AppendLog(f) => f.mapping(),
        }
    }

    open spec fn pending_records(&self) -> Seq<Seq<char>> {
        match self {
            Backend::Memory(m) => m.pending_records(),
            Backend::AppendLog(f) => f.pending_records(),
        }
    }

    open spec fn persists(&self) -> bool {
        match self {
            Backend::Memory(m) => m.persists(),
            Backend::AppendLog(f) => f.persists(),
        }
    }

    fn lookup(&self, key: &str) -> (r: Option<&Url>) {
        match self {
            Backend::Memory(m) => m.lookup(key),
            Backend::AppendLog(f) => f.lookup(key),
        }
    }

    fn maybe_insert(&mut self, key: &str, value: Url) -> (r: bool) {
        match self {
            Backend::Memory(m) => m.maybe_insert(key, value),
            Backend::AppendLog(f) => f.maybe_insert(key, value),
        }
    }

    fn take_pending(&mut self) -> (r: Vec<String>) {
        match self {
            Backend::Memory(m) => m.take_pending(),
            Backend::AppendLog(f) => f.take_pending(),
        }
    }
}

} // verus!

