//! Searching the lines of a text for a query.
use vstd::prelude::*;
use vstd::string::StringSliceAdditionalSpecFns;

verus! {

/// The message of a command line that lacks the query or the path.
pub const CONFIG_ARGS_ERR_MSG: &'static str = "not enough arguments (2 required)";

/// The message of a command line without a query.
pub const NO_QUERY_ERR_MSG: &'static str = "No query string provided";

/// The message of a command line with a query but without a path.
pub const NO_PATH_ERR_MSG: &'static str = "No filename provided";

/// What to search for, and where.
#[derive(Debug, PartialEq)]
pub struct Config {
    pub query: String,
    pub path: String,
    pub case_sensitive: bool,
}

impl Config {
    /// Reads the query and the path from a command line whose first word is
    /// the program; `case_insensitive` asks for a search that ignores case.
    pub fn new(args: &[String], case_insensitive: bool) -> (r: Result<Config, &'static str>)
        ensures
            r is Err <==> args@.len() < 3,
            r matches Err(e) ==> e@ == CONFIG_ARGS_ERR_MSG@,
            r matches Ok(c) ==> c.query@ == args@[1]@ && c.path@ == args@[2]@ && c.case_sensitive == !case_insensitive,
    {
        if args.len() < 3 {
            return Err(CONFIG_ARGS_ERR_MSG);
        }
        Ok(Config { query: args[1].clone(), path: args[2].clone(), case_sensitive: !case_insensitive })
    }

    /// Like `new`, but tells a missing query from a missing path.
    pub fn from_args(args: &[String], case_insensitive: bool) -> (r: Result<Config, &'static str>)
        ensures
            r is Err <==> args@.len() < 3,
            r matches Err(e) ==> (args@.len() < 2 ==> e@ == NO_QUERY_ERR_MSG@) && (args@.len() == 2 ==> e@
                == NO_PATH_ERR_MSG@),
            r matches Ok(c) ==> c.query@ == args@[1]@ && c.path@ == args@[2]@ && c.case_sensitive == !case_insensitive,
    {
        if args.len() < 2 {
            return Err(NO_QUERY_ERR_MSG);
        }
        if args.len() < 3 {
            return Err(NO_PATH_ERR_MSG);
        }
        Ok(Config { query: args[1].clone(), path: args[2].clone(), case_sensitive: !case_insensitive })
    }
}


/// The text split at every newline; the last piece may be empty.
pub open spec fn pieces(s: Seq<char>) -> Seq<Seq<char>>
    decreases s.len(),
{
    if s.len() == 0 {
        seq![Seq::empty()]
    } else {
        let p = pieces(s.drop_last());
        if s.last() == '\n' {
            p.push(Seq::empty())
        } else {
            p.update(p.len() - 1, p.last().push(s.last()))
        }
    }
}

/// A line ended by a newline, without the carriage return that may stand
/// before that newline.
pub open spec fn strip_cr(l: Seq<char>) -> Seq<char> {
    if l.len() > 0 && l.last() == '\r' {
        l.drop_last()
    } else {
        l
    }
}

/// The lines of a text: the pieces that a newline ends, each without a
/// carriage return just before that newline, then the piece after the last
/// newline as it stands, unless it is empty.
pub open spec fn lines_of(s: Seq<char>) -> Seq<Seq<char>> {
    let p = pieces(s);
    let ended = p.drop_last().map_values(|l: Seq<char>| strip_cr(l));
    if p.last().len() == 0 {
        ended
    } else {
        ended.push(p.last())
    }
}

/// `needle` occurs in `hay` as a run of consecutive characters.
pub open spec fn occurs_in(needle: Seq<char>, hay: Seq<char>) -> bool {
    exists|i: int| 0 <= i && i + needle.len() <= hay.len() && #[trigger] hay.subrange(i, i + needle.len()) == needle
}

/// The lines of `lines` that contain `query`, in order.
pub open spec fn matching(lines: Seq<Seq<char>>, query: Seq<char>) -> Seq<Seq<char>>
    decreases lines.len(),
{
    if lines.len() == 0 {
        Seq::empty()
    } else {
        let m = matching(lines.drop_last(), query);
        if occurs_in(query, lines.last()) {
            m.push(lines.last())
        } else {
            m
        }
    }
}

/// The lines of `lines` whose lowercase form contains `lowered_query`, in
/// order.
pub open spec fn matching_folded(lines: Seq<Seq<char>>, lowered_query: Seq<char>) -> Seq<Seq<char>>
    decreases lines.len(),
{
    if lines.len() == 0 {
        Seq::empty()
    } else {
        let m = matching_folded(lines.drop_last(), lowered_query);
        if occurs_in(lowered_query, lower_of(lines.last())) {
            m.push(lines.last())
        } else {
            m
        }
    }
}

/// The lowercase form of a text, as `str::to_lowercase` gives it.
pub uninterp spec fn lower_of(s: Seq<char>) -> Seq<char>;

/// Relies on `str::to_lowercase`: the lowercase form of the text, which
/// depends on its characters alone.
#[verifier::external_body]
fn to_lower(s: &str) -> (r: String)
    ensures
        r@ == lower_of(s@),
{
    s.to_lowercase()
}

/// The characters of each string.
pub open spec fn texts(v: Seq<&str>) -> Seq<Seq<char>> {
    v.map_values(|l: &str| l@)
}

/// The characters of `s`, one by one.
fn chars_of(s: &str) -> (r: Vec<char>)
    ensures
        r@ == s@,
{
    let n = s.unicode_len();
    let mut r: Vec<char> = Vec::new();
    let mut i: usize = 0;
    while i < n
        invariant
            n == s@.len(),
            i <= n,
            r@ == s@.subrange(0, i as int),
        decreases n - i,
    {
        let c = s.get_char(i);
        r.push(c);
        i = i + 1;
        assert(r@ =~= s@.subrange(0, i as int));
    }
    assert(r@ =~= s@);
    r
}

/// Whether `query` occurs in `line`.
pub fn contains_query(line: &str, query: &str) -> (r: bool)
    ensures
        r == occurs_in(query@, line@),
{
    let t = chars_of(line);
    let q = chars_of(query);
    if q.len() > t.len() {
        return false;
    }
    let last = t.len() - q.len();
    let mut i: usize = 0;
    while i <= last
        invariant
            t@ == line@,
            q@ == query@,
            last == t.len() - q.len(),
            i <= last + 1,
            forall|k: int| 0 <= k < i ==> #[trigger] t@.subrange(k, k + q.len()) != q@,
        decreases last + 1 - i,
    {
        let mut j: usize = 0;
        while j < q.len() && t[i + j] == q[j]
            invariant
                t@ == line@,
                q@ == query@,
                i <= last,
                last == t.len() - q.len(),
                j <= q.len(),
                forall|k: int| 0 <= k < j ==> t@[i + k] == q@[k],
            decreases q.len() - j,
        {
            j = j + 1;
        }
        if j == q.len() {
            assert(t@.subrange(i as int, i + q.len()) =~= q@);
            return true;
        }
        assert(t@.subrange(i as int, i + q.len())[j as int] != q@[j as int]);
        i = i + 1;
    }
    assert forall|k: int| 0 <= k && k + q@.len() <= t@.len() implies #[trigger] t@.subrange(k, k + q@.len()) != q@ by {
        assert(k < i);
    }
    false
}

/// The lines of `contents`, split at newlines; a carriage return just before
/// a newline is no part of its line, one with no newline after it is, and a
/// final newline ends the last line.
pub fn split_lines<'a>(contents: &'a str) -> (r: Vec<&'a str>)
    ensures
        texts(r@) == lines_of(contents@),
{
    let cs = chars_of(contents);
    let n = cs.len();
    let mut out: Vec<&'a str> = Vec::new();
    let ghost mut done: Seq<Seq<char>> = Seq::empty();
    let mut start: usize = 0;
    let mut i: usize = 0;
    assert(cs@.subrange(0, 0) =~= Seq::<char>::empty());
    assert(pieces(Seq::<char>::empty()) =~= done.push(cs@.subrange(0, 0)));
    assert(texts(out@) =~= done.map_values(|l: Seq<char>| strip_cr(l)));
    while i < n
        invariant
            cs@ == contents@,
            n == cs.len(),
            start <= i <= n,
            pieces(cs@.subrange(0, i as int)) == done.push(cs@.subrange(start as int, i as int)),
            texts(out@) == done.map_values(|l: Seq<char>| strip_cr(l)),
        decreases n - i,
    {
        let ghost prefix = cs@.subrange(0, i as int);
        let ghost cur = cs@.subrange(start as int, i as int);
        assert(cs@.subrange(0, i + 1).drop_last() =~= prefix);
        if cs[i] == '\n' {
            let end = if i > start && cs[i - 1] == '\r' {
                i - 1
            } else {
                i
            };
            let line = contents.substring_char(start, end);
            assert(line@ =~= strip_cr(cur));
            let ghost before = out@;
            out.push(line);
            proof {
                assert(texts(out@) =~= texts(before).push(line@));
                assert(done.push(cur).map_values(|l: Seq<char>| strip_cr(l)) =~= done.map_values(
                    |l: Seq<char>| strip_cr(l),
                ).push(strip_cr(cur)));
                done = done.push(cur);
                assert(cs@.subrange((i + 1) as int, (i + 1) as int) =~= Seq::<char>::empty());
            }
            start = i + 1;
        } else {
            assert(cs@.subrange(start as int, i + 1) =~= cur.push(cs@[i as int]));
            assert(done.push(cur).update(done.len() as int, cur.push(cs@[i as int])) =~= done.push(cur.push(cs@[i as int])));
        }
        i = i + 1;
    }
    let ghost cur = cs@.subrange(start as int, n as int);
    assert(cs@.subrange(0, n as int) =~= contents@);
    assert(pieces(contents@).drop_last() =~= done);
    if start < n {
        let line = contents.substring_char(start, n);
        assert(line@ =~= cur);
        let ghost before = out@;
        out.push(line);
        assert(texts(out@) =~= texts(before).push(line@));
        assert(pieces(contents@).last().len() != 0);
    } else {
        assert(cur =~= Seq::<char>::empty());
        assert(pieces(contents@).drop_last() =~= done);
    }
    out
}


/// The lines of `contents` that contain `query`, in order.
pub fn search<'a>(query: &str, contents: &'a str) -> (r: Vec<&'a str>)
    ensures
        texts(r@) == matching(lines_of(contents@), query@),
{
    let ls = split_lines(contents);
    let mut out: Vec<&'a str> = Vec::new();
    let mut i: usize = 0;
    while i < ls.len()
        invariant
            i <= ls.len(),
            texts(ls@) == lines_of(contents@),
            texts(out@) == matching(texts(ls@).take(i as int), query@),
        decreases ls.len() - i,
    {
        let line = ls[i];
        let ghost before = out@;
        assert(texts(ls@).take(i + 1).drop_last() =~= texts(ls@).take(i as int));
        assert(texts(ls@).take(i + 1).last() == line@);
        if contains_query(line, query) {
            out.push(line);
            assert(texts(out@) =~= texts(before).push(line@));
        }
        i = i + 1;
    }
    assert(texts(ls@).take(i as int) =~= texts(ls@));
    out
}

/// The lines of `contents` that contain `query` when both are taken in
/// lowercase, in order.
pub fn search_case_insensitive<'a>(query: &str, contents: &'a str) -> (r: Vec<&'a str>)
    ensures
        texts(r@) == matching_folded(lines_of(contents@), lower_of(query@)),
{
    let lowered_query = to_lower(query);
    let ls = split_lines(contents);
    let mut out: Vec<&'a str> = Vec::new();
    let mut i: usize = 0;
    while i < ls.len()
        invariant
            i <= ls.len(),
            lowered_query@ == lower_of(query@),
            texts(ls@) == lines_of(contents@),
            texts(out@) == matching_folded(texts(ls@).take(i as int), lower_of(query@)),
        decreases ls.len() - i,
    {
        let line = ls[i];
        let ghost before = out@;
        assert(texts(ls@).take(i + 1).drop_last() =~= texts(ls@).take(i as int));
        assert(texts(ls@).take(i + 1).last() == line@);
        let lowered_line = to_lower(line);
        if contains_query(lowered_line.as_str(), lowered_query.as_str()) {
            out.push(line);
            assert(texts(out@) =~= texts(before).push(line@));
        }
        i = i + 1;
    }
    assert(texts(ls@).take(i as int) =~= texts(ls@));
    out
}

/// The lines of `contents` that the configured query selects: matched as
/// written, or in lowercase when the search ignores case.
pub fn find_lines<'a>(cfg: &Config, contents: &'a str) -> (r: Vec<&'a str>)
    ensures
        cfg.case_sensitive ==> texts(r@) == matching(lines_of(contents@), cfg.query@),
        !cfg.case_sensitive ==> texts(r@) == matching_folded(lines_of(contents@), lower_of(cfg.query@)),
{
    if cfg.case_sensitive {
        search(cfg.query.as_str(), contents)
    } else {
        search_case_insensitive(cfg.query.as_str(), contents)
    }
}

} // verus!
