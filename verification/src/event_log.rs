//! The per-session event log: newline-delimited JSON, one seq-stamped envelope
//! per line, append-only. This module holds the log's framing: how a line is
//! written, how the last line and the trailing lines are read back, and the
//! laws that tie reading to writing.
use vstd::prelude::*;

use std::path::PathBuf;

use crate::text::{is_blank, is_blank_str, lines, line_scan, line_step, split_lines, string_of,
    push_char, strip_cr, views};

verus! {

broadcast use vstd::string::group_string_axioms;

/// How many trailing events a debug bundle and the tail of a log keep.
pub const EVENT_LOG_TAIL_LIMIT: usize = 200;

#[verifier::external_type_specification]
#[verifier::external_body]
pub struct ExPathBuf(PathBuf);

/// The append-only event log of one session, stored at `path`.
pub struct EventLog {
    path: PathBuf,
}

impl EventLog {
    /// The file the log is stored in.
    pub closed spec fn stored_path(&self) -> PathBuf {
        self.path
    }

    /// A log stored at `path` (the file is created on the first append).
    pub fn new(path: PathBuf) -> (r: Self)
        ensures
            r.stored_path() == path,
    {
        EventLog { path }
    }

    /// Where the log is stored: the path it was created with.
    pub fn path(&self) -> (r: &PathBuf)
        ensures
            *r == self.stored_path(),
    {
        &self.path
    }
}

// ---------------------------------------------------------------------------
// Specification of the log's text
// ---------------------------------------------------------------------------
/// A line the log can hold unchanged: it has no line feed and does not end
/// with a carriage return (compact JSON never does).
pub open spec fn well_framed_line(l: Seq<char>) -> bool {
    &&& !l.contains('\n')
    &&& (l.len() == 0 || l.last() != '\r')
}

/// The text of a log into which `ls` were appended in order.
pub open spec fn framed(ls: Seq<Seq<char>>) -> Seq<char>
    decreases ls.len(),
{
    if ls.len() == 0 {
        Seq::empty()
    } else {
        framed(ls.drop_last()) + ls.last().push('\n')
    }
}

/// What reading the last line yields: the last line of the text, unless there
/// is none or it is empty.
pub open spec fn spec_last_line(content: Seq<char>) -> Option<Seq<char>> {
    let ls = lines(content);
    if ls.len() == 0 {
        None
    } else if ls.last().len() == 0 {
        None
    } else {
        Some(ls.last())
    }
}

/// The lines that are not blank, in order.
pub open spec fn nonblank_lines(ls: Seq<Seq<char>>) -> Seq<Seq<char>>
    decreases ls.len(),
{
    if ls.len() == 0 {
        Seq::empty()
    } else if is_blank(ls.last()) {
        nonblank_lines(ls.drop_last())
    } else {
        nonblank_lines(ls.drop_last()).push(ls.last())
    }
}

/// The last `limit` non-blank lines of the text (all of them when there are fewer).
pub open spec fn spec_tail(content: Seq<char>, limit: nat) -> Seq<Seq<char>> {
    let nb = nonblank_lines(lines(content));
    let k = if limit < nb.len() {
        limit
    } else {
        nb.len()
    };
    nb.subrange(nb.len() - k, nb.len() as int)
}

// ---------------------------------------------------------------------------
// Executable framing
// ---------------------------------------------------------------------------
/// The text appended for one entry: the line followed by a line feed, written
/// in one piece so that concurrent appenders never split a line from its end.
pub fn frame_line(line: &str) -> (r: String)
    ensures
        r@ == line@.push('\n'),
{
    let mut r = string_of(line);
    push_char(&mut r, '\n');
    r
}

/// The text of several entries framed one after the other.
pub fn frame_lines(ls: &Vec<String>) -> (r: String)
    ensures
        r@ == framed(views(ls@)),
{
    let mut r = String::new();
    let n = ls.len();
    for i in 0..n
        invariant
            n == ls.len(),
            r@ == framed(views(ls@).take(i as int)),
    {
        let ghost pre = views(ls@).take(i as int);
        assert(views(ls@).take(i + 1).drop_last() == pre);
        crate::text::push_str(&mut r, ls[i].as_str());
        push_char(&mut r, '\n');
        assert(r@ == framed(views(ls@).take(i + 1)));
    }
    assert(views(ls@).take(n as int) == views(ls@));
    r
}

/// The last line of a log's text, or `None` when the text has no line or its
/// last line is empty.
pub fn last_line(content: &str) -> (r: Option<String>)
    ensures
        match r {
            Some(l) => spec_last_line(content@) == Some(l@),
            None => spec_last_line(content@) is None,
        },
{
    let mut ls = split_lines(content);
    match ls.pop() {
        None => None,
        Some(l) => {
            assert(l@ == lines(content@).last());
            if l.as_str().is_empty() {
                None
            } else {
                Some(l)
            }
        },
    }
}

/// The last `limit` non-blank lines of a log's text, oldest first.
pub fn tail_lines(content: &str, limit: usize) -> (r: Vec<String>)
    ensures
        views(r@) == spec_tail(content@, limit as nat),
{
    let ls = split_lines(content);
    let n = ls.len();
    let mut nb: Vec<String> = Vec::new();
    for i in 0..n
        invariant
            n == ls.len(),
            views(ls@) == lines(content@),
            views(nb@) == nonblank_lines(views(ls@).take(i as int)),
    {
        let ghost pre = views(ls@).take(i as int);
        assert(views(ls@).take(i + 1).drop_last() == pre);
        assert(views(ls@).take(i + 1).last() == ls@[i as int]@);
        if !is_blank_str(ls[i].as_str()) {
            nb.push(ls[i].clone());
        }
    }
    assert(views(ls@).take(n as int) == views(ls@));
    let m = nb.len();
    let start = if limit < m {
        m - limit
    } else {
        0
    };
    let mut r: Vec<String> = Vec::new();
    for j in start..m
        invariant
            m == nb.len(),
            start <= m,
            views(r@) == views(nb@).subrange(start as int, j as int),
    {
        let ghost before = r@;
        let x = nb[j].clone();
        r.push(x);
        assert(r@ == before.push(x));
        assert(views(r@) =~= views(before).push(x@));
        assert(views(r@) =~= views(nb@).subrange(start as int, j + 1));
    }
    assert(views(r@) =~= spec_tail(content@, limit as nat));
    r
}

// ---------------------------------------------------------------------------
// Laws
// ---------------------------------------------------------------------------
proof fn lemma_line_scan_concat(p: Seq<char>, q: Seq<char>)
    requires
        line_scan(p).1.len() == 0,
    ensures
        line_scan(p + q) == (line_scan(p).0 + line_scan(q).0, line_scan(q).1),
    decreases q.len(),
{
    if q.len() == 0 {
        assert(p + q =~= p);
        assert(line_scan(p).0 + line_scan(q).0 =~= line_scan(p).0);
        assert(line_scan(p).1 =~= Seq::<char>::empty());
    } else {
        lemma_line_scan_concat(p, q.drop_last());
        assert((p + q).drop_last() =~= p + q.drop_last());
        assert((p + q).last() == q.last());
        let a = line_scan(p).0;
        let bc = line_scan(q.drop_last());
        if q.last() == '\n' {
            assert((a + bc.0).push(strip_cr(bc.1)) =~= a + bc.0.push(strip_cr(bc.1)));
        }
    }
}

proof fn lemma_line_scan_single(l: Seq<char>)
    requires
        !l.contains('\n'),
    ensures
        line_scan(l) == (Seq::<Seq<char>>::empty(), l),
    decreases l.len(),
{
    if l.len() > 0 {
        assert(!l.drop_last().contains('\n')) by {
            if l.drop_last().contains('\n') {
                let k = choose|k: int| 0 <= k < l.drop_last().len() && l.drop_last()[k] == '\n';
                assert(l[k] == '\n');
            }
        }
        lemma_line_scan_single(l.drop_last());
        assert(l.last() != '\n') by {
            assert(l[l.len() - 1] == l.last());
        }
        assert(l.drop_last().push(l.last()) =~= l);
    } else {
        assert(l =~= Seq::<char>::empty());
    }
}

proof fn lemma_line_scan_framed(ls: Seq<Seq<char>>)
    requires
        forall|i: int| 0 <= i < ls.len() ==> well_framed_line(#[trigger] ls[i]),
    ensures
        line_scan(framed(ls)) == (ls, Seq::<char>::empty()),
    decreases ls.len(),
{
    if ls.len() == 0 {
        assert(ls =~= Seq::<Seq<char>>::empty());
    } else {
        let init = ls.drop_last();
        let l = ls.last();
        assert(well_framed_line(ls[ls.len() - 1]));
        assert forall|i: int| 0 <= i < init.len() implies well_framed_line(#[trigger] init[i]) by {
            assert(init[i] == ls[i]);
        }
        lemma_line_scan_framed(init);
        lemma_line_scan_single(l);
        let lf = l.push('\n');
        assert(lf.drop_last() =~= l);
        assert(line_scan(lf) == line_step(line_scan(l), '\n'));
        assert(strip_cr(l) == l);
        lemma_line_scan_concat(framed(init), lf);
        assert(init + seq![l] =~= ls);
    }
}

/// Appending lines and reading the log back gives exactly the appended lines.
pub proof fn lemma_lines_of_framed(ls: Seq<Seq<char>>)
    requires
        forall|i: int| 0 <= i < ls.len() ==> well_framed_line(#[trigger] ls[i]),
    ensures
        lines(framed(ls)) == ls,
{
    lemma_line_scan_framed(ls);
}

/// Read after write: once a non-empty line has been appended, reading the last
/// line of the log gives that line back.
pub proof fn lemma_read_last_after_append(ls: Seq<Seq<char>>, l: Seq<char>)
    requires
        forall|i: int| 0 <= i < ls.len() ==> well_framed_line(#[trigger] ls[i]),
        well_framed_line(l),
        l.len() > 0,
    ensures
        spec_last_line(framed(ls) + l.push('\n')) == Some(l),
{
    let all = ls.push(l);
    assert forall|i: int| 0 <= i < all.len() implies well_framed_line(#[trigger] all[i]) by {
        if i < ls.len() {
            assert(all[i] == ls[i]);
        }
    }
    assert(all.drop_last() =~= ls);
    lemma_lines_of_framed(all);
}

proof fn lemma_nonblank_all(ls: Seq<Seq<char>>)
    requires
        forall|i: int| 0 <= i < ls.len() ==> !is_blank(#[trigger] ls[i]),
    ensures
        nonblank_lines(ls) == ls,
    decreases ls.len(),
{
    if ls.len() == 0 {
        assert(ls =~= Seq::<Seq<char>>::empty());
    } else {
        assert(!is_blank(ls[ls.len() - 1]));
        assert forall|i: int| 0 <= i < ls.drop_last().len() implies !is_blank(
            #[trigger] ls.drop_last()[i],
        ) by {
            assert(ls.drop_last()[i] == ls[i]);
        }
        lemma_nonblank_all(ls.drop_last());
        assert(ls.drop_last().push(ls.last()) =~= ls);
    }
}

/// Tail after appends: when only non-blank lines were appended, the tail of
/// the log with limit `n` is the last `n` of them (all when fewer), in order.
pub proof fn lemma_tail_after_appends(ls: Seq<Seq<char>>, n: nat)
    requires
        forall|i: int|
            0 <= i < ls.len() ==> well_framed_line(#[trigger] ls[i]) && !is_blank(ls[i]),
    ensures
        spec_tail(framed(ls), n) == ls.subrange(
            ls.len() - (if n < ls.len() {
                n
            } else {
                ls.len()
            }),
            ls.len() as int,
        ),
{
    lemma_lines_of_framed(ls);
    lemma_nonblank_all(ls);
}

} // verus!
