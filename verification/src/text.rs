//! Character-level text handling shared by the protocol and the event log:
//! Unicode whitespace, whitespace collapsing, line splitting with the
//! semantics of `str::lines`, blank-line tests and decimal rendering.
use vstd::prelude::*;

verus! {

broadcast use vstd::string::group_string_axioms;

/// Unicode `White_Space` property: the characters that `char::is_whitespace`,
/// `str::split_whitespace` and `str::trim` treat as blank.
pub open spec fn is_ws(c: char) -> bool {
    let u = c as u32;
    ||| 0x09 <= u <= 0x0D
    ||| u == 0x20
    ||| u == 0x85
    ||| u == 0xA0
    ||| u == 0x1680
    ||| 0x2000 <= u <= 0x200A
    ||| u == 0x2028
    ||| u == 0x2029
    ||| u == 0x202F
    ||| u == 0x205F
    ||| u == 0x3000
}

/// Executable test for the Unicode `White_Space` property.
pub fn is_whitespace_char(c: char) -> (r: bool)
    ensures
        r == is_ws(c),
{
    let u = c as u32;
    (0x09 <= u && u <= 0x0D) || u == 0x20 || u == 0x85 || u == 0xA0 || u == 0x1680 || (0x2000
        <= u && u <= 0x200A) || u == 0x2028 || u == 0x2029 || u == 0x202F || u == 0x205F || u
        == 0x3000
}

/// Appends one character to a string (`String::push`).
#[verifier::external_body]
pub(crate) fn push_char(s: &mut String, c: char)
    ensures
        final(s)@ == old(s)@.push(c),
{
    s.push(c);
}

/// Appends a string slice to a string.
pub(crate) fn push_str(s: &mut String, t: &str)
    ensures
        final(s)@ == old(s)@ + t@,
{
    let ghost start = s@;
    for c in it: t.chars()
        invariant
            it.seq() == t@,
            s@ == start + t@.take(it.index() as int),
    {
        assert(t@.take(it.index() + 1) == t@.take(it.index() as int).push(c));
        push_char(s, c);
    }
    assert(t@.take(t@.len() as int) == t@);
}

/// A fresh `String` holding the characters of `t`.
pub(crate) fn string_of(t: &str) -> (r: String)
    ensures
        r@ == t@,
{
    let mut r = String::new();
    push_str(&mut r, t);
    r
}

/// Concatenation of two string slices.
pub(crate) fn concat2(a: &str, b: &str) -> (r: String)
    ensures
        r@ == a@ + b@,
{
    let mut r = string_of(a);
    push_str(&mut r, b);
    r
}

/// Whether a string holds exactly the characters of `b`.
pub fn eq_str(a: &String, b: &str) -> (r: bool)
    ensures
        r == (a@ == b@),
{
    let t = string_of(b);
    *a == t
}

// ---------------------------------------------------------------------------
// Whitespace words
// ---------------------------------------------------------------------------
/// One step of scanning for whitespace-separated words: the words finished so
/// far and the word in progress.
pub open spec fn word_step(st: (Seq<Seq<char>>, Seq<char>), c: char) -> (
    Seq<Seq<char>>,
    Seq<char>,
) {
    if is_ws(c) {
        if st.1.len() > 0 {
            (st.0.push(st.1), Seq::empty())
        } else {
            st
        }
    } else {
        (st.0, st.1.push(c))
    }
}

pub open spec fn word_scan(s: Seq<char>) -> (Seq<Seq<char>>, Seq<char>)
    decreases s.len(),
{
    if s.len() == 0 {
        (Seq::empty(), Seq::empty())
    } else {
        word_step(word_scan(s.drop_last()), s.last())
    }
}

/// The maximal runs of non-whitespace characters of `s`, in order
/// (what `str::split_whitespace` yields).
pub open spec fn words(s: Seq<char>) -> Seq<Seq<char>> {
    let st = word_scan(s);
    if st.1.len() > 0 {
        st.0.push(st.1)
    } else {
        st.0
    }
}

/// The words joined with one space between neighbours.
pub open spec fn join_words(ws: Seq<Seq<char>>) -> Seq<char>
    decreases ws.len(),
{
    if ws.len() == 0 {
        Seq::empty()
    } else if ws.len() == 1 {
        ws[0]
    } else {
        join_words(ws.drop_last()) + seq![' '] + ws.last()
    }
}

/// `s` with leading and trailing whitespace removed and every inner run of
/// whitespace replaced by one space.
pub open spec fn collapse_whitespace(s: Seq<char>) -> Seq<char> {
    join_words(words(s))
}

proof fn lemma_join_extend_last(ws: Seq<Seq<char>>, c: char)
    requires
        ws.len() > 0,
    ensures
        join_words(ws.drop_last().push(ws.last().push(c))) == join_words(ws).push(c),
{
    let ws2 = ws.drop_last().push(ws.last().push(c));
    assert(ws2.drop_last() == ws.drop_last());
    if ws.len() == 1 {
        assert(join_words(ws2) == ws2[0]);
    } else {
        assert(join_words(ws2) == join_words(ws2.drop_last()) + seq![' '] + ws2.last());
        assert(join_words(ws2) =~= join_words(ws).push(c));
    }
}

proof fn lemma_join_new_word(ws: Seq<Seq<char>>, c: char)
    ensures
        join_words(ws.push(seq![c])) == (if ws.len() == 0 {
            seq![c]
        } else {
            join_words(ws).push(' ').push(c)
        }),
{
    let ws2 = ws.push(seq![c]);
    assert(ws2.drop_last() == ws);
    if ws.len() == 0 {
        assert(join_words(ws2) == ws2[0]);
    } else {
        assert(join_words(ws2) =~= join_words(ws).push(' ').push(c));
    }
}

/// Collapses whitespace as `split_whitespace().collect::<Vec<_>>().join(" ")`
/// does. Also returns the length of the result, capped at `cap`.
pub fn collapse_whitespace_exec(s: &str, cap: usize) -> (r: (String, usize))
    ensures
        r.0@ == collapse_whitespace(s@),
        r.1 == (if r.0@.len() < cap { r.0@.len() as usize } else { cap }),
{
    let mut out = String::new();
    let mut n: usize = 0;
    let mut in_word = false;
    let mut any_word = false;
    for c in it: s.chars()
        invariant
            it.seq() == s@,
            ({
                let pre = s@.take(it.index() as int);
                let st = word_scan(pre);
                &&& in_word == (st.1.len() > 0)
                &&& any_word == (words(pre).len() > 0)
                &&& out@ == join_words(words(pre))
            }),
            n == (if out@.len() < cap { out@.len() as usize } else { cap }),
    {
        let ghost pre = s@.take(it.index() as int);
        let ghost pre2 = s@.take(it.index() + 1);
        assert(pre2.drop_last() == pre);
        assert(pre2.last() == c);
        let ghost st = word_scan(pre);
        assert(word_scan(pre2) == word_step(st, c));
        if is_whitespace_char(c) {
            in_word = false;
        } else {
            if in_word {
                proof {
                    let ws = words(pre);
                    assert(ws == st.0.push(st.1));
                    assert(ws.drop_last() == st.0);
                    lemma_join_extend_last(ws, c);
                    assert(words(pre2) == ws.drop_last().push(ws.last().push(c)));
                }
                push_char(&mut out, c);
            } else {
                proof {
                    lemma_join_new_word(st.0, c);
                    assert(st.1 == Seq::<char>::empty());
                    assert(seq![c] == Seq::<char>::empty().push(c));
                    assert(words(pre2) == st.0.push(seq![c]));
                }
                if any_word {
                    push_char(&mut out, ' ');
                    if n < cap {
                        n = n + 1;
                    }
                }
                push_char(&mut out, c);
                in_word = true;
                any_word = true;
            }
            if n < cap {
                n = n + 1;
            }
        }
    }
    assert(s@.take(s@.len() as int) == s@);
    (out, n)
}

/// `w` is a word: non-empty, with no whitespace.
pub open spec fn is_word(w: Seq<char>) -> bool {
    w.len() > 0 && forall|i: int| 0 <= i < w.len() ==> !is_ws(#[trigger] w[i])
}

proof fn lemma_scan_words_wellformed(s: Seq<char>)
    ensures
        forall|i: int| 0 <= i < word_scan(s).0.len() ==> is_word(#[trigger] word_scan(s).0[i]),
        forall|i: int| 0 <= i < word_scan(s).1.len() ==> !is_ws(#[trigger] word_scan(s).1[i]),
    decreases s.len(),
{
    if s.len() > 0 {
        lemma_scan_words_wellformed(s.drop_last());
        let st = word_scan(s.drop_last());
        let c = s.last();
        if is_ws(c) {
            if st.1.len() > 0 {
                let ws2 = st.0.push(st.1);
                assert forall|i: int| 0 <= i < ws2.len() implies is_word(#[trigger] ws2[i]) by {
                    if i < st.0.len() {
                        assert(ws2[i] == st.0[i]);
                    }
                }
            }
        } else {
            let cur = st.1.push(c);
            assert forall|i: int| 0 <= i < cur.len() implies !is_ws(#[trigger] cur[i]) by {
                if i < st.1.len() {
                    assert(cur[i] == st.1[i]);
                }
            }
        }
    }
}

proof fn lemma_words_wellformed(s: Seq<char>)
    ensures
        forall|i: int| 0 <= i < words(s).len() ==> is_word(#[trigger] words(s)[i]),
{
    lemma_scan_words_wellformed(s);
    let st = word_scan(s);
    if st.1.len() > 0 {
        let ws = st.0.push(st.1);
        assert forall|i: int| 0 <= i < ws.len() implies is_word(#[trigger] ws[i]) by {
            if i < st.0.len() {
                assert(ws[i] == st.0[i]);
            }
        }
    }
}

proof fn lemma_scan_append_word_chars(p: Seq<char>, q: Seq<char>)
    requires
        forall|i: int| 0 <= i < q.len() ==> !is_ws(#[trigger] q[i]),
    ensures
        word_scan(p + q) == (word_scan(p).0, word_scan(p).1 + q),
    decreases q.len(),
{
    if q.len() == 0 {
        assert(p + q =~= p);
        assert(word_scan(p).1 + q =~= word_scan(p).1);
    } else {
        let q2 = q.drop_last();
        assert forall|i: int| 0 <= i < q2.len() implies !is_ws(#[trigger] q2[i]) by {
            assert(q2[i] == q[i]);
        }
        lemma_scan_append_word_chars(p, q2);
        assert((p + q).drop_last() =~= p + q2);
        assert((p + q).last() == q.last());
        assert(!is_ws(q[q.len() - 1]));
        assert((word_scan(p).1 + q2).push(q.last()) =~= word_scan(p).1 + q);
    }
}

proof fn lemma_scan_join(ws: Seq<Seq<char>>)
    requires
        ws.len() > 0,
        forall|i: int| 0 <= i < ws.len() ==> is_word(#[trigger] ws[i]),
    ensures
        word_scan(join_words(ws)) == (ws.drop_last(), ws.last()),
    decreases ws.len(),
{
    let w = ws.last();
    assert(is_word(ws[ws.len() - 1]));
    if ws.len() == 1 {
        lemma_scan_append_word_chars(Seq::empty(), w);
        assert(Seq::<char>::empty() + w =~= w);
        assert(word_scan(Seq::<char>::empty()).1 + w =~= w);
        assert(ws.drop_last() =~= Seq::<Seq<char>>::empty());
    } else {
        let init = ws.drop_last();
        assert forall|i: int| 0 <= i < init.len() implies is_word(#[trigger] init[i]) by {
            assert(init[i] == ws[i]);
        }
        lemma_scan_join(init);
        let p = join_words(init);
        let ps = p + seq![' '];
        assert(ps.drop_last() =~= p);
        assert(is_ws(ps.last()));
        assert(is_word(init[init.len() - 1]));
        assert(init.drop_last().push(init.last()) =~= init);
        assert(word_scan(ps) == (init, Seq::<char>::empty()));
        lemma_scan_append_word_chars(ps, w);
        assert(Seq::<char>::empty() + w =~= w);
        assert(join_words(ws) == ps + w);
    }
}

/// Joined words read back as the same words.
proof fn lemma_words_of_join(ws: Seq<Seq<char>>)
    requires
        forall|i: int| 0 <= i < ws.len() ==> is_word(#[trigger] ws[i]),
    ensures
        words(join_words(ws)) == ws,
{
    if ws.len() == 0 {
        assert(ws =~= Seq::<Seq<char>>::empty());
    } else {
        lemma_scan_join(ws);
        assert(is_word(ws[ws.len() - 1]));
        assert(ws.drop_last().push(ws.last()) =~= ws);
    }
}

/// Collapsing whitespace twice is the same as collapsing it once: a collapsed
/// name is already in its confirmed form.
pub proof fn lemma_collapse_idempotent(s: Seq<char>)
    ensures
        collapse_whitespace(collapse_whitespace(s)) == collapse_whitespace(s),
{
    lemma_words_wellformed(s);
    lemma_words_of_join(words(s));
}

/// Text in collapsed form: every whitespace character is a single space that
/// stands between two non-whitespace characters (so none leads, none trails
/// and no two follow each other).
pub open spec fn is_collapsed(n: Seq<char>) -> bool {
    forall|i: int|
        0 <= i < n.len() && is_ws(#[trigger] n[i]) ==> n[i] == ' ' && 0 < i && i + 1 < n.len()
            && !is_ws(n[i + 1]) && !is_ws(n[i - 1])
}

proof fn lemma_join_collapsed(ws: Seq<Seq<char>>)
    requires
        forall|k: int| 0 <= k < ws.len() ==> is_word(#[trigger] ws[k]),
    ensures
        is_collapsed(join_words(ws)),
        ws.len() > 0 ==> join_words(ws).len() > 0 && !is_ws(join_words(ws)[0]) && !is_ws(
            join_words(ws).last(),
        ),
    decreases ws.len(),
{
    if ws.len() == 1 {
        assert(is_word(ws[0]));
    } else if ws.len() > 1 {
        let init = ws.drop_last();
        let w = ws.last();
        assert(is_word(ws[ws.len() - 1]));
        assert forall|k: int| 0 <= k < init.len() implies is_word(#[trigger] init[k]) by {
            assert(init[k] == ws[k]);
        }
        lemma_join_collapsed(init);
        let j = join_words(init);
        let all = j + seq![' '] + w;
        assert(join_words(ws) == all);
        assert forall|i: int| 0 <= i < all.len() && is_ws(#[trigger] all[i]) implies all[i] == ' '
            && 0 < i && i + 1 < all.len() && !is_ws(all[i + 1]) && !is_ws(all[i - 1]) by {
            if i < j.len() {
                assert(all[i] == j[i]);
                assert(is_ws(j[i]));
                assert(all[i + 1] == j[i + 1]);
                assert(all[i - 1] == j[i - 1]);
            } else if i == j.len() {
                assert(all[i + 1] == w[0]);
                assert(all[i - 1] == j.last());
            } else {
                assert(all[i] == w[i - j.len() - 1]);
            }
        }
        assert(all[0] == j[0]);
        assert(all.last() == w.last());
        assert(w.last() == w[w.len() - 1]);
    }
}

/// Text of one or more characters none of which is whitespace is left as it
/// is by collapsing.
pub proof fn lemma_collapse_single_word(s: Seq<char>)
    requires
        s.len() > 0,
        forall|i: int| 0 <= i < s.len() ==> !is_ws(#[trigger] s[i]),
    ensures
        collapse_whitespace(s) == s,
{
    let ws = seq![s];
    assert(is_word(ws[0]));
    lemma_words_of_join(ws);
    assert(join_words(ws) == s);
}

/// Collapsed text is in collapsed form: words of non-whitespace characters
/// joined by single spaces, with nothing before the first or after the last.
pub proof fn lemma_collapse_shape(s: Seq<char>)
    ensures
        is_collapsed(collapse_whitespace(s)),
{
    lemma_words_wellformed(s);
    lemma_join_collapsed(words(s));
}

// ---------------------------------------------------------------------------
// Lines
// ---------------------------------------------------------------------------
/// Removes one trailing carriage return.
pub open spec fn strip_cr(l: Seq<char>) -> Seq<char> {
    if l.len() > 0 && l.last() == '\r' {
        l.drop_last()
    } else {
        l
    }
}

/// One step of splitting text into lines: the finished lines (line ending
/// removed) and the line in progress.
pub open spec fn line_step(st: (Seq<Seq<char>>, Seq<char>), c: char) -> (
    Seq<Seq<char>>,
    Seq<char>,
) {
    if c == '\n' {
        (st.0.push(strip_cr(st.1)), Seq::empty())
    } else {
        (st.0, st.1.push(c))
    }
}

pub open spec fn line_scan(s: Seq<char>) -> (Seq<Seq<char>>, Seq<char>)
    decreases s.len(),
{
    if s.len() == 0 {
        (Seq::empty(), Seq::empty())
    } else {
        line_step(line_scan(s.drop_last()), s.last())
    }
}

/// The lines of `s` as `str::lines` yields them: split at `\n` or `\r\n`,
/// terminators removed, and no empty line after a final terminator.
pub open spec fn lines(s: Seq<char>) -> Seq<Seq<char>> {
    let st = line_scan(s);
    if st.1.len() > 0 {
        st.0.push(st.1)
    } else {
        st.0
    }
}

/// The views of a vector of strings.
pub open spec fn views(v: Seq<String>) -> Seq<Seq<char>> {
    v.map_values(|x: String| x@)
}

/// Splits `s` into its lines (`str::lines`).
pub fn split_lines(s: &str) -> (r: Vec<String>)
    ensures
        views(r@) == lines(s@),
{
    let mut done: Vec<String> = Vec::new();
    let mut cur = String::new();
    let mut pending_cr = false;
    for c in it: s.chars()
        invariant
            it.seq() == s@,
            ({
                let st = line_scan(s@.take(it.index() as int));
                &&& views(done@) == st.0
                &&& st.1 == (if pending_cr { cur@.push('\r') } else { cur@ })
                &&& !pending_cr ==> (cur@.len() == 0 || cur@.last() != '\r')
            }),
    {
        let ghost pre = s@.take(it.index() as int);
        let ghost pre2 = s@.take(it.index() + 1);
        assert(pre2.drop_last() == pre);
        assert(pre2.last() == c);
        let ghost st = line_scan(pre);
        assert(line_scan(pre2) == line_step(st, c));
        if c == '\n' {
            let line = cur;
            cur = String::new();
            pending_cr = false;
            proof {
                if st.1.len() > 0 && st.1.last() == '\r' {
                    assert(strip_cr(st.1) == line@);
                } else {
                    assert(strip_cr(st.1) == line@);
                }
            }
            done.push(line);
            assert(views(done@) == line_scan(pre2).0);
        } else {
            if pending_cr {
                push_char(&mut cur, '\r');
                pending_cr = false;
            }
            if c == '\r' {
                pending_cr = true;
            } else {
                push_char(&mut cur, c);
            }
            assert(views(done@) == line_scan(pre2).0);
        }
    }
    if pending_cr {
        push_char(&mut cur, '\r');
    }
    assert(s@.take(s@.len() as int) == s@);
    if !cur.as_str().is_empty() {
        done.push(cur);
    }
    assert(views(done@) == lines(s@));
    done
}

/// Every character of `l` is whitespace (`l.trim().is_empty()`).
pub open spec fn is_blank(l: Seq<char>) -> bool {
    forall|i: int| 0 <= i < l.len() ==> is_ws(#[trigger] l[i])
}

/// Whether a line is blank.
pub fn is_blank_str(s: &str) -> (r: bool)
    ensures
        r == is_blank(s@),
{
    for c in it: s.chars()
        invariant
            it.seq() == s@,
            is_blank(s@.take(it.index() as int)),
    {
        assert(s@[it.index() as int] == c);
        if !is_whitespace_char(c) {
            return false;
        }
        assert(s@.take(it.index() + 1) =~= s@.take(it.index() as int).push(c));
    }
    assert(s@.take(s@.len() as int) == s@);
    true
}

/// A Unicode control character (general category `Cc`, what
/// `char::is_control` reports).
pub open spec fn is_control(c: char) -> bool {
    let u = c as u32;
    u <= 0x1F || (0x7F <= u <= 0x9F)
}

/// A Unicode format character (general category `Cf`: soft hyphen,
/// zero-width and bidirectional controls, tags, ...).
pub open spec fn is_format(c: char) -> bool {
    let u = c as u32;
    ||| u == 0xAD
    ||| 0x600 <= u <= 0x605
    ||| u == 0x61C
    ||| u == 0x6DD
    ||| u == 0x70F
    ||| 0x890 <= u <= 0x891
    ||| u == 0x8E2
    ||| u == 0x180E
    ||| 0x200B <= u <= 0x200F
    ||| 0x202A <= u <= 0x202E
    ||| 0x2060 <= u <= 0x2064
    ||| 0x2066 <= u <= 0x206F
    ||| u == 0xFEFF
    ||| 0xFFF9 <= u <= 0xFFFB
    ||| u == 0x110BD
    ||| u == 0x110CD
    ||| 0x13430 <= u <= 0x1343F
    ||| 0x1BCA0 <= u <= 0x1BCA3
    ||| 0x1D173 <= u <= 0x1D17A
    ||| u == 0xE0001
    ||| 0xE0020 <= u <= 0xE007F
}

/// A private-use character (general category `Co`).
pub open spec fn is_private_use(c: char) -> bool {
    let u = c as u32;
    (0xE000 <= u <= 0xF8FF) || (0xF0000 <= u <= 0xFFFFD) || (0x100000 <= u <= 0x10FFFD)
}

/// A character that does not print: a control, format or private-use character.
pub open spec fn is_unprintable(c: char) -> bool {
    is_control(c) || is_format(c) || is_private_use(c)
}

/// Every character of `s` is printable.
pub open spec fn is_printable_text(s: Seq<char>) -> bool {
    forall|i: int| 0 <= i < s.len() ==> !is_unprintable(#[trigger] s[i])
}

fn unprintable_char(c: char) -> (r: bool)
    ensures
        r == is_unprintable(c),
{
    let u = c as u32;
    let control = u <= 0x1F || (0x7F <= u && u <= 0x9F);
    let format = u == 0xAD || (0x600 <= u && u <= 0x605) || u == 0x61C || u == 0x6DD || u
        == 0x70F || (0x890 <= u && u <= 0x891) || u == 0x8E2 || u == 0x180E || (0x200B <= u && u
        <= 0x200F) || (0x202A <= u && u <= 0x202E) || (0x2060 <= u && u <= 0x2064) || (0x2066
        <= u && u <= 0x206F) || u == 0xFEFF || (0xFFF9 <= u && u <= 0xFFFB) || u == 0x110BD || u
        == 0x110CD || (0x13430 <= u && u <= 0x1343F) || (0x1BCA0 <= u && u <= 0x1BCA3) || (0x1D173
        <= u && u <= 0x1D17A) || u == 0xE0001 || (0xE0020 <= u && u <= 0xE007F);
    let private_use = (0xE000 <= u && u <= 0xF8FF) || (0xF0000 <= u && u <= 0xFFFFD) || (0x100000
        <= u && u <= 0x10FFFD);
    control || format || private_use
}

/// Which characters print: exactly those outside the Unicode general
/// categories `Cc` (U+0000..U+001F, U+007F..U+009F), `Cf` and `Co`; in
/// particular the space and every ASCII letter, digit and punctuation mark,
/// and every character from U+00A0 up to U+00AC.
pub proof fn lemma_printable_chars(c: char)
    ensures
        is_unprintable(c) <==> {
            let u = c as u32;
            ||| u <= 0x1F
            ||| 0x7F <= u <= 0x9F
            ||| u == 0xAD
            ||| 0x600 <= u <= 0x605
            ||| u == 0x61C
            ||| u == 0x6DD
            ||| u == 0x70F
            ||| 0x890 <= u <= 0x891
            ||| u == 0x8E2
            ||| u == 0x180E
            ||| 0x200B <= u <= 0x200F
            ||| 0x202A <= u <= 0x202E
            ||| 0x2060 <= u <= 0x2064
            ||| 0x2066 <= u <= 0x206F
            ||| u == 0xFEFF
            ||| 0xFFF9 <= u <= 0xFFFB
            ||| u == 0x110BD
            ||| u == 0x110CD
            ||| 0x13430 <= u <= 0x1343F
            ||| 0x1BCA0 <= u <= 0x1BCA3
            ||| 0x1D173 <= u <= 0x1D17A
            ||| u == 0xE0001
            ||| 0xE0020 <= u <= 0xE007F
            ||| 0xE000 <= u <= 0xF8FF
            ||| 0xF0000 <= u <= 0xFFFFD
            ||| 0x100000 <= u <= 0x10FFFD
        },
        0x20 <= (c as u32) <= 0x7E ==> !is_unprintable(c),
        0xA0 <= (c as u32) <= 0xAC ==> !is_unprintable(c),
{
}

/// Whether every character of the text is printable.
pub fn is_printable_str(s: &str) -> (r: bool)
    ensures
        r == is_printable_text(s@),
{
    for c in it: s.chars()
        invariant
            it.seq() == s@,
            is_printable_text(s@.take(it.index() as int)),
    {
        assert(s@[it.index() as int] == c);
        if unprintable_char(c) {
            return false;
        }
        assert(s@.take(it.index() + 1) =~= s@.take(it.index() as int).push(c));
    }
    assert(s@.take(s@.len() as int) == s@);
    true
}

// ---------------------------------------------------------------------------
// Decimal rendering
// ---------------------------------------------------------------------------
pub open spec fn digit_char(d: nat) -> char {
    if d == 0 { '0' }
    else if d == 1 { '1' }
    else if d == 2 { '2' }
    else if d == 3 { '3' }
    else if d == 4 { '4' }
    else if d == 5 { '5' }
    else if d == 6 { '6' }
    else if d == 7 { '7' }
    else if d == 8 { '8' }
    else { '9' }
}

/// The decimal digits of `n`, most significant first, with no leading zeros.
pub open spec fn decimal(n: nat) -> Seq<char>
    decreases n,
{
    if n < 10 {
        seq![digit_char(n)]
    } else {
        decimal(n / 10).push(digit_char(n % 10))
    }
}

fn digit_exec(d: u64) -> (c: char)
    requires
        d < 10,
    ensures
        c == digit_char(d as nat),
{
    if d == 0 { '0' }
    else if d == 1 { '1' }
    else if d == 2 { '2' }
    else if d == 3 { '3' }
    else if d == 4 { '4' }
    else if d == 5 { '5' }
    else if d == 6 { '6' }
    else if d == 7 { '7' }
    else if d == 8 { '8' }
    else { '9' }
}

/// Appends the decimal rendering of `n` (as `{}` formats an integer).
pub fn push_decimal(s: &mut String, n: u64)
    ensures
        final(s)@ == old(s)@ + decimal(n as nat),
    decreases n,
{
    if n >= 10 {
        push_decimal(s, n / 10);
    }
    let c = digit_exec(n % 10);
    push_char(s, c);
    assert(old(s)@ + decimal(n as nat) =~= s@);
}

} // verus!
