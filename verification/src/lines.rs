//! Line-level text operations: splitting a document into lines, joining
//! lines with newlines, and trimming whitespace.
//!
//! Splitting treats `'\n'` as a line terminator: a trailing newline does not
//! produce an extra empty line, so `"a\n"` has the single line `"a"` while
//! `"a\nb"` has the lines `"a"` and `"b"`.

use vstd::prelude::*;

verus! {

/// Whitespace characters recognized by the trimming operations.
pub open spec fn is_ws(c: char) -> bool {
    c == ' ' || c == '\t' || c == '\r' || c == '\n' || c == '\u{b}' || c == '\u{c}'
}

/// The views of a sequence of character vectors.
pub open spec fn views(ls: Seq<Vec<char>>) -> Seq<Seq<char>> {
    ls.map_values(|l: Vec<char>| l@)
}

/// The lines of a text, split on `'\n'` used as a terminator.
pub open spec fn line_split(s: Seq<char>) -> Seq<Seq<char>>
    decreases s.len(),
{
    if s.len() == 0 {
        Seq::empty()
    } else if s[0] == '\n' {
        seq![Seq::<char>::empty()] + line_split(s.skip(1))
    } else {
        let rest = line_split(s.skip(1));
        if rest.len() == 0 {
            seq![seq![s[0]]]
        } else {
            seq![seq![s[0]] + rest[0]] + rest.skip(1)
        }
    }
}

/// The lines joined into one text with `'\n'` between consecutive lines.
pub open spec fn line_join(ls: Seq<Seq<char>>) -> Seq<char>
    decreases ls.len(),
{
    if ls.len() == 0 {
        Seq::empty()
    } else if ls.len() == 1 {
        ls[0]
    } else {
        ls[0] + seq!['\n'] + line_join(ls.skip(1))
    }
}

/// The text with trailing whitespace removed.
pub open spec fn trim_end_spec(s: Seq<char>) -> Seq<char>
    decreases s.len(),
{
    if s.len() > 0 && is_ws(s.last()) {
        trim_end_spec(s.drop_last())
    } else {
        s
    }
}

/// The text with leading whitespace removed.
pub open spec fn trim_start_spec(s: Seq<char>) -> Seq<char>
    decreases s.len(),
{
    if s.len() > 0 && is_ws(s.first()) {
        trim_start_spec(s.skip(1))
    } else {
        s
    }
}

/// The text with whitespace removed from both ends.
pub open spec fn trim_spec(s: Seq<char>) -> Seq<char> {
    trim_end_spec(trim_start_spec(s))
}

/// Holds when a line contains no newline character, so that it can stand as
/// one line of a newline-joined text.
pub open spec fn line_ok(l: Seq<char>) -> bool {
    forall|j: int| 0 <= j < l.len() ==> l[j] != '\n'
}

/// A nonempty text without newlines is a single line.
pub proof fn lemma_split_single(l: Seq<char>)
    requires
        l.len() > 0,
        line_ok(l),
    ensures
        line_split(l) == seq![l],
    decreases l.len(),
{
    if l.len() == 1 {
        assert(l.skip(1) =~= Seq::<char>::empty());
        assert(line_split(Seq::<char>::empty()) =~~= Seq::<Seq<char>>::empty());
        assert(seq![l[0]] =~= l);
        assert(line_split(l) =~~= seq![l]);
    } else {
        assert(line_ok(l.skip(1)));
        lemma_split_single(l.skip(1));
        assert(seq![l[0]] + l.skip(1) =~= l);
        assert((seq![l.skip(1)]).skip(1) =~~= Seq::<Seq<char>>::empty());
        assert(line_split(l) =~~= seq![l]);
    }
}

/// Splitting a text that starts with a newline-terminated line yields that
/// line followed by the split of the remainder.
pub proof fn lemma_split_prepend(l: Seq<char>, t: Seq<char>)
    requires
        line_ok(l),
    ensures
        line_split(l + seq!['\n'] + t) == seq![l] + line_split(t),
    decreases l.len(),
{
    let s = l + seq!['\n'] + t;
    if l.len() == 0 {
        assert(s[0] == '\n');
        assert(s.skip(1) =~= t);
        assert(seq![Seq::<char>::empty()] =~~= seq![l]);
        assert(line_split(s) =~~= seq![l] + line_split(t));
    } else {
        assert(s[0] == l[0]);
        assert(s[0] != '\n');
        assert(line_ok(l.skip(1)));
        lemma_split_prepend(l.skip(1), t);
        assert(s.skip(1) =~= l.skip(1) + seq!['\n'] + t);
        let rest = line_split(s.skip(1));
        assert(rest.len() >= 1);
        assert(rest[0] == l.skip(1));
        assert(seq![s[0]] + rest[0] =~= l);
        assert(rest.skip(1) =~~= line_split(t));
        assert(line_split(s) =~~= seq![l] + line_split(t));
    }
}

/// Joining one more line appends a newline separator (unless nothing was
/// joined yet) and then the line.
pub proof fn lemma_join_push(ls: Seq<Seq<char>>, x: Seq<char>)
    ensures
        line_join(ls.push(x)) == if ls.len() == 0 {
            x
        } else {
            line_join(ls) + seq!['\n'] + x
        },
    decreases ls.len(),
{
    let p = ls.push(x);
    if ls.len() == 0 {
        assert(p.len() == 1);
        assert(p[0] == x);
    } else if ls.len() == 1 {
        assert(p.len() == 2);
        assert(p.skip(1) =~~= seq![x]);
        assert(line_join(seq![x]) == x);
        assert(line_join(p) =~= line_join(ls) + seq!['\n'] + x);
    } else {
        lemma_join_push(ls.skip(1), x);
        assert(p.skip(1) =~~= ls.skip(1).push(x));
        assert(line_join(p) =~= line_join(ls) + seq!['\n'] + x);
    }
}

/// Law: splitting the newline-join of a line sequence reproduces the lines,
/// provided no line contains a newline and the last line is nonempty.
///
/// A trailing empty line is the one case the join/split pair cannot keep:
/// the final newline it produces is read back as a terminator, not as the
/// start of another (empty) line.
pub proof fn lemma_split_join_roundtrip(ls: Seq<Seq<char>>)
    requires
        forall|i: int| 0 <= i < ls.len() ==> line_ok(#[trigger] ls[i]),
        ls.len() > 0 ==> ls.last().len() > 0,
    ensures
        line_split(line_join(ls)) == ls,
    decreases ls.len(),
{
    if ls.len() == 0 {
        assert(line_split(line_join(ls)) =~~= ls);
    } else if ls.len() == 1 {
        lemma_split_single(ls[0]);
        assert(seq![ls[0]] =~~= ls);
    } else {
        assert(forall|i: int| 0 <= i < ls.skip(1).len() ==> line_ok(#[trigger] ls.skip(1)[i]));
        assert(ls.skip(1).last() == ls.last());
        lemma_split_join_roundtrip(ls.skip(1));
        lemma_split_prepend(ls[0], line_join(ls.skip(1)));
        assert(line_split(line_join(ls)) =~~= seq![ls[0]] + ls.skip(1));
        assert(seq![ls[0]] + ls.skip(1) =~~= ls);
    }
}

/// Right-trimming keeps a line free of newlines.
pub proof fn lemma_trim_end_line_ok(l: Seq<char>)
    requires
        line_ok(l),
    ensures
        line_ok(trim_end_spec(l)),
    decreases l.len(),
{
    if l.len() > 0 && is_ws(l.last()) {
        assert(line_ok(l.drop_last()));
        lemma_trim_end_line_ok(l.drop_last());
    }
}

/// Whether a character counts as whitespace for trimming.
pub fn is_ws_char(c: char) -> (b: bool)
    ensures
        b == is_ws(c),
{
    c == ' ' || c == '\t' || c == '\r' || c == '\n' || c == '\u{b}' || c == '\u{c}'
}

/// The line with trailing whitespace removed.
pub fn trim_end(line: &[char]) -> (r: Vec<char>)
    ensures
        r@ == trim_end_spec(line@),
{
    let mut end: usize = line.len();
    proof {
        assert(line@.take(end as int) =~= line@);
    }
    while end > 0 && is_ws_char(line[end - 1])
        invariant
            end <= line@.len(),
            trim_end_spec(line@) == trim_end_spec(line@.take(end as int)),
        decreases end,
    {
        proof {
            assert(line@.take(end as int).last() == line@[end - 1]);
            assert(line@.take(end as int).drop_last() =~= line@.take(end - 1));
        }
        end = end - 1;
    }
    let mut r: Vec<char> = Vec::new();
    for i in 0..end
        invariant
            end <= line@.len(),
            r@ == line@.take(end as int).take(i as int),
    {
        r.push(line[i]);
        proof {
            assert(r@ =~= line@.take(end as int).take(i + 1));
        }
    }
    proof {
        assert(r@ =~= line@.take(end as int));
        if end == 0 {
            assert(line@.take(0) =~= Seq::<char>::empty());
        }
    }
    r
}

/// The line with leading and trailing whitespace removed.
pub fn trim(line: &[char]) -> (r: Vec<char>)
    ensures
        r@ == trim_spec(line@),
{
    let mut start: usize = 0;
    proof {
        assert(line@.skip(0) =~= line@);
    }
    while start < line.len() && is_ws_char(line[start])
        invariant
            start <= line@.len(),
            trim_start_spec(line@) == trim_start_spec(line@.skip(start as int)),
        decreases line@.len() - start,
    {
        proof {
            assert(line@.skip(start as int).first() == line@[start as int]);
            assert(line@.skip(start as int).skip(1) =~= line@.skip(start + 1));
        }
        start = start + 1;
    }
    let rest = vstd::slice::slice_subrange(line, start, line.len());
    proof {
        assert(rest@ =~= line@.skip(start as int));
        if start == line.len() {
            assert(line@.skip(start as int) =~= Seq::<char>::empty());
        }
    }
    trim_end(rest)
}

/// The lines of a document, split on `'\n'`.
pub fn split_lines(doc: &[char]) -> (r: Vec<Vec<char>>)
    ensures
        views(r@) == line_split(doc@),
        forall|i: int| 0 <= i < r@.len() ==> line_ok(#[trigger] r@[i]@),
{
    let mut out: Vec<Vec<char>> = Vec::new();
    let mut cur: Vec<char> = Vec::new();
    let n = doc.len();
    proof {
        assert(cur@ + doc@.skip(0) =~= doc@);
        assert(views(out@) + line_split(doc@) =~~= line_split(doc@));
    }
    for i in 0..n
        invariant
            n == doc@.len(),
            line_ok(cur@),
            forall|k: int| 0 <= k < out@.len() ==> line_ok(#[trigger] out@[k]@),
            line_split(doc@) == views(out@) + line_split(cur@ + doc@.skip(i as int)),
    {
        let c = doc[i];
        if c == '\n' {
            proof {
                lemma_split_prepend(cur@, doc@.skip(i + 1));
                assert(cur@ + doc@.skip(i as int) =~= cur@ + seq!['\n'] + doc@.skip(i + 1));
                assert(views(out@.push(cur)) =~~= views(out@).push(cur@));
                assert(views(out@) + (seq![cur@] + line_split(doc@.skip(i + 1))) =~~= views(
                    out@.push(cur),
                ) + line_split(doc@.skip(i + 1)));
            }
            out.push(cur);
            cur = Vec::new();
        } else {
            proof {
                assert(cur@.push(c) + doc@.skip(i + 1) =~= cur@ + doc@.skip(i as int));
            }
            cur.push(c);
        }
    }
    proof {
        assert(cur@ + doc@.skip(n as int) =~= cur@);
    }
    if cur.len() > 0 {
        proof {
            lemma_split_single(cur@);
            assert(views(out@.push(cur)) =~~= views(out@).push(cur@));
            assert(views(out@) + seq![cur@] =~~= views(out@.push(cur)));
        }
        out.push(cur);
    } else {
        proof {
            assert(cur@ =~= Seq::<char>::empty());
            assert(views(out@) + line_split(cur@) =~~= views(out@));
        }
    }
    out
}

/// The lines joined into one text with a newline between consecutive lines.
pub fn join_lines(ls: &Vec<Vec<char>>) -> (r: Vec<char>)
    ensures
        r@ == line_join(views(ls@)),
{
    let mut r: Vec<char> = Vec::new();
    let n = ls.len();
    proof {
        assert(views(ls@).take(0) =~~= Seq::<Seq<char>>::empty());
    }
    for i in 0..n
        invariant
            n == ls@.len(),
            r@ == line_join(views(ls@).take(i as int)),
    {
        proof {
            lemma_join_push(views(ls@).take(i as int), ls@[i as int]@);
            assert(views(ls@).take(i as int).push(ls@[i as int]@) =~~= views(ls@).take(i + 1));
        }
        if i > 0 {
            r.push('\n');
        }
        let ghost base = r@;
        let line = &ls[i];
        let m = line.len();
        for j in 0..m
            invariant
                0 <= i < ls@.len(),
                m == line@.len(),
                line == &ls@[i as int],
                r@ == base + line@.take(j as int),
        {
            r.push(line[j]);
            proof {
                assert(r@ =~= base + line@.take(j + 1));
            }
        }
        proof {
            assert(line@.take(m as int) =~= line@);
            if i == 0 {
                assert(base =~= Seq::<char>::empty());
                assert(r@ =~= line@);
            } else {
                assert(base =~= line_join(views(ls@).take(i as int)) + seq!['\n']);
                assert(r@ =~= line_join(views(ls@).take(i as int)) + seq!['\n'] + ls@[i as int]@);
            }
        }
    }
    proof {
        assert(views(ls@).take(n as int) =~~= views(ls@));
    }
    r
}

/// The characters of a string, as a vector.
pub fn chars_of(s: &str) -> (r: Vec<char>)
    ensures
        r@ == s@,
{
    let n = s.unicode_len();
    let mut r: Vec<char> = Vec::new();
    for i in 0..n
        invariant
            n == s@.len(),
            r@ == s@.take(i as int),
    {
        r.push(s.get_char(i));
        assert(r@ =~= s@.take(i + 1));
    }
    assert(r@ =~= s@);
    r
}

} // verus!
