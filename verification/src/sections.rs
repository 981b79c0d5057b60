//! The section extractor: partitioning a markdown document into named
//! sections delimited by top-level header lines.
//!
//! A line is a header exactly when it begins with `"# "`; the remainder of
//! the line, trimmed, is the section title. The lines after a header, up to
//! the next header or the end of the document, form the section's body, each
//! right-trimmed and joined with newlines. Lines before the first header
//! belong to no section and are discarded. When two sections share a title,
//! the later one overwrites the earlier.

use vstd::prelude::*;

use crate::lines::{
    chars_of, join_lines, line_join, line_ok, line_split, split_lines, trim, trim_end,
    trim_end_spec, trim_spec, views,
};

verus! {

/// Whether a line opens a section: it starts with a hash and a space.
pub open spec fn is_header(line: Seq<char>) -> bool {
    line.len() >= 2 && line[0] == '#' && line[1] == ' '
}

/// The title a header line declares: everything after the marker, trimmed.
pub open spec fn header_title(line: Seq<char>) -> Seq<char> {
    trim_spec(line.skip(2))
}

/// A section that is currently being collected: its title and the
/// right-trimmed body lines seen so far.
pub struct OpenSection {
    pub title: Seq<char>,
    pub body: Seq<Seq<char>>,
}

/// Closes the open section, if any, recording its joined body.
pub open spec fn close(
    cur: Option<OpenSection>,
    acc: Map<Seq<char>, Seq<char>>,
) -> Map<Seq<char>, Seq<char>> {
    match cur {
        None => acc,
        Some(c) => acc.insert(c.title, line_join(c.body)),
    }
}

/// One pass over the remaining lines: headers close the open section and
/// open a new one, other lines extend the open section's body (and are
/// discarded while no section is open).
pub open spec fn scan(
    lines: Seq<Seq<char>>,
    cur: Option<OpenSection>,
    acc: Map<Seq<char>, Seq<char>>,
) -> Map<Seq<char>, Seq<char>>
    decreases lines.len(),
{
    if lines.len() == 0 {
        close(cur, acc)
    } else if is_header(lines[0]) {
        scan(
            lines.skip(1),
            Some(OpenSection { title: header_title(lines[0]), body: Seq::empty() }),
            close(cur, acc),
        )
    } else {
        match cur {
            None => scan(lines.skip(1), None, acc),
            Some(c) => scan(
                lines.skip(1),
                Some(OpenSection { title: c.title, body: c.body.push(trim_end_spec(lines[0])) }),
                acc,
            ),
        }
    }
}

/// The section table of a sequence of lines.
pub open spec fn sections_of_lines(lines: Seq<Seq<char>>) -> Map<Seq<char>, Seq<char>> {
    scan(lines, None, Map::empty())
}

/// The section table of a document.
pub open spec fn sections_of(doc: Seq<char>) -> Map<Seq<char>, Seq<char>> {
    sections_of_lines(line_split(doc))
}

/// The right-trimmed forms of a sequence of lines.
pub open spec fn trimmed(ls: Seq<Seq<char>>) -> Seq<Seq<char>> {
    ls.map_values(|l: Seq<char>| trim_end_spec(l))
}

/// The number of leading lines that are not headers.
pub open spec fn prefix_end(lines: Seq<Seq<char>>) -> int
    decreases lines.len(),
{
    if lines.len() == 0 {
        0
    } else if is_header(lines[0]) {
        0
    } else {
        1 + prefix_end(lines.skip(1))
    }
}

/// `prefix_end` always points into the line sequence.
pub proof fn lemma_prefix_end_bounds(lines: Seq<Seq<char>>)
    ensures
        0 <= prefix_end(lines) <= lines.len(),
    decreases lines.len(),
{
    if lines.len() > 0 && !is_header(lines[0]) {
        lemma_prefix_end_bounds(lines.skip(1));
    }
}

/// The body lines a header at index `i` collects: the lines after it, up to
/// the next header or the end of the document, each right-trimmed.
pub open spec fn body_lines_at(lines: Seq<Seq<char>>, i: int) -> Seq<Seq<char>> {
    let rest = lines.skip(i + 1);
    trimmed(rest.take(prefix_end(rest)))
}

/// The titles of the header lines, in order of appearance.
pub open spec fn header_titles(lines: Seq<Seq<char>>) -> Seq<Seq<char>>
    decreases lines.len(),
{
    if lines.len() == 0 {
        Seq::empty()
    } else if is_header(lines[0]) {
        seq![header_title(lines[0])] + header_titles(lines.skip(1))
    } else {
        header_titles(lines.skip(1))
    }
}

/// Scanning lines in which no header carries title `k` neither adds nor
/// changes an entry for `k`, as long as the open section is not titled `k`.
proof fn lemma_scan_frame(
    lines: Seq<Seq<char>>,
    cur: Option<OpenSection>,
    acc: Map<Seq<char>, Seq<char>>,
    k: Seq<char>,
)
    requires
        forall|j: int|
            0 <= j < lines.len() && is_header(#[trigger] lines[j]) ==> header_title(lines[j]) != k,
        match cur {
            Some(c) => c.title != k,
            None => true,
        },
    ensures
        scan(lines, cur, acc).contains_key(k) == acc.contains_key(k),
        acc.contains_key(k) ==> scan(lines, cur, acc)[k] == acc[k],
    decreases lines.len(),
{
    if lines.len() == 0 {
    } else if is_header(lines[0]) {
        let next = OpenSection { title: header_title(lines[0]), body: Seq::empty() };
        assert forall|j: int|
            0 <= j < lines.skip(1).len() && is_header(#[trigger] lines.skip(1)[j]) implies
            header_title(lines.skip(1)[j]) != k by {
            assert(lines.skip(1)[j] == lines[j + 1]);
        }
        lemma_scan_frame(lines.skip(1), Some(next), close(cur, acc), k);
    } else {
        assert forall|j: int|
            0 <= j < lines.skip(1).len() && is_header(#[trigger] lines.skip(1)[j]) implies
            header_title(lines.skip(1)[j]) != k by {
            assert(lines.skip(1)[j] == lines[j + 1]);
        }
        match cur {
            None => lemma_scan_frame(lines.skip(1), None, acc, k),
            Some(c) => lemma_scan_frame(
                lines.skip(1),
                Some(OpenSection { title: c.title, body: c.body.push(trim_end_spec(lines[0])) }),
                acc,
                k,
            ),
        }
    }
}

/// The keys the scan produces: those of the accumulator, the open section's
/// title, and the titles of the header lines.
proof fn lemma_scan_contains(
    lines: Seq<Seq<char>>,
    cur: Option<OpenSection>,
    acc: Map<Seq<char>, Seq<char>>,
    k: Seq<char>,
)
    ensures
        scan(lines, cur, acc).contains_key(k) <==> (acc.contains_key(k) || (match cur {
            Some(c) => c.title == k,
            None => false,
        }) || exists|j: int|
            0 <= j < lines.len() && is_header(#[trigger] lines[j]) && header_title(lines[j]) == k),
    decreases lines.len(),
{
    if lines.len() == 0 {
    } else {
        let tail = lines.skip(1);
        assert(forall|j: int| 0 <= j < tail.len() ==> tail[j] == lines[j + 1]);
        if is_header(lines[0]) {
            let next = OpenSection { title: header_title(lines[0]), body: Seq::empty() };
            lemma_scan_contains(tail, Some(next), close(cur, acc), k);
        } else {
            match cur {
                None => lemma_scan_contains(tail, None, acc, k),
                Some(c) => lemma_scan_contains(
                    tail,
                    Some(
                        OpenSection { title: c.title, body: c.body.push(trim_end_spec(lines[0])) },
                    ),
                    acc,
                    k,
                ),
            }
        }
        if exists|j: int|
            0 <= j < tail.len() && is_header(#[trigger] tail[j]) && header_title(tail[j]) == k {
            let j = choose|j: int|
                0 <= j < tail.len() && is_header(#[trigger] tail[j]) && header_title(tail[j]) == k;
            assert(is_header(lines[j + 1]) && header_title(lines[j + 1]) == k);
        }
        if exists|j: int|
            0 <= j < lines.len() && is_header(#[trigger] lines[j]) && header_title(lines[j]) == k {
            let j = choose|j: int|
                0 <= j < lines.len() && is_header(#[trigger] lines[j]) && header_title(lines[j])
                    == k;
            if j > 0 {
                assert(is_header(tail[j - 1]) && header_title(tail[j - 1]) == k);
            }
        }
    }
}

/// While the open section's title appears on no later header, the scan
/// closes it with exactly the trimmed lines up to the next header.
proof fn lemma_scan_open(lines: Seq<Seq<char>>, c: OpenSection, acc: Map<Seq<char>, Seq<char>>)
    requires
        forall|j: int|
            0 <= j < lines.len() && is_header(#[trigger] lines[j]) ==> header_title(lines[j])
                != c.title,
    ensures
        scan(lines, Some(c), acc).contains_key(c.title),
        scan(lines, Some(c), acc)[c.title] == line_join(
            c.body + trimmed(lines.take(prefix_end(lines))),
        ),
    decreases lines.len(),
{
    lemma_prefix_end_bounds(lines);
    if lines.len() == 0 {
        assert(lines.take(0) =~~= Seq::<Seq<char>>::empty());
        assert(c.body + trimmed(lines.take(0)) =~~= c.body);
    } else if is_header(lines[0]) {
        assert(header_title(lines[0]) != c.title);
        let next = OpenSection { title: header_title(lines[0]), body: Seq::empty() };
        let acc2 = close(Some(c), acc);
        assert forall|j: int|
            0 <= j < lines.skip(1).len() && is_header(#[trigger] lines.skip(1)[j]) implies
            header_title(lines.skip(1)[j]) != c.title by {
            assert(lines.skip(1)[j] == lines[j + 1]);
        }
        lemma_scan_frame(lines.skip(1), Some(next), acc2, c.title);
        assert(lines.take(0) =~~= Seq::<Seq<char>>::empty());
        assert(c.body + trimmed(lines.take(0)) =~~= c.body);
    } else {
        let tail = lines.skip(1);
        assert(forall|j: int| 0 <= j < tail.len() ==> tail[j] == lines[j + 1]);
        let x = trim_end_spec(lines[0]);
        let c2 = OpenSection { title: c.title, body: c.body.push(x) };
        lemma_scan_open(tail, c2, acc);
        lemma_prefix_end_bounds(tail);
        assert(lines.take(prefix_end(lines)) =~~= seq![lines[0]] + tail.take(prefix_end(tail)));
        assert(c.body + trimmed(lines.take(prefix_end(lines))) =~~= c2.body + trimmed(
            tail.take(prefix_end(tail)),
        ));
    }
}

/// The entry for a title whose last header stands at index `i` is the body
/// collected after that header.
proof fn lemma_scan_last(
    lines: Seq<Seq<char>>,
    cur: Option<OpenSection>,
    acc: Map<Seq<char>, Seq<char>>,
    i: int,
)
    requires
        0 <= i < lines.len(),
        is_header(lines[i]),
        forall|j: int|
            i < j < lines.len() && is_header(#[trigger] lines[j]) ==> header_title(lines[j])
                != header_title(lines[i]),
    ensures
        scan(lines, cur, acc).contains_key(header_title(lines[i])),
        scan(lines, cur, acc)[header_title(lines[i])] == line_join(body_lines_at(lines, i)),
    decreases lines.len(),
{
    let tail = lines.skip(1);
    assert(forall|j: int| 0 <= j < tail.len() ==> tail[j] == lines[j + 1]);
    if i == 0 {
        let title = header_title(lines[0]);
        let next = OpenSection { title, body: Seq::empty() };
        assert forall|j: int|
            0 <= j < tail.len() && is_header(#[trigger] tail[j]) implies header_title(tail[j])
            != title by {
            assert(tail[j] == lines[j + 1]);
        }
        lemma_scan_open(tail, next, close(cur, acc));
        assert(next.body + trimmed(tail.take(prefix_end(tail))) =~~= trimmed(
            tail.take(prefix_end(tail)),
        ));
        assert(lines.skip(1) == tail);
    } else {
        assert(is_header(tail[i - 1]));
        assert(header_title(tail[i - 1]) == header_title(lines[i]));
        assert forall|j: int|
            i - 1 < j < tail.len() && is_header(#[trigger] tail[j]) implies header_title(tail[j])
            != header_title(tail[i - 1]) by {
            assert(tail[j] == lines[j + 1]);
        }
        if is_header(lines[0]) {
            let next = OpenSection { title: header_title(lines[0]), body: Seq::empty() };
            lemma_scan_last(tail, Some(next), close(cur, acc), i - 1);
        } else {
            match cur {
                None => lemma_scan_last(tail, None, acc, i - 1),
                Some(c) => lemma_scan_last(
                    tail,
                    Some(
                        OpenSection { title: c.title, body: c.body.push(trim_end_spec(lines[0])) },
                    ),
                    acc,
                    i - 1,
                ),
            }
        }
        assert(tail.skip(i) =~~= lines.skip(i + 1));
        assert(body_lines_at(tail, i - 1) == body_lines_at(lines, i));
    }
}

/// Law: a title is in the table exactly when some header line declares it.
pub proof fn lemma_table_membership(lines: Seq<Seq<char>>, k: Seq<char>)
    ensures
        sections_of_lines(lines).contains_key(k) <==> exists|j: int|
            0 <= j < lines.len() && is_header(#[trigger] lines[j]) && header_title(lines[j]) == k,
{
    lemma_scan_contains(lines, None, Map::empty(), k);
}

/// Law: the body stored for a title is exactly the text between the title's
/// last header and the next header or the end of the document, right-trimmed
/// per line and joined with newlines. With pairwise distinct titles every
/// header is such a last occurrence; with duplicates the last one wins.
pub proof fn lemma_last_header_body(lines: Seq<Seq<char>>, i: int)
    requires
        0 <= i < lines.len(),
        is_header(lines[i]),
        forall|j: int|
            i < j < lines.len() && is_header(#[trigger] lines[j]) ==> header_title(lines[j])
                != header_title(lines[i]),
    ensures
        sections_of_lines(lines).contains_key(header_title(lines[i])),
        sections_of_lines(lines)[header_title(lines[i])] == line_join(body_lines_at(lines, i)),
{
    lemma_scan_last(lines, None, Map::empty(), i);
}

/// Law: lines among which no header stands yield the empty table.
pub proof fn lemma_no_headers_empty(lines: Seq<Seq<char>>)
    requires
        forall|j: int| 0 <= j < lines.len() ==> !is_header(#[trigger] lines[j]),
    ensures
        sections_of_lines(lines) == Map::<Seq<char>, Seq<char>>::empty(),
{
    assert forall|k: Seq<char>| !sections_of_lines(lines).contains_key(k) by {
        lemma_table_membership(lines, k);
    }
    assert(sections_of_lines(lines) =~~= Map::<Seq<char>, Seq<char>>::empty());
}

/// Law: the empty document yields the empty table.
pub proof fn lemma_empty_doc()
    ensures
        sections_of(Seq::<char>::empty()) == Map::<Seq<char>, Seq<char>>::empty(),
{
    assert(line_split(Seq::<char>::empty()) =~~= Seq::<Seq<char>>::empty());
}

/// The header titles contain a title exactly when some header declares it.
proof fn lemma_header_titles_contains(lines: Seq<Seq<char>>, k: Seq<char>)
    ensures
        header_titles(lines).contains(k) <==> exists|j: int|
            0 <= j < lines.len() && is_header(#[trigger] lines[j]) && header_title(lines[j]) == k,
    decreases lines.len(),
{
    if lines.len() == 0 {
    } else {
        let tail = lines.skip(1);
        assert(forall|j: int| 0 <= j < tail.len() ==> tail[j] == lines[j + 1]);
        lemma_header_titles_contains(tail, k);
        if header_titles(lines).contains(k) {
            if is_header(lines[0]) && header_title(lines[0]) == k {
                assert(is_header(lines[0]) && header_title(lines[0]) == k);
            } else {
                assert(header_titles(tail).contains(k));
                let j = choose|j: int|
                    0 <= j < tail.len() && is_header(#[trigger] tail[j]) && header_title(tail[j])
                        == k;
                assert(is_header(lines[j + 1]) && header_title(lines[j + 1]) == k);
            }
        }
        if exists|j: int|
            0 <= j < lines.len() && is_header(#[trigger] lines[j]) && header_title(lines[j]) == k {
            let j = choose|j: int|
                0 <= j < lines.len() && is_header(#[trigger] lines[j]) && header_title(lines[j])
                    == k;
            if is_header(lines[0]) && header_title(lines[0]) == k {
                assert(header_titles(lines)[0] == k);
            } else {
                assert(j > 0);
                assert(is_header(tail[j - 1]) && header_title(tail[j - 1]) == k);
                assert(header_titles(tail).contains(k));
                if is_header(lines[0]) {
                    let idx = choose|idx: int|
                        0 <= idx < header_titles(tail).len() && header_titles(tail)[idx] == k;
                    assert(header_titles(lines)[idx + 1] == k);
                }
            }
        }
    }
}

/// Law: a document with pairwise distinct header titles yields a table with
/// exactly one entry per header.
pub proof fn lemma_table_count(lines: Seq<Seq<char>>)
    requires
        header_titles(lines).no_duplicates(),
    ensures
        sections_of_lines(lines).dom().finite(),
        sections_of_lines(lines).dom().len() == header_titles(lines).len(),
{
    broadcast use vstd::seq_lib::seq_to_set_is_finite;

    let ts = header_titles(lines);
    assert forall|k: Seq<char>|
        sections_of_lines(lines).dom().contains(k) <==> ts.to_set().contains(k) by {
        lemma_table_membership(lines, k);
        lemma_header_titles_contains(lines, k);
    }
    assert(sections_of_lines(lines).dom() =~= ts.to_set());
    ts.unique_seq_to_set();
}

/// Law: the table never has more entries than the document has headers;
/// repeated titles make it fewer, never more.
pub proof fn lemma_table_count_upper(lines: Seq<Seq<char>>)
    ensures
        sections_of_lines(lines).dom().finite(),
        sections_of_lines(lines).dom().len() <= header_titles(lines).len(),
{
    broadcast use vstd::seq_lib::seq_to_set_is_finite;

    let ts = header_titles(lines);
    assert forall|k: Seq<char>|
        sections_of_lines(lines).dom().contains(k) <==> ts.to_set().contains(k) by {
        lemma_table_membership(lines, k);
        lemma_header_titles_contains(lines, k);
    }
    assert(sections_of_lines(lines).dom() =~= ts.to_set());
    ts.lemma_cardinality_of_set();
}

/// Law: splitting a stored body by newlines reproduces the very line
/// sequence the extractor collected for it, provided that collected body
/// does not end in an empty line (the one case a newline-join cannot keep).
pub proof fn lemma_stored_body_round_trip(lines: Seq<Seq<char>>, i: int)
    requires
        forall|j: int| 0 <= j < lines.len() ==> line_ok(#[trigger] lines[j]),
        0 <= i < lines.len(),
        is_header(lines[i]),
        forall|j: int|
            i < j < lines.len() && is_header(#[trigger] lines[j]) ==> header_title(lines[j])
                != header_title(lines[i]),
        body_lines_at(lines, i).len() > 0 ==> body_lines_at(lines, i).last().len() > 0,
    ensures
        line_split(sections_of_lines(lines)[header_title(lines[i])]) == body_lines_at(lines, i),
{
    lemma_last_header_body(lines, i);
    let rest = lines.skip(i + 1);
    lemma_prefix_end_bounds(rest);
    let bls = body_lines_at(lines, i);
    assert forall|j: int| 0 <= j < bls.len() implies line_ok(#[trigger] bls[j]) by {
        assert(rest.take(prefix_end(rest))[j] == lines[i + 1 + j]);
        crate::lines::lemma_trim_end_line_ok(lines[i + 1 + j]);
    }
    crate::lines::lemma_split_join_roundtrip(bls);
}

/// The map an entry list denotes: later entries overwrite earlier ones.
pub open spec fn entries_map(
    titles: Seq<Seq<char>>,
    bodies: Seq<Seq<char>>,
) -> Map<Seq<char>, Seq<char>>
    decreases titles.len(),
{
    if titles.len() == 0 {
        Map::empty()
    } else {
        entries_map(titles.drop_last(), bodies.drop_last()).insert(titles.last(), bodies.last())
    }
}

/// A table of named sections, looked up by exact title.
pub struct SectionTable {
    titles: Vec<Vec<char>>,
    bodies: Vec<Vec<char>>,
}

impl SectionTable {
    /// The mapping from title to body that the table holds.
    pub closed spec fn view(&self) -> Map<Seq<char>, Seq<char>> {
        entries_map(views(self.titles@), views(self.bodies@))
    }

    /// Structural soundness: every title has its body.
    pub closed spec fn wf(&self) -> bool {
        self.titles@.len() == self.bodies@.len()
    }

    /// An empty table.
    pub fn new() -> (t: Self)
        ensures
            t.wf(),
            t@ == Map::<Seq<char>, Seq<char>>::empty(),
    {
        let t = SectionTable { titles: Vec::new(), bodies: Vec::new() };
        proof {
            assert(views(t.titles@) =~~= Seq::<Seq<char>>::empty());
        }
        t
    }

    /// Records a section, overwriting any earlier section of the same title.
    pub fn insert(&mut self, title: Vec<char>, body: Vec<char>)
        requires
            old(self).wf(),
        ensures
            final(self).wf(),
            final(self)@ == old(self)@.insert(title@, body@),
    {
        let ghost old_titles = views(self.titles@);
        let ghost old_bodies = views(self.bodies@);
        self.titles.push(title);
        self.bodies.push(body);
        proof {
            assert(views(self.titles@) =~~= old_titles.push(title@));
            assert(views(self.bodies@) =~~= old_bodies.push(body@));
            assert(old_titles.push(title@).drop_last() =~~= old_titles);
            assert(old_bodies.push(body@).drop_last() =~~= old_bodies);
        }
    }

    /// Whether the table holds no section at all.
    pub fn is_empty(&self) -> (r: bool)
        requires
            self.wf(),
        ensures
            r == (self@ == Map::<Seq<char>, Seq<char>>::empty()),
    {
        proof {
            if self.titles@.len() > 0 {
                assert(self@.contains_key(views(self.titles@).last()));
            }
        }
        self.titles.len() == 0
    }

    /// The body stored for a title, if the title is present.
    pub fn get<'a>(&'a self, key: &[char]) -> (r: Option<&'a Vec<char>>)
        requires
            self.wf(),
        ensures
            match r {
                Some(b) => self@.contains_key(key@) && b@ == self@[key@],
                None => !self@.contains_key(key@),
            },
    {
        let ghost ts = views(self.titles@);
        let ghost bs = views(self.bodies@);
        let mut found: Option<usize> = None;
        let n = self.titles.len();
        proof {
            assert(ts.take(0) =~~= Seq::<Seq<char>>::empty());
            assert(bs.take(0) =~~= Seq::<Seq<char>>::empty());
        }
        for i in 0..n
            invariant
                n == self.titles@.len(),
                self.wf(),
                ts == views(self.titles@),
                bs == views(self.bodies@),
                match found {
                    None => !entries_map(ts.take(i as int), bs.take(i as int)).contains_key(key@),
                    Some(j) => j < i && ts[j as int] == key@ && entries_map(
                        ts.take(i as int),
                        bs.take(i as int),
                    ).contains_key(key@) && entries_map(ts.take(i as int), bs.take(i as int))[key@]
                        == bs[j as int],
                },
        {
            proof {
                assert(ts.take(i + 1).drop_last() =~~= ts.take(i as int));
                assert(bs.take(i + 1).drop_last() =~~= bs.take(i as int));
                assert(ts.take(i + 1).last() == ts[i as int]);
                assert(bs.take(i + 1).last() == bs[i as int]);
            }
            if chars_eq(&self.titles[i], key) {
                found = Some(i);
            }
        }
        proof {
            assert(ts.take(n as int) =~~= ts);
            assert(bs.take(n as int) =~~= bs);
        }
        match found {
            Some(j) => Some(&self.bodies[j]),
            None => None,
        }
    }
}

/// Whether two character slices hold the same characters.
pub fn chars_eq(a: &[char], b: &[char]) -> (r: bool)
    ensures
        r == (a@ == b@),
{
    if a.len() != b.len() {
        proof {
            assert(a@ != b@);
        }
        return false;
    }
    let n = a.len();
    for i in 0..n
        invariant
            n == a@.len() == b@.len(),
            forall|j: int| 0 <= j < i ==> a@[j] == b@[j],
    {
        if a[i] != b[i] {
            return false;
        }
    }
    proof {
        assert(a@ =~= b@);
    }
    true
}

/// The view of the open section held in executable form.
pub open spec fn open_view(cur_title: Option<Vec<char>>, cur_body: Seq<Vec<char>>) -> Option<
    OpenSection,
> {
    match cur_title {
        None => None,
        Some(t) => Some(OpenSection { title: t@, body: views(cur_body) }),
    }
}

/// Partitions a document into its named sections.
pub fn extract_sections(doc: &str) -> (t: SectionTable)
    ensures
        t.wf(),
        t@ == sections_of(doc@),
{
    let cs = chars_of(doc);
    let lines = split_lines(cs.as_slice());
    let ghost all = views(lines@);
    let mut t = SectionTable::new();
    let mut cur_title: Option<Vec<char>> = None;
    let mut cur_body: Vec<Vec<char>> = Vec::new();
    let n = lines.len();
    proof {
        assert(all.skip(0) =~~= all);
    }
    for i in 0..n
        invariant
            n == lines@.len(),
            all == views(lines@),
            t.wf(),
            cur_title is None ==> cur_body@.len() == 0,
            sections_of(doc@) == scan(all.skip(i as int), open_view(cur_title, cur_body@), t@),
    {
        proof {
            assert(all.skip(i as int)[0] == all[i as int]);
            assert(all.skip(i as int).skip(1) =~~= all.skip(i + 1));
        }
        let line = &lines[i];
        if line.len() >= 2 && line[0] == '#' && line[1] == ' ' {
            assert(is_header(all[i as int]));
            let rest = vstd::slice::slice_subrange(line.as_slice(), 2, line.len());
            proof {
                assert(rest@ =~= line@.skip(2));
            }
            let new_title = trim(rest);
            if let Some(prev) = cur_title {
                let body = join_lines(&cur_body);
                t.insert(prev, body);
            }
            cur_title = Some(new_title);
            cur_body = Vec::new();
            proof {
                assert(views(cur_body@) =~~= Seq::<Seq<char>>::empty());
            }
        } else {
            assert(!is_header(all[i as int]));
            if cur_title.is_some() {
                let ghost prev_body = views(cur_body@);
                let trimmed = trim_end(line.as_slice());
                cur_body.push(trimmed);
                proof {
                    assert(views(cur_body@) =~~= prev_body.push(trim_end_spec(all[i as int])));
                }
            }
        }
    }
    proof {
        assert(all.skip(n as int) =~~= Seq::<Seq<char>>::empty());
    }
    if let Some(prev) = cur_title {
        let body = join_lines(&cur_body);
        t.insert(prev, body);
    }
    t
}

} // verus!
