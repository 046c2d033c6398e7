//! ChangelogParser: converts the raw changelog document into an ordered
//! sequence of version entries. A line starting a level-2 heading
//! (`## v<version> <free text>`) opens a new entry; list-item lines
//! (`- <text>`) are appended verbatim to the open entry's changes; all
//! other lines are ignored. List items before the first heading are
//! discarded. The parser never fails: an empty or unrecognized document
//! yields no entries.

use crate::text::{
    chars_of, find_from, find_in, lemma_find_from_exact, occurs_at, lemma_strs_deep_view_is, push_string, replace_all,
    replace_all_spec, string_from_chars, subvec,
};
use vstd::prelude::*;
use vstd::string::*;

verus! {

/// One changelog entry: the version token (with its leading `v`), the
/// heading's trailing free text, and the entry's change lines (list-item
/// marker included).
#[derive(Debug)]
pub struct ChangelogEntry {
    pub version: String,
    pub date: String,
    pub changes: Vec<String>,
}

#[verifier::ext_equal]
pub struct EntryView {
    pub version: Seq<char>,
    pub date: Seq<char>,
    pub changes: Seq<Seq<char>>,
}

impl View for ChangelogEntry {
    type V = EntryView;

    open spec fn view(&self) -> EntryView {
        EntryView {
            version: self.version@,
            date: self.date@,
            changes: self.changes.deep_view(),
        }
    }
}

impl DeepView for ChangelogEntry {
    type V = EntryView;

    open spec fn deep_view(&self) -> EntryView {
        self.view()
    }
}

/// The views of the elements of a sequence of entries.
pub open spec fn deep_of_entries(s: Seq<ChangelogEntry>) -> Seq<EntryView> {
    Seq::new(s.len(), |i: int| s[i]@)
}

pub proof fn lemma_entries_deep_view_is(v: &Vec<ChangelogEntry>)
    ensures
        v.deep_view() == deep_of_entries(v@),
{
    assert forall|i: int| 0 <= i < v@.len() implies #[trigger] v.deep_view()[i] == deep_of_entries(
        v@,
    )[i] by {}
    assert(v.deep_view() =~= deep_of_entries(v@));
}

/// Push an entry, tracking the deep view.
fn push_entry(out: &mut Vec<ChangelogEntry>, e: ChangelogEntry)
    ensures
        final(out).deep_view() == old(out).deep_view().push(e@),
{
    proof {
        lemma_entries_deep_view_is(&*out);
    }
    let ghost ev = e@;
    out.push(e);
    proof {
        lemma_entries_deep_view_is(&*out);
        assert(deep_of_entries(out@) =~= deep_of_entries(old(out)@).push(ev));
    }
}

/// A line with its terminator stripped: one trailing `'\r'` is dropped,
/// as `str::lines` does before a line feed.
pub open spec fn strip_cr(l: Seq<char>) -> Seq<char> {
    if l.len() > 0 && l.last() == '\r' {
        l.drop_last()
    } else {
        l
    }
}

/// One step of the line scan: a line feed closes the current line.
pub open spec fn lines_step(
    st: (Seq<Seq<char>>, Seq<char>),
    c: char,
) -> (Seq<Seq<char>>, Seq<char>) {
    if c == '\n' {
        (st.0.push(strip_cr(st.1)), Seq::empty())
    } else {
        (st.0, st.1.push(c))
    }
}

pub open spec fn lines_run(
    st: (Seq<Seq<char>>, Seq<char>),
    s: Seq<char>,
) -> (Seq<Seq<char>>, Seq<char>)
    decreases s.len(),
{
    if s.len() == 0 {
        st
    } else {
        lines_step(lines_run(st, s.drop_last()), s.last())
    }
}

/// The lines of `s`, as `str::lines` yields them: split at line feeds,
/// a carriage return before a line feed stripped, and no final empty
/// line after a trailing line feed.
pub open spec fn split_lines(s: Seq<char>) -> Seq<Seq<char>> {
    let st = lines_run((Seq::empty(), Seq::empty()), s);
    if st.1.len() == 0 {
        st.0
    } else {
        st.0.push(st.1)
    }
}

pub fn split_lines_exec(v: &Vec<char>) -> (r: Vec<Vec<char>>)
    ensures
        r.deep_view() == split_lines(v@),
{
    let mut done: Vec<Vec<char>> = Vec::new();
    let mut cur: Vec<char> = Vec::new();
    let mut i: usize = 0;
    proof {
        crate::text::lemma_deep_view_is(&done);
        assert(done.deep_view() =~= Seq::<Seq<char>>::empty());
        assert(v@.take(0) =~= Seq::<char>::empty());
    }
    while i < v.len()
        invariant
            i <= v@.len(),
            done.deep_view() == lines_run(
                (Seq::<Seq<char>>::empty(), Seq::<char>::empty()),
                v@.take(i as int),
            ).0,
            cur@ == lines_run(
                (Seq::<Seq<char>>::empty(), Seq::<char>::empty()),
                v@.take(i as int),
            ).1,
        decreases v@.len() - i,
    {
        proof {
            assert(v@.take(i + 1).drop_last() =~= v@.take(i as int));
            assert(v@.take(i + 1).last() == v@[i as int]);
        }
        if v[i] == '\n' {
            if cur.len() > 0 && cur[cur.len() - 1] == '\r' {
                cur.pop();
            }
            proof {
                assert(cur@ == strip_cr(lines_run(
                    (Seq::<Seq<char>>::empty(), Seq::<char>::empty()),
                    v@.take(i as int),
                ).1));
            }
            let ghost pre = done@;
            let ghost old_cur = cur@;
            proof {
                crate::text::lemma_deep_view_is(&done);
            }
            done.push(cur);
            cur = Vec::new();
            proof {
                crate::text::lemma_deep_view_is(&done);
                assert(crate::text::deep_of(done@) =~= crate::text::deep_of(pre).push(old_cur));
            }
        } else {
            cur.push(v[i]);
        }
        i += 1;
    }
    proof {
        assert(v@.take(v@.len() as int) =~= v@);
    }
    if cur.len() > 0 {
        let ghost pre = done@;
        let ghost old_cur = cur@;
        proof {
            crate::text::lemma_deep_view_is(&done);
        }
        done.push(cur);
        proof {
            crate::text::lemma_deep_view_is(&done);
            assert(crate::text::deep_of(done@) =~= crate::text::deep_of(pre).push(old_cur));
        }
    }
    done
}

/// A recognized heading line: `## ` followed by a version token beginning
/// with `v`, a space, and the trailing free text. The version token is the
/// remainder up to the first space.
pub open spec fn heading_parts(l: Seq<char>) -> Option<(Seq<char>, Seq<char>)> {
    if l.len() >= 4 && l[0] == '#' && l[1] == '#' && l[2] == ' ' && l[3] == 'v' {
        let r = l.skip(3);
        match find_from(r, seq![' '], 1) {
            Some(sp) => Some((r.take(sp), r.skip(sp + 1))),
            None => None,
        }
    } else {
        None
    }
}

/// A list-item line, appended verbatim to the open entry.
pub open spec fn is_list_item(l: Seq<char>) -> bool {
    l.len() >= 2 && l[0] == '-' && l[1] == ' '
}

/// The state of the entry scan: closed entries, and the entry still open.
#[verifier::ext_equal]
pub struct ParseState {
    pub done: Seq<EntryView>,
    pub cur: Option<EntryView>,
}

pub open spec fn init_state() -> ParseState {
    ParseState { done: Seq::empty(), cur: None }
}

/// One line of the entry scan: a recognized heading closes the open entry
/// and opens a new one; a list item extends the open entry; everything
/// else is ignored, as are list items before the first heading.
pub open spec fn entry_step(st: ParseState, l: Seq<char>) -> ParseState {
    match heading_parts(l) {
        Some(p) => ParseState {
            done: match st.cur {
                Some(e) => st.done.push(e),
                None => st.done,
            },
            cur: Some(EntryView { version: p.0, date: p.1, changes: Seq::empty() }),
        },
        None => {
            if is_list_item(l) {
                match st.cur {
                    Some(e) => ParseState {
                        done: st.done,
                        cur: Some(
                            EntryView {
                                version: e.version,
                                date: e.date,
                                changes: e.changes.push(l),
                            },
                        ),
                    },
                    None => st,
                }
            } else {
                st
            }
        },
    }
}

pub open spec fn entries_run(st: ParseState, ls: Seq<Seq<char>>) -> ParseState
    decreases ls.len(),
{
    if ls.len() == 0 {
        st
    } else {
        entry_step(entries_run(st, ls.drop_last()), ls.last())
    }
}

/// The end of the document closes the open entry.
pub open spec fn finish_state(st: ParseState) -> Seq<EntryView> {
    match st.cur {
        Some(e) => st.done.push(e),
        None => st.done,
    }
}

/// The entries of a changelog document, in the document's top-to-bottom
/// order of recognized headings.
pub open spec fn parse_changelog_spec(s: Seq<char>) -> Seq<EntryView> {
    finish_state(entries_run(init_state(), split_lines(s)))
}

fn heading_parts_exec(l: &Vec<char>) -> (r: Option<(String, String)>)
    ensures
        match r {
            Some(p) => heading_parts(l@) == Some((p.0@, p.1@)),
            None => heading_parts(l@) is None,
        },
{
    if l.len() >= 4 && l[0] == '#' && l[1] == '#' && l[2] == ' ' && l[3] == 'v' {
        let rest = subvec(l, 3, l.len());
        proof {
            assert(rest@ =~= l@.skip(3));
        }
        let mut space_pat: Vec<char> = Vec::new();
        space_pat.push(' ');
        proof {
            assert(space_pat@ =~= seq![' ']);
        }
        match find_in(&rest, &space_pat, 1) {
            Some(sp) => {
                proof {
                    crate::text::lemma_find_from_some(rest@, space_pat@, 1, sp as int);
                }
                let ver = subvec(&rest, 0, sp);
                let date = subvec(&rest, sp + 1, rest.len());
                proof {
                    assert(ver@ =~= l@.skip(3).take(sp as int));
                    assert(date@ =~= l@.skip(3).skip(sp + 1));
                }
                Some((string_from_chars(&ver), string_from_chars(&date)))
            },
            None => None,
        }
    } else {
        None
    }
}

/// Parse the changelog document into its entries, in document order
/// (most recent first under the external convention); callers needing
/// chronological order iterate in reverse.
pub fn parse_changelog(content: &str) -> (r: Vec<ChangelogEntry>)
    ensures
        r.deep_view() == parse_changelog_spec(content@),
{
    let cv = chars_of(content);
    let lines = split_lines_exec(&cv);
    let mut done: Vec<ChangelogEntry> = Vec::new();
    let mut cur: Option<ChangelogEntry> = None;
    let mut i: usize = 0;
    proof {
        lemma_entries_deep_view_is(&done);
        assert(done.deep_view() =~= Seq::<EntryView>::empty());
        assert(lines.deep_view().take(0) =~= Seq::<Seq<char>>::empty());
    }
    while i < lines.len()
        invariant
            i <= lines@.len(),
            lines.deep_view() == split_lines(cv@),
            lines.deep_view().len() == lines@.len(),
            cv@ == content@,
            done.deep_view() == entries_run(init_state(), lines.deep_view().take(i as int)).done,
            match cur {
                Some(e) => entries_run(init_state(), lines.deep_view().take(i as int)).cur
                    == Some(e@),
                None => entries_run(init_state(), lines.deep_view().take(i as int)).cur is None,
            },
        decreases lines@.len() - i,
    {
        proof {
            crate::text::lemma_deep_view_is(&lines);
            assert(lines.deep_view().take(i + 1).drop_last() =~= lines.deep_view().take(i as int));
            assert(lines.deep_view().take(i + 1).last() == lines@[i as int]@);
        }
        match heading_parts_exec(&lines[i]) {
            Some((ver, date)) => {
                let prev = cur;
                cur = Some(ChangelogEntry { version: ver, date, changes: Vec::new() });
                match prev {
                    Some(e) => {
                        push_entry(&mut done, e);
                    },
                    None => {},
                }
                proof {
                    match &cur {
                        Some(e) => {
                            lemma_strs_deep_view_is(&e.changes);
                            assert(e.changes.deep_view() =~= Seq::<Seq<char>>::empty());
                        },
                        None => {},
                    }
                }
            },
            None => {
                let line = &lines[i];
                if line.len() >= 2 && line[0] == '-' && line[1] == ' ' {
                    cur = match cur {
                        Some(mut e) => {
                            let ghost prev = e.changes.deep_view();
                            let s = string_from_chars(line);
                            push_string(&mut e.changes, s);
                            Some(e)
                        },
                        None => None,
                    };
                } else {
                    proof {
                        assert(!is_list_item(lines@[i as int]@));
                    }
                }
            },
        }
        i += 1;
    }
    proof {
        assert(lines.deep_view().take(lines@.len() as int) =~= lines.deep_view());
    }
    match cur {
        Some(e) => {
            push_entry(&mut done, e);
        },
        None => {},
    }
    done
}

/// The number of recognized heading lines among `ls`.
pub open spec fn heading_count(ls: Seq<Seq<char>>) -> nat
    decreases ls.len(),
{
    if ls.len() == 0 {
        0
    } else {
        heading_count(ls.drop_last()) + if heading_parts(ls.last()) is Some {
            1nat
        } else {
            0nat
        }
    }
}

pub open spec fn cur_count(st: ParseState) -> nat {
    if st.cur is Some {
        1
    } else {
        0
    }
}

proof fn lemma_entries_run_count(st: ParseState, ls: Seq<Seq<char>>)
    ensures
        entries_run(st, ls).done.len() + cur_count(entries_run(st, ls)) == st.done.len()
            + cur_count(st) + heading_count(ls),
    decreases ls.len(),
{
    if ls.len() > 0 {
        lemma_entries_run_count(st, ls.drop_last());
    }
}

/// The parser yields exactly one entry per heading line that the grammar
/// recognizes; other lines never add or remove an entry.
pub proof fn lemma_parse_counts_headings(d: Seq<char>)
    ensures
        parse_changelog_spec(d).len() == heading_count(split_lines(d)),
{
    lemma_entries_run_count(init_state(), split_lines(d));
}

/// The list-item lines of `ls`, in order.
pub open spec fn list_items_of(ls: Seq<Seq<char>>) -> Seq<Seq<char>>
    decreases ls.len(),
{
    if ls.len() == 0 {
        Seq::empty()
    } else {
        let pre = list_items_of(ls.drop_last());
        if is_list_item(ls.last()) {
            pre.push(ls.last())
        } else {
            pre
        }
    }
}

/// The positions of the recognized heading lines of `ls`, ascending.
pub open spec fn heading_positions(ls: Seq<Seq<char>>) -> Seq<int>
    decreases ls.len(),
{
    if ls.len() == 0 {
        Seq::empty()
    } else {
        let pre = heading_positions(ls.drop_last());
        if heading_parts(ls.last()) is Some {
            pre.push(ls.len() - 1)
        } else {
            pre
        }
    }
}

/// The scan state after `ls`, characterized by heading positions: each
/// closed entry carries its heading's parts and exactly the list-item
/// lines of the segment up to the next heading; the open entry carries
/// those of the final segment.
proof fn lemma_entries_run_segments(ls: Seq<Seq<char>>)
    ensures
        ({
            let st = entries_run(init_state(), ls);
            let hp = heading_positions(ls);
            &&& st.done.len() + cur_count(st) == hp.len()
            &&& (st.cur is Some <==> hp.len() > 0)
            &&& forall|k: int| 0 <= k < hp.len() ==> 0 <= #[trigger] hp[k] < ls.len()
            &&& forall|k: int| 0 <= k < hp.len() - 1 ==> #[trigger] hp[k] < hp[k + 1]
            &&& (st.cur is Some ==> heading_parts(ls[hp.last()]) == Some(
                (st.cur->0.version, st.cur->0.date),
            ) && st.cur->0.changes == list_items_of(
                ls.subrange(hp.last() + 1, ls.len() as int),
            ))
            &&& forall|k: int|
                0 <= k < st.done.len() ==> heading_parts(ls[hp[k]]) == Some(
                    ((#[trigger] st.done[k]).version, st.done[k].date),
                ) && st.done[k].changes == list_items_of(ls.subrange(hp[k] + 1, hp[k + 1]))
        }),
    decreases ls.len(),
{
    if ls.len() == 0 {
    } else {
        let ls1 = ls.drop_last();
        let l = ls.last();
        lemma_entries_run_segments(ls1);
        let st1 = entries_run(init_state(), ls1);
        let hp1 = heading_positions(ls1);
        let st = entries_run(init_state(), ls);
        let hp = heading_positions(ls);
        assert(st == entry_step(st1, l));
        assert(forall|k: int| 0 <= k < ls1.len() ==> ls1[k] == ls[k]);
        assert(forall|a: int, b: int|
            0 <= a && a <= b && b <= ls1.len() ==> ls1.subrange(a, b) =~= #[trigger] ls.subrange(
                a,
                b,
            ));
        match heading_parts(l) {
            Some(p) => {
                assert(hp == hp1.push(ls.len() - 1));
                assert(st.cur->0.changes =~= list_items_of(
                    ls.subrange(ls.len() as int, ls.len() as int),
                )) by {
                    assert(ls.subrange(ls.len() as int, ls.len() as int) =~= Seq::<
                        Seq<char>,
                    >::empty());
                }
                match st1.cur {
                    Some(prev) => {
                        assert(st.done == st1.done.push(prev));
                        assert(hp1.len() == st1.done.len() + 1);
                        assert forall|k: int| 0 <= k < st.done.len() implies heading_parts(
                            ls[hp[k]],
                        ) == Some(((#[trigger] st.done[k]).version, st.done[k].date))
                            && st.done[k].changes == list_items_of(
                            ls.subrange(hp[k] + 1, hp[k + 1]),
                        ) by {
                            if k < st1.done.len() {
                                assert(st.done[k] == st1.done[k]);
                                assert(hp[k] == hp1[k]);
                                assert(hp[k + 1] == hp1[k + 1]);
                                assert(ls.subrange(hp1[k] + 1, hp1[k + 1]) =~= ls1.subrange(
                                    hp1[k] + 1,
                                    hp1[k + 1],
                                ));
                                assert(ls[hp1[k]] == ls1[hp1[k]]);
                            } else {
                                assert(st.done[k] == prev);
                                assert(hp[k] == hp1.last());
                                assert(hp[k + 1] == ls.len() - 1);
                                assert(ls.subrange(hp1.last() + 1, ls1.len() as int)
                                    =~= ls1.subrange(hp1.last() + 1, ls1.len() as int));
                                assert(ls[hp1.last()] == ls1[hp1.last()]);
                            }
                        }
                    },
                    None => {
                        assert(st1.done.len() == 0);
                        assert(st.done == st1.done);
                    },
                }
            },
            None => {
                assert(hp == hp1);
                assert(st.done == st1.done);
                if st1.cur is Some {
                    assert(ls[hp.last()] == ls1[hp.last()]);
                    assert(ls.subrange(hp.last() + 1, ls.len() as int).drop_last() =~= ls1.subrange(
                        hp.last() + 1,
                        ls1.len() as int,
                    ));
                    assert(ls.subrange(hp.last() + 1, ls.len() as int).last() == l);
                    if is_list_item(l) {
                        assert(st.cur->0.changes == st1.cur->0.changes.push(l));
                    } else {
                        assert(st.cur == st1.cur);
                    }
                }
                assert forall|k: int| 0 <= k < st.done.len() implies heading_parts(ls[hp[k]])
                    == Some(((#[trigger] st.done[k]).version, st.done[k].date))
                    && st.done[k].changes == list_items_of(ls.subrange(hp[k] + 1, hp[k + 1])) by {
                    assert(st.done[k] == st1.done[k]);
                    assert(ls.subrange(hp1[k] + 1, hp1[k + 1]) =~= ls1.subrange(
                        hp1[k] + 1,
                        hp1[k + 1],
                    ));
                    assert(ls[hp1[k]] == ls1[hp1[k]]);
                }
            },
        }
    }
}

/// Each parsed entry's version and free text come from its recognized
/// heading line, and its changes are exactly, verbatim, the list-item
/// lines lying between that heading and the next recognized heading (or
/// the end of the document), in order; lines matching neither pattern
/// appear in no entry.
pub proof fn lemma_parse_changes_are_segments(d: Seq<char>, i: int)
    requires
        0 <= i < parse_changelog_spec(d).len(),
    ensures
        heading_positions(split_lines(d)).len() == parse_changelog_spec(d).len(),
        ({
            let ls = split_lines(d);
            let hp = heading_positions(ls);
            let lo = hp[i];
            let hi = if i + 1 < hp.len() {
                hp[i + 1]
            } else {
                ls.len() as int
            };
            &&& heading_parts(ls[lo]) == Some(
                (parse_changelog_spec(d)[i].version, parse_changelog_spec(d)[i].date),
            )
            &&& parse_changelog_spec(d)[i].changes == list_items_of(ls.subrange(lo + 1, hi))
        }),
{
    let ls = split_lines(d);
    lemma_entries_run_segments(ls);
    let st = entries_run(init_state(), ls);
    let hp = heading_positions(ls);
    match st.cur {
        Some(e) => {
            assert(parse_changelog_spec(d) == st.done.push(e));
            if i < st.done.len() {
                assert(parse_changelog_spec(d)[i] == st.done[i]);
            } else {
                assert(parse_changelog_spec(d)[i] == e);
                assert(hp[i] == hp.last());
            }
        },
        None => {},
    }
}

/// A line without line feeds or carriage returns.
pub open spec fn clean_line(l: Seq<char>) -> bool {
    forall|i: int| 0 <= i < l.len() ==> #[trigger] l[i] != '\n' && l[i] != '\r'
}

/// A version token that a heading can carry and recover: it begins with
/// `v` and holds no space and no line terminator.
pub open spec fn wf_version(v: Seq<char>) -> bool {
    &&& v.len() >= 1
    &&& v[0] == 'v'
    &&& forall|i: int| 0 <= i < v.len() ==> #[trigger] v[i] != ' ' && v[i] != '\n' && v[i] != '\r'
}

/// Heading free text without line terminators.
pub open spec fn wf_date(d: Seq<char>) -> bool {
    clean_line(d)
}

/// A change line: a list item without line terminators.
pub open spec fn wf_change(l: Seq<char>) -> bool {
    is_list_item(l) && clean_line(l)
}

pub open spec fn wf_entry(e: EntryView) -> bool {
    &&& wf_version(e.version)
    &&& wf_date(e.date)
    &&& forall|i: int| 0 <= i < e.changes.len() ==> wf_change(#[trigger] e.changes[i])
}

/// The heading line that carries an entry's version and free text.
pub open spec fn heading_line_of(e: EntryView) -> Seq<char> {
    "## "@ + e.version + seq![' '] + e.date
}

pub open spec fn render_entry_lines(e: EntryView) -> Seq<Seq<char>> {
    seq![heading_line_of(e)] + e.changes
}

pub open spec fn render_lines(es: Seq<EntryView>) -> Seq<Seq<char>>
    decreases es.len(),
{
    if es.len() == 0 {
        Seq::empty()
    } else {
        render_lines(es.drop_last()) + render_entry_lines(es.last())
    }
}

/// The lines joined back into a document, each closed by a line feed.
pub open spec fn unlines(ls: Seq<Seq<char>>) -> Seq<char>
    decreases ls.len(),
{
    if ls.len() == 0 {
        Seq::empty()
    } else {
        unlines(ls.drop_last()) + ls.last() + seq!['\n']
    }
}

/// A synthetic document rendered from entry triples.
pub open spec fn render_doc(es: Seq<EntryView>) -> Seq<char> {
    unlines(render_lines(es))
}

proof fn lemma_lines_run_concat(st: (Seq<Seq<char>>, Seq<char>), a: Seq<char>, b: Seq<char>)
    ensures
        lines_run(st, a + b) == lines_run(lines_run(st, a), b),
    decreases b.len(),
{
    if b.len() == 0 {
        assert(a + b =~= a);
    } else {
        assert((a + b).drop_last() =~= a + b.drop_last());
        assert((a + b).last() == b.last());
        lemma_lines_run_concat(st, a, b.drop_last());
    }
}

proof fn lemma_lines_run_no_nl(st: (Seq<Seq<char>>, Seq<char>), l: Seq<char>)
    requires
        forall|i: int| 0 <= i < l.len() ==> #[trigger] l[i] != '\n',
    ensures
        lines_run(st, l) == (st.0, st.1 + l),
    decreases l.len(),
{
    if l.len() == 0 {
        assert(st.1 + l =~= st.1);
    } else {
        lemma_lines_run_no_nl(st, l.drop_last());
        assert(st.1 + l =~= (st.1 + l.drop_last()).push(l.last()));
    }
}

proof fn lemma_lines_run_unlines(st: (Seq<Seq<char>>, Seq<char>), ls: Seq<Seq<char>>)
    requires
        st.1 == Seq::<char>::empty(),
        forall|k: int| 0 <= k < ls.len() ==> clean_line(#[trigger] ls[k]),
    ensures
        lines_run(st, unlines(ls)) == (st.0 + ls, Seq::<char>::empty()),
    decreases ls.len(),
{
    if ls.len() == 0 {
        assert(st.0 + ls =~= st.0);
    } else {
        let dl = ls.drop_last();
        let last = ls.last();
        lemma_lines_run_unlines(st, dl);
        let st1 = (st.0 + dl, Seq::<char>::empty());
        assert(unlines(ls) =~= unlines(dl) + (last + seq!['\n']));
        lemma_lines_run_concat(st, unlines(dl), last + seq!['\n']);
        assert(clean_line(last));
        lemma_lines_run_concat(st1, last, seq!['\n']);
        assert(forall|i: int| 0 <= i < last.len() ==> #[trigger] last[i] != '\n');
        lemma_lines_run_no_nl(st1, last);
        let st2 = (st1.0, last);
        assert(seq!['\n'].drop_last() =~= Seq::<char>::empty());
        assert(seq!['\n'].len() == 1);
        assert(seq!['\n'].last() == '\n');
        assert(lines_run(st2, Seq::<char>::empty()) == st2);
        assert(lines_run(st2, seq!['\n']) == lines_step(lines_run(st2, seq!['\n'].drop_last()),
            '\n'));
        assert(lines_run(st2, seq!['\n']) == lines_step(st2, '\n'));
        assert(strip_cr(last) == last) by {
            if last.len() > 0 {
                assert(last[last.len() - 1] != '\r');
            }
        }
        assert(st1.1 + last =~= last);
        assert((st.0 + dl).push(last) =~= st.0 + ls);
    }
}

proof fn lemma_entries_run_concat(st: ParseState, a: Seq<Seq<char>>, b: Seq<Seq<char>>)
    ensures
        entries_run(st, a + b) == entries_run(entries_run(st, a), b),
    decreases b.len(),
{
    if b.len() == 0 {
        assert(a + b =~= a);
    } else {
        assert((a + b).drop_last() =~= a + b.drop_last());
        assert((a + b).last() == b.last());
        lemma_entries_run_concat(st, a, b.drop_last());
    }
}

/// A well-formed heading line parses back to its version and free text.
proof fn lemma_heading_line_parses(e: EntryView)
    requires
        wf_version(e.version),
        wf_date(e.date),
    ensures
        heading_parts(heading_line_of(e)) == Some((e.version, e.date)),
{
    reveal_strlit("## ");
    let l = heading_line_of(e);
    assert(l[0] == '#');
    assert(l[1] == '#');
    assert(l[2] == ' ');
    assert(l[3] == e.version[0]);
    let r = l.skip(3);
    assert(r =~= e.version + seq![' '] + e.date);
    let sp = e.version.len() as int;
    assert(r[sp] == ' ');
    assert(r.subrange(sp, sp + 1) =~= seq![r[sp]]);
    assert(occurs_at(r, seq![' '], sp));
    assert forall|j: int| 1 <= j < sp implies !occurs_at(r, seq![' '], j) by {
        assert(r[j] == e.version[j]);
        if occurs_at(r, seq![' '], j) {
            assert(r.subrange(j, j + 1)[0] == ' ');
        }
    }
    lemma_find_from_exact(r, seq![' '], 1, sp);
    assert(r.take(sp) =~= e.version);
    assert(r.skip(sp + 1) =~= e.date);
}

/// Change lines extend the open entry and close nothing.
proof fn lemma_entries_run_changes(st: ParseState, cs: Seq<Seq<char>>)
    requires
        st.cur is Some,
        forall|i: int| 0 <= i < cs.len() ==> wf_change(#[trigger] cs[i]),
    ensures
        entries_run(st, cs) == (ParseState {
            done: st.done,
            cur: Some(
                EntryView {
                    version: st.cur->0.version,
                    date: st.cur->0.date,
                    changes: st.cur->0.changes + cs,
                },
            ),
        }),
    decreases cs.len(),
{
    if cs.len() == 0 {
        assert(st.cur->0.changes + cs =~= st.cur->0.changes);
        assert(st =~= (ParseState {
            done: st.done,
            cur: Some(
                EntryView {
                    version: st.cur->0.version,
                    date: st.cur->0.date,
                    changes: st.cur->0.changes + cs,
                },
            ),
        }));
    } else {
        lemma_entries_run_changes(st, cs.drop_last());
        let last = cs.last();
        assert(wf_change(last));
        assert(heading_parts(last) is None) by {
            reveal_strlit("## ");
            assert(last[0] == '-');
        }
        assert(st.cur->0.changes + cs =~= (st.cur->0.changes + cs.drop_last()).push(last));
    }
}

/// Rendering a block of one entry closes the open entry and leaves the
/// rendered entry open.
proof fn lemma_entries_run_block(st: ParseState, e: EntryView)
    requires
        wf_entry(e),
    ensures
        entries_run(st, render_entry_lines(e)) == (ParseState {
            done: match st.cur {
                Some(p) => st.done.push(p),
                None => st.done,
            },
            cur: Some(e),
        }),
{
    lemma_heading_line_parses(e);
    lemma_entries_run_concat(st, seq![heading_line_of(e)], e.changes);
    assert(seq![heading_line_of(e)].drop_last() =~= Seq::<Seq<char>>::empty());
    assert(seq![heading_line_of(e)].len() == 1);
    assert(seq![heading_line_of(e)].last() == heading_line_of(e));
    let st1 = entry_step(st, heading_line_of(e));
    assert(entries_run(st, Seq::<Seq<char>>::empty()) == st);
    assert(entries_run(st, seq![heading_line_of(e)]) == entry_step(
        entries_run(st, seq![heading_line_of(e)].drop_last()),
        seq![heading_line_of(e)].last(),
    ));
    assert(entries_run(st, seq![heading_line_of(e)]) == st1);
    lemma_entries_run_changes(st1, e.changes);
    assert(st1.cur->0.changes + e.changes =~= e.changes);
    assert(EntryView {
        version: st1.cur->0.version,
        date: st1.cur->0.date,
        changes: st1.cur->0.changes + e.changes,
    } =~= e);
}

proof fn lemma_entries_run_render(st: ParseState, es: Seq<EntryView>)
    requires
        forall|i: int| 0 <= i < es.len() ==> wf_entry(#[trigger] es[i]),
    ensures
        es.len() == 0 ==> entries_run(st, render_lines(es)) == st,
        es.len() > 0 ==> entries_run(st, render_lines(es)) == (ParseState {
            done: (match st.cur {
                Some(p) => st.done.push(p),
                None => st.done,
            }) + es.drop_last(),
            cur: Some(es.last()),
        }),
    decreases es.len(),
{
    if es.len() == 0 {
    } else {
        let dl = es.drop_last();
        lemma_entries_run_render(st, dl);
        lemma_entries_run_concat(st, render_lines(dl), render_entry_lines(es.last()));
        let d0 = match st.cur {
            Some(p) => st.done.push(p),
            None => st.done,
        };
        if dl.len() == 0 {
            lemma_entries_run_block(st, es.last());
            assert(d0 + es.drop_last() =~= d0);
        } else {
            let st1 = ParseState { done: d0 + dl.drop_last(), cur: Some(dl.last()) };
            lemma_entries_run_block(st1, es.last());
            assert((d0 + dl.drop_last()).push(dl.last()) =~= d0 + es.drop_last());
        }
    }
}

proof fn lemma_render_lines_clean(es: Seq<EntryView>)
    requires
        forall|i: int| 0 <= i < es.len() ==> wf_entry(#[trigger] es[i]),
    ensures
        forall|k: int| 0 <= k < render_lines(es).len() ==> clean_line(#[trigger] render_lines(es)[k]),
    decreases es.len(),
{
    if es.len() > 0 {
        let dl = es.drop_last();
        let e = es.last();
        lemma_render_lines_clean(dl);
        assert(clean_line(heading_line_of(e))) by {
            reveal_strlit("## ");
            let l = heading_line_of(e);
            assert forall|i: int| 0 <= i < l.len() implies #[trigger] l[i] != '\n' && l[i] != '\r'
                by {
                if i >= 3 + e.version.len() + 1 {
                    assert(l[i] == e.date[i - (3 + e.version.len() + 1)]);
                } else if i >= 3 && i < 3 + e.version.len() {
                    assert(l[i] == e.version[i - 3]);
                }
            }
        }
        assert forall|k: int| 0 <= k < render_lines(es).len() implies clean_line(
            #[trigger] render_lines(es)[k],
        ) by {
            if k >= render_lines(dl).len() {
                let b = render_entry_lines(e);
                assert(render_lines(es)[k] == b[k - render_lines(dl).len()]);
                if k - render_lines(dl).len() >= 1 {
                    assert(b[k - render_lines(dl).len()] == e.changes[k - render_lines(dl).len()
                        - 1]);
                }
            }
        }
    }
}

/// Round trip: a synthetic document rendered from well-formed entry
/// triples parses back to exactly those triples, in order.
pub proof fn lemma_parse_render_roundtrip(es: Seq<EntryView>)
    requires
        forall|i: int| 0 <= i < es.len() ==> wf_entry(#[trigger] es[i]),
    ensures
        parse_changelog_spec(render_doc(es)) == es,
{
    lemma_render_lines_clean(es);
    lemma_lines_run_unlines((Seq::<Seq<char>>::empty(), Seq::<char>::empty()), render_lines(es));
    assert(Seq::<Seq<char>>::empty() + render_lines(es) =~= render_lines(es));
    assert(split_lines(render_doc(es)) == render_lines(es));
    lemma_entries_run_render(init_state(), es);
    if es.len() == 0 {
        assert(parse_changelog_spec(render_doc(es)) =~= es);
    } else {
        assert(Seq::<EntryView>::empty() + es.drop_last() =~= es.drop_last());
        assert(es.drop_last().push(es.last()) =~= es);
    }
}

/// The literal tag marking a manual deployment action.
pub open spec fn todo_tag() -> Seq<char> {
    "[TODO DEPLOY]"@
}

/// The tagged list-item prefix that is stripped from a change line.
pub open spec fn todo_prefix() -> Seq<char> {
    "- [TODO DEPLOY] "@
}

pub open spec fn line_is_todo(l: Seq<char>) -> bool {
    find_from(l, todo_tag(), 0) is Some
}

pub open spec fn strip_todo(l: Seq<char>) -> Seq<char> {
    replace_all_spec(l, todo_prefix(), Seq::empty())
}

/// The deployment actions of an entry's change lines: every line holding
/// the tag, with the tagged list-item prefix removed.
pub open spec fn todos_of(changes: Seq<Seq<char>>) -> Seq<Seq<char>>
    decreases changes.len(),
{
    if changes.len() == 0 {
        Seq::empty()
    } else {
        let pre = todos_of(changes.drop_last());
        if line_is_todo(changes.last()) {
            pre.push(strip_todo(changes.last()))
        } else {
            pre
        }
    }
}

/// The manual deployment actions of one entry.
pub fn extract_todos(entry: &ChangelogEntry) -> (r: Vec<String>)
    ensures
        r.deep_view() == todos_of(entry@.changes),
{
    let tag = chars_of("[TODO DEPLOY]");
    let prefix = chars_of("- [TODO DEPLOY] ");
    proof {
        reveal_strlit("[TODO DEPLOY]");
        reveal_strlit("- [TODO DEPLOY] ");
    }
    let empty: Vec<char> = Vec::new();
    let mut out: Vec<String> = Vec::new();
    let mut i: usize = 0;
    proof {
        lemma_strs_deep_view_is(&out);
        assert(out.deep_view() =~= Seq::<Seq<char>>::empty());
        assert(entry@.changes.take(0) =~= Seq::<Seq<char>>::empty());
    }
    while i < entry.changes.len()
        invariant
            i <= entry.changes@.len(),
            entry@.changes.len() == entry.changes@.len(),
            tag@ == todo_tag(),
            tag@.len() >= 1,
            prefix@ == todo_prefix(),
            prefix@.len() > 0,
            empty@ == Seq::<char>::empty(),
            out.deep_view() == todos_of(entry@.changes.take(i as int)),
        decreases entry.changes@.len() - i,
    {
        proof {
            lemma_strs_deep_view_is(&entry.changes);
            assert(entry@.changes.take(i + 1).drop_last() =~= entry@.changes.take(i as int));
            assert(entry@.changes.take(i + 1).last() == entry.changes@[i as int]@);
        }
        let lv = chars_of(entry.changes[i].as_str());
        let hit = match find_in(&lv, &tag, 0) {
            Some(_) => true,
            None => false,
        };
        if hit {
            let stripped = replace_all(&lv, &prefix, &empty);
            push_string(&mut out, string_from_chars(&stripped));
        }
        i += 1;
    }
    proof {
        assert(entry@.changes.take(entry.changes@.len() as int) =~= entry@.changes);
    }
    out
}

} // verus!
