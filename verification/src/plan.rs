//! UpgradePlanBuilder: iterates parsed changelog entries in chronological
//! (oldest-first) order, filters them through a VersionMatcher, collects
//! manual deployment actions, and folds each fetched release's upgrade
//! command into one deduplicated option set and a final composed command.
//!
//! Building is split in two pure phases around the release fetches, which
//! the caller performs: `select_upgrades` decides which versions matter
//! and which release bodies to fetch; `compose_plan` takes the fetched
//! bodies and produces the plan.

use crate::changelog::{todos_of, ChangelogEntry, EntryView};
use crate::matcher::{matcher_matches, MatcherView, VersionMatcher};
use crate::options::{
    extract_options, extract_options_spec, lemma_merge_no_dups, merge_options, merge_spec,
    no_dups, separator,
};
use crate::release::{parse_release, release_spec};
use crate::text::{
    chars_of, deep_of_strs, join_strs, join_with, lemma_strs_deep_view_is, push_all, push_string,
    replace_all, replace_all_spec, string_from_chars,
};
use crate::version::{semver_parts, version_chars, view_of_parts, format_semver, Semver, SemverView};
use vstd::prelude::*;
use vstd::string::*;

verus! {

/// The version-source lookup answer: the next published version after the
/// current one, with an informational URL.
#[derive(Debug)]
pub struct NextRelease {
    pub semver: String,
    pub url: String,
}

#[derive(Debug)]
pub struct NextResponse {
    pub next_step: NextRelease,
}

/// What the first phase selects from the changelog.
pub struct UpgradeSelection {
    /// The matched entries, oldest first.
    pub matched: Vec<ChangelogEntry>,
    /// The deployment actions of the matched entries, deduplicated,
    /// first-seen order.
    pub todos: Vec<String>,
    /// The version tags whose release bodies are wanted: the matched
    /// entries with at least one deployment action, oldest first.
    pub fetch_tags: Vec<String>,
    /// The version tokens of entries whose version failed to parse; such
    /// an entry is skipped, not fatal.
    pub malformed: Vec<String>,
}

/// The version of an entry's token: the token must begin with `v` and the
/// remainder must be a valid semantic version.
pub open spec fn version_of_token(tok: Seq<char>) -> Option<SemverView> {
    if tok.len() >= 1 && tok[0] == 'v' {
        match semver_parts(tok.skip(1)) {
            Some(p) => Some(view_of_parts(p)),
            None => None,
        }
    } else {
        None
    }
}

pub struct SelState {
    pub matched: Seq<EntryView>,
    pub todos: Seq<Seq<char>>,
    pub fetch: Seq<Seq<char>>,
    pub malformed: Seq<Seq<char>>,
}

pub open spec fn init_sel() -> SelState {
    SelState {
        matched: Seq::empty(),
        todos: Seq::empty(),
        fetch: Seq::empty(),
        malformed: Seq::empty(),
    }
}

/// One entry of the selection scan: a malformed version is recorded and
/// skipped; a matched entry is kept, its deployment actions folded in, and
/// its tag queued for a release fetch only when it has at least one
/// action; an unmatched entry is passed over.
pub open spec fn sel_step(st: SelState, e: EntryView, m: MatcherView) -> SelState {
    match version_of_token(e.version) {
        None => SelState {
            matched: st.matched,
            todos: st.todos,
            fetch: st.fetch,
            malformed: st.malformed.push(e.version),
        },
        Some(v) => {
            if matcher_matches(m, v) {
                let ts = todos_of(e.changes);
                SelState {
                    matched: st.matched.push(e),
                    todos: merge_spec(st.todos, ts),
                    fetch: if ts.len() > 0 {
                        st.fetch.push(e.version)
                    } else {
                        st.fetch
                    },
                    malformed: st.malformed,
                }
            } else {
                st
            }
        },
    }
}

pub open spec fn sel_run(st: SelState, m: MatcherView, rs: Seq<EntryView>) -> SelState
    decreases rs.len(),
{
    if rs.len() == 0 {
        st
    } else {
        sel_step(sel_run(st, m, rs.drop_last()), rs.last(), m)
    }
}

/// The entries in chronological order: the document lists the most recent
/// first, so the scan walks it back to front.
pub open spec fn rev_entries(s: Seq<EntryView>) -> Seq<EntryView> {
    Seq::new(s.len(), |i: int| s[s.len() - 1 - i])
}

pub open spec fn select_spec(entries: Seq<EntryView>, m: MatcherView) -> SelState {
    sel_run(init_sel(), m, rev_entries(entries))
}

/// First phase: walk the parsed entries chronologically, filter through
/// the matcher, collect deployment actions, and list the version tags
/// whose release bodies the caller should fetch.
pub fn select_upgrades(entries: &Vec<ChangelogEntry>, matcher: &VersionMatcher) -> (r:
    UpgradeSelection)
    ensures
        r.matched.deep_view() == select_spec(entries.deep_view(), matcher@).matched,
        r.todos.deep_view() == select_spec(entries.deep_view(), matcher@).todos,
        r.fetch_tags.deep_view() == select_spec(entries.deep_view(), matcher@).fetch,
        r.malformed.deep_view() == select_spec(entries.deep_view(), matcher@).malformed,
{
    let n = entries.len();
    let mut matched: Vec<ChangelogEntry> = Vec::new();
    let mut todos: Vec<String> = Vec::new();
    let mut fetch_tags: Vec<String> = Vec::new();
    let mut malformed: Vec<String> = Vec::new();
    let mut j: usize = 0;
    let ghost rev = rev_entries(entries.deep_view());
    proof {
        crate::changelog::lemma_entries_deep_view_is(&matched);
        lemma_strs_deep_view_is(&todos);
        lemma_strs_deep_view_is(&fetch_tags);
        lemma_strs_deep_view_is(&malformed);
        assert(matched.deep_view() =~= Seq::<EntryView>::empty());
        assert(todos.deep_view() =~= Seq::<Seq<char>>::empty());
        assert(rev.take(0) =~= Seq::<EntryView>::empty());
    }
    while j < n
        invariant
            j <= n,
            n == entries@.len(),
            entries.deep_view().len() == n,
            rev == rev_entries(entries.deep_view()),
            rev.len() == n,
            matched.deep_view() == sel_run(init_sel(), matcher@, rev.take(j as int)).matched,
            todos.deep_view() == sel_run(init_sel(), matcher@, rev.take(j as int)).todos,
            fetch_tags.deep_view() == sel_run(init_sel(), matcher@, rev.take(j as int)).fetch,
            malformed.deep_view() == sel_run(init_sel(), matcher@, rev.take(j as int)).malformed,
        decreases n - j,
    {
        proof {
            crate::changelog::lemma_entries_deep_view_is(entries);
            assert(rev.take(j + 1).drop_last() =~= rev.take(j as int));
            assert(rev.take(j + 1).last() == entries.deep_view()[n - 1 - j]);
        }
        let e = &entries[n - 1 - j];
        let vs = e.version.as_str();
        let ln = vs.unicode_len();
        let mut handled = false;
        if ln >= 1 {
            if vs.get_char(0) == 'v' {
                handled = true;
                let raw = vs.substring_char(1, ln);
                proof {
                    assert(raw@ =~= e.version@.skip(1));
                }
                match crate::version::parse_semver(raw) {
                    Some(sv) => {
                        if matcher.matches(&sv) {
                            let ts = crate::changelog::extract_todos(e);
                            merge_options(&mut todos, &ts);
                            if ts.len() > 0 {
                                push_string(&mut fetch_tags, e.version.clone());
                            }
                            let copy = clone_entry(e);
                            push_matched(&mut matched, copy);
                        }
                    },
                    None => {
                        push_string(&mut malformed, e.version.clone());
                    },
                }
            }
        }
        if !handled {
            push_string(&mut malformed, e.version.clone());
        }
        j += 1;
    }
    proof {
        assert(rev.take(n as int) =~= rev);
    }
    UpgradeSelection { matched, todos, fetch_tags, malformed }
}

/// Copy an entry, preserving its view.
fn clone_entry(e: &ChangelogEntry) -> (r: ChangelogEntry)
    ensures
        r@ == e@,
{
    let mut changes: Vec<String> = Vec::new();
    let mut i: usize = 0;
    proof {
        lemma_strs_deep_view_is(&changes);
        assert(changes.deep_view() =~= e.changes.deep_view().take(0));
    }
    while i < e.changes.len()
        invariant
            i <= e.changes@.len(),
            e.changes.deep_view().len() == e.changes@.len(),
            changes.deep_view() == e.changes.deep_view().take(i as int),
        decreases e.changes@.len() - i,
    {
        proof {
            lemma_strs_deep_view_is(&e.changes);
            assert(e.changes.deep_view().take(i + 1).drop_last() =~= e.changes.deep_view().take(
                i as int,
            ));
            assert(e.changes.deep_view().take(i + 1).last() == e.changes@[i as int]@);
        }
        push_string(&mut changes, e.changes[i].clone());
        i += 1;
    }
    proof {
        assert(e.changes.deep_view().take(e.changes@.len() as int) =~= e.changes.deep_view());
    }
    ChangelogEntry { version: e.version.clone(), date: e.date.clone(), changes }
}

/// Push a matched entry, tracking the deep view.
fn push_matched(out: &mut Vec<ChangelogEntry>, e: ChangelogEntry)
    ensures
        final(out).deep_view() == old(out).deep_view().push(e@),
{
    proof {
        crate::changelog::lemma_entries_deep_view_is(&*out);
    }
    let ghost ev = e@;
    out.push(e);
    proof {
        crate::changelog::lemma_entries_deep_view_is(&*out);
        assert(crate::changelog::deep_of_entries(out@) =~= crate::changelog::deep_of_entries(
            old(out)@,
        ).push(ev));
    }
}

/// The produced plan.
pub struct UpgradePlan {
    /// The matched entries, oldest first.
    pub matched_versions: Vec<ChangelogEntry>,
    /// The deployment actions, deduplicated, first-seen order.
    pub todos: Vec<String>,
    /// The option tokens accumulated over the fetched releases,
    /// deduplicated, first-seen order.
    pub merged_options: Vec<String>,
    /// One self-contained upgrade command per release whose body held one,
    /// the per-release target flag injected after each separator.
    pub release_commands: Vec<String>,
    /// The version tag of each kept command, aligned with
    /// `release_commands`.
    pub release_tags: Vec<String>,
    /// Tags whose body held no update block; reported, not fatal.
    pub no_update: Vec<String>,
    /// Tags whose body could not be fetched; reported, not fatal.
    pub fetch_failed: Vec<String>,
    /// Version tokens that failed to parse, carried over from selection.
    pub malformed: Vec<String>,
    /// The final composed shell command.
    pub final_command: String,
}

pub struct ComposeState {
    pub options: Seq<Seq<char>>,
    pub cmds: Seq<Seq<char>>,
    pub cmd_tags: Seq<Seq<char>>,
    pub no_update: Seq<Seq<char>>,
    pub fetch_failed: Seq<Seq<char>>,
}

pub open spec fn init_compose() -> ComposeState {
    ComposeState {
        options: Seq::empty(),
        cmds: Seq::empty(),
        cmd_tags: Seq::empty(),
        no_update: Seq::empty(),
        fetch_failed: Seq::empty(),
    }
}

pub open spec fn target_flag_prefix() -> Seq<char> {
    " -- -t "@
}

/// A tag with its leading `v` dropped.
pub open spec fn raw_of_tag(tag: Seq<char>) -> Seq<char> {
    if tag.len() >= 1 && tag[0] == 'v' {
        tag.skip(1)
    } else {
        tag
    }
}

/// A release's command with the per-release target flag injected after
/// each argument separator, so the displayed command is self-contained.
pub open spec fn rewrite_command(upd: Seq<char>, tag: Seq<char>) -> Seq<char> {
    replace_all_spec(upd, separator(), target_flag_prefix() + raw_of_tag(tag) + seq![' '])
}

/// One fetched tag of the composition: a missing body is recorded as a
/// fetch failure; a body without an update block as a missing update;
/// else the rewritten command is kept and its options folded in.
pub open spec fn compose_step(st: ComposeState, tag: Seq<char>, body: Option<Seq<char>>)
    -> ComposeState {
    match body {
        None => ComposeState {
            options: st.options,
            cmds: st.cmds,
            cmd_tags: st.cmd_tags,
            no_update: st.no_update,
            fetch_failed: st.fetch_failed.push(tag),
        },
        Some(b) => match release_spec(b) {
            None => ComposeState {
                options: st.options,
                cmds: st.cmds,
                cmd_tags: st.cmd_tags,
                no_update: st.no_update.push(tag),
                fetch_failed: st.fetch_failed,
            },
            Some(upd) => {
                let cmd2 = rewrite_command(upd, tag);
                ComposeState {
                    options: merge_spec(st.options, extract_options_spec(cmd2)),
                    cmds: st.cmds.push(cmd2),
                    cmd_tags: st.cmd_tags.push(tag),
                    no_update: st.no_update,
                    fetch_failed: st.fetch_failed,
                }
            },
        },
    }
}

pub open spec fn compose_run(tags: Seq<Seq<char>>, bodies: Seq<Option<Seq<char>>>, j: int)
    -> ComposeState
    decreases j,
{
    if j <= 0 {
        init_compose()
    } else {
        compose_step(compose_run(tags, bodies, j - 1), tags[j - 1], bodies[j - 1])
    }
}

pub open spec fn compose_spec(tags: Seq<Seq<char>>, bodies: Seq<Option<Seq<char>>>)
    -> ComposeState {
    compose_run(tags, bodies, tags.len() as int)
}

pub open spec fn command_prefix() -> Seq<char> {
    "\\curl -sSL upgrade.fab.mn | bash -s -- -t "@
}

/// The final composed command: the fixed pipeline prefix, the target
/// version, and the space-joined merged options.
pub open spec fn final_command_spec(to: SemverView, opts: Seq<Seq<char>>) -> Seq<char> {
    command_prefix() + version_chars(to) + seq![' '] + join_with(opts, seq![' '])
}

/// The views of the elements of a sequence of optional bodies.
pub open spec fn deep_of_bodies(s: Seq<Option<String>>) -> Seq<Option<Seq<char>>> {
    Seq::new(s.len(), |i: int| s[i].deep_view())
}

pub proof fn lemma_bodies_deep_view_is(v: &Vec<Option<String>>)
    ensures
        v.deep_view() == deep_of_bodies(v@),
{
    assert forall|i: int| 0 <= i < v@.len() implies #[trigger] v.deep_view()[i] == deep_of_bodies(
        v@,
    )[i] by {}
    assert(v.deep_view() =~= deep_of_bodies(v@));
}

/// Convert the extracted option slices into owned strings.
fn own_options(v: &Vec<&str>) -> (r: Vec<String>)
    ensures
        r.deep_view() == v.deep_view(),
{
    let mut out: Vec<String> = Vec::new();
    let mut i: usize = 0;
    proof {
        lemma_strs_deep_view_is(&out);
        assert(out.deep_view() =~= v.deep_view().take(0));
    }
    while i < v.len()
        invariant
            i <= v@.len(),
            v.deep_view().len() == v@.len(),
            out.deep_view() == v.deep_view().take(i as int),
        decreases v@.len() - i,
    {
        proof {
            crate::options::lemma_slices_deep_view_is(v);
            assert(v.deep_view().take(i + 1).drop_last() =~= v.deep_view().take(i as int));
            assert(v.deep_view().take(i + 1).last() == v@[i as int]@);
        }
        push_string(&mut out, String::from_str(v[i]));
        i += 1;
    }
    proof {
        assert(v.deep_view().take(v@.len() as int) =~= v.deep_view());
    }
    out
}

/// Second phase: fold the fetched release bodies — one optional body per
/// fetch tag, in the same order — into the plan: per-release rewritten
/// commands, the merged option set, and the final composed command for
/// the target version `to`.
pub fn compose_plan(sel: UpgradeSelection, bodies: &Vec<Option<String>>, to: &Semver) -> (r:
    UpgradePlan)
    requires
        bodies@.len() == sel.fetch_tags@.len(),
    ensures
        r.matched_versions.deep_view() == sel.matched.deep_view(),
        r.todos.deep_view() == sel.todos.deep_view(),
        r.malformed.deep_view() == sel.malformed.deep_view(),
        r.merged_options.deep_view() == compose_spec(
            sel.fetch_tags.deep_view(),
            bodies.deep_view(),
        ).options,
        r.release_commands.deep_view() == compose_spec(
            sel.fetch_tags.deep_view(),
            bodies.deep_view(),
        ).cmds,
        r.release_tags.deep_view() == compose_spec(
            sel.fetch_tags.deep_view(),
            bodies.deep_view(),
        ).cmd_tags,
        r.no_update.deep_view() == compose_spec(
            sel.fetch_tags.deep_view(),
            bodies.deep_view(),
        ).no_update,
        r.fetch_failed.deep_view() == compose_spec(
            sel.fetch_tags.deep_view(),
            bodies.deep_view(),
        ).fetch_failed,
        r.final_command@ == final_command_spec(
            to@,
            compose_spec(sel.fetch_tags.deep_view(), bodies.deep_view()).options,
        ),
{
    let mut options: Vec<String> = Vec::new();
    let mut cmds: Vec<String> = Vec::new();
    let mut cmd_tags: Vec<String> = Vec::new();
    let mut no_update: Vec<String> = Vec::new();
    let mut fetch_failed: Vec<String> = Vec::new();
    let n = sel.fetch_tags.len();
    let mut j: usize = 0;
    proof {
        lemma_strs_deep_view_is(&options);
        assert(options.deep_view() =~= Seq::<Seq<char>>::empty());
        assert(cmds.deep_view() =~= Seq::<Seq<char>>::empty());
    }
    while j < n
        invariant
            j <= n,
            n == sel.fetch_tags@.len(),
            bodies@.len() == n,
            sel.fetch_tags.deep_view().len() == n,
            bodies.deep_view().len() == n,
            options.deep_view() == compose_run(
                sel.fetch_tags.deep_view(),
                bodies.deep_view(),
                j as int,
            ).options,
            cmds.deep_view() == compose_run(
                sel.fetch_tags.deep_view(),
                bodies.deep_view(),
                j as int,
            ).cmds,
            cmd_tags.deep_view() == compose_run(
                sel.fetch_tags.deep_view(),
                bodies.deep_view(),
                j as int,
            ).cmd_tags,
            no_update.deep_view() == compose_run(
                sel.fetch_tags.deep_view(),
                bodies.deep_view(),
                j as int,
            ).no_update,
            fetch_failed.deep_view() == compose_run(
                sel.fetch_tags.deep_view(),
                bodies.deep_view(),
                j as int,
            ).fetch_failed,
        decreases n - j,
    {
        proof {
            lemma_strs_deep_view_is(&sel.fetch_tags);
            lemma_bodies_deep_view_is(bodies);
            assert(sel.fetch_tags.deep_view()[j as int] == sel.fetch_tags@[j as int]@);
            assert(bodies.deep_view()[j as int] == bodies@[j as int].deep_view());
        }
        match &bodies[j] {
            None => {
                push_string(&mut fetch_failed, sel.fetch_tags[j].clone());
            },
            Some(b) => {
                match parse_release(b.as_str()) {
                    None => {
                        push_string(&mut no_update, sel.fetch_tags[j].clone());
                    },
                    Some(rel) => {
                        let tag_str = sel.fetch_tags[j].as_str();
                        let tl = tag_str.unicode_len();
                        let raw: &str = if tl >= 1 && tag_str.get_char(0) == 'v' {
                            let stripped = tag_str.substring_char(1, tl);
                            stripped
                        } else {
                            tag_str
                        };
                        proof {
                            assert(raw@ =~= raw_of_tag(sel.fetch_tags@[j as int]@));
                        }
                        let mut rep = chars_of(" -- -t ");
                        let rawv = chars_of(raw);
                        push_all(&mut rep, &rawv);
                        rep.push(' ');
                        let updv = chars_of(rel.update.as_str());
                        let sepv = chars_of(" -- ");
                        proof {
                            reveal_strlit(" -- -t ");
                            reveal_strlit(" -- ");
                            assert(rep@ =~= target_flag_prefix() + raw_of_tag(
                                sel.fetch_tags@[j as int]@,
                            ) + seq![' ']);
                        }
                        let cmd2v = replace_all(&updv, &sepv, &rep);
                        let cmd2 = string_from_chars(&cmd2v);
                        proof {
                            assert(cmd2@ == rewrite_command(
                                rel.update@,
                                sel.fetch_tags@[j as int]@,
                            ));
                        }
                        let opt_slices = extract_options(cmd2.as_str());
                        let owned = own_options(&opt_slices);
                        merge_options(&mut options, &owned);
                        push_string(&mut cmds, cmd2);
                        push_string(&mut cmd_tags, sel.fetch_tags[j].clone());
                    },
                }
            },
        }
        j += 1;
    }
    let mut fc = chars_of("\\curl -sSL upgrade.fab.mn | bash -s -- -t ");
    let vstr = format_semver(to);
    let vchars = chars_of(vstr.as_str());
    push_all(&mut fc, &vchars);
    fc.push(' ');
    let mut space: Vec<char> = Vec::new();
    space.push(' ');
    let joined = join_strs(&options, &space);
    push_all(&mut fc, &joined);
    let final_command = string_from_chars(&fc);
    proof {
        lemma_strs_deep_view_is(&options);
        assert(space@ =~= seq![' ']);
        assert(fc@ =~= final_command_spec(
            to@,
            compose_spec(sel.fetch_tags.deep_view(), bodies.deep_view()).options,
        ));
    }
    UpgradePlan {
        matched_versions: sel.matched,
        todos: sel.todos,
        merged_options: options,
        release_commands: cmds,
        release_tags: cmd_tags,
        no_update,
        fetch_failed,
        malformed: sel.malformed,
        final_command,
    }
}

proof fn lemma_sel_run_todos_no_dups(st: SelState, m: MatcherView, rs: Seq<EntryView>)
    requires
        no_dups(st.todos),
    ensures
        no_dups(sel_run(st, m, rs).todos),
    decreases rs.len(),
{
    if rs.len() > 0 {
        lemma_sel_run_todos_no_dups(st, m, rs.drop_last());
        let st1 = sel_run(st, m, rs.drop_last());
        let e = rs.last();
        match version_of_token(e.version) {
            None => {},
            Some(v) => {
                if matcher_matches(m, v) {
                    lemma_merge_no_dups(st1.todos, todos_of(e.changes));
                }
            },
        }
    }
}

/// The selection's accumulated deployment actions hold no duplicate
/// entries under string equality.
pub proof fn lemma_select_todos_no_dups(entries: Seq<EntryView>, m: MatcherView)
    ensures
        no_dups(select_spec(entries, m).todos),
{
    lemma_sel_run_todos_no_dups(init_sel(), m, rev_entries(entries));
}

proof fn lemma_compose_run_options_no_dups(
    tags: Seq<Seq<char>>,
    bodies: Seq<Option<Seq<char>>>,
    j: int,
)
    ensures
        no_dups(compose_run(tags, bodies, j).options),
    decreases j,
{
    if j > 0 {
        lemma_compose_run_options_no_dups(tags, bodies, j - 1);
        let st = compose_run(tags, bodies, j - 1);
        match bodies[j - 1] {
            None => {},
            Some(b) => match release_spec(b) {
                None => {},
                Some(upd) => {
                    let cmd2 = rewrite_command(upd, tags[j - 1]);
                    lemma_merge_no_dups(st.options, extract_options_spec(cmd2));
                },
            },
        }
    }
}

/// The plan's merged option set holds no duplicate entries under string
/// equality.
pub proof fn lemma_compose_options_no_dups(tags: Seq<Seq<char>>, bodies: Seq<Option<Seq<char>>>)
    ensures
        no_dups(compose_spec(tags, bodies).options),
{
    lemma_compose_run_options_no_dups(tags, bodies, tags.len() as int);
}

/// An entry the matcher accepts: its version token parses and falls in
/// the window.
pub open spec fn entry_matches(m: MatcherView, e: EntryView) -> bool {
    match version_of_token(e.version) {
        Some(v) => matcher_matches(m, v),
        None => false,
    }
}

/// The accepted entries of `rs`, in order.
pub open spec fn matched_of(m: MatcherView, rs: Seq<EntryView>) -> Seq<EntryView>
    decreases rs.len(),
{
    if rs.len() == 0 {
        Seq::empty()
    } else {
        let pre = matched_of(m, rs.drop_last());
        if entry_matches(m, rs.last()) {
            pre.push(rs.last())
        } else {
            pre
        }
    }
}

proof fn lemma_sel_run_matched(st: SelState, m: MatcherView, rs: Seq<EntryView>)
    ensures
        sel_run(st, m, rs).matched == st.matched + matched_of(m, rs),
    decreases rs.len(),
{
    if rs.len() == 0 {
        assert(st.matched + matched_of(m, rs) =~= st.matched);
    } else {
        lemma_sel_run_matched(st, m, rs.drop_last());
        if entry_matches(m, rs.last()) {
            assert(st.matched + matched_of(m, rs) =~= (st.matched + matched_of(
                m,
                rs.drop_last(),
            )).push(rs.last()));
        }
    }
}

/// The selection keeps exactly the accepted entries, in chronological
/// (oldest-first) order: the reversed document order, filtered by the
/// matcher.
pub proof fn lemma_select_matched_exact(entries: Seq<EntryView>, m: MatcherView)
    ensures
        select_spec(entries, m).matched == matched_of(m, rev_entries(entries)),
{
    lemma_sel_run_matched(init_sel(), m, rev_entries(entries));
    assert(Seq::<EntryView>::empty() + matched_of(m, rev_entries(entries)) =~= matched_of(
        m,
        rev_entries(entries),
    ));
}

} // verus!
