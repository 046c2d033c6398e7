//! VersionMatcher: decides whether a candidate version falls in the
//! selected upgrade window. Two configurations: a bounded window
//! (`from < v <= to`) or a comma-separated range expression of comparators
//! such as `>=2.0.0, <3.0.0`.

use crate::text::{
    chars_of, skip_ws, skip_ws_from, split_char, split_char_exec, string_from_chars, subvec,
    trim_back, trim_back_from,
};
use crate::version::{
    cmp_version, parse_semver, semver_parts, version_le, version_lt, view_of_parts,
    lemma_cmp_version_antisym, lemma_cmp_version_refl, Semver, SemverView,
};
use vstd::prelude::*;

verus! {

/// A comparison operator of a range expression.
#[derive(Clone, Copy, Debug)]
pub enum CompOp {
    Exact,
    Greater,
    GreaterEq,
    Less,
    LessEq,
}

/// One comparator of a range expression: an operator and a version.
pub struct Comparator {
    pub op: CompOp,
    pub version: Semver,
}

pub struct CompView {
    pub op: CompOp,
    pub version: SemverView,
}

impl View for Comparator {
    type V = CompView;

    open spec fn view(&self) -> CompView {
        CompView { op: self.op, version: self.version@ }
    }
}

impl DeepView for Comparator {
    type V = CompView;

    open spec fn deep_view(&self) -> CompView {
        self.view()
    }
}

/// The views of the elements of a sequence of comparators.
pub open spec fn deep_of_comps(s: Seq<Comparator>) -> Seq<CompView> {
    Seq::new(s.len(), |i: int| s[i]@)
}

pub proof fn lemma_comps_deep_view_is(v: &Vec<Comparator>)
    ensures
        v.deep_view() == deep_of_comps(v@),
{
    assert forall|i: int| 0 <= i < v@.len() implies #[trigger] v.deep_view()[i] == deep_of_comps(
        v@,
    )[i] by {}
    assert(v.deep_view() =~= deep_of_comps(v@));
}

/// Errors of matcher construction.
#[derive(Debug, PartialEq, Eq, Structural, Clone, Copy)]
pub enum MatchError {
    /// A supplied version string is not a valid semantic version.
    InvalidVersion,
    /// A range expression cannot be parsed.
    InvalidRange,
}

enum MatcherKind {
    Bounded { from: Semver, to: Semver },
    Range { comps: Vec<Comparator> },
}

pub enum MatcherView {
    Bounded { from: SemverView, to: SemverView },
    Range { comps: Seq<CompView> },
}

/// Decides whether a candidate version falls in the selected window.
pub struct VersionMatcher {
    kind: MatcherKind,
}

impl View for VersionMatcher {
    type V = MatcherView;

    closed spec fn view(&self) -> MatcherView {
        match self.kind {
            MatcherKind::Bounded { from, to } => MatcherView::Bounded { from: from@, to: to@ },
            MatcherKind::Range { comps } => MatcherView::Range { comps: comps.deep_view() },
        }
    }
}

pub open spec fn comp_holds(c: CompView, v: SemverView) -> bool {
    match c.op {
        CompOp::Exact => cmp_version(v, c.version) == 0,
        CompOp::Greater => cmp_version(v, c.version) > 0,
        CompOp::GreaterEq => cmp_version(v, c.version) >= 0,
        CompOp::Less => cmp_version(v, c.version) < 0,
        CompOp::LessEq => cmp_version(v, c.version) <= 0,
    }
}

/// The bounded window: the lower bound excluded, the upper included.
pub open spec fn bounded_matches(from: SemverView, to: SemverView, v: SemverView) -> bool {
    version_lt(from, v) && version_le(v, to)
}

/// All comparators of a range hold of `v`.
pub open spec fn all_comps_hold(cs: Seq<CompView>, v: SemverView) -> bool {
    forall|i: int| 0 <= i < cs.len() ==> comp_holds(#[trigger] cs[i], v)
}

pub open spec fn matcher_matches(m: MatcherView, v: SemverView) -> bool {
    match m {
        MatcherView::Bounded { from, to } => bounded_matches(from, to, v),
        MatcherView::Range { comps } => all_comps_hold(comps, v),
    }
}

/// `s` with leading and trailing whitespace dropped.
pub open spec fn trim_spec(s: Seq<char>) -> Seq<char> {
    let a = skip_ws_from(s, 0);
    let b = trim_back_from(s, a, s.len() as int);
    s.subrange(a, b)
}

/// The comparison operator starting a comparator, and the rest.
pub open spec fn op_split(t: Seq<char>) -> (CompOp, Seq<char>) {
    if t.len() >= 2 && t[0] == '>' && t[1] == '=' {
        (CompOp::GreaterEq, t.skip(2))
    } else if t.len() >= 2 && t[0] == '<' && t[1] == '=' {
        (CompOp::LessEq, t.skip(2))
    } else if t.len() >= 1 && t[0] == '>' {
        (CompOp::Greater, t.skip(1))
    } else if t.len() >= 1 && t[0] == '<' {
        (CompOp::Less, t.skip(1))
    } else if t.len() >= 1 && t[0] == '=' {
        (CompOp::Exact, t.skip(1))
    } else {
        (CompOp::Exact, t)
    }
}

/// One comparator, parsed from one comma-separated piece: optional
/// operator (equality when absent), then a version.
pub open spec fn parse_comp(piece: Seq<char>) -> Option<CompView> {
    let t = trim_spec(piece);
    if t.len() == 0 {
        None
    } else {
        let p = op_split(t);
        let vs = trim_spec(p.1);
        match semver_parts(vs) {
            Some(parts) => Some(CompView { op: p.0, version: view_of_parts(parts) }),
            None => None,
        }
    }
}

pub open spec fn parse_comps(pieces: Seq<Seq<char>>) -> Option<Seq<CompView>>
    decreases pieces.len(),
{
    if pieces.len() == 0 {
        Some(Seq::empty())
    } else {
        match (parse_comps(pieces.drop_last()), parse_comp(pieces.last())) {
            (Some(cs), Some(c)) => Some(cs.push(c)),
            _ => None,
        }
    }
}

/// A whole range expression: comma-separated comparators, all of which
/// must parse; an expression with no comparator is invalid.
pub open spec fn parse_range(expr: Seq<char>) -> Option<Seq<CompView>> {
    parse_comps(split_char(expr, ','))
}

proof fn lemma_parse_comps_prefix_none(ps: Seq<Seq<char>>, k: int)
    requires
        0 <= k <= ps.len(),
        parse_comps(ps.take(k)) is None,
    ensures
        parse_comps(ps) is None,
    decreases ps.len() - k,
{
    if k == ps.len() {
        assert(ps.take(k) =~= ps);
    } else {
        assert(ps.take(k + 1).drop_last() =~= ps.take(k));
        lemma_parse_comps_prefix_none(ps, k + 1);
    }
}

fn parse_comp_exec(piece: &Vec<char>) -> (r: Option<Comparator>)
    ensures
        match r {
            Some(c) => parse_comp(piece@) == Some(c@),
            None => parse_comp(piece@) is None,
        },
{
    let a = skip_ws(piece, 0);
    let b = trim_back(piece, a, piece.len());
    let t = subvec(piece, a, b);
    proof {
        assert(t@ == trim_spec(piece@));
    }
    if t.len() == 0 {
        return None;
    }
    let (op, rest_start): (CompOp, usize) = if t.len() >= 2 && t[0] == '>' && t[1] == '=' {
        (CompOp::GreaterEq, 2)
    } else if t.len() >= 2 && t[0] == '<' && t[1] == '=' {
        (CompOp::LessEq, 2)
    } else if t[0] == '>' {
        (CompOp::Greater, 1)
    } else if t[0] == '<' {
        (CompOp::Less, 1)
    } else if t[0] == '=' {
        (CompOp::Exact, 1)
    } else {
        (CompOp::Exact, 0)
    };
    let rest = subvec(&t, rest_start, t.len());
    proof {
        assert(rest@ =~= op_split(t@).1);
        assert(op == op_split(t@).0);
    }
    let c = skip_ws(&rest, 0);
    let d = trim_back(&rest, c, rest.len());
    let vs = subvec(&rest, c, d);
    proof {
        assert(vs@ == trim_spec(rest@));
    }
    let vstr = string_from_chars(&vs);
    match parse_semver(vstr.as_str()) {
        Some(v) => Some(Comparator { op, version: v }),
        None => None,
    }
}

fn range_matches(comps: &Vec<Comparator>, v: &Semver) -> (r: bool)
    ensures
        r == all_comps_hold(comps.deep_view(), v@),
{
    let mut i: usize = 0;
    while i < comps.len()
        invariant
            i <= comps@.len(),
            comps.deep_view().len() == comps@.len(),
            forall|j: int| 0 <= j < i ==> comp_holds(#[trigger] comps.deep_view()[j], v@),
        decreases comps@.len() - i,
    {
        proof {
            lemma_comps_deep_view_is(comps);
        }
        let c = v.cmp_precedence(&comps[i].version);
        let ok = match comps[i].op {
            CompOp::Exact => c == 0,
            CompOp::Greater => c > 0,
            CompOp::GreaterEq => c >= 0,
            CompOp::Less => c < 0,
            CompOp::LessEq => c <= 0,
        };
        if !ok {
            proof {
                let cv = comps.deep_view()[i as int];
                assert(cv == comps@[i as int]@);
                assert(c as int == cmp_version(v@, cv.version));
                assert(!comp_holds(cv, v@));
            }
            return false;
        }
        i += 1;
    }
    true
}

impl VersionMatcher {
    /// Bounded-window mode: `from` is the exclusive lower bound, `to` the
    /// inclusive upper bound. Fails when either string is not a valid
    /// semantic version.
    pub fn bounded(from: &str, to: &str) -> (r: Result<VersionMatcher, MatchError>)
        ensures
            match r {
                Ok(m) => semver_parts(from@) matches Some(f) && semver_parts(to@) matches Some(t)
                    && m@ == (MatcherView::Bounded {
                    from: view_of_parts(f),
                    to: view_of_parts(t),
                }),
                Err(e) => e == MatchError::InvalidVersion && (semver_parts(from@) is None
                    || semver_parts(to@) is None),
            },
    {
        let fv = match parse_semver(from) {
            Some(v) => v,
            None => {
                return Err(MatchError::InvalidVersion);
            },
        };
        let tv = match parse_semver(to) {
            Some(v) => v,
            None => {
                return Err(MatchError::InvalidVersion);
            },
        };
        Ok(VersionMatcher { kind: MatcherKind::Bounded { from: fv, to: tv } })
    }

    /// Range-predicate mode: a comma-separated list of comparators, all of
    /// which must hold of a matching version. Fails when the expression
    /// cannot be parsed.
    pub fn range(expr: &str) -> (r: Result<VersionMatcher, MatchError>)
        ensures
            match r {
                Ok(m) => parse_range(expr@) matches Some(cs) && m@ == (MatcherView::Range {
                    comps: cs,
                }),
                Err(e) => e == MatchError::InvalidRange && parse_range(expr@) is None,
            },
    {
        let ev = chars_of(expr);
        let pieces = split_char_exec(&ev, ',');
        let mut comps: Vec<Comparator> = Vec::new();
        let mut i: usize = 0;
        proof {
            lemma_comps_deep_view_is(&comps);
            assert(comps.deep_view() =~= Seq::<CompView>::empty());
            assert(pieces.deep_view().take(0) =~= Seq::<Seq<char>>::empty());
        }
        while i < pieces.len()
            invariant
                i <= pieces@.len(),
                ev@ == expr@,
                pieces.deep_view() == split_char(ev@, ','),
                pieces.deep_view().len() == pieces@.len(),
                parse_comps(pieces.deep_view().take(i as int)) == Some(comps.deep_view()),
                comps@.len() == i,
            decreases pieces@.len() - i,
        {
            proof {
                lemma_comps_deep_view_is(&comps);
                crate::text::lemma_deep_view_is(&pieces);
                assert(pieces.deep_view().take(i + 1).drop_last() =~= pieces.deep_view().take(
                    i as int,
                ));
                assert(pieces.deep_view().take(i + 1).last() == pieces@[i as int]@);
            }
            let ghost prev = comps@;
            match parse_comp_exec(&pieces[i]) {
                Some(c) => {
                    let ghost cv = c@;
                    comps.push(c);
                    proof {
                        lemma_comps_deep_view_is(&comps);
                        assert(deep_of_comps(comps@) =~= deep_of_comps(prev).push(cv));
                        assert(deep_of_comps(prev) =~= Seq::new(prev.len(), |k: int| prev[k]@));
                    }
                },
                None => {
                    proof {
                        assert(parse_comps(pieces.deep_view().take(i + 1)) is None);
                        lemma_parse_comps_prefix_none(pieces.deep_view(), i + 1);
                    }
                    return Err(MatchError::InvalidRange);
                },
            }
            i += 1;
        }
        proof {
            assert(pieces.deep_view().take(pieces@.len() as int) =~= pieces.deep_view());
        }
        Ok(VersionMatcher { kind: MatcherKind::Range { comps } })
    }

    /// Whether the candidate version falls in the window.
    pub fn matches(&self, v: &Semver) -> (r: bool)
        ensures
            r == matcher_matches(self@, v@),
    {
        match &self.kind {
            MatcherKind::Bounded { from, to } => {
                let c1 = from.cmp_precedence(v);
                let c2 = v.cmp_precedence(to);
                c1 < 0 && c2 <= 0
            },
            MatcherKind::Range { comps } => range_matches(comps, v),
        }
    }
}

/// Bounded-window law: the lower bound itself is never matched; the upper
/// bound is matched whenever the window is non-empty; nothing above the
/// upper bound is matched; and everything strictly above the lower bound
/// and at most the upper bound is matched.
pub proof fn lemma_bounded_window(from: SemverView, to: SemverView, v: SemverView)
    ensures
        !bounded_matches(from, to, from),
        version_lt(from, to) ==> bounded_matches(from, to, to),
        version_lt(to, v) ==> !bounded_matches(from, to, v),
        version_lt(from, v) && version_le(v, to) ==> bounded_matches(from, to, v),
{
    lemma_cmp_version_refl(from);
    lemma_cmp_version_refl(to);
    lemma_cmp_version_antisym(v, to);
}

} // verus!
