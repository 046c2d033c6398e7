//! ReleaseNoteExtractor: finds the embedded upgrade shell command in a
//! release body. The body must hold a heading containing `## [UPDATE]`,
//! followed — on the same line, or after nothing but whitespace — by a
//! fenced code block opened with a bash-tagged fence; the command is the
//! trimmed single-line content of that block. A marker without a
//! conforming fence is passed over, and the search goes on with the next
//! marker: the first matching marker/fence pair in the document wins.

use crate::text::{
    chars_of, find_from, find_in, is_space_char, lemma_find_from_some, lemma_skip_ws_bounds,
    line_end, line_end_from, skip_ws, skip_ws_from, string_from_chars, subvec, trim_back,
    trim_back_from,
};
use vstd::prelude::*;
use vstd::string::*;

verus! {

/// A release's embedded upgrade command.
#[derive(Debug)]
pub struct Release {
    pub update: String,
}

/// The release lookup answer: the release's body document.
#[derive(Debug)]
pub struct ReleaseResponse {
    pub body: String,
}

pub open spec fn update_marker() -> Seq<char> {
    "## [UPDATE]"@
}

pub open spec fn bash_fence() -> Seq<char> {
    "```bash"@
}

pub open spec fn fence_close() -> Seq<char> {
    "```"@
}

pub open spec fn all_ws(s: Seq<char>, a: int, b: int) -> bool {
    forall|j: int| a <= j < b ==> is_space_char(#[trigger] s[j])
}

/// The fenced command following the marker occurrence at `m`, if it
/// conforms: the first bash fence after the marker — on the marker's line,
/// or separated from its end by nothing but whitespace — opens the block;
/// the command is the following single line, surrounding whitespace
/// dropped, closed by a fence.
pub open spec fn marker_command(s: Seq<char>, m: int) -> Option<Seq<char>> {
    let q = m + update_marker().len();
    let e = line_end_from(s, q);
    match find_from(s, bash_fence(), q) {
        None => None,
        Some(f) => if f <= e || all_ws(s, e, f) {
            let c = skip_ws_from(s, f + bash_fence().len());
            let e2 = line_end_from(s, c);
            match find_from(s, fence_close(), c) {
                None => None,
                Some(k) => {
                    let t = trim_back_from(s, c, k);
                    if t <= e2 {
                        Some(s.subrange(c, t))
                    } else {
                        None
                    }
                },
            }
        } else {
            None
        },
    }
}

/// The upgrade command found by scanning markers from position `from` on:
/// the first `## [UPDATE]` occurrence with a conforming fence wins; one
/// without is passed over and the search resumes after it.
pub open spec fn release_from(s: Seq<char>, from: int) -> Option<Seq<char>>
    decreases s.len() + 1 - from,
    via release_from_dec
{
    if from < 0 {
        None
    } else {
        match find_from(s, update_marker(), from) {
            None => None,
            Some(m) => match marker_command(s, m) {
                Some(cmd) => Some(cmd),
                None => release_from(s, m + 1),
            },
        }
    }
}

#[via_fn]
proof fn release_from_dec(s: Seq<char>, from: int) {
    if from >= 0 {
        match find_from(s, update_marker(), from) {
            Some(m) => {
                lemma_find_from_some(s, update_marker(), from, m);
            },
            None => {},
        }
    }
}

/// The upgrade command of a release body: the first matching marker/fence
/// pair in the document, `None` when no such pair exists.
pub open spec fn release_spec(s: Seq<char>) -> Option<Seq<char>> {
    release_from(s, 0)
}

/// One marker attempt: the conforming fenced command after the marker at
/// `m`, as characters.
fn marker_command_exec(cv: &Vec<char>, fence: &Vec<char>, close: &Vec<char>, m: usize, q: usize)
    -> (r: Option<Vec<char>>)
    requires
        fence@ == bash_fence(),
        close@ == fence_close(),
        fence@.len() >= 1,
        close@.len() >= 1,
        q == m + update_marker().len(),
        q <= cv@.len(),
    ensures
        match r {
            Some(cmd) => marker_command(cv@, m as int) == Some(cmd@),
            None => marker_command(cv@, m as int) is None,
        },
{
    let n = cv.len();
    proof {
        assert(n == cv@.len());
    }
    let e = line_end(cv, q);
    let f = match find_in(cv, fence, q) {
        Some(f) => f,
        None => {
            return None;
        },
    };
    proof {
        lemma_find_from_some(cv@, fence@, q as int, f as int);
    }
    if f > e {
        let w = skip_ws(cv, e);
        if w < f {
            proof {
                lemma_skip_ws_bounds(cv@, e as int);
                assert(!is_space_char(cv@[w as int]));
                assert(!all_ws(cv@, e as int, f as int));
            }
            return None;
        }
        proof {
            lemma_skip_ws_bounds(cv@, e as int);
        }
    }
    let c = skip_ws(cv, f + fence.len());
    let e2 = line_end(cv, c);
    let k = match find_in(cv, close, c) {
        Some(k) => k,
        None => {
            return None;
        },
    };
    proof {
        lemma_find_from_some(cv@, close@, c as int, k as int);
    }
    let t = trim_back(cv, c, k);
    if t <= e2 {
        Some(subvec(cv, c, t))
    } else {
        None
    }
}

fn release_from_exec(cv: &Vec<char>, marker: &Vec<char>, fence: &Vec<char>, close: &Vec<char>,
    from: usize) -> (r: Option<Vec<char>>)
    requires
        marker@ == update_marker(),
        fence@ == bash_fence(),
        close@ == fence_close(),
        marker@.len() >= 1,
        fence@.len() >= 1,
        close@.len() >= 1,
    ensures
        match r {
            Some(cmd) => release_from(cv@, from as int) == Some(cmd@),
            None => release_from(cv@, from as int) is None,
        },
    decreases cv@.len() + 1 - from,
{
    let n = cv.len();
    proof {
        assert(n == cv@.len());
    }
    let m = match find_in(cv, marker, from) {
        Some(m) => m,
        None => {
            return None;
        },
    };
    proof {
        lemma_find_from_some(cv@, marker@, from as int, m as int);
    }
    let q = m + marker.len();
    match marker_command_exec(cv, fence, close, m, q) {
        Some(cmd) => Some(cmd),
        None => release_from_exec(cv, marker, fence, close, m + 1),
    }
}

/// Extract the upgrade command from a release body, if present.
pub fn parse_release(content: &str) -> (r: Option<Release>)
    ensures
        match r {
            Some(rel) => release_spec(content@) == Some(rel.update@),
            None => release_spec(content@) is None,
        },
{
    let cv = chars_of(content);
    let marker = chars_of("## [UPDATE]");
    let fence = chars_of("```bash");
    let close = chars_of("```");
    proof {
        reveal_strlit("## [UPDATE]");
        reveal_strlit("```bash");
        reveal_strlit("```");
    }
    match release_from_exec(&cv, &marker, &fence, &close, 0) {
        Some(cmd) => Some(Release { update: string_from_chars(&cmd) }),
        None => None,
    }
}

} // verus!
