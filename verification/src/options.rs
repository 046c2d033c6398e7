//! OptionAggregator: splits an upgrade command's argument tail into its
//! recognized `-<flag> "<value>"` option tokens, and folds successive
//! commands' tokens into one deduplicated, insertion-ordered set.

use crate::text::{
    chars_of, find_from, find_in, lemma_find_from_some, lemma_skip_ws_bounds, push_string,
    skip_ws, skip_ws_from, string_from_chars,
};
use vstd::prelude::*;
use vstd::string::*;

verus! {

/// The recognized single-letter option flags: a closed set.
pub open spec fn is_flag_letter(c: char) -> bool {
    c == 's' || c == 'e' || c == 'c' || c == 'p'
}

pub open spec fn is_flag_at(s: Seq<char>, i: int) -> bool {
    &&& 0 <= i
    &&& i + 2 <= s.len()
    &&& s[i] == '-'
    &&& is_flag_letter(s[i + 1])
}

/// Where the `-<flag> "<value>"` token whose flag starts at `i` ends (one
/// past the closing quote), if one starts there: the flag, optional
/// whitespace, then a double-quoted value without inner quotes.
pub open spec fn token_end_at(s: Seq<char>, i: int) -> Option<int> {
    if is_flag_at(s, i) {
        let w = skip_ws_from(s, i + 2);
        if w < s.len() && s[w] == '"' {
            match find_from(s, seq!['"'], w + 1) {
                Some(k) => Some(k + 1),
                None => None,
            }
        } else {
            None
        }
    } else {
        None
    }
}

pub proof fn lemma_token_end_bounds(s: Seq<char>, i: int)
    ensures
        match token_end_at(s, i) {
            Some(e) => i < e <= s.len(),
            None => true,
        },
{
    if is_flag_at(s, i) {
        lemma_skip_ws_bounds(s, i + 2);
        let w = skip_ws_from(s, i + 2);
        if w < s.len() && s[w] == '"' {
            match find_from(s, seq!['"'], w + 1) {
                Some(k) => {
                    lemma_find_from_some(s, seq!['"'], w + 1, k);
                },
                None => {},
            }
        }
    }
}

/// The option tokens found from position `i` on, left to right and
/// non-overlapping: where a token starts, the token (flag through closing
/// quote) is taken and the scan continues past it.
pub open spec fn options_from(s: Seq<char>, i: int) -> Seq<Seq<char>>
    decreases s.len() - i,
    via options_from_dec
{
    if i < 0 || i >= s.len() {
        Seq::empty()
    } else {
        match token_end_at(s, i) {
            Some(e) => seq![s.subrange(i, e)] + options_from(s, e),
            None => options_from(s, i + 1),
        }
    }
}

#[via_fn]
proof fn options_from_dec(s: Seq<char>, i: int) {
    lemma_token_end_bounds(s, i);
}

/// The literal separator before a command's argument tail.
pub open spec fn separator() -> Seq<char> {
    " -- "@
}

/// The option tokens of an upgrade command: the command is split at the
/// first ` -- ` separator and the tail scanned for recognized tokens; a
/// command with no separator has no arguments, and the sequence is empty.
pub open spec fn extract_options_spec(cmd: Seq<char>) -> Seq<Seq<char>> {
    match find_from(cmd, separator(), 0) {
        Some(i) => options_from(cmd, i + separator().len()),
        None => Seq::empty(),
    }
}

/// The views of the elements of a sequence of string slices.
pub open spec fn deep_of_slices(s: Seq<&str>) -> Seq<Seq<char>> {
    Seq::new(s.len(), |i: int| s[i]@)
}

pub proof fn lemma_slices_deep_view_is(v: &Vec<&str>)
    ensures
        v.deep_view() == deep_of_slices(v@),
{
    assert forall|i: int| 0 <= i < v@.len() implies #[trigger] v.deep_view()[i] == deep_of_slices(
        v@,
    )[i] by {}
    assert(v.deep_view() =~= deep_of_slices(v@));
}

fn token_end_exec(s: &Vec<char>, i: usize) -> (r: Option<usize>)
    requires
        i < s@.len(),
    ensures
        match r {
            Some(e) => token_end_at(s@, i as int) == Some(e as int) && i < e <= s@.len(),
            None => token_end_at(s@, i as int) is None,
        },
{
    proof {
        lemma_token_end_bounds(s@, i as int);
    }
    if s.len() - i >= 2 && s[i] == '-' && (s[i + 1] == 's' || s[i + 1] == 'e' || s[i + 1] == 'c'
        || s[i + 1] == 'p') {
        let w = skip_ws(s, i + 2);
        if w < s.len() && s[w] == '"' {
            let mut quote: Vec<char> = Vec::new();
            quote.push('"');
            proof {
                assert(quote@ =~= seq!['"']);
            }
            match find_in(s, &quote, w + 1) {
                Some(k) => {
                    proof {
                        lemma_find_from_some(s@, quote@, w + 1, k as int);
                    }
                    Some(k + 1)
                },
                None => None,
            }
        } else {
            None
        }
    } else {
        None
    }
}

/// The recognized option tokens of an upgrade command's argument tail, as
/// slices of the command, in left-to-right order.
pub fn extract_options(cmd: &str) -> (r: Vec<&str>)
    ensures
        r.deep_view() == extract_options_spec(cmd@),
{
    let cv = chars_of(cmd);
    let sep = chars_of(" -- ");
    let n = cv.len();
    proof {
        reveal_strlit(" -- ");
        assert(n == cv@.len());
    }
    let mut out: Vec<&str> = Vec::new();
    proof {
        lemma_slices_deep_view_is(&out);
        assert(out.deep_view() =~= Seq::<Seq<char>>::empty());
    }
    let start = match find_in(&cv, &sep, 0) {
        Some(i) => {
            proof {
                lemma_find_from_some(cv@, sep@, 0, i as int);
            }
            i + sep.len()
        },
        None => {
            proof {
                assert(out.deep_view() =~= extract_options_spec(cmd@));
            }
            return out;
        },
    };
    let mut i = start;
    proof {
        assert(out.deep_view() + options_from(cv@, i as int) =~= options_from(cv@, start as int));
    }
    while i < cv.len()
        invariant
            start <= i,
            cv@ == cmd@,
            cv@.len() <= usize::MAX,
            out.deep_view() + options_from(cv@, i as int) == options_from(cv@, start as int),
            extract_options_spec(cmd@) == options_from(cv@, start as int),
        decreases cv@.len() - i,
    {
        let ghost pre = out.deep_view();
        match token_end_exec(&cv, i) {
            Some(e) => {
                let tok = cmd.substring_char(i, e);
                proof {
                    lemma_slices_deep_view_is(&out);
                }
                out.push(tok);
                proof {
                    lemma_slices_deep_view_is(&out);
                    assert(deep_of_slices(out@) =~= pre.push(tok@));
                    assert(pre.push(tok@) + options_from(cv@, e as int) =~= pre + (seq![
                        cv@.subrange(i as int, e as int),
                    ] + options_from(cv@, e as int)));
                }
                i = e;
            },
            None => {
                i += 1;
            },
        }
    }
    proof {
        assert(options_from(cv@, i as int) =~= Seq::<Seq<char>>::empty());
        assert(out.deep_view() + Seq::<Seq<char>>::empty() =~= out.deep_view());
    }
    out
}

/// Append-only deduplicating fold: each new token is appended only when no
/// equal token is already present; first-seen order is preserved.
pub open spec fn merge_spec(acc: Seq<Seq<char>>, new: Seq<Seq<char>>) -> Seq<Seq<char>>
    decreases new.len(),
{
    if new.len() == 0 {
        acc
    } else {
        let acc2 = if acc.contains(new[0]) {
            acc
        } else {
            acc.push(new[0])
        };
        merge_spec(acc2, new.skip(1))
    }
}

fn contains_string(v: &Vec<String>, x: &String) -> (r: bool)
    ensures
        r == v.deep_view().contains(x@),
{
    proof {
        crate::text::lemma_strs_deep_view_is(v);
    }
    let mut i: usize = 0;
    while i < v.len()
        invariant
            i <= v@.len(),
            v.deep_view() == crate::text::deep_of_strs(v@),
            forall|j: int| 0 <= j < i ==> v.deep_view()[j] != x@,
        decreases v@.len() - i,
    {
        if v[i].eq(x) {
            proof {
                assert(v.deep_view()[i as int] == x@);
            }
            return true;
        }
        i += 1;
    }
    proof {
        assert(!v.deep_view().contains(x@)) by {
            if v.deep_view().contains(x@) {
                let j = choose|j: int| 0 <= j < v.deep_view().len() && v.deep_view()[j] == x@;
                assert(v.deep_view()[j] != x@);
            }
        }
    }
    false
}

/// Fold `new` into `acc`: append each token not already present, keeping
/// first-seen order.
pub fn merge_options(acc: &mut Vec<String>, new: &Vec<String>)
    ensures
        final(acc).deep_view() == merge_spec(old(acc).deep_view(), new.deep_view()),
{
    let mut j: usize = 0;
    proof {
        assert(new.deep_view().skip(0) =~= new.deep_view());
    }
    while j < new.len()
        invariant
            j <= new@.len(),
            new.deep_view().len() == new@.len(),
            merge_spec(old(acc).deep_view(), new.deep_view()) == merge_spec(
                acc.deep_view(),
                new.deep_view().skip(j as int),
            ),
        decreases new@.len() - j,
    {
        proof {
            crate::text::lemma_strs_deep_view_is(new);
            assert(new.deep_view().skip(j as int)[0] == new@[j as int]@);
            assert(new.deep_view().skip(j as int).skip(1) =~= new.deep_view().skip(j + 1));
        }
        let present = contains_string(acc, &new[j]);
        if !present {
            let s = new[j].clone();
            push_string(acc, s);
        }
        j += 1;
    }
    proof {
        assert(new.deep_view().skip(new@.len() as int) =~= Seq::<Seq<char>>::empty());
    }
}

/// Merging adds nothing below the accumulator: the accumulator is a prefix
/// of the merged sequence, so first-seen order is preserved across
/// repeated calls.
pub proof fn lemma_merge_preserves_prefix(acc: Seq<Seq<char>>, new: Seq<Seq<char>>)
    ensures
        merge_spec(acc, new).len() >= acc.len(),
        merge_spec(acc, new).take(acc.len() as int) == acc,
    decreases new.len(),
{
    if new.len() > 0 {
        let acc2 = if acc.contains(new[0]) {
            acc
        } else {
            acc.push(new[0])
        };
        lemma_merge_preserves_prefix(acc2, new.skip(1));
        assert(acc2.take(acc.len() as int) =~= acc);
        assert(merge_spec(acc2, new.skip(1)).take(acc.len() as int) =~= merge_spec(
            acc2,
            new.skip(1),
        ).take(acc2.len() as int).take(acc.len() as int));
    }
}

/// A token is in the merged sequence exactly when it is in the accumulator
/// or among the new tokens.
pub proof fn lemma_merge_membership(acc: Seq<Seq<char>>, new: Seq<Seq<char>>, x: Seq<char>)
    ensures
        merge_spec(acc, new).contains(x) <==> (acc.contains(x) || new.contains(x)),
    decreases new.len(),
{
    if new.len() == 0 {
        assert(!new.contains(x));
    } else {
        let acc2 = if acc.contains(new[0]) {
            acc
        } else {
            acc.push(new[0])
        };
        lemma_merge_membership(acc2, new.skip(1), x);
        assert(acc2.contains(x) <==> (acc.contains(x) || new[0] == x)) by {
            if acc.contains(x) {
                let j = choose|j: int| 0 <= j < acc.len() && acc[j] == x;
                assert(acc2[j] == x);
            }
            if new[0] == x && !acc.contains(x) {
                assert(acc2[acc.len() as int] == x);
            }
            if acc2.contains(x) && !acc.contains(x) && new[0] != x {
                let j = choose|j: int| 0 <= j < acc2.len() && acc2[j] == x;
                if j < acc.len() {
                    assert(acc[j] == x);
                }
            }
        }
        assert(new.contains(x) <==> (new[0] == x || new.skip(1).contains(x))) by {
            if new.contains(x) {
                let j = choose|j: int| 0 <= j < new.len() && new[j] == x;
                if j > 0 {
                    assert(new.skip(1)[j - 1] == x);
                }
            }
            if new.skip(1).contains(x) {
                let j = choose|j: int| 0 <= j < new.skip(1).len() && new.skip(1)[j] == x;
                assert(new[j + 1] == x);
            }
        }
    }
}

/// Merging tokens that are all already present changes nothing.
pub proof fn lemma_merge_absorbed(acc: Seq<Seq<char>>, new: Seq<Seq<char>>)
    requires
        forall|i: int| 0 <= i < new.len() ==> acc.contains(#[trigger] new[i]),
    ensures
        merge_spec(acc, new) == acc,
    decreases new.len(),
{
    if new.len() > 0 {
        assert(acc.contains(new[0]));
        assert(forall|i: int|
            0 <= i < new.skip(1).len() ==> new.skip(1)[i] == new[i + 1]);
        lemma_merge_absorbed(acc, new.skip(1));
    }
}

/// Merging is idempotent: merging the same token sequence twice yields the
/// same set as merging it once.
pub proof fn lemma_merge_idempotent(acc: Seq<Seq<char>>, new: Seq<Seq<char>>)
    ensures
        merge_spec(merge_spec(acc, new), new) == merge_spec(acc, new),
{
    let merged = merge_spec(acc, new);
    assert forall|i: int| 0 <= i < new.len() implies merged.contains(#[trigger] new[i]) by {
        assert(new.contains(new[i]));
        lemma_merge_membership(acc, new, new[i]);
    }
    lemma_merge_absorbed(merged, new);
}

/// A sequence without duplicate entries.
pub open spec fn no_dups(s: Seq<Seq<char>>) -> bool {
    forall|i: int, j: int| 0 <= i < j < s.len() ==> s[i] != s[j]
}

/// Merging into a duplicate-free accumulator keeps it duplicate-free.
pub proof fn lemma_merge_no_dups(acc: Seq<Seq<char>>, new: Seq<Seq<char>>)
    requires
        no_dups(acc),
    ensures
        no_dups(merge_spec(acc, new)),
    decreases new.len(),
{
    if new.len() > 0 {
        let acc2 = if acc.contains(new[0]) {
            acc
        } else {
            acc.push(new[0])
        };
        assert(no_dups(acc2)) by {
            if !acc.contains(new[0]) {
                assert forall|i: int, j: int| 0 <= i < j < acc2.len() implies acc2[i] != acc2[j]
                    by {
                    if j == acc.len() {
                        assert(acc.contains(acc[i]));
                    }
                }
            }
        }
        lemma_merge_no_dups(acc2, new.skip(1));
    }
}

} // verus!
