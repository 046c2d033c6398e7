//! Character-level text utilities shared by the parsers: substring search,
//! whitespace scanning, splitting and replacement, all specified over
//! `Seq<char>`.

use vstd::prelude::*;
use vstd::string::*;

verus! {

/// The whitespace characters recognized by this library's grammars.
pub open spec fn is_space_char(c: char) -> bool {
    c == ' ' || c == '\t' || c == '\n' || c == '\r' || c == '\u{b}' || c == '\u{c}'
}

pub fn is_space(c: char) -> (r: bool)
    ensures
        r == is_space_char(c),
{
    c == ' ' || c == '\t' || c == '\n' || c == '\r' || c == '\u{b}' || c == '\u{c}'
}

/// The characters of a string, as a vector usable for indexed scanning.
pub fn chars_of(s: &str) -> (v: Vec<char>)
    ensures
        v@ == s@,
{
    let n = s.unicode_len();
    let mut v: Vec<char> = Vec::new();
    let mut i: usize = 0;
    while i < n
        invariant
            i <= n,
            n == s@.len(),
            v@ == s@.take(i as int),
        decreases n - i,
    {
        v.push(s.get_char(i));
        proof {
            assert(s@.take(i + 1) =~= s@.take(i as int).push(s@[i as int]));
        }
        i += 1;
    }
    proof {
        assert(v@ =~= s@);
    }
    v
}

/// Relies on `String`'s `FromIterator<char>` impl: collecting characters
/// yields the string made of exactly those characters, in order.
#[verifier::external_body]
pub fn string_from_chars(v: &Vec<char>) -> (r: String)
    ensures
        r@ == v@,
{
    v.iter().collect()
}

/// Copy of the subrange `[a, b)` of `v`.
pub fn subvec(v: &Vec<char>, a: usize, b: usize) -> (r: Vec<char>)
    requires
        a <= b <= v@.len(),
    ensures
        r@ == v@.subrange(a as int, b as int),
{
    let mut r: Vec<char> = Vec::new();
    let mut i: usize = a;
    while i < b
        invariant
            a <= i <= b <= v@.len(),
            r@ == v@.subrange(a as int, i as int),
        decreases b - i,
    {
        r.push(v[i]);
        proof {
            assert(v@.subrange(a as int, i + 1) =~= v@.subrange(a as int, i as int).push(
                v@[i as int],
            ));
        }
        i += 1;
    }
    r
}

pub fn push_all(out: &mut Vec<char>, src: &Vec<char>)
    ensures
        final(out)@ == old(out)@ + src@,
{
    let mut i: usize = 0;
    while i < src.len()
        invariant
            i <= src@.len(),
            out@ == old(out)@ + src@.take(i as int),
        decreases src@.len() - i,
    {
        out.push(src[i]);
        proof {
            assert(old(out)@ + src@.take(i + 1) =~= (old(out)@ + src@.take(i as int)).push(
                src@[i as int],
            ));
        }
        i += 1;
    }
    proof {
        assert(old(out)@ + src@.take(src@.len() as int) =~= old(out)@ + src@);
    }
}

/// `pat` occurs in `s` starting at index `i`.
pub open spec fn occurs_at(s: Seq<char>, pat: Seq<char>, i: int) -> bool {
    &&& 0 <= i
    &&& i + pat.len() <= s.len()
    &&& s.subrange(i, i + pat.len() as int) == pat
}

/// Index of the first occurrence of `pat` in `s` at or after `from`.
pub open spec fn find_from(s: Seq<char>, pat: Seq<char>, from: int) -> Option<int>
    decreases s.len() + 1 - from,
{
    if from < 0 || from + pat.len() > s.len() {
        None
    } else if occurs_at(s, pat, from) {
        Some(from)
    } else {
        find_from(s, pat, from + 1)
    }
}

pub proof fn lemma_find_from_some(s: Seq<char>, pat: Seq<char>, from: int, k: int)
    requires
        find_from(s, pat, from) == Some(k),
    ensures
        from <= k,
        occurs_at(s, pat, k),
        forall|j: int| from <= j < k ==> !occurs_at(s, pat, j),
    decreases s.len() + 1 - from,
{
    if from < 0 || from + pat.len() > s.len() {
    } else if occurs_at(s, pat, from) {
    } else {
        lemma_find_from_some(s, pat, from + 1, k);
    }
}

pub proof fn lemma_find_from_exact(s: Seq<char>, pat: Seq<char>, from: int, k: int)
    requires
        0 <= from <= k,
        occurs_at(s, pat, k),
        forall|j: int| from <= j < k ==> !occurs_at(s, pat, j),
    ensures
        find_from(s, pat, from) == Some(k),
    decreases s.len() + 1 - from,
{
    if from == k {
    } else {
        lemma_find_from_exact(s, pat, from + 1, k);
    }
}

pub fn match_at(s: &Vec<char>, pat: &Vec<char>, i: usize) -> (r: bool)
    ensures
        r == occurs_at(s@, pat@, i as int),
{
    if pat.len() > s.len() || i > s.len() - pat.len() {
        return false;
    }
    let mut k: usize = 0;
    while k < pat.len()
        invariant
            k <= pat@.len(),
            i + pat@.len() <= s@.len(),
            s@.len() <= usize::MAX,
            s@.subrange(i as int, i + k) == pat@.subrange(0, k as int),
        decreases pat@.len() - k,
    {
        if s[i + k] != pat[k] {
            proof {
                assert(!occurs_at(s@, pat@, i as int)) by {
                    if occurs_at(s@, pat@, i as int) {
                        assert(s@.subrange(i as int, i + pat@.len())[k as int] == pat@[k as int]);
                    }
                }
            }
            return false;
        }
        proof {
            assert(s@.subrange(i as int, i + k + 1) =~= s@.subrange(i as int, i + k).push(
                s@[i + k],
            ));
            assert(pat@.subrange(0, k + 1) =~= pat@.subrange(0, k as int).push(pat@[k as int]));
        }
        k += 1;
    }
    proof {
        assert(s@.subrange(i as int, i + pat@.len()) =~= pat@.subrange(0, pat@.len() as int));
        assert(pat@.subrange(0, pat@.len() as int) =~= pat@);
    }
    true
}

pub fn find_in(s: &Vec<char>, pat: &Vec<char>, from: usize) -> (r: Option<usize>)
    requires
        pat@.len() >= 1,
    ensures
        match r {
            Some(i) => from <= i && find_from(s@, pat@, from as int) == Some(i as int),
            None => find_from(s@, pat@, from as int) is None,
        },
{
    if pat.len() > s.len() || from > s.len() - pat.len() {
        return None;
    }
    let mut i: usize = from;
    while i <= s.len() - pat.len()
        invariant
            from <= i,
            1 <= pat@.len() <= s@.len(),
            i <= s@.len(),
            find_from(s@, pat@, from as int) == find_from(s@, pat@, i as int),
        decreases s@.len() - i,
    {
        if match_at(s, pat, i) {
            return Some(i);
        }
        i += 1;
    }
    None
}

/// First index at or after `i` holding a non-whitespace character, else `s.len()`.
pub open spec fn skip_ws_from(s: Seq<char>, i: int) -> int
    decreases s.len() - i,
{
    if i < 0 || i >= s.len() {
        s.len() as int
    } else if is_space_char(s[i]) {
        skip_ws_from(s, i + 1)
    } else {
        i
    }
}

pub proof fn lemma_skip_ws_bounds(s: Seq<char>, i: int)
    requires
        0 <= i <= s.len(),
    ensures
        i <= skip_ws_from(s, i) <= s.len(),
        forall|j: int| i <= j < skip_ws_from(s, i) ==> is_space_char(s[j]),
        skip_ws_from(s, i) < s.len() ==> !is_space_char(s[skip_ws_from(s, i)]),
    decreases s.len() - i,
{
    if i < s.len() && is_space_char(s[i]) {
        lemma_skip_ws_bounds(s, i + 1);
    }
}

pub fn skip_ws(s: &Vec<char>, i: usize) -> (r: usize)
    requires
        i <= s@.len(),
    ensures
        r == skip_ws_from(s@, i as int),
        i <= r <= s@.len(),
{
    let mut j: usize = i;
    while j < s.len() && is_space(s[j])
        invariant
            i <= j <= s@.len(),
            skip_ws_from(s@, i as int) == skip_ws_from(s@, j as int),
        decreases s@.len() - j,
    {
        j += 1;
    }
    j
}

/// First index at or after `i` holding `'\n'`, else `s.len()`.
pub open spec fn line_end_from(s: Seq<char>, i: int) -> int
    decreases s.len() - i,
{
    if i < 0 || i >= s.len() {
        s.len() as int
    } else if s[i] == '\n' {
        i
    } else {
        line_end_from(s, i + 1)
    }
}

pub fn line_end(s: &Vec<char>, i: usize) -> (r: usize)
    requires
        i <= s@.len(),
    ensures
        r == line_end_from(s@, i as int),
        i <= r <= s@.len(),
{
    let mut j: usize = i;
    while j < s.len() && s[j] != '\n'
        invariant
            i <= j <= s@.len(),
            line_end_from(s@, i as int) == line_end_from(s@, j as int),
        decreases s@.len() - j,
    {
        j += 1;
    }
    j
}

/// Largest index `j` in `[lo, i]` such that `s[lo..j]` ends with a
/// non-whitespace character, i.e. `i` with trailing whitespace trimmed.
pub open spec fn trim_back_from(s: Seq<char>, lo: int, i: int) -> int
    decreases i,
{
    if i <= lo {
        lo
    } else if 0 < i <= s.len() && is_space_char(s[i - 1]) {
        trim_back_from(s, lo, i - 1)
    } else {
        i
    }
}

pub fn trim_back(s: &Vec<char>, lo: usize, i: usize) -> (r: usize)
    requires
        lo <= i <= s@.len(),
    ensures
        r == trim_back_from(s@, lo as int, i as int),
        lo <= r <= i,
{
    let mut j: usize = i;
    while j > lo && is_space(s[j - 1])
        invariant
            lo <= j <= i <= s@.len(),
            trim_back_from(s@, lo as int, i as int) == trim_back_from(s@, lo as int, j as int),
        decreases j,
    {
        j -= 1;
    }
    j
}

/// `s` with every non-overlapping, left-to-right occurrence of `pat`
/// replaced by `rep`, as `str::replace` does.
pub open spec fn replace_all_spec(s: Seq<char>, pat: Seq<char>, rep: Seq<char>) -> Seq<char>
    decreases s.len(),
{
    if pat.len() == 0 || s.len() < pat.len() {
        s
    } else if s.take(pat.len() as int) == pat {
        rep + replace_all_spec(s.skip(pat.len() as int), pat, rep)
    } else {
        seq![s[0]] + replace_all_spec(s.skip(1), pat, rep)
    }
}

pub fn replace_all(s: &Vec<char>, pat: &Vec<char>, rep: &Vec<char>) -> (r: Vec<char>)
    requires
        pat@.len() > 0,
    ensures
        r@ == replace_all_spec(s@, pat@, rep@),
{
    let mut out: Vec<char> = Vec::new();
    let mut i: usize = 0;
    proof {
        assert(s@.skip(0) =~= s@);
        assert(Seq::<char>::empty() + replace_all_spec(s@, pat@, rep@) =~= replace_all_spec(
            s@,
            pat@,
            rep@,
        ));
    }
    while i < s.len()
        invariant
            i <= s@.len(),
            pat@.len() > 0,
            replace_all_spec(s@, pat@, rep@) == out@ + replace_all_spec(
                s@.skip(i as int),
                pat@,
                rep@,
            ),
        decreases s@.len() - i,
    {
        if match_at(s, pat, i) {
            proof {
                assert(s@.skip(i as int).take(pat@.len() as int) =~= s@.subrange(
                    i as int,
                    i + pat@.len(),
                ));
                assert(s@.skip(i as int).skip(pat@.len() as int) =~= s@.skip(i + pat@.len()));
                assert((out@ + rep@) + replace_all_spec(s@.skip(i + pat@.len()), pat@, rep@) =~= out@
                    + (rep@ + replace_all_spec(s@.skip(i + pat@.len()), pat@, rep@)));
            }
            push_all(&mut out, rep);
            i += pat.len();
        } else {
            proof {
                if s@.skip(i as int).len() >= pat@.len() {
                    assert(s@.skip(i as int).take(pat@.len() as int) =~= s@.subrange(
                        i as int,
                        i + pat@.len(),
                    ));
                }
                assert(s@.skip(i as int) =~= seq![s@[i as int]] + s@.skip(i + 1));
                assert(s@.skip(i as int)[0] == s@[i as int]);
                assert(s@.skip(i as int).skip(1) =~= s@.skip(i + 1));
                assert(out@.push(s@[i as int]) =~= out@ + seq![s@[i as int]]);
                assert((out@ + seq![s@[i as int]]) + replace_all_spec(s@.skip(i + 1), pat@, rep@)
                    =~= out@ + (seq![s@[i as int]] + replace_all_spec(s@.skip(i + 1), pat@, rep@)));
            }
            out.push(s[i]);
            i += 1;
        }
    }
    proof {
        assert(s@.skip(i as int) =~= Seq::<char>::empty());
        assert(out@ + Seq::<char>::empty() =~= out@);
    }
    out
}

/// One step of a character scan that splits on the separator `sep`.
pub open spec fn split_step(
    st: (Seq<Seq<char>>, Seq<char>),
    c: char,
    sep: char,
) -> (Seq<Seq<char>>, Seq<char>) {
    if c == sep {
        (st.0.push(st.1), Seq::empty())
    } else {
        (st.0, st.1.push(c))
    }
}

pub open spec fn split_run(
    st: (Seq<Seq<char>>, Seq<char>),
    s: Seq<char>,
    sep: char,
) -> (Seq<Seq<char>>, Seq<char>)
    decreases s.len(),
{
    if s.len() == 0 {
        st
    } else {
        split_step(split_run(st, s.drop_last(), sep), s.last(), sep)
    }
}

/// `s` split on `sep`, as `str::split` does: `N` separators give `N + 1`
/// pieces, empty pieces included.
pub open spec fn split_char(s: Seq<char>, sep: char) -> Seq<Seq<char>> {
    let st = split_run((Seq::empty(), Seq::empty()), s, sep);
    st.0.push(st.1)
}

/// The views of the elements of a sequence of strings.
pub open spec fn deep_of_strs(s: Seq<String>) -> Seq<Seq<char>> {
    Seq::new(s.len(), |i: int| s[i]@)
}

/// The deep view of a vector of strings is the sequence of its elements'
/// views.
pub proof fn lemma_strs_deep_view_is(v: &Vec<String>)
    ensures
        v.deep_view() == deep_of_strs(v@),
{
    assert forall|i: int| 0 <= i < v@.len() implies #[trigger] v.deep_view()[i] == deep_of_strs(
        v@,
    )[i] by {}
    assert(v.deep_view() =~= deep_of_strs(v@));
}

/// Push a string, tracking the deep view.
pub fn push_string(out: &mut Vec<String>, s: String)
    ensures
        final(out).deep_view() == old(out).deep_view().push(s@),
        final(out)@.len() == old(out)@.len() + 1,
{
    proof {
        lemma_strs_deep_view_is(&*out);
    }
    let ghost sv = s@;
    out.push(s);
    proof {
        lemma_strs_deep_view_is(&*out);
        assert(deep_of_strs(out@) =~= deep_of_strs(old(out)@).push(sv));
    }
}

/// `parts` joined with the separator `sep` between consecutive parts.
pub open spec fn join_with(parts: Seq<Seq<char>>, sep: Seq<char>) -> Seq<char>
    decreases parts.len(),
{
    if parts.len() == 0 {
        Seq::empty()
    } else if parts.len() == 1 {
        parts[0]
    } else {
        parts[0] + sep + join_with(parts.skip(1), sep)
    }
}

pub proof fn lemma_join_push(parts: Seq<Seq<char>>, sep: Seq<char>, x: Seq<char>)
    ensures
        join_with(parts.push(x), sep) == if parts.len() == 0 {
            x
        } else {
            join_with(parts, sep) + sep + x
        },
    decreases parts.len(),
{
    if parts.len() == 0 {
        assert(parts.push(x)[0] == x);
    } else if parts.len() == 1 {
        assert(parts.push(x).skip(1) =~= seq![x]);
        assert(parts.push(x)[0] == parts[0]);
        assert(seq![x][0] == x);
        assert(join_with(seq![x], sep) == x);
        assert(join_with(parts.push(x), sep) == parts[0] + sep + x);
    } else {
        lemma_join_push(parts.skip(1), sep, x);
        assert(parts.push(x).skip(1) =~= parts.skip(1).push(x));
        assert(parts.push(x)[0] == parts[0]);
        assert(parts[0] + sep + (join_with(parts.skip(1), sep) + sep + x) =~= (parts[0] + sep
            + join_with(parts.skip(1), sep)) + sep + x);
    }
}

/// The strings of `list` joined with separator `sep`, as characters.
pub fn join_strs(list: &Vec<String>, sep: &Vec<char>) -> (r: Vec<char>)
    ensures
        r@ == join_with(deep_of_strs(list@), sep@),
{
    let mut out: Vec<char> = Vec::new();
    let mut i: usize = 0;
    while i < list.len()
        invariant
            i <= list@.len(),
            out@ == join_with(deep_of_strs(list@).take(i as int), sep@),
        decreases list@.len() - i,
    {
        if i > 0 {
            push_all(&mut out, sep);
        }
        let piece = chars_of(list[i].as_str());
        push_all(&mut out, &piece);
        proof {
            let parts = deep_of_strs(list@);
            assert(parts.take(i + 1) =~= parts.take(i as int).push(parts[i as int]));
            lemma_join_push(parts.take(i as int), sep@, parts[i as int]);
            if i == 0 {
                assert(Seq::<char>::empty() + parts[0] =~= parts[0]);
            }
        }
        i += 1;
    }
    proof {
        assert(deep_of_strs(list@).take(list@.len() as int) =~= deep_of_strs(list@));
    }
    out
}

/// The views of the elements of a sequence of character vectors.
pub open spec fn deep_of(s: Seq<Vec<char>>) -> Seq<Seq<char>> {
    Seq::new(s.len(), |i: int| s[i]@)
}

/// The deep view of a vector of character vectors is the sequence of its
/// elements' views.
pub proof fn lemma_deep_view_is(v: &Vec<Vec<char>>)
    ensures
        v.deep_view() == deep_of(v@),
{
    assert forall|i: int| 0 <= i < v@.len() implies #[trigger] v.deep_view()[i] == deep_of(v@)[i]
        by {
        let y = v@[i];
        assert(y.deep_view() =~= y@);
    }
    assert(v.deep_view() =~= deep_of(v@));
}

pub fn split_char_exec(v: &Vec<char>, sep: char) -> (r: Vec<Vec<char>>)
    ensures
        r.deep_view() == split_char(v@, sep),
{
    let mut done: Vec<Vec<char>> = Vec::new();
    let mut cur: Vec<char> = Vec::new();
    let mut i: usize = 0;
    proof {
        assert(done.deep_view() =~= Seq::<Seq<char>>::empty());
        assert(v@.take(0) =~= Seq::<char>::empty());
    }
    while i < v.len()
        invariant
            i <= v@.len(),
            done.deep_view() == split_run(
                (Seq::<Seq<char>>::empty(), Seq::<char>::empty()),
                v@.take(i as int),
                sep,
            ).0,
            cur@ == split_run(
                (Seq::<Seq<char>>::empty(), Seq::<char>::empty()),
                v@.take(i as int),
                sep,
            ).1,
        decreases v@.len() - i,
    {
        proof {
            assert(v@.take(i + 1).drop_last() =~= v@.take(i as int));
            assert(v@.take(i + 1).last() == v@[i as int]);
        }
        if v[i] == sep {
            let ghost pre = done@;
            let ghost old_cur = cur@;
            proof {
                lemma_deep_view_is(&done);
            }
            done.push(cur);
            cur = Vec::new();
            proof {
                lemma_deep_view_is(&done);
                assert(deep_of(done@) =~= deep_of(pre).push(old_cur));
                assert(deep_of(pre) =~= Seq::new(pre.len(), |k: int| pre[k]@));
            }
        } else {
            cur.push(v[i]);
        }
        i += 1;
    }
    proof {
        assert(v@.take(v@.len() as int) =~= v@);
    }
    let ghost pre = done@;
    let ghost old_cur = cur@;
    proof {
        lemma_deep_view_is(&done);
    }
    done.push(cur);
    proof {
        lemma_deep_view_is(&done);
        assert(deep_of(done@) =~= deep_of(pre).push(old_cur));
    }
    done
}

} // verus!
