//! The library's semantic-version type. Parsing goes through the `semver`
//! crate; precedence comparison is the library's own, verified against the
//! standard rules (numeric `major.minor.patch` comparison, pre-release
//! identifiers compared numerically or lexically).

use crate::text::{
    chars_of, deep_of_strs, join_strs, join_with, lemma_deep_view_is, lemma_strs_deep_view_is,
    push_all, split_char, split_char_exec, string_from_chars, subvec,
};
use vstd::prelude::*;
use vstd::string::*;

verus! {

/// A semantic version: `major.minor.patch`, with optional pre-release
/// identifiers. Build metadata has no effect on precedence and is not kept.
pub struct Semver {
    pub major: u64,
    pub minor: u64,
    pub patch: u64,
    /// The dot-separated pre-release identifiers; empty for a full release.
    pub pre: Vec<String>,
}

pub struct SemverView {
    pub major: u64,
    pub minor: u64,
    pub patch: u64,
    pub pre: Seq<Seq<char>>,
}

impl View for Semver {
    type V = SemverView;

    open spec fn view(&self) -> SemverView {
        SemverView {
            major: self.major,
            minor: self.minor,
            patch: self.patch,
            pre: self.pre.deep_view(),
        }
    }
}

/// Lexicographic (code-point) order of two character sequences:
/// negative, zero or positive as `a` is below, equal to or above `b`.
pub open spec fn cmp_chars(a: Seq<char>, b: Seq<char>) -> int
    decreases a.len(),
{
    if a.len() == 0 && b.len() == 0 {
        0
    } else if a.len() == 0 {
        -1
    } else if b.len() == 0 {
        1
    } else if (a[0] as u32) < (b[0] as u32) {
        -1
    } else if (a[0] as u32) > (b[0] as u32) {
        1
    } else {
        cmp_chars(a.skip(1), b.skip(1))
    }
}

pub open spec fn is_digit(c: char) -> bool {
    48 <= c as u32 <= 57
}

/// A pre-release identifier consisting only of digits, compared numerically.
pub open spec fn is_numeric_ident(x: Seq<char>) -> bool {
    x.len() > 0 && forall|i: int| 0 <= i < x.len() ==> is_digit(#[trigger] x[i])
}

pub open spec fn strip_zeros(x: Seq<char>) -> Seq<char>
    decreases x.len(),
{
    if x.len() > 0 && x[0] as u32 == 48 {
        strip_zeros(x.skip(1))
    } else {
        x
    }
}

/// Numeric order of two digit strings: leading zeros dropped, then the
/// shorter string is the smaller number, and equal lengths are decided
/// lexicographically.
pub open spec fn cmp_digits(a: Seq<char>, b: Seq<char>) -> int {
    let a0 = strip_zeros(a);
    let b0 = strip_zeros(b);
    if a0.len() < b0.len() {
        -1
    } else if a0.len() > b0.len() {
        1
    } else {
        cmp_chars(a0, b0)
    }
}

/// Order of two pre-release identifiers: numeric identifiers compare
/// numerically and are below alphanumeric ones; alphanumeric identifiers
/// compare in ASCII order.
pub open spec fn cmp_ident(a: Seq<char>, b: Seq<char>) -> int {
    if is_numeric_ident(a) && is_numeric_ident(b) {
        cmp_digits(a, b)
    } else if is_numeric_ident(a) {
        -1
    } else if is_numeric_ident(b) {
        1
    } else {
        cmp_chars(a, b)
    }
}

/// Order of two non-empty identifier lists: left to right, a prefix being
/// below any extension of it.
pub open spec fn cmp_ident_list(a: Seq<Seq<char>>, b: Seq<Seq<char>>) -> int
    decreases a.len(),
{
    if a.len() == 0 && b.len() == 0 {
        0
    } else if a.len() == 0 {
        -1
    } else if b.len() == 0 {
        1
    } else if cmp_ident(a[0], b[0]) != 0 {
        cmp_ident(a[0], b[0])
    } else {
        cmp_ident_list(a.skip(1), b.skip(1))
    }
}

/// Order of two pre-release tags: a full release is above any pre-release.
pub open spec fn cmp_pre(a: Seq<Seq<char>>, b: Seq<Seq<char>>) -> int {
    if a.len() == 0 && b.len() == 0 {
        0
    } else if a.len() == 0 {
        1
    } else if b.len() == 0 {
        -1
    } else {
        cmp_ident_list(a, b)
    }
}

/// Semantic-version precedence: negative, zero or positive as `a` precedes,
/// equals or follows `b`.
pub open spec fn cmp_version(a: SemverView, b: SemverView) -> int {
    if a.major != b.major {
        if a.major < b.major {
            -1
        } else {
            1
        }
    } else if a.minor != b.minor {
        if a.minor < b.minor {
            -1
        } else {
            1
        }
    } else if a.patch != b.patch {
        if a.patch < b.patch {
            -1
        } else {
            1
        }
    } else {
        cmp_pre(a.pre, b.pre)
    }
}

pub open spec fn version_lt(a: SemverView, b: SemverView) -> bool {
    cmp_version(a, b) < 0
}

pub open spec fn version_le(a: SemverView, b: SemverView) -> bool {
    cmp_version(a, b) <= 0
}

pub proof fn lemma_cmp_chars_refl(a: Seq<char>)
    ensures
        cmp_chars(a, a) == 0,
    decreases a.len(),
{
    if a.len() > 0 {
        lemma_cmp_chars_refl(a.skip(1));
    }
}

pub proof fn lemma_cmp_chars_antisym(a: Seq<char>, b: Seq<char>)
    ensures
        cmp_chars(a, b) == -cmp_chars(b, a),
    decreases a.len(),
{
    if a.len() > 0 && b.len() > 0 && (a[0] as u32) == (b[0] as u32) {
        lemma_cmp_chars_antisym(a.skip(1), b.skip(1));
    }
}

pub proof fn lemma_cmp_ident_refl(a: Seq<char>)
    ensures
        cmp_ident(a, a) == 0,
{
    lemma_cmp_chars_refl(a);
    lemma_cmp_chars_refl(strip_zeros(a));
}

pub proof fn lemma_cmp_ident_antisym(a: Seq<char>, b: Seq<char>)
    ensures
        cmp_ident(a, b) == -cmp_ident(b, a),
{
    lemma_cmp_chars_antisym(a, b);
    lemma_cmp_chars_antisym(strip_zeros(a), strip_zeros(b));
}

pub proof fn lemma_cmp_ident_list_refl(a: Seq<Seq<char>>)
    ensures
        cmp_ident_list(a, a) == 0,
    decreases a.len(),
{
    if a.len() > 0 {
        lemma_cmp_ident_refl(a[0]);
        lemma_cmp_ident_list_refl(a.skip(1));
    }
}

pub proof fn lemma_cmp_ident_list_antisym(a: Seq<Seq<char>>, b: Seq<Seq<char>>)
    ensures
        cmp_ident_list(a, b) == -cmp_ident_list(b, a),
    decreases a.len(),
{
    if a.len() > 0 && b.len() > 0 {
        lemma_cmp_ident_antisym(a[0], b[0]);
        if cmp_ident(a[0], b[0]) == 0 {
            lemma_cmp_ident_list_antisym(a.skip(1), b.skip(1));
        }
    }
}

/// Precedence is reflexive: every version equals itself.
pub proof fn lemma_cmp_version_refl(a: SemverView)
    ensures
        cmp_version(a, a) == 0,
{
    lemma_cmp_ident_list_refl(a.pre);
}

/// Precedence is antisymmetric: swapping the operands flips the sign.
pub proof fn lemma_cmp_version_antisym(a: SemverView, b: SemverView)
    ensures
        cmp_version(a, b) == -cmp_version(b, a),
{
    lemma_cmp_ident_list_antisym(a.pre, b.pre);
}

/// The value of one digit character.
pub open spec fn digit_val(c: char) -> nat {
    if is_digit(c) {
        ((c as u32) - 48) as nat
    } else {
        0
    }
}

/// The number a digit string denotes.
pub open spec fn num_val(x: Seq<char>) -> nat
    decreases x.len(),
{
    if x.len() == 0 {
        0
    } else {
        num_val(x.drop_last()) * 10 + digit_val(x.last())
    }
}

pub open spec fn pow10(n: nat) -> nat
    decreases n,
{
    if n == 0 {
        1
    } else {
        10 * pow10((n - 1) as nat)
    }
}

proof fn lemma_pow10_pos(n: nat)
    ensures
        pow10(n) >= 1,
    decreases n,
{
    if n > 0 {
        lemma_pow10_pos((n - 1) as nat);
    }
}

proof fn lemma_pow10_mono(a: nat, b: nat)
    requires
        a <= b,
    ensures
        pow10(a) <= pow10(b),
    decreases b,
{
    if a < b {
        lemma_pow10_mono(a, (b - 1) as nat);
        lemma_pow10_pos((b - 1) as nat);
    }
}

proof fn lemma_num_val_cons(x: Seq<char>)
    requires
        x.len() >= 1,
    ensures
        num_val(x) == digit_val(x[0]) * pow10((x.len() - 1) as nat) + num_val(x.skip(1)),
    decreases x.len(),
{
    if x.len() == 1 {
        assert(x.skip(1) =~= Seq::<char>::empty());
        assert(x.drop_last() =~= Seq::<char>::empty());
        assert(x.last() == x[0]);
        assert(num_val(Seq::<char>::empty()) == 0);
        assert(pow10(0) == 1);
        assert(num_val(x) == digit_val(x[0]));
        assert(digit_val(x[0]) * 1 == digit_val(x[0]));
        assert(num_val(x) == digit_val(x[0]) * pow10((x.len() - 1) as nat) + num_val(x.skip(1)));
    } else {
        lemma_num_val_cons(x.drop_last());
        assert(x.drop_last()[0] == x[0]);
        assert(x.drop_last().skip(1) =~= x.skip(1).drop_last());
        assert(x.skip(1).last() == x.last());
        let d0 = digit_val(x[0]);
        let p = pow10((x.len() - 2) as nat);
        let r = num_val(x.skip(1).drop_last());
        assert(pow10((x.len() - 1) as nat) == 10 * p);
        assert(num_val(x) == num_val(x.drop_last()) * 10 + digit_val(x.last()));
        assert(num_val(x.drop_last()) == d0 * p + r);
        assert(num_val(x.skip(1)) == r * 10 + digit_val(x.skip(1).last()));
        assert((d0 * p + r) * 10 == d0 * (10 * p) + r * 10) by (nonlinear_arith);
        assert(num_val(x) == (d0 * p + r) * 10 + digit_val(x.last()));
        assert(num_val(x) == d0 * (10 * p) + (r * 10 + digit_val(x.last())));
        assert(num_val(x) == d0 * pow10((x.len() - 1) as nat) + num_val(x.skip(1)));
    }
}

proof fn lemma_num_val_upper(x: Seq<char>)
    ensures
        num_val(x) < pow10(x.len() as nat),
    decreases x.len(),
{
    if x.len() > 0 {
        lemma_num_val_upper(x.drop_last());
        assert(digit_val(x.last()) <= 9);
    }
}

proof fn lemma_num_val_lower(x: Seq<char>)
    requires
        x.len() >= 1,
        is_digit(x[0]),
        x[0] as u32 != 48,
    ensures
        num_val(x) >= pow10((x.len() - 1) as nat),
{
    lemma_num_val_cons(x);
    let d0 = digit_val(x[0]);
    let p = pow10((x.len() - 1) as nat);
    assert(d0 >= 1);
    assert(d0 * p >= 1 * p) by (nonlinear_arith)
        requires
            d0 >= 1,
            p >= 0,
    ;
}

proof fn lemma_num_val_strip(x: Seq<char>)
    ensures
        num_val(strip_zeros(x)) == num_val(x),
    decreases x.len(),
{
    if x.len() > 0 && x[0] as u32 == 48 {
        lemma_num_val_cons(x);
        assert(digit_val(x[0]) == 0);
        lemma_num_val_strip(x.skip(1));
        assert(num_val(x) == 0 * pow10((x.len() - 1) as nat) + num_val(x.skip(1)));
    }
}

proof fn lemma_strip_zeros_props(x: Seq<char>)
    requires
        forall|i: int| 0 <= i < x.len() ==> is_digit(#[trigger] x[i]),
    ensures
        strip_zeros(x).len() <= x.len(),
        forall|i: int| 0 <= i < strip_zeros(x).len() ==> is_digit(#[trigger] strip_zeros(x)[i]),
        strip_zeros(x).len() > 0 ==> strip_zeros(x)[0] as u32 != 48,
    decreases x.len(),
{
    if x.len() > 0 && x[0] as u32 == 48 {
        lemma_strip_zeros_props(x.skip(1));
    }
}

proof fn lemma_num_val_lex(a: Seq<char>, b: Seq<char>)
    requires
        a.len() == b.len(),
        forall|i: int| 0 <= i < a.len() ==> is_digit(#[trigger] a[i]),
        forall|i: int| 0 <= i < b.len() ==> is_digit(#[trigger] b[i]),
    ensures
        cmp_chars(a, b) < 0 ==> num_val(a) < num_val(b),
        cmp_chars(a, b) == 0 ==> num_val(a) == num_val(b),
    decreases a.len(),
{
    if a.len() > 0 {
        lemma_num_val_cons(a);
        lemma_num_val_cons(b);
        let p = pow10((a.len() - 1) as nat);
        if (a[0] as u32) == (b[0] as u32) {
            lemma_num_val_lex(a.skip(1), b.skip(1));
            assert(digit_val(a[0]) == digit_val(b[0]));
        } else if (a[0] as u32) < (b[0] as u32) {
            let da = digit_val(a[0]);
            let db = digit_val(b[0]);
            assert(da < db);
            lemma_num_val_upper(a.skip(1));
            assert(num_val(a.skip(1)) < p);
            assert(da * p + p <= db * p) by (nonlinear_arith)
                requires
                    da < db,
                    p >= 0,
            ;
        }
    }
}

/// The digit-string order used for numeric pre-release identifiers agrees
/// with the numbers the strings denote.
pub proof fn lemma_cmp_digits_is_numeric(a: Seq<char>, b: Seq<char>)
    requires
        is_numeric_ident(a),
        is_numeric_ident(b),
    ensures
        cmp_digits(a, b) < 0 <==> num_val(a) < num_val(b),
        cmp_digits(a, b) == 0 <==> num_val(a) == num_val(b),
        cmp_digits(a, b) > 0 <==> num_val(a) > num_val(b),
{
    let a0 = strip_zeros(a);
    let b0 = strip_zeros(b);
    lemma_num_val_strip(a);
    lemma_num_val_strip(b);
    lemma_strip_zeros_props(a);
    lemma_strip_zeros_props(b);
    if a0.len() < b0.len() {
        lemma_num_val_upper(a0);
        lemma_num_val_lower(b0);
        lemma_pow10_mono(a0.len() as nat, (b0.len() - 1) as nat);
    } else if a0.len() > b0.len() {
        lemma_num_val_upper(b0);
        lemma_num_val_lower(a0);
        lemma_pow10_mono(b0.len() as nat, (a0.len() - 1) as nat);
    } else {
        lemma_num_val_lex(a0, b0);
        lemma_num_val_lex(b0, a0);
        lemma_cmp_chars_antisym(a0, b0);
    }
}

fn cmp_chars_exec(a: &Vec<char>, b: &Vec<char>) -> (r: i8)
    ensures
        r as int == cmp_chars(a@, b@),
{
    let mut i: usize = 0;
    proof {
        assert(a@.skip(0) =~= a@);
        assert(b@.skip(0) =~= b@);
    }
    while i < a.len() && i < b.len()
        invariant
            i <= a@.len(),
            i <= b@.len(),
            cmp_chars(a@, b@) == cmp_chars(a@.skip(i as int), b@.skip(i as int)),
        decreases a@.len() - i,
    {
        proof {
            assert(a@.skip(i as int)[0] == a@[i as int]);
            assert(b@.skip(i as int)[0] == b@[i as int]);
            assert(a@.skip(i as int).skip(1) =~= a@.skip(i + 1));
            assert(b@.skip(i as int).skip(1) =~= b@.skip(i + 1));
        }
        if (a[i] as u32) < (b[i] as u32) {
            return -1;
        }
        if (a[i] as u32) > (b[i] as u32) {
            return 1;
        }
        i += 1;
    }
    proof {
        assert(a@.skip(i as int).len() == a@.len() - i);
        assert(b@.skip(i as int).len() == b@.len() - i);
    }
    if a.len() < b.len() {
        -1
    } else if a.len() > b.len() {
        1
    } else {
        0
    }
}

fn is_numeric_exec(x: &Vec<char>) -> (r: bool)
    ensures
        r == is_numeric_ident(x@),
{
    if x.len() == 0 {
        return false;
    }
    let mut i: usize = 0;
    while i < x.len()
        invariant
            i <= x@.len(),
            x@.len() > 0,
            forall|j: int| 0 <= j < i ==> is_digit(#[trigger] x@[j]),
        decreases x@.len() - i,
    {
        let c = x[i] as u32;
        if c < 48 || c > 57 {
            return false;
        }
        i += 1;
    }
    true
}

/// Index of the first character of `x` that is not `'0'`.
fn strip_zeros_exec(x: &Vec<char>) -> (r: usize)
    ensures
        r <= x@.len(),
        strip_zeros(x@) == x@.skip(r as int),
{
    let mut i: usize = 0;
    proof {
        assert(x@.skip(0) =~= x@);
    }
    while i < x.len() && (x[i] as u32) == 48
        invariant
            i <= x@.len(),
            strip_zeros(x@) == strip_zeros(x@.skip(i as int)),
        decreases x@.len() - i,
    {
        proof {
            assert(x@.skip(i as int)[0] == x@[i as int]);
            assert(x@.skip(i as int).skip(1) =~= x@.skip(i + 1));
        }
        i += 1;
    }
    i
}

fn cmp_ident_exec(a: &Vec<char>, b: &Vec<char>) -> (r: i8)
    ensures
        r as int == cmp_ident(a@, b@),
{
    let na = is_numeric_exec(a);
    let nb = is_numeric_exec(b);
    if na && nb {
        let sa = strip_zeros_exec(a);
        let sb = strip_zeros_exec(b);
        let la = a.len() - sa;
        let lb = b.len() - sb;
        if la < lb {
            -1
        } else if la > lb {
            1
        } else {
            let va = subvec(a, sa, a.len());
            let vb = subvec(b, sb, b.len());
            proof {
                assert(a@.subrange(sa as int, a@.len() as int) =~= a@.skip(sa as int));
                assert(b@.subrange(sb as int, b@.len() as int) =~= b@.skip(sb as int));
            }
            cmp_chars_exec(&va, &vb)
        }
    } else if na {
        -1
    } else if nb {
        1
    } else {
        cmp_chars_exec(a, b)
    }
}

fn cmp_pre_exec(a: &Vec<String>, b: &Vec<String>) -> (r: i8)
    ensures
        r as int == cmp_pre(a.deep_view(), b.deep_view()),
{
    proof {
        lemma_strs_deep_view_is(a);
        lemma_strs_deep_view_is(b);
    }
    if a.len() == 0 && b.len() == 0 {
        return 0;
    }
    if a.len() == 0 {
        return 1;
    }
    if b.len() == 0 {
        return -1;
    }
    let mut i: usize = 0;
    proof {
        assert(a.deep_view().skip(0) =~= a.deep_view());
        assert(b.deep_view().skip(0) =~= b.deep_view());
    }
    while i < a.len() && i < b.len()
        invariant
            i <= a@.len(),
            i <= b@.len(),
            a@.len() > 0,
            b@.len() > 0,
            cmp_ident_list(a.deep_view(), b.deep_view()) == cmp_ident_list(
                a.deep_view().skip(i as int),
                b.deep_view().skip(i as int),
            ),
            a.deep_view() == deep_of_strs(a@),
            b.deep_view() == deep_of_strs(b@),
        decreases a@.len() - i,
    {
        let ca = chars_of(a[i].as_str());
        let cb = chars_of(b[i].as_str());
        let c = cmp_ident_exec(&ca, &cb);
        proof {
            assert(a.deep_view().skip(i as int)[0] == a@[i as int]@);
            assert(b.deep_view().skip(i as int)[0] == b@[i as int]@);
            assert(a.deep_view().skip(i as int).skip(1) =~= a.deep_view().skip(i + 1));
            assert(b.deep_view().skip(i as int).skip(1) =~= b.deep_view().skip(i + 1));
        }
        if c != 0 {
            return c;
        }
        i += 1;
    }
    proof {
        assert(a.deep_view().skip(i as int).len() == a@.len() - i);
        assert(b.deep_view().skip(i as int).len() == b@.len() - i);
    }
    if a.len() < b.len() {
        -1
    } else if a.len() > b.len() {
        1
    } else {
        0
    }
}

impl Semver {
    /// Precedence comparison: negative, zero or positive as `self` precedes,
    /// equals or follows `other`.
    pub fn cmp_precedence(&self, other: &Semver) -> (r: i8)
        ensures
            r as int == cmp_version(self@, other@),
    {
        if self.major < other.major {
            return -1;
        }
        if self.major > other.major {
            return 1;
        }
        if self.minor < other.minor {
            return -1;
        }
        if self.minor > other.minor {
            return 1;
        }
        if self.patch < other.patch {
            return -1;
        }
        if self.patch > other.patch {
            return 1;
        }
        cmp_pre_exec(&self.pre, &other.pre)
    }
}

/// What `semver::Version::parse` yields on a given string: `None` where the
/// string is not a valid semantic version, else the major, minor and patch
/// numbers and the raw pre-release text.
pub uninterp spec fn semver_parts(s: Seq<char>) -> Option<(u64, u64, u64, Seq<char>)>;

/// Relies on `semver::Version::parse` (crate `semver`): whether a string is
/// a valid semantic version, and the parsed components, are functions of the
/// string alone, named `semver_parts` here. Build metadata does not take
/// part in precedence and is dropped.
#[verifier::external_body]
fn semver_parse_raw(s: &str) -> (r: Option<(u64, u64, u64, String)>)
    ensures
        match r {
            Some(t) => semver_parts(s@) == Some((t.0, t.1, t.2, t.3@)),
            None => semver_parts(s@) is None,
        },
{
    match semver::Version::parse(s) {
        Ok(v) => Some((v.major, v.minor, v.patch, v.pre.as_str().to_string())),
        Err(_) => None,
    }
}

/// The pre-release identifiers of a raw pre-release text: none when the
/// text is empty, else the dot-separated pieces.
pub open spec fn split_pre(p: Seq<char>) -> Seq<Seq<char>> {
    if p.len() == 0 {
        Seq::empty()
    } else {
        split_char(p, '.')
    }
}

pub open spec fn view_of_parts(t: (u64, u64, u64, Seq<char>)) -> SemverView {
    SemverView { major: t.0, minor: t.1, patch: t.2, pre: split_pre(t.3) }
}

/// Parse a semantic version through the `semver` crate into the library's
/// own type.
pub fn parse_semver(s: &str) -> (r: Option<Semver>)
    ensures
        match r {
            Some(v) => semver_parts(s@) matches Some(t) && v@ == view_of_parts(t),
            None => semver_parts(s@) is None,
        },
{
    match semver_parse_raw(s) {
        None => None,
        Some((major, minor, patch, pre)) => {
            let mut idents: Vec<String> = Vec::new();
            if pre.as_str().unicode_len() > 0 {
                let pv = chars_of(pre.as_str());
                let pieces = split_char_exec(&pv, '.');
                let mut i: usize = 0;
                proof {
                    lemma_strs_deep_view_is(&idents);
                    assert(idents.deep_view() =~= pieces.deep_view().take(0));
                }
                while i < pieces.len()
                    invariant
                        i <= pieces@.len(),
                        idents.deep_view() == pieces.deep_view().take(i as int),
                        idents@.len() == i,
                    decreases pieces@.len() - i,
                {
                    proof {
                        lemma_strs_deep_view_is(&idents);
                        lemma_deep_view_is(&pieces);
                    }
                    let ghost prev = idents@;
                    let piece_str = string_from_chars(&pieces[i]);
                    idents.push(piece_str);
                    proof {
                        lemma_strs_deep_view_is(&idents);
                        assert forall|j: int| 0 <= j < i + 1 implies deep_of_strs(idents@)[j]
                            == #[trigger] pieces.deep_view().take(i + 1)[j] by {
                            assert(pieces.deep_view().take(i + 1)[j] == pieces.deep_view()[j]);
                            if j < i {
                                assert(deep_of_strs(prev)[j] == pieces.deep_view().take(
                                    i as int,
                                )[j]);
                                assert(idents@[j] == prev[j]);
                            } else {
                                assert(idents@[j] == piece_str);
                                assert(piece_str@ == pieces@[i as int]@);
                            }
                        }
                        assert(deep_of_strs(idents@) =~= pieces.deep_view().take(i + 1));
                    }
                    i += 1;
                }
                proof {
                    assert(pieces.deep_view().take(pieces@.len() as int) =~= pieces.deep_view());
                    assert(idents.deep_view() == split_char(pre@, '.'));
                    assert(idents.deep_view() == split_pre(pre@));
                }
            } else {
                proof {
                    lemma_strs_deep_view_is(&idents);
                    assert(idents.deep_view() =~= Seq::<Seq<char>>::empty());
                    assert(idents.deep_view() == split_pre(pre@));
                }
            }
            let v = Semver { major, minor, patch, pre: idents };
            proof {
                assert(v@.pre == split_pre(pre@));
                assert(v@ == view_of_parts((major, minor, patch, pre@)));
            }
            Some(v)
        },
    }
}

/// One decimal digit as a character.
pub open spec fn dec_digit(d: int) -> char {
    if d == 0 {
        '0'
    } else if d == 1 {
        '1'
    } else if d == 2 {
        '2'
    } else if d == 3 {
        '3'
    } else if d == 4 {
        '4'
    } else if d == 5 {
        '5'
    } else if d == 6 {
        '6'
    } else if d == 7 {
        '7'
    } else if d == 8 {
        '8'
    } else {
        '9'
    }
}

/// The decimal digits of `n`, most significant first.
pub open spec fn dec_of(n: nat) -> Seq<char>
    decreases n,
{
    if n < 10 {
        seq![dec_digit(n as int)]
    } else {
        dec_of(n / 10).push(dec_digit((n % 10) as int))
    }
}

fn dec_digit_exec(d: u64) -> (c: char)
    requires
        d < 10,
    ensures
        c == dec_digit(d as int),
{
    match d {
        0 => '0',
        1 => '1',
        2 => '2',
        3 => '3',
        4 => '4',
        5 => '5',
        6 => '6',
        7 => '7',
        8 => '8',
        _ => '9',
    }
}

pub fn push_dec(n: u64, out: &mut Vec<char>)
    ensures
        final(out)@ == old(out)@ + dec_of(n as nat),
    decreases n,
{
    if n >= 10 {
        push_dec(n / 10, out);
        out.push(dec_digit_exec(n % 10));
        proof {
            assert(out@ =~= old(out)@ + dec_of(n as nat));
        }
    } else {
        out.push(dec_digit_exec(n));
        proof {
            assert(out@ =~= old(out)@ + dec_of(n as nat));
        }
    }
}

/// The canonical text of a version: `major.minor.patch`, with `-` and the
/// dot-joined identifiers appended when a pre-release tag is present.
pub open spec fn version_chars(v: SemverView) -> Seq<char> {
    dec_of(v.major as nat) + seq!['.'] + dec_of(v.minor as nat) + seq!['.'] + dec_of(v.patch as nat)
        + if v.pre.len() == 0 {
        Seq::<char>::empty()
    } else {
        seq!['-'] + join_with(v.pre, seq!['.'])
    }
}

/// Format a version in its canonical text form.
pub fn format_semver(v: &Semver) -> (r: String)
    ensures
        r@ == version_chars(v@),
{
    let mut out: Vec<char> = Vec::new();
    push_dec(v.major, &mut out);
    out.push('.');
    push_dec(v.minor, &mut out);
    out.push('.');
    push_dec(v.patch, &mut out);
    if v.pre.len() > 0 {
        out.push('-');
        let mut dot: Vec<char> = Vec::new();
        dot.push('.');
        let joined = join_strs(&v.pre, &dot);
        push_all(&mut out, &joined);
        proof {
            lemma_strs_deep_view_is(&v.pre);
            assert(dot@ =~= seq!['.']);
            assert(out@ =~= version_chars(v@));
        }
    } else {
        proof {
            assert(out@ =~= version_chars(v@));
        }
    }
    string_from_chars(&out)
}

} // verus!
