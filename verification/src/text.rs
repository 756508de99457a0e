//! Shared text normalization.
//!
//! The same logical string must compare equal regardless of source
//! formatting, so both the string-table reader and the catalog reader run
//! their text through one normalizer: runs of whitespace that contain a line
//! break collapse to a single space, the mis-decoded right single quotation
//! mark becomes an apostrophe, and backslash-escaped apostrophes lose their
//! backslash.  The catalog side additionally reduces `%(name)` parameter
//! placeholders to a bare `%` marker, so that differently named placeholders
//! still match.

use vstd::prelude::*;
use vstd::string::*;

verus! {

/// The Unicode `White_Space` characters: the set that the regex `\s` class
/// matches.
pub open spec fn is_space_char(c: char) -> bool {
    (c as int) == 0x20 || (0x9 <= (c as int) && (c as int) <= 0xd) || (c as int) == 0x85 || (
    c as int) == 0xa0 || (c as int) == 0x1680 || (0x2000 <= (c as int) && (c as int) <= 0x200a) || (
    c as int) == 0x2028 || (c as int) == 0x2029 || (c as int) == 0x202f || (c as int) == 0x205f || (
    c as int) == 0x3000
}

/// Does `s` start with `p`?
pub open spec fn begins_with(s: Seq<char>, p: Seq<char>) -> bool {
    p.len() <= s.len() && (forall|j: int| 0 <= j < p.len() ==> s[j] == p[j])
}

/// Does `p` occur anywhere in `s`?
pub open spec fn occurs(s: Seq<char>, p: Seq<char>) -> bool
    decreases s.len(),
{
    if s.len() < p.len() {
        false
    } else {
        begins_with(s, p) || occurs(s.skip(1), p)
    }
}

/// Every occurrence of `p` in `s` (scanned left to right, leftmost first,
/// non-overlapping) replaced by `r`.
pub open spec fn replaced(s: Seq<char>, p: Seq<char>, r: Seq<char>) -> Seq<char>
    decreases s.len(),
{
    if s.len() == 0 || p.len() == 0 {
        s
    } else if begins_with(s, p) {
        r + replaced(s.skip(p.len() as int), p, r)
    } else {
        seq![s[0]] + replaced(s.skip(1), p, r)
    }
}

/// Length of the maximal run of whitespace characters at the start of `s`.
pub open spec fn space_run_len(s: Seq<char>) -> nat
    decreases s.len(),
{
    if s.len() == 0 || !is_space_char(s[0]) {
        0
    } else {
        (1 + space_run_len(s.skip(1))) as nat
    }
}

pub open spec fn contains_newline(s: Seq<char>) -> bool {
    exists|i: int| 0 <= i < s.len() && s[i] == '\n'
}

/// Each maximal run of whitespace that contains at least one line break,
/// collapsed to a single space; runs without a line break are kept.
pub open spec fn collapsed_breaks(s: Seq<char>) -> Seq<char>
    decreases s.len(),
    via collapsed_breaks_decreases
{
    if s.len() == 0 {
        Seq::empty()
    } else if !is_space_char(s[0]) {
        seq![s[0]] + collapsed_breaks(s.skip(1))
    } else {
        let k = space_run_len(s) as int;
        if contains_newline(s.take(k)) {
            seq![' '] + collapsed_breaks(s.skip(k))
        } else {
            s.take(k) + collapsed_breaks(s.skip(k))
        }
    }
}

/// The whitespace run at the start of a sequence is made of whitespace
/// characters and is no longer than the sequence.
pub proof fn lemma_space_run_len(s: Seq<char>)
    ensures
        space_run_len(s) <= s.len(),
        forall|j: int| 0 <= j < space_run_len(s) ==> is_space_char(s[j]),
    decreases s.len(),
{
    if s.len() == 0 || !is_space_char(s[0]) {
    } else {
        lemma_space_run_len(s.skip(1));
        assert forall|j: int| 0 <= j < space_run_len(s) implies is_space_char(s[j]) by {
            if j >= 1 {
                assert(is_space_char(s.skip(1)[j - 1]));
            }
        }
    }
}

#[via_fn]
proof fn collapsed_breaks_decreases(s: Seq<char>) {
    lemma_space_run_len(s);
}

/// The three characters that the UTF-8 encoding of a right single quotation
/// mark turns into when it is mis-decoded as Latin-1.
pub open spec fn apostrophe_variation() -> Seq<char> {
    seq!['\u{e2}', '\u{20ac}', '\u{2122}']
}

/// A backslash-escaped apostrophe.
pub open spec fn escaped_apostrophe() -> Seq<char> {
    seq!['\\', '\'']
}

pub open spec fn apostrophe() -> Seq<char> {
    seq!['\'']
}

/// The shared normalization: collapse line-break whitespace runs, fix the
/// mis-decoded quotation mark, then drop the backslash of escaped
/// apostrophes.
pub open spec fn normalized(s: Seq<char>) -> Seq<char> {
    replaced(
        replaced(collapsed_breaks(s), apostrophe_variation(), apostrophe()),
        escaped_apostrophe(),
        apostrophe(),
    )
}

/// Index of the first `c` in `s`, or -1 if there is none.
pub open spec fn find_char(s: Seq<char>, c: char) -> int
    decreases s.len(),
{
    if s.len() == 0 {
        -1
    } else if s[0] == c {
        0
    } else {
        let r = find_char(s.skip(1), c);
        if r < 0 {
            -1
        } else {
            r + 1
        }
    }
}

/// What `find_char` finds is the first occurrence.
pub proof fn lemma_find_char(s: Seq<char>, c: char)
    ensures
        find_char(s, c) >= 0 ==> find_char(s, c) < s.len() && s[find_char(s, c)] == c && (forall|
            j: int,
        | 0 <= j < find_char(s, c) ==> s[j] != c),
        find_char(s, c) < 0 ==> (forall|j: int| 0 <= j < s.len() ==> s[j] != c),
    decreases s.len(),
{
    if s.len() == 0 {
    } else if s[0] == c {
    } else {
        lemma_find_char(s.skip(1), c);
        let r = find_char(s.skip(1), c);
        if r >= 0 {
            assert(s[r + 1] == s.skip(1)[r]);
            assert forall|j: int| 0 <= j < r + 1 implies s[j] != c by {
                if j >= 1 {
                    assert(s.skip(1)[j - 1] != c);
                }
            }
        } else {
            assert forall|j: int| 0 <= j < s.len() implies s[j] != c by {
                if j >= 1 {
                    assert(s.skip(1)[j - 1] != c);
                }
            }
        }
    }
}

/// Each `%(name)` parameter placeholder replaced by a bare `%` marker.  The
/// placeholder runs from `%(` to the first closing parenthesis; a `%(`
/// without a closing parenthesis is left alone.
pub open spec fn stripped_params(s: Seq<char>) -> Seq<char>
    decreases s.len(),
    via stripped_params_decreases
{
    if s.len() == 0 {
        Seq::empty()
    } else if s.len() >= 2 && s[0] == '%' && s[1] == '(' && find_char(s.skip(2), ')') >= 0 {
        seq!['%'] + stripped_params(s.skip(3 + find_char(s.skip(2), ')')))
    } else {
        seq![s[0]] + stripped_params(s.skip(1))
    }
}

#[via_fn]
proof fn stripped_params_decreases(s: Seq<char>) {
    if s.len() >= 2 {
        lemma_find_char(s.skip(2), ')');
    }
}

/// The catalog-side normalization: the shared normalization followed by
/// parameter stripping.
pub open spec fn catalog_normalized(s: Seq<char>) -> Seq<char> {
    stripped_params(normalized(s))
}

/// Relies on `regex::Regex::new(r"\s*\n\s*")` and `Regex::replace_all`: the
/// pattern's greedy leftmost-first match takes a whole maximal whitespace run
/// that contains a line break, and every such run is replaced by one space.
#[verifier::external_body]
fn collapse_line_breaks(s: &str) -> (r: String)
    ensures
        r@ == collapsed_breaks(s@),
{
    regex::Regex::new(r"\s*\n\s*").unwrap().replace_all(s, " ").into_owned()
}

/// Relies on `regex::Regex::new` on a literal pattern and
/// `Regex::replace_all`: each occurrence of the three-character mis-decoded
/// quotation mark, leftmost first, is replaced by an apostrophe.
#[verifier::external_body]
fn fix_apostrophe_variation(s: &str) -> (r: String)
    ensures
        r@ == replaced(s@, apostrophe_variation(), apostrophe()),
{
    regex::Regex::new("\u{e2}\u{20ac}\u{2122}").unwrap().replace_all(s, "'").into_owned()
}

/// Relies on `regex::Regex::new(r"\\'")` and `Regex::replace_all`: each
/// backslash-apostrophe pair, leftmost first, is replaced by an apostrophe.
#[verifier::external_body]
fn unescape_apostrophes(s: &str) -> (r: String)
    ensures
        r@ == replaced(s@, escaped_apostrophe(), apostrophe()),
{
    regex::Regex::new(r"\\'").unwrap().replace_all(s, "'").into_owned()
}

/// Relies on `regex::Regex::new(r"%\([^)]*\)")` and `Regex::replace_all`:
/// each `%(` followed by a closing parenthesis, leftmost first, is replaced
/// together with everything up to that parenthesis by a `%`.
#[verifier::external_body]
fn strip_parameters(s: &str) -> (r: String)
    ensures
        r@ == stripped_params(s@),
{
    regex::Regex::new(r"%\([^)]*\)").unwrap().replace_all(s, "%").into_owned()
}

/// Two backslashes followed by an apostrophe: the one shape on which
/// dropping escaped apostrophes can leave a fresh escaped apostrophe
/// behind.
pub open spec fn double_backslash_apostrophe() -> Seq<char> {
    seq!['\\', '\\', '\'']
}

/// Two backslashes followed by the mis-decoded quotation mark, which the
/// quotation-mark fix turns into two backslashes and an apostrophe.
pub open spec fn double_backslash_variation() -> Seq<char> {
    seq!['\\', '\\', '\u{e2}', '\u{20ac}', '\u{2122}']
}

proof fn lemma_occurs_skip(s: Seq<char>, p: Seq<char>, k: int)
    requires
        0 <= k <= s.len(),
        occurs(s.skip(k), p),
    ensures
        occurs(s, p),
    decreases k,
{
    if k == 0 {
        assert(s.skip(0) =~= s);
    } else {
        assert(s.skip(1).skip(k - 1) =~= s.skip(k));
        lemma_occurs_skip(s.skip(1), p, k - 1);
        if s.len() < p.len() {
            assert(s.skip(1).len() < p.len());
        }
    }
}

proof fn lemma_collapsed_no_newline(s: Seq<char>)
    ensures
        !contains_newline(collapsed_breaks(s)),
    decreases s.len(),
{
    let c = collapsed_breaks(s);
    if s.len() == 0 {
    } else if !is_space_char(s[0]) {
        lemma_collapsed_no_newline(s.skip(1));
        if contains_newline(c) {
            let w = choose|i: int| 0 <= i < c.len() && c[i] == '\n';
            if w == 0 {
                assert(!is_space_char('\n') == false);
            } else {
                assert(collapsed_breaks(s.skip(1))[w - 1] == '\n');
            }
        }
    } else {
        lemma_space_run_len(s);
        let k = space_run_len(s) as int;
        lemma_collapsed_no_newline(s.skip(k));
        if contains_newline(s.take(k)) {
            if contains_newline(c) {
                let w = choose|i: int| 0 <= i < c.len() && c[i] == '\n';
                if w >= 1 {
                    assert(collapsed_breaks(s.skip(k))[w - 1] == '\n');
                }
            }
        } else {
            if contains_newline(c) {
                let w = choose|i: int| 0 <= i < c.len() && c[i] == '\n';
                if w < k {
                    assert(s.take(k)[w] == '\n');
                } else {
                    assert(collapsed_breaks(s.skip(k))[w - k] == '\n');
                }
            }
        }
    }
}

proof fn lemma_collapsed_id_no_newline(s: Seq<char>)
    requires
        !contains_newline(s),
    ensures
        collapsed_breaks(s) == s,
    decreases s.len(),
{
    if s.len() == 0 {
        assert(collapsed_breaks(s) =~= s);
    } else if !is_space_char(s[0]) {
        assert forall|i: int| 0 <= i < s.skip(1).len() implies s.skip(1)[i] != '\n' by {
            assert(s.skip(1)[i] == s[i + 1]);
        }
        lemma_collapsed_id_no_newline(s.skip(1));
        assert(collapsed_breaks(s) =~= s);
    } else {
        lemma_space_run_len(s);
        let k = space_run_len(s) as int;
        if contains_newline(s.take(k)) {
            let w = choose|i: int| 0 <= i < k && s.take(k)[i] == '\n';
            assert(s[w] == '\n');
            assert(false);
        }
        assert forall|i: int| 0 <= i < s.skip(k).len() implies s.skip(k)[i] != '\n' by {
            assert(s.skip(k)[i] == s[i + k]);
        }
        lemma_collapsed_id_no_newline(s.skip(k));
        assert(collapsed_breaks(s) =~= s.take(k) + s.skip(k));
        assert(s.take(k) + s.skip(k) =~= s);
    }
}

proof fn lemma_replaced_id_when_no_occurrence(s: Seq<char>, p: Seq<char>, r: Seq<char>)
    requires
        p.len() > 0,
        !occurs(s, p),
    ensures
        replaced(s, p, r) == s,
    decreases s.len(),
{
    if s.len() == 0 {
    } else {
        assert(!begins_with(s, p));
        if s.skip(1).len() >= p.len() {
            assert(!occurs(s.skip(1), p));
        }
        lemma_replaced_id_when_no_occurrence(s.skip(1), p, r);
        assert(replaced(s, p, r) =~= s);
    }
}

proof fn lemma_replaced_no_newline(s: Seq<char>, p: Seq<char>, r: Seq<char>)
    requires
        p.len() > 0,
        !contains_newline(s),
        !contains_newline(r),
    ensures
        !contains_newline(replaced(s, p, r)),
    decreases s.len(),
{
    let out = replaced(s, p, r);
    if s.len() == 0 {
    } else if begins_with(s, p) {
        assert forall|i: int| 0 <= i < s.skip(p.len() as int).len() implies s.skip(
            p.len() as int,
        )[i] != '\n' by {
            assert(s.skip(p.len() as int)[i] == s[i + p.len()]);
        }
        lemma_replaced_no_newline(s.skip(p.len() as int), p, r);
        if contains_newline(out) {
            let w = choose|i: int| 0 <= i < out.len() && out[i] == '\n';
            if w < r.len() {
                assert(r[w] == '\n');
            } else {
                assert(replaced(s.skip(p.len() as int), p, r)[w - r.len()] == '\n');
            }
        }
    } else {
        assert forall|i: int| 0 <= i < s.skip(1).len() implies s.skip(1)[i] != '\n' by {
            assert(s.skip(1)[i] == s[i + 1]);
        }
        lemma_replaced_no_newline(s.skip(1), p, r);
        if contains_newline(out) {
            let w = choose|i: int| 0 <= i < out.len() && out[i] == '\n';
            if w == 0 {
                assert(s[0] == '\n');
            } else {
                assert(replaced(s.skip(1), p, r)[w - 1] == '\n');
            }
        }
    }
}

proof fn lemma_replaced_head(w: Seq<char>, p: Seq<char>, q: char)
    requires
        p.len() > 0,
    ensures
        w.len() == 0 ==> replaced(w, p, seq![q]) == w,
        w.len() > 0 ==> replaced(w, p, seq![q]).len() > 0,
        w.len() > 0 && begins_with(w, p) ==> replaced(w, p, seq![q])[0] == q,
        w.len() > 0 && !begins_with(w, p) ==> replaced(w, p, seq![q])[0] == w[0],
{
}

/// After fixing the mis-decoded quotation mark, no occurrence of it is
/// left.
proof fn lemma_fix_variation_clean(u: Seq<char>)
    ensures
        !occurs(replaced(u, apostrophe_variation(), apostrophe()), apostrophe_variation()),
    decreases u.len(),
{
    let p = apostrophe_variation();
    let r = replaced(u, p, apostrophe());
    if u.len() == 0 {
    } else if begins_with(u, p) {
        lemma_fix_variation_clean(u.skip(3));
        assert(r.skip(1) =~= replaced(u.skip(3), p, apostrophe()));
        if occurs(r, p) {
            if begins_with(r, p) {
                assert(r[0] == '\'');
            }
        }
    } else {
        lemma_fix_variation_clean(u.skip(1));
        assert(r == seq![u[0]] + replaced(u.skip(1), p, apostrophe()));
        assert(r.skip(1) =~= replaced(u.skip(1), p, apostrophe()));
        if occurs(r, p) {
            assert(begins_with(r, p));
            assert(u[0] == '\u{e2}');
            let r1 = replaced(u.skip(1), p, apostrophe());
            assert(r[1] == r1[0] && r1[0] == '\u{20ac}');
            lemma_replaced_head(u.skip(1), p, '\'');
            assert(u.skip(1).len() > 0 && u.skip(1)[0] == '\u{20ac}');
            assert(!begins_with(u.skip(1), p));
            assert(r1 == seq![u.skip(1)[0]] + replaced(u.skip(1).skip(1), p, apostrophe()));
            assert(u.skip(1).skip(1) =~= u.skip(2));
            let r2 = replaced(u.skip(2), p, apostrophe());
            assert(r[2] == r1[1] && r1[1] == r2[0] && r2[0] == '\u{2122}');
            lemma_replaced_head(u.skip(2), p, '\'');
            assert(u.skip(2).len() > 0 && u.skip(2)[0] == '\u{2122}');
            assert(u[1] == '\u{20ac}' && u[2] == '\u{2122}');
            assert(begins_with(u, p));
            assert(false);
        }
    }
}

/// Dropping escaped apostrophes leaves no escaped apostrophe behind, as
/// long as no apostrophe was escaped twice over.
proof fn lemma_unescape_clean(u: Seq<char>)
    requires
        !occurs(u, double_backslash_apostrophe()),
    ensures
        !occurs(replaced(u, escaped_apostrophe(), apostrophe()), escaped_apostrophe()),
    decreases u.len(),
{
    let p = escaped_apostrophe();
    let r = replaced(u, p, apostrophe());
    if u.len() == 0 {
    } else if begins_with(u, p) {
        if occurs(u.skip(2), double_backslash_apostrophe()) {
            lemma_occurs_skip(u, double_backslash_apostrophe(), 2);
        }
        lemma_unescape_clean(u.skip(2));
        assert(r.skip(1) =~= replaced(u.skip(2), p, apostrophe()));
        if occurs(r, p) {
            if begins_with(r, p) {
                assert(r[0] == '\'');
            }
        }
    } else {
        if occurs(u.skip(1), double_backslash_apostrophe()) {
            lemma_occurs_skip(u, double_backslash_apostrophe(), 1);
        }
        lemma_unescape_clean(u.skip(1));
        assert(r == seq![u[0]] + replaced(u.skip(1), p, apostrophe()));
        assert(r.skip(1) =~= replaced(u.skip(1), p, apostrophe()));
        if occurs(r, p) {
            assert(begins_with(r, p));
            assert(u[0] == '\\');
            let r1 = replaced(u.skip(1), p, apostrophe());
            assert(r[1] == r1[0] && r1[0] == '\'');
            lemma_replaced_head(u.skip(1), p, '\'');
            assert(u.skip(1).len() > 0);
            if begins_with(u.skip(1), p) {
                assert(u[1] == '\\' && u[2] == '\'');
                assert(begins_with(u, double_backslash_apostrophe()));
                assert(occurs(u, double_backslash_apostrophe()));
            } else {
                assert(u.skip(1)[0] == '\'');
                assert(u[1] == '\'');
                assert(begins_with(u, p));
            }
            assert(false);
        }
    }
}

/// Dropping escaped apostrophes cannot form a new mis-decoded quotation
/// mark.
proof fn lemma_unescape_preserves_no_variation(u: Seq<char>)
    requires
        !occurs(u, apostrophe_variation()),
    ensures
        !occurs(replaced(u, escaped_apostrophe(), apostrophe()), apostrophe_variation()),
    decreases u.len(),
{
    let p = escaped_apostrophe();
    let v = apostrophe_variation();
    let r = replaced(u, p, apostrophe());
    if u.len() == 0 {
    } else if begins_with(u, p) {
        if occurs(u.skip(2), v) {
            lemma_occurs_skip(u, v, 2);
        }
        lemma_unescape_preserves_no_variation(u.skip(2));
        assert(r.skip(1) =~= replaced(u.skip(2), p, apostrophe()));
        if occurs(r, v) {
            if begins_with(r, v) {
                assert(r[0] == '\'');
            }
        }
    } else {
        if occurs(u.skip(1), v) {
            lemma_occurs_skip(u, v, 1);
        }
        lemma_unescape_preserves_no_variation(u.skip(1));
        assert(r == seq![u[0]] + replaced(u.skip(1), p, apostrophe()));
        assert(r.skip(1) =~= replaced(u.skip(1), p, apostrophe()));
        if occurs(r, v) {
            assert(begins_with(r, v));
            assert(u[0] == '\u{e2}');
            let r1 = replaced(u.skip(1), p, apostrophe());
            assert(r[1] == r1[0] && r1[0] == '\u{20ac}');
            lemma_replaced_head(u.skip(1), p, '\'');
            assert(u.skip(1).len() > 0 && u.skip(1)[0] == '\u{20ac}');
            assert(!begins_with(u.skip(1), p));
            assert(r1 == seq![u.skip(1)[0]] + replaced(u.skip(1).skip(1), p, apostrophe()));
            assert(u.skip(1).skip(1) =~= u.skip(2));
            let r2 = replaced(u.skip(2), p, apostrophe());
            assert(r[2] == r1[1] && r1[1] == r2[0] && r2[0] == '\u{2122}');
            lemma_replaced_head(u.skip(2), p, '\'');
            assert(u.skip(2).len() > 0 && u.skip(2)[0] == '\u{2122}');
            assert(u[1] == '\u{20ac}' && u[2] == '\u{2122}');
            assert(begins_with(u, v));
            assert(occurs(u, v));
            assert(false);
        }
    }
}

/// Fixing the mis-decoded quotation mark cannot form a twice-escaped
/// apostrophe unless the input held one, or held the quotation mark behind
/// two backslashes.
proof fn lemma_fix_variation_preserves_no_triple(u: Seq<char>)
    requires
        !occurs(u, double_backslash_apostrophe()),
        !occurs(u, double_backslash_variation()),
    ensures
        !occurs(
            replaced(u, apostrophe_variation(), apostrophe()),
            double_backslash_apostrophe(),
        ),
    decreases u.len(),
{
    let p = apostrophe_variation();
    let t = double_backslash_apostrophe();
    let r = replaced(u, p, apostrophe());
    if u.len() == 0 {
    } else if begins_with(u, p) {
        if occurs(u.skip(3), t) {
            lemma_occurs_skip(u, t, 3);
        }
        if occurs(u.skip(3), double_backslash_variation()) {
            lemma_occurs_skip(u, double_backslash_variation(), 3);
        }
        lemma_fix_variation_preserves_no_triple(u.skip(3));
        assert(r.skip(1) =~= replaced(u.skip(3), p, apostrophe()));
        if occurs(r, t) {
            if begins_with(r, t) {
                assert(r[0] == '\'');
            }
        }
    } else {
        if occurs(u.skip(1), t) {
            lemma_occurs_skip(u, t, 1);
        }
        if occurs(u.skip(1), double_backslash_variation()) {
            lemma_occurs_skip(u, double_backslash_variation(), 1);
        }
        lemma_fix_variation_preserves_no_triple(u.skip(1));
        assert(r == seq![u[0]] + replaced(u.skip(1), p, apostrophe()));
        assert(r.skip(1) =~= replaced(u.skip(1), p, apostrophe()));
        if occurs(r, t) {
            assert(begins_with(r, t));
            assert(u[0] == '\\');
            let r1 = replaced(u.skip(1), p, apostrophe());
            assert(r[1] == r1[0] && r1[0] == '\\');
            lemma_replaced_head(u.skip(1), p, '\'');
            assert(u.skip(1).len() > 0 && u.skip(1)[0] == '\\');
            assert(!begins_with(u.skip(1), p));
            assert(r1 == seq![u.skip(1)[0]] + replaced(u.skip(1).skip(1), p, apostrophe()));
            assert(u.skip(1).skip(1) =~= u.skip(2));
            let r2 = replaced(u.skip(2), p, apostrophe());
            assert(r[2] == r1[1] && r1[1] == r2[0] && r2[0] == '\'');
            lemma_replaced_head(u.skip(2), p, '\'');
            assert(u.skip(2).len() > 0);
            assert(u[1] == '\\');
            if begins_with(u.skip(2), p) {
                assert(u[2] == '\u{e2}' && u[3] == '\u{20ac}' && u[4] == '\u{2122}');
                assert(begins_with(u, double_backslash_variation()));
                assert(occurs(u, double_backslash_variation()));
            } else {
                assert(u.skip(2)[0] == '\'');
                assert(u[2] == '\'');
                assert(begins_with(u, t));
                assert(occurs(u, t));
            }
            assert(false);
        }
    }
}

proof fn lemma_occurs_concat_allspace(b: Seq<char>, t: Seq<char>, p: Seq<char>)
    requires
        p.len() > 0,
        forall|i: int| 0 <= i < b.len() ==> is_space_char(b[i]),
        forall|i: int| 0 <= i < p.len() ==> !is_space_char(p[i]),
    ensures
        occurs(b + t, p) <==> occurs(t, p),
    decreases b.len(),
{
    if b.len() == 0 {
        assert(b + t =~= t);
    } else {
        assert forall|i: int| 0 <= i < b.skip(1).len() implies is_space_char(b.skip(1)[i]) by {
            assert(b.skip(1)[i] == b[i + 1]);
        }
        lemma_occurs_concat_allspace(b.skip(1), t, p);
        let s = b + t;
        assert(s.skip(1) =~= b.skip(1) + t);
        if s.len() >= p.len() {
            assert(s[0] == b[0]);
            assert(!begins_with(s, p));
        } else {
            if occurs(t, p) {
                assert(t.len() >= p.len());
            }
        }
    }
}

proof fn lemma_collapse_prefix(u: Seq<char>, q: Seq<char>)
    requires
        forall|i: int| 0 <= i < q.len() ==> !is_space_char(q[i]),
        begins_with(collapsed_breaks(u), q),
    ensures
        begins_with(u, q),
    decreases u.len(),
{
    if q.len() == 0 {
    } else if u.len() == 0 {
        assert(collapsed_breaks(u).len() == 0);
    } else if !is_space_char(u[0]) {
        let c = collapsed_breaks(u);
        assert(c == seq![u[0]] + collapsed_breaks(u.skip(1)));
        assert(q[0] == c[0] && c[0] == u[0]);
        assert forall|i: int| 0 <= i < q.skip(1).len() implies !is_space_char(q.skip(1)[i]) by {
            assert(q.skip(1)[i] == q[i + 1]);
        }
        assert forall|j: int| 0 <= j < q.skip(1).len() implies collapsed_breaks(u.skip(1))[j]
            == q.skip(1)[j] by {
            assert(c[j + 1] == q[j + 1]);
        }
        lemma_collapse_prefix(u.skip(1), q.skip(1));
        assert forall|j: int| 0 <= j < q.len() implies u[j] == q[j] by {
            if j >= 1 {
                assert(u.skip(1)[j - 1] == q.skip(1)[j - 1]);
            }
        }
    } else {
        lemma_space_run_len(u);
        let c = collapsed_breaks(u);
        let k = space_run_len(u) as int;
        if contains_newline(u.take(k)) {
            assert(c[0] == ' ');
            assert(is_space_char(' '));
            assert(!is_space_char(q[0]));
            assert(q[0] == c[0]);
        } else {
            assert(c[0] == u.take(k)[0]);
            assert(is_space_char(u[0]));
            assert(q[0] == c[0]);
        }
    }
}

proof fn lemma_collapse_preserves_no_occurrence(s: Seq<char>, p: Seq<char>)
    requires
        p.len() > 0,
        forall|i: int| 0 <= i < p.len() ==> !is_space_char(p[i]),
        !occurs(s, p),
    ensures
        !occurs(collapsed_breaks(s), p),
    decreases s.len(),
{
    let c = collapsed_breaks(s);
    if s.len() == 0 {
    } else if !is_space_char(s[0]) {
        if occurs(s.skip(1), p) {
            lemma_occurs_skip(s, p, 1);
        }
        lemma_collapse_preserves_no_occurrence(s.skip(1), p);
        assert(c == seq![s[0]] + collapsed_breaks(s.skip(1)));
        assert(c.skip(1) =~= collapsed_breaks(s.skip(1)));
        if occurs(c, p) {
            assert(begins_with(c, p));
            assert forall|j: int| 0 <= j < p.skip(1).len() implies collapsed_breaks(s.skip(1))[j]
                == p.skip(1)[j] by {
                assert(c[j + 1] == p[j + 1]);
            }
            assert forall|i: int| 0 <= i < p.skip(1).len() implies !is_space_char(
                p.skip(1)[i],
            ) by {
                assert(p.skip(1)[i] == p[i + 1]);
            }
            lemma_collapse_prefix(s.skip(1), p.skip(1));
            assert forall|j: int| 0 <= j < p.len() implies s[j] == p[j] by {
                if j >= 1 {
                    assert(s.skip(1)[j - 1] == p.skip(1)[j - 1]);
                }
            }
            assert(begins_with(s, p));
            assert(occurs(s, p));
            assert(false);
        }
    } else {
        lemma_space_run_len(s);
        let k = space_run_len(s) as int;
        if occurs(s.skip(k), p) {
            lemma_occurs_skip(s, p, k);
        }
        lemma_collapse_preserves_no_occurrence(s.skip(k), p);
        if contains_newline(s.take(k)) {
            assert(c == seq![' '] + collapsed_breaks(s.skip(k)));
            assert(is_space_char(' '));
            lemma_occurs_concat_allspace(seq![' '], collapsed_breaks(s.skip(k)), p);
        } else {
            assert(c == s.take(k) + collapsed_breaks(s.skip(k)));
            assert forall|i: int| 0 <= i < s.take(k).len() implies is_space_char(
                s.take(k)[i],
            ) by {
                assert(s.take(k)[i] == s[i]);
            }
            lemma_occurs_concat_allspace(s.take(k), collapsed_breaks(s.skip(k)), p);
        }
    }
}

/// Normalization is idempotent.  The two excluded shapes are the only ones
/// on which a first pass can itself manufacture a new escaped apostrophe,
/// which a second pass would then also drop.
pub proof fn lemma_normalized_idempotent(s: Seq<char>)
    requires
        !occurs(s, double_backslash_apostrophe()),
        !occurs(s, double_backslash_variation()),
    ensures
        normalized(normalized(s)) == normalized(s),
{
    let c = collapsed_breaks(s);
    let v = replaced(c, apostrophe_variation(), apostrophe());
    let t = replaced(v, escaped_apostrophe(), apostrophe());
    assert(t == normalized(s));
    lemma_collapsed_no_newline(s);
    assert(!contains_newline(apostrophe())) by {
        if contains_newline(apostrophe()) {
            let w = choose|i: int| 0 <= i < apostrophe().len() && apostrophe()[i] == '\n';
            assert(apostrophe()[w] == '\'');
        }
    }
    lemma_replaced_no_newline(c, apostrophe_variation(), apostrophe());
    lemma_replaced_no_newline(v, escaped_apostrophe(), apostrophe());
    lemma_collapsed_id_no_newline(t);
    lemma_fix_variation_clean(c);
    lemma_unescape_preserves_no_variation(v);
    lemma_replaced_id_when_no_occurrence(t, apostrophe_variation(), apostrophe());
    lemma_collapse_preserves_no_occurrence(s, double_backslash_apostrophe());
    lemma_collapse_preserves_no_occurrence(s, double_backslash_variation());
    lemma_fix_variation_preserves_no_triple(c);
    lemma_unescape_clean(v);
    lemma_replaced_id_when_no_occurrence(t, escaped_apostrophe(), apostrophe());
}

/// Does `s` start with `p`?
pub fn starts_with_str(s: &str, p: &str) -> (b: bool)
    ensures
        b == begins_with(s@, p@),
{
    let n = s.unicode_len();
    let m = p.unicode_len();
    if m > n {
        return false;
    }
    let mut j: usize = 0;
    while j < m
        invariant
            n == s@.len(),
            m == p@.len(),
            m <= n,
            j <= m,
            forall|k: int| 0 <= k < j ==> s@[k] == p@[k],
        decreases m - j,
    {
        if s.get_char(j) != p.get_char(j) {
            return false;
        }
        j = j + 1;
    }
    true
}

/// The shared normalization pass over one string.
pub fn normalize(s: &str) -> (r: String)
    ensures
        r@ == normalized(s@),
{
    let collapsed = collapse_line_breaks(s);
    let fixed = fix_apostrophe_variation(collapsed.as_str());
    unescape_apostrophes(fixed.as_str())
}

/// The catalog-side normalization pass over one string.
pub fn normalize_catalog_text(s: &str) -> (r: String)
    ensures
        r@ == catalog_normalized(s@),
{
    let shared = normalize(s);
    strip_parameters(shared.as_str())
}

} // verus!
