//! The gettext side: parsing a translation catalog's `msgid "…"` /
//! `msgstr "…"` line pairs, and serializing new template entries.
//!
//! The line scanner is deliberately lenient: a line that is not a recognized
//! pair member simply resets the pending state, it never raises an error.

use vstd::prelude::*;
use vstd::string::*;
use crate::text;

verus! {

/// One catalog entry: an original text and its translation.
#[derive(Clone, Debug)]
pub struct MsgEntry {
    pub id: String,
    pub value: String,
}

impl View for MsgEntry {
    type V = (Seq<char>, Seq<char>);

    open spec fn view(&self) -> (Seq<char>, Seq<char>) {
        (self.id@, self.value@)
    }
}

/// The views of a sequence of catalog entries.
pub open spec fn msg_models(s: Seq<MsgEntry>) -> Seq<(Seq<char>, Seq<char>)> {
    s.map_values(|e: MsgEntry| e@)
}

/// Does `s` end with `p`?
pub open spec fn ends_with(s: Seq<char>, p: Seq<char>) -> bool {
    p.len() <= s.len() && (forall|j: int|
        0 <= j < p.len() ==> s[s.len() - p.len() + j] == p[j])
}

/// The text between a fixed prefix and suffix, if the line carries both
/// around at least zero characters of text.
pub open spec fn spec_parse_line(l: Seq<char>, p: Seq<char>, sfx: Seq<char>) -> Option<Seq<char>> {
    if p.len() + sfx.len() <= l.len() && text::begins_with(l, p) && ends_with(l, sfx) {
        Some(l.subrange(p.len() as int, l.len() - sfx.len()))
    } else {
        None
    }
}

/// Index of the first non-whitespace character, or -1 if there is none.
pub open spec fn first_non_space(s: Seq<char>) -> int
    decreases s.len(),
{
    if s.len() == 0 {
        -1
    } else if !text::is_space_char(s[0]) {
        0
    } else {
        let r = first_non_space(s.skip(1));
        if r < 0 {
            -1
        } else {
            r + 1
        }
    }
}

/// Index of the last non-whitespace character, or -1 if there is none.
pub open spec fn last_non_space(s: Seq<char>) -> int
    decreases s.len(),
{
    if s.len() == 0 {
        -1
    } else if !text::is_space_char(s[s.len() - 1]) {
        s.len() - 1
    } else {
        last_non_space(s.drop_last())
    }
}

/// `s` with surrounding whitespace removed.
pub open spec fn spec_trim(s: Seq<char>) -> Seq<char> {
    if first_non_space(s) < 0 {
        Seq::empty()
    } else {
        s.subrange(first_non_space(s), last_non_space(s) + 1)
    }
}

pub proof fn lemma_first_non_space(s: Seq<char>)
    ensures
        first_non_space(s) >= 0 ==> first_non_space(s) < s.len() && !text::is_space_char(
            s[first_non_space(s)],
        ) && (forall|j: int| 0 <= j < first_non_space(s) ==> text::is_space_char(s[j])),
        first_non_space(s) < 0 ==> (forall|j: int|
            0 <= j < s.len() ==> text::is_space_char(s[j])),
    decreases s.len(),
{
    if s.len() == 0 {
    } else if !text::is_space_char(s[0]) {
    } else {
        lemma_first_non_space(s.skip(1));
        let r = first_non_space(s.skip(1));
        if r >= 0 {
            assert(s[r + 1] == s.skip(1)[r]);
            assert forall|j: int| 0 <= j < r + 1 implies text::is_space_char(s[j]) by {
                if j >= 1 {
                    assert(text::is_space_char(s.skip(1)[j - 1]));
                }
            }
        } else {
            assert forall|j: int| 0 <= j < s.len() implies text::is_space_char(s[j]) by {
                if j >= 1 {
                    assert(text::is_space_char(s.skip(1)[j - 1]));
                }
            }
        }
    }
}

pub proof fn lemma_last_non_space(s: Seq<char>)
    ensures
        last_non_space(s) >= 0 ==> last_non_space(s) < s.len() && !text::is_space_char(
            s[last_non_space(s)],
        ) && (forall|j: int|
            last_non_space(s) < j < s.len() ==> text::is_space_char(s[j])),
        last_non_space(s) < 0 ==> (forall|j: int|
            0 <= j < s.len() ==> text::is_space_char(s[j])),
    decreases s.len(),
{
    if s.len() == 0 {
    } else if !text::is_space_char(s[s.len() - 1]) {
    } else {
        lemma_last_non_space(s.drop_last());
        assert(forall|j: int| 0 <= j < s.drop_last().len() ==> s.drop_last()[j] == s[j]);
    }
}

/// Is this character in the Unicode `White_Space` set?
pub fn is_space(c: char) -> (b: bool)
    ensures
        b == text::is_space_char(c),
{
    let u = c as u32;
    u == 0x20 || (0x9 <= u && u <= 0xd) || u == 0x85 || u == 0xa0 || u == 0x1680 || (0x2000 <= u
        && u <= 0x200a) || u == 0x2028 || u == 0x2029 || u == 0x202f || u == 0x205f || u == 0x3000
}

/// `s` with surrounding whitespace removed.
pub fn trim(s: &str) -> (r: &str)
    ensures
        r@ == spec_trim(s@),
{
    proof {
        lemma_first_non_space(s@);
        lemma_last_non_space(s@);
    }
    let n = s.unicode_len();
    let mut a: usize = 0;
    while a < n && is_space(s.get_char(a))
        invariant
            n == s@.len(),
            a <= n,
            forall|j: int| 0 <= j < a ==> text::is_space_char(s@[j]),
        decreases n - a,
    {
        a = a + 1;
    }
    if a == n {
        let r = s.substring_char(0, 0);
        proof {
            assert(first_non_space(s@) < 0);
            assert(r@ =~= spec_trim(s@));
        }
        return r;
    }
    proof {
        assert(first_non_space(s@) == a as int);
    }
    let mut b: usize = n;
    while b > a + 1 && is_space(s.get_char(b - 1))
        invariant
            n == s@.len(),
            a < n,
            a + 1 <= b <= n,
            forall|j: int| b <= j < n ==> text::is_space_char(s@[j]),
        decreases b,
    {
        b = b - 1;
    }
    proof {
        if b == a + 1 && text::is_space_char(s@[b - 1]) {
            assert(!text::is_space_char(s@[a as int]));
        }
        assert(!text::is_space_char(s@[b - 1]));
        assert(last_non_space(s@) == b - 1);
    }
    let r = s.substring_char(a, b);
    proof {
        assert(r@ =~= spec_trim(s@));
    }
    r
}

/// Does `s` end with `p`?
pub fn ends_with_str(s: &str, p: &str) -> (b: bool)
    ensures
        b == ends_with(s@, p@),
{
    let n = s.unicode_len();
    let m = p.unicode_len();
    if m > n {
        return false;
    }
    let off = n - m;
    let mut j: usize = 0;
    while j < m
        invariant
            n == s@.len(),
            m == p@.len(),
            m <= n,
            off == n - m,
            j <= m,
            forall|k: int| 0 <= k < j ==> s@[off + k] == p@[k],
        decreases m - j,
    {
        if s.get_char(off + j) != p.get_char(j) {
            return false;
        }
        j = j + 1;
    }
    true
}

/// The text between a fixed prefix and suffix, if the line carries both.
/// The quoted text is taken verbatim; no escape decoding is performed.
pub fn parse_line<'l>(line: &'l str, prefix: &str, suffix: &str) -> (r: Option<&'l str>)
    ensures
        (match r {
            Some(t) => spec_parse_line(line@, prefix@, suffix@) == Some(t@),
            None => spec_parse_line(line@, prefix@, suffix@) is None,
        }),
{
    let n = line.unicode_len();
    let pl = prefix.unicode_len();
    let sl = suffix.unicode_len();
    if n < pl || n - pl < sl {
        return None;
    }
    if !text::starts_with_str(line, prefix) {
        return None;
    }
    if !ends_with_str(line, suffix) {
        return None;
    }
    let r = line.substring_char(pl, n - sl);
    proof {
        assert(r@ =~= line@.subrange(pl as int, n - sl));
    }
    Some(r)
}

pub open spec fn msgid_prefix() -> Seq<char> {
    seq!['m', 's', 'g', 'i', 'd', ' ', '"']
}

pub open spec fn msgstr_prefix() -> Seq<char> {
    seq!['m', 's', 'g', 's', 't', 'r', ' ', '"']
}

pub open spec fn quote() -> Seq<char> {
    seq!['"']
}

/// The catalog line scanner: a `msgid` line makes its normalized text
/// pending; a `msgstr` line emits an entry if an id is pending; any other
/// line, and the `msgstr` line itself, resets the pending state.
pub open spec fn spec_catalog(lines: Seq<Seq<char>>, pending: Option<Seq<char>>) -> Seq<
    (Seq<char>, Seq<char>),
>
    decreases lines.len(),
{
    if lines.len() == 0 {
        Seq::empty()
    } else {
        let l = spec_trim(lines[0]);
        if spec_parse_line(l, msgid_prefix(), quote()) is Some {
            spec_catalog(
                lines.skip(1),
                Some(
                    text::catalog_normalized(
                        spec_parse_line(l, msgid_prefix(), quote()).unwrap(),
                    ),
                ),
            )
        } else if spec_parse_line(l, msgstr_prefix(), quote()) is Some && pending is Some {
            seq![
                (
                    pending.unwrap(),
                    text::catalog_normalized(
                        spec_parse_line(l, msgstr_prefix(), quote()).unwrap(),
                    ),
                ),
            ] + spec_catalog(lines.skip(1), None)
        } else {
            spec_catalog(lines.skip(1), None)
        }
    }
}

pub open spec fn opt_view(o: Option<String>) -> Option<Seq<char>> {
    match o {
        Some(p) => Some(p@),
        None => None,
    }
}

pub open spec fn line_views(lines: Seq<String>) -> Seq<Seq<char>> {
    lines.map_values(|l: String| l@)
}

/// Scan a catalog, given line by line, into its entries, normalizing both
/// the original and the translated text.
pub fn parse_catalog(lines: &Vec<String>) -> (r: Vec<MsgEntry>)
    ensures
        msg_models(r@) == spec_catalog(line_views(lines@), None),
{
    let ghost all = line_views(lines@);
    let mut out: Vec<MsgEntry> = Vec::new();
    let mut pending: Option<String> = None;
    let n = lines.len();
    let mut i: usize = 0;
    proof {
        assert(all.skip(0) =~= all);
        assert(msg_models(out@) + spec_catalog(all, None) =~= spec_catalog(all, None));
    }
    while i < n
        invariant
            n == lines@.len(),
            all == line_views(lines@),
            i <= n,
            msg_models(out@) + spec_catalog(all.skip(i as int), opt_view(pending)) == spec_catalog(
                all,
                None,
            ),
        decreases n - i,
    {
        proof {
            assert(all.skip(i as int)[0] == all[i as int]);
            assert(all[i as int] == lines@[i as int]@);
            assert(all.skip(i as int).skip(1) =~= all.skip(i as int + 1));
        }
        let line = trim(lines[i].as_str());
        let msgid_mark = "msgid \"";
        let msgstr_mark = "msgstr \"";
        let quote_mark = "\"";
        proof {
            reveal_strlit("msgid \"");
            reveal_strlit("msgstr \"");
            reveal_strlit("\"");
            assert(msgid_mark@ =~= msgid_prefix());
            assert(msgstr_mark@ =~= msgstr_prefix());
            assert(quote_mark@ =~= quote());
        }
        match parse_line(line, msgid_mark, quote_mark) {
            Some(id) => {
                pending = Some(text::normalize_catalog_text(id));
            },
            None => {
                let prev = pending;
                pending = None;
                match parse_line(line, msgstr_mark, quote_mark) {
                    Some(translation) => {
                        match prev {
                            Some(id) => {
                                let value = text::normalize_catalog_text(translation);
                                out.push(MsgEntry { id, value });
                                proof {
                                    assert(msg_models(out@) =~= msg_models(out@.drop_last()).push(
                                        out@.last()@,
                                    ));
                                }
                            },
                            None => {},
                        }
                    },
                    None => {},
                }
            },
        }
        proof {
            assert(msg_models(out@) + spec_catalog(all.skip(i as int + 1), opt_view(pending))
                =~= spec_catalog(all, None));
        }
        i = i + 1;
    }
    proof {
        assert(all.skip(n as int) =~= Seq::<Seq<char>>::empty());
        assert(msg_models(out@) + spec_catalog(all.skip(n as int), opt_view(pending)) =~= msg_models(
            out@,
        ));
    }
    out
}

/// The template form of one entry: a blank line, its `msgid` line, and its
/// `msgstr` line, quoted the way the scanner reads them back.
pub open spec fn entry_block(p: (Seq<char>, Seq<char>)) -> Seq<char> {
    seq!['\n', 'm', 's', 'g', 'i', 'd', ' ', '"'] + p.0 + seq![
        '"',
        '\n',
        'm',
        's',
        'g',
        's',
        't',
        'r',
        ' ',
        '"',
    ] + p.1 + seq!['"', '\n']
}

/// The template form of a sequence of entries, in order.
pub open spec fn spec_template(s: Seq<(Seq<char>, Seq<char>)>) -> Seq<char>
    decreases s.len(),
{
    if s.len() == 0 {
        Seq::empty()
    } else {
        entry_block(s[0]) + spec_template(s.skip(1))
    }
}

/// Serialize entries in the form appended to the catalog template, readable
/// back by the scanner.
pub fn template_block(entries: &Vec<MsgEntry>) -> (r: String)
    ensures
        r@ == spec_template(msg_models(entries@)),
{
    let ghost m = msg_models(entries@);
    let mut out = String::new();
    let n = entries.len();
    let mut i: usize = 0;
    proof {
        assert(m.skip(0) =~= m);
        assert(out@ + spec_template(m) =~= spec_template(m));
    }
    while i < n
        invariant
            n == entries@.len(),
            m == msg_models(entries@),
            i <= n,
            out@ + spec_template(m.skip(i as int)) == spec_template(m),
        decreases n - i,
    {
        let before_id = "\nmsgid \"";
        let between = "\"\nmsgstr \"";
        let after = "\"\n";
        proof {
            reveal_strlit("\nmsgid \"");
            reveal_strlit("\"\nmsgstr \"");
            reveal_strlit("\"\n");
            assert(before_id@ =~= seq!['\n', 'm', 's', 'g', 'i', 'd', ' ', '"']);
            assert(between@ =~= seq!['"', '\n', 'm', 's', 'g', 's', 't', 'r', ' ', '"']);
            assert(after@ =~= seq!['"', '\n']);
            assert(m.skip(i as int)[0] == m[i as int]);
            assert(m[i as int] == entries@[i as int]@);
            assert(m.skip(i as int).skip(1) =~= m.skip(i as int + 1));
        }
        out.append(before_id);
        out.append(entries[i].id.as_str());
        out.append(between);
        out.append(entries[i].value.as_str());
        out.append(after);
        proof {
            assert(out@ + spec_template(m.skip(i as int + 1)) =~= spec_template(m));
        }
        i = i + 1;
    }
    proof {
        assert(m.skip(n as int) =~= Seq::<(Seq<char>, Seq<char>)>::empty());
        assert(out@ =~= spec_template(m));
    }
    out
}

} // verus!
