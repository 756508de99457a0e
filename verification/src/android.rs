//! The Android string-table side: one `<string>` entry, the ordered
//! collection of entries, value escaping, and serialization back into the
//! two-line XML root document.
//!
//! An entry's `value` is escaped (backslash, double quote, single quote)
//! once, when the entry is constructed; the serializer never re-escapes.

use vstd::prelude::*;
use vstd::string::*;
use crate::text;

verus! {

/// How one character of a raw value is escaped in an entry's value.
pub open spec fn escaped_char(c: char) -> Seq<char> {
    if c == '\\' {
        seq!['\\', '\\']
    } else if c == '"' {
        seq!['\\', '"']
    } else if c == '\'' {
        seq!['\\', '\'']
    } else {
        seq![c]
    }
}

/// A raw value with every backslash, double quote and single quote escaped.
pub open spec fn escaped(s: Seq<char>) -> Seq<char>
    decreases s.len(),
{
    if s.len() == 0 {
        Seq::empty()
    } else {
        escaped_char(s[0]) + escaped(s.skip(1))
    }
}

/// The inverse of the three escape replacements, applied in one left-to-right
/// scan: a backslash followed by a special character stands for that
/// character.
pub open spec fn unescaped(s: Seq<char>) -> Seq<char>
    decreases s.len(),
{
    if s.len() == 0 {
        Seq::empty()
    } else if s.len() >= 2 && s[0] == '\\' && (s[1] == '\\' || s[1] == '"' || s[1] == '\'') {
        seq![s[1]] + unescaped(s.skip(2))
    } else {
        seq![s[0]] + unescaped(s.skip(1))
    }
}

/// Escaping a raw value without the three special characters changes
/// nothing.
pub proof fn lemma_escape_plain(s: Seq<char>)
    requires
        forall|i: int| 0 <= i < s.len() ==> s[i] != '\\' && s[i] != '"' && s[i] != '\'',
    ensures
        escaped(s) == s,
    decreases s.len(),
{
    if s.len() == 0 {
        assert(escaped(s) =~= s);
    } else {
        assert forall|i: int|
            0 <= i < s.skip(1).len() implies s.skip(1)[i] != '\\' && s.skip(1)[i] != '"' && s.skip(
            1,
        )[i] != '\'' by {
            assert(s.skip(1)[i] == s[i + 1]);
        }
        lemma_escape_plain(s.skip(1));
        assert(escaped_char(s[0]) == seq![s[0]]);
        assert(escaped(s) =~= s);
    }
}

/// Escaping round-trips: un-escaping an escaped value recovers the raw
/// value, for every raw value.
pub proof fn lemma_escape_roundtrip(s: Seq<char>)
    ensures
        unescaped(escaped(s)) == s,
    decreases s.len(),
{
    if s.len() == 0 {
        assert(unescaped(escaped(s)) =~= s);
    } else {
        lemma_escape_roundtrip(s.skip(1));
        let c = s[0];
        let e = escaped(s);
        if c == '\\' || c == '"' || c == '\'' {
            assert(e == seq!['\\', c] + escaped(s.skip(1)));
            assert(e.len() >= 2 && e[0] == '\\' && e[1] == c);
            assert(e.skip(2) =~= escaped(s.skip(1)));
            assert(unescaped(e) == seq![c] + unescaped(escaped(s.skip(1))));
            assert(unescaped(e) =~= s);
        } else {
            assert(e == seq![c] + escaped(s.skip(1)));
            assert(e[0] == c && c != '\\');
            assert(e.skip(1) =~= escaped(s.skip(1)));
            assert(unescaped(e) == seq![c] + unescaped(escaped(s.skip(1))));
            assert(unescaped(e) =~= s);
        }
    }
}

/// Relies on `String::push`: appends one character.
#[verifier::external_body]
fn push_char(s: &mut String, c: char)
    ensures
        final(s)@ == old(s)@.push(c),
{
    s.push(c);
}

/// Escape a raw value for embedding in the XML string format: backslash,
/// double quote and single quote each get a leading backslash.
pub fn escape_for_xml(s: &str) -> (r: String)
    ensures
        r@ == escaped(s@),
{
    let n = s.unicode_len();
    let mut out = String::new();
    let mut i: usize = 0;
    proof {
        assert(s@.skip(0) =~= s@);
        assert(out@ + escaped(s@) =~= escaped(s@));
    }
    while i < n
        invariant
            n == s@.len(),
            i <= n,
            out@ + escaped(s@.skip(i as int)) == escaped(s@),
        decreases n - i,
    {
        let c = s.get_char(i);
        proof {
            assert(s@.skip(i as int).skip(1) =~= s@.skip(i as int + 1));
            assert(s@.skip(i as int)[0] == c);
        }
        if c == '\\' {
            push_char(&mut out, '\\');
            push_char(&mut out, '\\');
        } else if c == '"' {
            push_char(&mut out, '\\');
            push_char(&mut out, '"');
        } else if c == '\'' {
            push_char(&mut out, '\\');
            push_char(&mut out, '\'');
        } else {
            push_char(&mut out, c);
        }
        proof {
            assert(out@ + escaped(s@.skip(i as int + 1)) =~= escaped(s@));
        }
        i = i + 1;
    }
    proof {
        assert(s@.skip(n as int) =~= Seq::<char>::empty());
        assert(out@ =~= escaped(s@));
    }
    out
}

/// One entry of the string table: a stable identifier and its (escaped)
/// text.
#[derive(Clone, Debug)]
pub struct StringResource {
    pub name: String,
    pub value: String,
}

impl View for StringResource {
    type V = (Seq<char>, Seq<char>);

    open spec fn view(&self) -> (Seq<char>, Seq<char>) {
        (self.name@, self.value@)
    }
}

impl StringResource {
    /// Build an entry from an identifier and a raw value; the value is
    /// escaped here, at construction time.
    pub fn new(name: String, value: &str) -> (r: Self)
        ensures
            r@.0 == name@,
            r@.1 == escaped(value@),
    {
        let value = escape_for_xml(value);
        StringResource { name, value }
    }

    /// Run the shared normalization over the entry's value.
    pub fn normalize(&mut self)
        ensures
            final(self)@.0 == old(self)@.0,
            final(self)@.1 == text::normalized(old(self)@.1),
    {
        let value = text::normalize(self.value.as_str());
        self.value = value;
    }

    /// An equal entry (field-for-field copy with known contents).
    pub fn duplicate(&self) -> (r: Self)
        ensures
            r@ == self@,
    {
        StringResource { name: self.name.clone(), value: self.value.clone() }
    }
}

/// The views of a sequence of entries.
pub open spec fn models(s: Seq<StringResource>) -> Seq<(Seq<char>, Seq<char>)> {
    s.map_values(|e: StringResource| e@)
}

/// The ordered string table.
#[derive(Clone, Debug)]
pub struct StringResources {
    pub entries: Vec<StringResource>,
}

/// The serialized form of one entry.
pub open spec fn entry_line(p: (Seq<char>, Seq<char>)) -> Seq<char> {
    seq![' ', ' ', ' ', ' ', '<', 's', 't', 'r', 'i', 'n', 'g', ' ', 'n', 'a', 'm', 'e', '=', '"']
        + p.0 + seq!['"', '>'] + p.1 + seq!['<', '/', 's', 't', 'r', 'i', 'n', 'g', '>', '\n']
}

/// The serialized bodies of a sequence of entries, in order.
pub open spec fn document_body(s: Seq<(Seq<char>, Seq<char>)>) -> Seq<char>
    decreases s.len(),
{
    if s.len() == 0 {
        Seq::empty()
    } else {
        entry_line(s[0]) + document_body(s.skip(1))
    }
}

/// The whole document: the entries wrapped in a fixed two-line root.
pub open spec fn document(s: Seq<(Seq<char>, Seq<char>)>) -> Seq<char> {
    seq!['<', 'r', 'e', 's', 'o', 'u', 'r', 'c', 'e', 's', '>', '\n'] + document_body(s) + seq![
        '<',
        '/',
        'r',
        'e',
        's',
        'o',
        'u',
        'r',
        'c',
        'e',
        's',
        '>',
        '\n',
    ]
}

impl StringResources {
    /// An empty string table.
    pub fn new() -> (r: Self)
        ensures
            r.entries@ == Seq::<StringResource>::empty(),
    {
        StringResources { entries: Vec::new() }
    }

    /// Append one entry, keeping document order.
    pub fn push(&mut self, entry: StringResource)
        ensures
            final(self).entries@ == old(self).entries@.push(entry),
    {
        self.entries.push(entry);
    }

    /// Run the shared normalization over every entry's value, in place.
    pub fn normalize(&mut self)
        ensures
            final(self).entries@.len() == old(self).entries@.len(),
            forall|i: int|
                0 <= i < old(self).entries@.len() ==> final(self).entries@[i]@.0 == old(
                    self,
                ).entries@[i]@.0 && final(self).entries@[i]@.1 == text::normalized(
                    old(self).entries@[i]@.1,
                ),
    {
        let ghost orig = self.entries@;
        let mut out: Vec<StringResource> = Vec::new();
        let mut i: usize = 0;
        let n = self.entries.len();
        while i < n
            invariant
                n == orig.len(),
                i <= n,
                self.entries@ == orig.skip(i as int),
                out@.len() == i,
                forall|j: int|
                    0 <= j < i ==> out@[j]@.0 == orig[j]@.0 && out@[j]@.1 == text::normalized(
                        orig[j]@.1,
                    ),
            decreases n - i,
        {
            let mut entry = self.entries.remove(0);
            proof {
                assert(orig.skip(i as int)[0] == orig[i as int]);
                assert(orig.skip(i as int).skip(1) =~= orig.skip(i as int + 1));
            }
            entry.normalize();
            out.push(entry);
            i = i + 1;
        }
        self.entries = out;
    }

    /// Serialize the table into the XML string-table document.
    pub fn to_document_string(&self) -> (r: String)
        ensures
            r@ == document(models(self.entries@)),
    {
        let mut out = String::new();
        let open_tag = "<resources>\n";
        let close_tag = "</resources>\n";
        proof {
            reveal_strlit("<resources>\n");
            reveal_strlit("</resources>\n");
            assert(open_tag@ =~= seq![
                '<',
                'r',
                'e',
                's',
                'o',
                'u',
                'r',
                'c',
                'e',
                's',
                '>',
                '\n',
            ]);
            assert(close_tag@ =~= seq![
                '<',
                '/',
                'r',
                'e',
                's',
                'o',
                'u',
                'r',
                'c',
                'e',
                's',
                '>',
                '\n',
            ]);
        }
        out.append(open_tag);
        let n = self.entries.len();
        let ghost m = models(self.entries@);
        let mut i: usize = 0;
        proof {
            assert(m.skip(0) =~= m);
            assert(out@ + document_body(m) + seq![
                '<',
                '/',
                'r',
                'e',
                's',
                'o',
                'u',
                'r',
                'c',
                'e',
                's',
                '>',
                '\n',
            ] =~= document(m));
        }
        while i < n
            invariant
                n == self.entries@.len(),
                m == models(self.entries@),
                i <= n,
                out@ + document_body(m.skip(i as int)) + close_tag@ == document(m),
                close_tag@ == seq![
                    '<',
                    '/',
                    'r',
                    'e',
                    's',
                    'o',
                    'u',
                    'r',
                    'c',
                    'e',
                    's',
                    '>',
                    '\n',
                ],
            decreases n - i,
        {
            let pre = "    <string name=\"";
            let mid = "\">";
            let post = "</string>\n";
            proof {
                reveal_strlit("    <string name=\"");
                reveal_strlit("\">");
                reveal_strlit("</string>\n");
                assert(pre@ =~= seq![
                    ' ',
                    ' ',
                    ' ',
                    ' ',
                    '<',
                    's',
                    't',
                    'r',
                    'i',
                    'n',
                    'g',
                    ' ',
                    'n',
                    'a',
                    'm',
                    'e',
                    '=',
                    '"',
                ]);
                assert(mid@ =~= seq!['"', '>']);
                assert(post@ =~= seq!['<', '/', 's', 't', 'r', 'i', 'n', 'g', '>', '\n']);
                assert(m.skip(i as int)[0] == m[i as int]);
                assert(m.skip(i as int).skip(1) =~= m.skip(i as int + 1));
            }
            out.append(pre);
            out.append(self.entries[i].name.as_str());
            out.append(mid);
            out.append(self.entries[i].value.as_str());
            out.append(post);
            proof {
                assert(m[i as int] == self.entries@[i as int]@);
                assert(out@ + document_body(m.skip(i as int + 1)) + close_tag@ =~= document(m));
            }
            i = i + 1;
        }
        out.append(close_tag);
        proof {
            assert(m.skip(n as int) =~= Seq::<(Seq<char>, Seq<char>)>::empty());
            assert(out@ =~= document(m));
        }
        out
    }
}

} // verus!
