//! The cross-reference engine: build a lookup from normalized source text
//! to identifier, partitioned into regular entries and locale-URL entries,
//! and match one locale's catalog against it.
//!
//! Matching removes each claimed key, so the remainder of the lookup is
//! directly the set of source strings with no translation in that locale;
//! the engine returns the remainder as a fresh value rather than mutating
//! shared state.

use vstd::prelude::*;
use vstd::string::*;
use crate::android;
use crate::android::StringResource;
use crate::android::StringResources;
use crate::gettext;
use crate::gettext::MsgEntry;
use crate::locale;
use crate::text;

verus! {

/// The canonical English website URL prefix that marks a locale-URL entry.
pub open spec fn url_prefix() -> Seq<char> {
    seq![
        'h',
        't',
        't',
        'p',
        's',
        ':',
        '/',
        '/',
        'm',
        'u',
        'l',
        'l',
        'v',
        'a',
        'd',
        '.',
        'n',
        'e',
        't',
        '/',
        'e',
        'n',
        '/',
    ]
}

/// Does some entry of `s` have `k` as its text?
pub open spec fn contains_text(s: Seq<(Seq<char>, Seq<char>)>, k: Seq<char>) -> bool {
    exists|i: int| 0 <= i < s.len() && s[i].1 == k
}

/// Does some entry of `s` have `n` as its identifier?
pub open spec fn contains_id(s: Seq<(Seq<char>, Seq<char>)>, n: Seq<char>) -> bool {
    exists|i: int| 0 <= i < s.len() && s[i].0 == n
}

/// All texts of `s` are distinct.
pub open spec fn distinct_texts(s: Seq<(Seq<char>, Seq<char>)>) -> bool {
    forall|i: int, j: int| 0 <= i < j < s.len() ==> s[i].1 != s[j].1
}

/// All identifiers of `s` are distinct.
pub open spec fn distinct_ids(s: Seq<(Seq<char>, Seq<char>)>) -> bool {
    forall|i: int, j: int| 0 <= i < j < s.len() ==> s[i].0 != s[j].0
}

/// Index of the first entry of `s` whose text is `k`, or -1 if there is
/// none.
pub open spec fn lookup_find(s: Seq<(Seq<char>, Seq<char>)>, k: Seq<char>) -> int
    decreases s.len(),
{
    if s.len() == 0 {
        -1
    } else if s[0].1 == k {
        0
    } else {
        let r = lookup_find(s.skip(1), k);
        if r < 0 {
            -1
        } else {
            r + 1
        }
    }
}

/// What `lookup_find` finds is the first entry with that text.
pub proof fn lemma_lookup_find(s: Seq<(Seq<char>, Seq<char>)>, k: Seq<char>)
    ensures
        lookup_find(s, k) >= 0 ==> lookup_find(s, k) < s.len() && s[lookup_find(s, k)].1 == k && (
        forall|j: int| 0 <= j < lookup_find(s, k) ==> s[j].1 != k),
        lookup_find(s, k) < 0 ==> (forall|j: int| 0 <= j < s.len() ==> s[j].1 != k),
        lookup_find(s, k) >= 0 <==> contains_text(s, k),
    decreases s.len(),
{
    if s.len() == 0 {
    } else if s[0].1 == k {
    } else {
        lemma_lookup_find(s.skip(1), k);
        let r = lookup_find(s.skip(1), k);
        if r >= 0 {
            assert(s[r + 1] == s.skip(1)[r]);
            assert forall|j: int| 0 <= j < r + 1 implies s[j].1 != k by {
                if j >= 1 {
                    assert(s.skip(1)[j - 1].1 != k);
                }
            }
        } else {
            assert forall|j: int| 0 <= j < s.len() implies s[j].1 != k by {
                if j >= 1 {
                    assert(s.skip(1)[j - 1].1 != k);
                }
            }
        }
        if contains_text(s, k) {
            let w = choose|i: int| 0 <= i < s.len() && s[i].1 == k;
            assert(s.skip(1)[w - 1].1 == k);
        }
    }
}

/// The entries of `s` split on whether their text starts with the URL
/// prefix: URL entries on the left, regular entries on the right, both in
/// order.
pub open spec fn spec_partition(s: Seq<(Seq<char>, Seq<char>)>) -> (
    Seq<(Seq<char>, Seq<char>)>,
    Seq<(Seq<char>, Seq<char>)>,
)
    decreases s.len(),
{
    if s.len() == 0 {
        (Seq::empty(), Seq::empty())
    } else {
        let rest = spec_partition(s.skip(1));
        if text::begins_with(s[0].1, url_prefix()) {
            (seq![s[0]] + rest.0, rest.1)
        } else {
            (rest.0, seq![s[0]] + rest.1)
        }
    }
}

/// The entries of `s` whose text does not reappear later: for each text the
/// last entry carrying it survives, at its last position.
pub open spec fn spec_dedup(s: Seq<(Seq<char>, Seq<char>)>) -> Seq<(Seq<char>, Seq<char>)>
    decreases s.len(),
{
    if s.len() == 0 {
        Seq::empty()
    } else if contains_text(s.skip(1), s[0].1) {
        spec_dedup(s.skip(1))
    } else {
        seq![s[0]] + spec_dedup(s.skip(1))
    }
}

/// Index of the first entry of `v` whose text equals `key`, if any.
pub fn find_text(v: &Vec<StringResource>, key: &String) -> (r: Option<usize>)
    ensures
        (match r {
            Some(i) => lookup_find(android::models(v@), key@) == i as int && (i as int) < v@.len(),
            None => lookup_find(android::models(v@), key@) < 0,
        }),
{
    let n = v.len();
    let mut i: usize = 0;
    while i < n
        invariant
            n == v@.len(),
            i <= n,
            forall|j: int| 0 <= j < i ==> android::models(v@)[j].1 != key@,
        decreases n - i,
    {
        if v[i].value == *key {
            proof {
                lemma_lookup_find(android::models(v@), key@);
                let m = android::models(v@);
                assert(m[i as int].1 == key@);
                let r = lookup_find(m, key@);
                if 0 <= r < i as int {
                    assert(m[r].1 != key@);
                }
                if r > i as int {
                    assert(m[i as int].1 != key@);
                }
            }
            return Some(i);
        }
        proof {
            assert(android::models(v@)[i as int].1 == v@[i as int].value@);
        }
        i = i + 1;
    }
    proof {
        lemma_lookup_find(android::models(v@), key@);
    }
    None
}

/// Split the normalized source entries into the URL lookup and the text
/// lookup; in each, a text carried by several entries keeps only the last
/// entry that carries it.
pub fn build_lookup(resources: &StringResources) -> (r: (Vec<StringResource>, Vec<StringResource>))
    ensures
        android::models(r.0@) == spec_dedup(spec_partition(android::models(resources.entries@)).0),
        android::models(r.1@) == spec_dedup(spec_partition(android::models(resources.entries@)).1),
{
    let ghost all = android::models(resources.entries@);
    let mut urls: Vec<StringResource> = Vec::new();
    let mut texts: Vec<StringResource> = Vec::new();
    let n = resources.entries.len();
    let mut i: usize = 0;
    proof {
        assert(all.skip(0) =~= all);
        assert(android::models(urls@) + spec_partition(all).0 =~= spec_partition(all).0);
        assert(android::models(texts@) + spec_partition(all).1 =~= spec_partition(all).1);
    }
    while i < n
        invariant
            n == resources.entries@.len(),
            all == android::models(resources.entries@),
            i <= n,
            android::models(urls@) + spec_partition(all.skip(i as int)).0 == spec_partition(all).0,
            android::models(texts@) + spec_partition(all.skip(i as int)).1 == spec_partition(all).1,
        decreases n - i,
    {
        let prefix = "https://mullvad.net/en/";
        proof {
            reveal_strlit("https://mullvad.net/en/");
            assert(prefix@ =~= url_prefix());
            assert(all.skip(i as int)[0] == all[i as int]);
            assert(all[i as int] == resources.entries@[i as int]@);
            assert(all.skip(i as int).skip(1) =~= all.skip(i as int + 1));
        }
        let entry = resources.entries[i].duplicate();
        if text::starts_with_str(entry.value.as_str(), prefix) {
            urls.push(entry);
            proof {
                assert(android::models(urls@) =~= android::models(urls@.drop_last()).push(
                    urls@.last()@,
                ));
                assert(android::models(urls@) + spec_partition(all.skip(i as int + 1)).0
                    =~= spec_partition(all).0);
            }
        } else {
            texts.push(entry);
            proof {
                assert(android::models(texts@) =~= android::models(texts@.drop_last()).push(
                    texts@.last()@,
                ));
                assert(android::models(texts@) + spec_partition(all.skip(i as int + 1)).1
                    =~= spec_partition(all).1);
            }
        }
        i = i + 1;
    }
    proof {
        assert(all.skip(n as int) =~= Seq::<(Seq<char>, Seq<char>)>::empty());
        assert(android::models(urls@) + spec_partition(all.skip(n as int)).0 =~= android::models(
            urls@,
        ));
        assert(android::models(texts@) + spec_partition(all.skip(n as int)).1 =~= android::models(
            texts@,
        ));
    }
    let urls = dedup_last(urls);
    let texts = dedup_last(texts);
    (urls, texts)
}

/// Keep, for each text, only the last entry that carries it.
fn dedup_last(v: Vec<StringResource>) -> (r: Vec<StringResource>)
    ensures
        android::models(r@) == spec_dedup(android::models(v@)),
{
    let ghost all = android::models(v@);
    let mut rest = v;
    let mut out: Vec<StringResource> = Vec::new();
    proof {
        assert(android::models(out@) + spec_dedup(all) =~= spec_dedup(all));
    }
    while rest.len() > 0
        invariant
            android::models(out@) + spec_dedup(android::models(rest@)) == spec_dedup(all),
        decreases rest@.len(),
    {
        let ghost before = android::models(rest@);
        let entry = rest.remove(0);
        proof {
            assert(android::models(rest@) =~= before.skip(1));
            assert(before[0] == entry@);
        }
        match find_text(&rest, &entry.value) {
            Some(_) => {
                proof {
                    lemma_lookup_find(android::models(rest@), entry.value@);
                }
            },
            None => {
                proof {
                    lemma_lookup_find(android::models(rest@), entry.value@);
                }
                out.push(entry);
                proof {
                    assert(android::models(out@) =~= android::models(out@.drop_last()).push(
                        out@.last()@,
                    ));
                    assert(android::models(out@) + spec_dedup(before.skip(1)) =~= android::models(
                        out@.drop_last(),
                    ) + (seq![before[0]] + spec_dedup(before.skip(1))));
                }
            },
        }
    }
    proof {
        assert(android::models(rest@) =~= Seq::<(Seq<char>, Seq<char>)>::empty());
        assert(android::models(out@) + spec_dedup(android::models(rest@)) =~= android::models(out@));
    }
    out
}

/// The two-output match: for each catalog entry in order, the first lookup
/// entry with the same text is claimed, removed, and emitted as the pair of
/// its identifier and the escaped translation; the rest of the lookup is
/// the remainder.
pub open spec fn spec_match(
    lookup: Seq<(Seq<char>, Seq<char>)>,
    catalog: Seq<(Seq<char>, Seq<char>)>,
) -> (Seq<(Seq<char>, Seq<char>)>, Seq<(Seq<char>, Seq<char>)>)
    decreases catalog.len(),
{
    if catalog.len() == 0 {
        (Seq::empty(), lookup)
    } else {
        let i = lookup_find(lookup, catalog[0].0);
        if i >= 0 {
            let rest = spec_match(lookup.remove(i), catalog.skip(1));
            (seq![(lookup[i].0, android::escaped(catalog[0].1))] + rest.0, rest.1)
        } else {
            spec_match(lookup, catalog.skip(1))
        }
    }
}

/// Match one locale's catalog against the text lookup: each matched source
/// entry becomes a translated string resource (escaped at construction),
/// and the remainder is what that locale leaves untranslated.
pub fn match_catalog(lookup: Vec<StringResource>, catalog: &Vec<MsgEntry>) -> (r: (
    Vec<StringResource>,
    Vec<StringResource>,
))
    ensures
        android::models(r.0@) == spec_match(
            android::models(lookup@),
            gettext::msg_models(catalog@),
        ).0,
        android::models(r.1@) == spec_match(
            android::models(lookup@),
            gettext::msg_models(catalog@),
        ).1,
{
    let ghost l0 = android::models(lookup@);
    let ghost c0 = gettext::msg_models(catalog@);
    let mut matched: Vec<StringResource> = Vec::new();
    let mut rest = lookup;
    let n = catalog.len();
    let mut j: usize = 0;
    proof {
        assert(c0.skip(0) =~= c0);
        assert(android::models(matched@) + spec_match(l0, c0).0 =~= spec_match(l0, c0).0);
    }
    while j < n
        invariant
            n == catalog@.len(),
            c0 == gettext::msg_models(catalog@),
            j <= n,
            android::models(matched@) + spec_match(android::models(rest@), c0.skip(j as int)).0
                == spec_match(l0, c0).0,
            spec_match(android::models(rest@), c0.skip(j as int)).1 == spec_match(l0, c0).1,
        decreases n - j,
    {
        let ghost before = android::models(rest@);
        proof {
            assert(c0.skip(j as int)[0] == c0[j as int]);
            assert(c0[j as int] == catalog@[j as int]@);
            assert(c0.skip(j as int).skip(1) =~= c0.skip(j as int + 1));
        }
        match find_text(&rest, &catalog[j].id) {
            Some(i) => {
                let entry = rest.remove(i);
                proof {
                    assert(android::models(rest@) =~= before.remove(i as int));
                    assert(before[i as int] == entry@);
                }
                let resource = StringResource::new(entry.name, catalog[j].value.as_str());
                matched.push(resource);
                proof {
                    assert(android::models(matched@) =~= android::models(matched@.drop_last()).push(
                        matched@.last()@,
                    ));
                    assert(android::models(matched@) + spec_match(
                        android::models(rest@),
                        c0.skip(j as int + 1),
                    ).0 =~= android::models(matched@.drop_last()) + (seq![
                        (before[i as int].0, android::escaped(c0[j as int].1)),
                    ] + spec_match(before.remove(i as int), c0.skip(j as int + 1)).0));
                }
            },
            None => {
            },
        }
        j = j + 1;
    }
    proof {
        assert(c0.skip(n as int) =~= Seq::<(Seq<char>, Seq<char>)>::empty());
        assert(android::models(matched@) + spec_match(android::models(rest@), c0.skip(n as int)).0
            =~= android::models(matched@));
    }
    (matched, rest)
}

/// The URL entries synthesized for a website locale segment: each URL's
/// first `/en/` replaced by the segment, then escaped at construction.
pub open spec fn spec_url_entries(urls: Seq<(Seq<char>, Seq<char>)>, seg: Seq<char>) -> Seq<
    (Seq<char>, Seq<char>),
> {
    urls.map_values(
        |p: (Seq<char>, Seq<char>)|
            (p.0, android::escaped(locale::spec_rewrite_url(p.1, seg))),
    )
}

/// One locale's output table and remainder: the matched catalog entries in
/// catalog order, then, if the locale has a website segment, one entry per
/// locale URL with the segment substituted; the remainder is the text
/// lookup minus the matched keys.
pub fn generate_translations(
    locale_tag: &str,
    known_urls: &Vec<StringResource>,
    known_strings: Vec<StringResource>,
    translations: &Vec<MsgEntry>,
) -> (r: (StringResources, Vec<StringResource>))
    ensures
        android::models(r.0.entries@) == spec_match(
            android::models(known_strings@),
            gettext::msg_models(translations@),
        ).0 + (match locale::spec_website_locale(locale_tag@) {
            Some(seg) => spec_url_entries(android::models(known_urls@), seg),
            None => Seq::empty(),
        }),
        android::models(r.1@) == spec_match(
            android::models(known_strings@),
            gettext::msg_models(translations@),
        ).1,
{
    let (matched, remainder) = match_catalog(known_strings, translations);
    let ghost m0 = android::models(matched@);
    let mut table = StringResources { entries: matched };
    match locale::website_locale(locale_tag) {
        Some(segment) => {
            let ghost u = android::models(known_urls@);
            let ghost target = spec_url_entries(u, segment@);
            let n = known_urls.len();
            let mut k: usize = 0;
            proof {
                assert(target.skip(0) =~= target);
                assert(android::models(table.entries@) + target =~= m0 + target);
            }
            while k < n
                invariant
                    n == known_urls@.len(),
                    u == android::models(known_urls@),
                    target == spec_url_entries(u, segment@),
                    k <= n,
                    android::models(table.entries@) + target.skip(k as int) == m0 + target,
                decreases n - k,
            {
                proof {
                    assert(target[k as int] == (
                        u[k as int].0,
                        android::escaped(locale::spec_rewrite_url(u[k as int].1, segment@)),
                    ));
                    assert(u[k as int] == known_urls@[k as int]@);
                    assert(target.skip(k as int)[0] == target[k as int]);
                    assert(target.skip(k as int).skip(1) =~= target.skip(k as int + 1));
                }
                let name = known_urls[k].name.clone();
                let rewritten = locale::rewrite_url(known_urls[k].value.as_str(), segment);
                let resource = StringResource::new(name, rewritten.as_str());
                table.push(resource);
                proof {
                    assert(android::models(table.entries@) =~= android::models(
                        table.entries@.drop_last(),
                    ).push(table.entries@.last()@));
                    assert(android::models(table.entries@) + target.skip(k as int + 1) =~= m0
                        + target);
                }
                k = k + 1;
            }
            proof {
                assert(target.skip(n as int) =~= Seq::<(Seq<char>, Seq<char>)>::empty());
                assert(android::models(table.entries@) + target.skip(n as int) =~= android::models(
                    table.entries@,
                ));
            }
        },
        None => {
            proof {
                assert(android::models(table.entries@) + Seq::<(Seq<char>, Seq<char>)>::empty()
                    =~= android::models(table.entries@));
            }
        },
    }
    (table, remainder)
}

/// The entries of `missing` whose text still occurs in `remainder`.
pub open spec fn spec_retain(
    missing: Seq<(Seq<char>, Seq<char>)>,
    remainder: Seq<(Seq<char>, Seq<char>)>,
) -> Seq<(Seq<char>, Seq<char>)>
    decreases missing.len(),
{
    if missing.len() == 0 {
        Seq::empty()
    } else if contains_text(remainder, missing[0].1) {
        seq![missing[0]] + spec_retain(missing.skip(1), remainder)
    } else {
        spec_retain(missing.skip(1), remainder)
    }
}

/// Keep in the missing set only the entries that this locale also left
/// untranslated: a source string translated in at least one locale is not
/// missing.
pub fn retain_missing(missing: &mut Vec<StringResource>, remainder: &Vec<StringResource>)
    ensures
        android::models(final(missing)@) == spec_retain(
            android::models(old(missing)@),
            android::models(remainder@),
        ),
{
    let ghost all = android::models(old(missing)@);
    let ghost rem = android::models(remainder@);
    let mut out: Vec<StringResource> = Vec::new();
    proof {
        assert(android::models(out@) + spec_retain(all, rem) =~= spec_retain(all, rem));
    }
    while missing.len() > 0
        invariant
            rem == android::models(remainder@),
            android::models(out@) + spec_retain(android::models(missing@), rem) == spec_retain(
                all,
                rem,
            ),
        decreases missing@.len(),
    {
        let ghost before = android::models(missing@);
        let entry = missing.remove(0);
        proof {
            assert(android::models(missing@) =~= before.skip(1));
            assert(before[0] == entry@);
        }
        match find_text(remainder, &entry.value) {
            Some(_) => {
                proof {
                    lemma_lookup_find(rem, entry.value@);
                }
                out.push(entry);
                proof {
                    assert(android::models(out@) =~= android::models(out@.drop_last()).push(
                        out@.last()@,
                    ));
                    assert(android::models(out@) + spec_retain(before.skip(1), rem)
                        =~= android::models(out@.drop_last()) + (seq![before[0]] + spec_retain(
                        before.skip(1),
                        rem,
                    )));
                }
            },
            None => {
                proof {
                    lemma_lookup_find(rem, entry.value@);
                }
            },
        }
    }
    proof {
        assert(android::models(missing@) =~= Seq::<(Seq<char>, Seq<char>)>::empty());
        assert(android::models(out@) + spec_retain(android::models(missing@), rem)
            =~= android::models(out@));
    }
    *missing = out;
}

proof fn lemma_contains_text_cons(
    x: (Seq<char>, Seq<char>),
    t: Seq<(Seq<char>, Seq<char>)>,
    k: Seq<char>,
)
    ensures
        contains_text(seq![x] + t, k) <==> (x.1 == k || contains_text(t, k)),
{
    let s = seq![x] + t;
    if contains_text(s, k) {
        let w = choose|i: int| 0 <= i < s.len() && s[i].1 == k;
        if w >= 1 {
            assert(t[w - 1].1 == k);
        }
    }
    if x.1 == k {
        assert(s[0].1 == k);
    }
    if contains_text(t, k) {
        let w = choose|i: int| 0 <= i < t.len() && t[i].1 == k;
        assert(s[w + 1].1 == k);
    }
}

proof fn lemma_contains_id_cons(
    x: (Seq<char>, Seq<char>),
    t: Seq<(Seq<char>, Seq<char>)>,
    n: Seq<char>,
)
    ensures
        contains_id(seq![x] + t, n) <==> (x.0 == n || contains_id(t, n)),
{
    let s = seq![x] + t;
    if contains_id(s, n) {
        let w = choose|i: int| 0 <= i < s.len() && s[i].0 == n;
        if w >= 1 {
            assert(t[w - 1].0 == n);
        }
    }
    if x.0 == n {
        assert(s[0].0 == n);
    }
    if contains_id(t, n) {
        let w = choose|i: int| 0 <= i < t.len() && t[i].0 == n;
        assert(s[w + 1].0 == n);
    }
}

proof fn lemma_contains_text_unfold(s: Seq<(Seq<char>, Seq<char>)>, k: Seq<char>)
    requires
        s.len() > 0,
    ensures
        contains_text(s, k) <==> (s[0].1 == k || contains_text(s.skip(1), k)),
{
    assert(seq![s[0]] + s.skip(1) =~= s);
    lemma_contains_text_cons(s[0], s.skip(1), k);
}

/// The lookup partition is exhaustive and disjoint: every source text goes
/// to exactly one of the two lookups, URL texts (and only they) to the URL
/// side, and each side keeps exactly the texts of its entries.
pub proof fn lemma_partition_exhaustive_disjoint(entries: Seq<(Seq<char>, Seq<char>)>)
    ensures
        forall|k: Seq<char>|
            contains_text(entries, k) <==> (contains_text(spec_partition(entries).0, k)
                || contains_text(spec_partition(entries).1, k)),
        forall|i: int|
            0 <= i < spec_partition(entries).0.len() ==> text::begins_with(
                #[trigger] spec_partition(entries).0[i].1,
                url_prefix(),
            ),
        forall|i: int|
            0 <= i < spec_partition(entries).1.len() ==> !text::begins_with(
                #[trigger] spec_partition(entries).1[i].1,
                url_prefix(),
            ),
        forall|k: Seq<char>|
            !(contains_text(spec_partition(entries).0, k) && contains_text(
                spec_partition(entries).1,
                k,
            )),
    decreases entries.len(),
{
    if entries.len() == 0 {
    } else {
        lemma_partition_exhaustive_disjoint(entries.skip(1));
        let e = entries[0];
        let rest = spec_partition(entries.skip(1));
        let part = spec_partition(entries);
        assert forall|k: Seq<char>|
            contains_text(entries, k) <==> (contains_text(part.0, k) || contains_text(
                part.1,
                k,
            )) by {
            lemma_contains_text_unfold(entries, k);
            if text::begins_with(e.1, url_prefix()) {
                lemma_contains_text_cons(e, rest.0, k);
            } else {
                lemma_contains_text_cons(e, rest.1, k);
            }
        }
        if text::begins_with(e.1, url_prefix()) {
            assert forall|i: int| 0 <= i < part.0.len() implies text::begins_with(
                part.0[i].1,
                url_prefix(),
            ) by {
                if i >= 1 {
                    assert(part.0[i] == rest.0[i - 1]);
                }
            }
        } else {
            assert forall|i: int| 0 <= i < part.1.len() implies !text::begins_with(
                part.1[i].1,
                url_prefix(),
            ) by {
                if i >= 1 {
                    assert(part.1[i] == rest.1[i - 1]);
                }
            }
        }
        assert forall|k: Seq<char>|
            !(contains_text(part.0, k) && contains_text(part.1, k)) by {
            if contains_text(part.0, k) && contains_text(part.1, k) {
                let a = choose|i: int| 0 <= i < part.0.len() && part.0[i].1 == k;
                let b = choose|i: int| 0 <= i < part.1.len() && part.1[i].1 == k;
                assert(text::begins_with(part.0[a].1, url_prefix()));
                assert(!text::begins_with(part.1[b].1, url_prefix()));
            }
        }
    }
}

/// Dropping duplicate texts keeps exactly the same key set and leaves all
/// texts distinct.
pub proof fn lemma_dedup_distinct(s: Seq<(Seq<char>, Seq<char>)>)
    ensures
        distinct_texts(spec_dedup(s)),
        forall|k: Seq<char>| contains_text(spec_dedup(s), k) <==> contains_text(s, k),
    decreases s.len(),
{
    if s.len() == 0 {
    } else {
        lemma_dedup_distinct(s.skip(1));
        let d = spec_dedup(s);
        if contains_text(s.skip(1), s[0].1) {
            assert forall|k: Seq<char>| contains_text(d, k) <==> contains_text(s, k) by {
                lemma_contains_text_unfold(s, k);
            }
        } else {
            let rest = spec_dedup(s.skip(1));
            assert forall|k: Seq<char>| contains_text(d, k) <==> contains_text(s, k) by {
                lemma_contains_text_unfold(s, k);
                lemma_contains_text_cons(s[0], rest, k);
            }
            assert forall|i: int, j: int| 0 <= i < j < d.len() implies d[i].1 != d[j].1 by {
                if i == 0 {
                    assert(d[j] == rest[j - 1]);
                    if rest[j - 1].1 == s[0].1 {
                        assert(rest[j - 1].1 == rest[j - 1].1 && 0 <= j - 1 < rest.len());
                        assert(contains_text(rest, s[0].1));
                    }
                } else {
                    assert(d[i] == rest[i - 1] && d[j] == rest[j - 1]);
                }
            }
        }
    }
}

proof fn lemma_remove_entry(l: Seq<(Seq<char>, Seq<char>)>, i: int)
    requires
        0 <= i < l.len(),
        distinct_texts(l),
        distinct_ids(l),
    ensures
        distinct_texts(l.remove(i)),
        distinct_ids(l.remove(i)),
        !contains_id(l.remove(i), l[i].0),
        forall|n: Seq<char>|
            contains_id(l, n) <==> (n == l[i].0 || contains_id(l.remove(i), n)),
{
    let r = l.remove(i);
    assert forall|n: Seq<char>|
        contains_id(l, n) <==> (n == l[i].0 || contains_id(r, n)) by {
        if contains_id(l, n) {
            let w = choose|j: int| 0 <= j < l.len() && l[j].0 == n;
            if w < i {
                assert(r[w].0 == n);
            } else if w > i {
                assert(r[w - 1].0 == n);
            }
        }
        if n == l[i].0 {
            assert(l[i].0 == n);
        }
        if contains_id(r, n) {
            let w = choose|j: int| 0 <= j < r.len() && r[j].0 == n;
            if w < i {
                assert(l[w].0 == n);
            } else {
                assert(l[w + 1].0 == n);
            }
        }
    }
    if contains_id(r, l[i].0) {
        let w = choose|j: int| 0 <= j < r.len() && r[j].0 == l[i].0;
        if w < i {
            assert(l[w].0 == l[i].0);
        } else {
            assert(l[w + 1].0 == l[i].0);
        }
    }
}

/// Matching is at most once, and the matched and remaining identifiers
/// partition the lookup's identifiers: with distinct texts and distinct
/// identifiers in the lookup, the match output and the remainder together
/// carry every lookup identifier exactly once, however many catalog entries
/// were offered, duplicates and all.
pub proof fn lemma_match_laws(
    lookup: Seq<(Seq<char>, Seq<char>)>,
    catalog: Seq<(Seq<char>, Seq<char>)>,
)
    requires
        distinct_texts(lookup),
        distinct_ids(lookup),
    ensures
        spec_match(lookup, catalog).0.len() + spec_match(lookup, catalog).1.len() == lookup.len(),
        spec_match(lookup, catalog).0.len() <= lookup.len(),
        distinct_ids(spec_match(lookup, catalog).0),
        forall|n: Seq<char>|
            contains_id(lookup, n) <==> (contains_id(spec_match(lookup, catalog).0, n)
                || contains_id(spec_match(lookup, catalog).1, n)),
        forall|n: Seq<char>|
            !(contains_id(spec_match(lookup, catalog).0, n) && contains_id(
                spec_match(lookup, catalog).1,
                n,
            )),
    decreases catalog.len(),
{
    if catalog.len() == 0 {
    } else {
        let i = lookup_find(lookup, catalog[0].0);
        if i >= 0 {
            lemma_lookup_find(lookup, catalog[0].0);
            lemma_remove_entry(lookup, i);
            lemma_match_laws(lookup.remove(i), catalog.skip(1));
            let x = (lookup[i].0, android::escaped(catalog[0].1));
            let rest = spec_match(lookup.remove(i), catalog.skip(1));
            let m = spec_match(lookup, catalog).0;
            assert(m == seq![x] + rest.0);
            assert forall|n: Seq<char>|
                contains_id(lookup, n) <==> (contains_id(m, n) || contains_id(
                    spec_match(lookup, catalog).1,
                    n,
                )) by {
                lemma_contains_id_cons(x, rest.0, n);
            }
            assert forall|n: Seq<char>|
                !(contains_id(m, n) && contains_id(spec_match(lookup, catalog).1, n)) by {
                lemma_contains_id_cons(x, rest.0, n);
            }
            assert forall|a: int, b: int| 0 <= a < b < m.len() implies m[a].0 != m[b].0 by {
                if a == 0 {
                    assert(m[b] == rest.0[b - 1]);
                    if rest.0[b - 1].0 == x.0 {
                        assert(contains_id(rest.0, x.0));
                    }
                } else {
                    assert(m[a] == rest.0[a - 1] && m[b] == rest.0[b - 1]);
                }
            }
        } else {
            lemma_match_laws(lookup, catalog.skip(1));
        }
    }
}

} // verus!
