//! The locale and URL mapper: derive an Android resource-directory name
//! from a locale tag, derive the website locale segment for a tag, and
//! rewrite the canonical English URL for that segment.

use vstd::prelude::*;
use vstd::string::*;
use crate::text;

verus! {

pub open spec fn values_prefix() -> Seq<char> {
    seq!['v', 'a', 'l', 'u', 'e', 's', '-']
}

/// `values-<lang>` for a plain tag, `values-<lang>-r<REGION>` for a
/// hyphenated tag; a third hyphen-separated part is dropped.
pub open spec fn spec_resource_directory(l: Seq<char>) -> Seq<char> {
    let i = text::find_char(l, '-');
    if i < 0 {
        values_prefix() + l
    } else {
        let rest = l.skip(i + 1);
        let j = text::find_char(rest, '-');
        let region = if j < 0 {
            rest
        } else {
            rest.take(j)
        };
        values_prefix() + l.take(i) + seq!['-', 'r'] + region
    }
}

pub open spec fn zh_tw() -> Seq<char> {
    seq!['z', 'h', '-', 'T', 'W']
}

pub open spec fn zh_hant() -> Seq<char> {
    seq!['z', 'h', '-', 'h', 'a', 'n', 't']
}

/// A tag without a hyphen is its own website segment; the single recognized
/// hyphenated exception `zh-TW` maps to `zh-hant`; any other hyphenated tag
/// has no website locale.
pub open spec fn spec_website_locale(l: Seq<char>) -> Option<Seq<char>> {
    if text::find_char(l, '-') < 0 {
        Some(l)
    } else if l == zh_tw() {
        Some(zh_hant())
    } else {
        None
    }
}

pub open spec fn en_segment() -> Seq<char> {
    seq!['/', 'e', 'n', '/']
}

/// Index of the first occurrence of `p` in `s`, or -1 if there is none.
pub open spec fn find_sub(s: Seq<char>, p: Seq<char>) -> int
    decreases s.len(),
{
    if s.len() < p.len() {
        -1
    } else if text::begins_with(s, p) {
        0
    } else {
        let r = find_sub(s.skip(1), p);
        if r < 0 {
            -1
        } else {
            r + 1
        }
    }
}

/// What `find_sub` finds is the first occurrence.
pub proof fn lemma_find_sub(s: Seq<char>, p: Seq<char>)
    ensures
        find_sub(s, p) >= 0 ==> find_sub(s, p) + p.len() <= s.len() && text::begins_with(
            s.skip(find_sub(s, p)),
            p,
        ) && (forall|j: int| 0 <= j < find_sub(s, p) ==> !text::begins_with(#[trigger] s.skip(j), p)),
        find_sub(s, p) < 0 ==> (forall|j: int|
            0 <= j <= s.len() ==> !text::begins_with(#[trigger] s.skip(j), p)),
    decreases s.len(),
{
    if s.len() < p.len() {
        assert forall|j: int| 0 <= j <= s.len() implies !text::begins_with(s.skip(j), p) by {
            assert(s.skip(j).len() <= s.len() < p.len());
        }
    } else if text::begins_with(s, p) {
        assert(s.skip(0) =~= s);
    } else {
        lemma_find_sub(s.skip(1), p);
        let r = find_sub(s.skip(1), p);
        assert(s.skip(0) =~= s);
        if r >= 0 {
            assert(s.skip(1).skip(r) =~= s.skip(r + 1));
            assert forall|j: int| 0 <= j < r + 1 implies !text::begins_with(s.skip(j), p) by {
                if j >= 1 {
                    assert(s.skip(1).skip(j - 1) =~= s.skip(j));
                }
            }
        } else {
            assert forall|j: int| 0 <= j <= s.len() implies !text::begins_with(s.skip(j), p) by {
                if j >= 1 {
                    assert(s.skip(1).skip(j - 1) =~= s.skip(j));
                }
            }
        }
    }
}

/// The first occurrence of `/en/` replaced by the segment between slashes;
/// a URL without `/en/` is returned unchanged.
pub open spec fn spec_rewrite_url(u: Seq<char>, seg: Seq<char>) -> Seq<char> {
    let i = find_sub(u, en_segment());
    if i < 0 {
        u
    } else {
        u.take(i) + seq!['/'] + seg + seq!['/'] + u.skip(i + 4)
    }
}

/// Index of the first hyphen of `s`, if any.
fn find_hyphen(s: &str) -> (r: Option<usize>)
    ensures
        (match r {
            Some(i) => text::find_char(s@, '-') == i as int,
            None => text::find_char(s@, '-') < 0,
        }),
{
    proof {
        text::lemma_find_char(s@, '-');
    }
    let n = s.unicode_len();
    let mut i: usize = 0;
    while i < n
        invariant
            n == s@.len(),
            i <= n,
            forall|j: int| 0 <= j < i ==> s@[j] != '-',
        decreases n - i,
    {
        if s.get_char(i) == '-' {
            proof {
                text::lemma_find_char(s@, '-');
                let r = text::find_char(s@, '-');
                if 0 <= r < i as int {
                    assert(s@[r] != '-');
                }
                if r > i as int {
                    assert(s@[i as int] != '-');
                }
            }
            return Some(i);
        }
        i = i + 1;
    }
    proof {
        text::lemma_find_char(s@, '-');
    }
    None
}

/// The Android resource directory for one locale tag.
pub fn android_locale_directory(locale: &str) -> (r: String)
    ensures
        r@ == spec_resource_directory(locale@),
{
    let n = locale.unicode_len();
    let head = "values-";
    proof {
        reveal_strlit("values-");
        assert(head@ =~= values_prefix());
        text::lemma_find_char(locale@, '-');
    }
    let mut out = String::from_str(head);
    match find_hyphen(locale) {
        None => {
            out.append(locale);
            proof {
                assert(out@ =~= spec_resource_directory(locale@));
            }
        },
        Some(i) => {
            proof {
                text::lemma_find_char(locale@.skip(i as int + 1), '-');
            }
            let lang = locale.substring_char(0, i);
            let rest = locale.substring_char(i + 1, n);
            proof {
                assert(lang@ =~= locale@.take(i as int));
                assert(rest@ =~= locale@.skip(i as int + 1));
            }
            let marker = "-r";
            proof {
                reveal_strlit("-r");
                assert(marker@ =~= seq!['-', 'r']);
            }
            out.append(lang);
            out.append(marker);
            match find_hyphen(rest) {
                None => {
                    out.append(rest);
                },
                Some(j) => {
                    let region = rest.substring_char(0, j);
                    proof {
                        assert(region@ =~= rest@.take(j as int));
                    }
                    out.append(region);
                },
            }
            proof {
                assert(out@ =~= spec_resource_directory(locale@));
            }
        },
    }
    out
}

/// Are two strings the same sequence of characters?
fn str_eq(a: &str, b: &str) -> (r: bool)
    ensures
        r == (a@ == b@),
{
    let n = a.unicode_len();
    let m = b.unicode_len();
    if n != m {
        return false;
    }
    let mut i: usize = 0;
    while i < n
        invariant
            n == a@.len(),
            n == b@.len(),
            i <= n,
            forall|j: int| 0 <= j < i ==> a@[j] == b@[j],
        decreases n - i,
    {
        if a.get_char(i) != b.get_char(i) {
            return false;
        }
        i = i + 1;
    }
    proof {
        assert(a@ =~= b@);
    }
    true
}

/// The website locale segment for one locale tag, if the tag has one.
pub fn website_locale<'a>(locale: &'a str) -> (r: Option<&'a str>)
    ensures
        (match r {
            Some(t) => spec_website_locale(locale@) == Some(t@),
            None => spec_website_locale(locale@) is None,
        }),
{
    match find_hyphen(locale) {
        None => Some(locale),
        Some(_) => {
            let tw = "zh-TW";
            let hant = "zh-hant";
            proof {
                reveal_strlit("zh-TW");
                reveal_strlit("zh-hant");
                assert(tw@ =~= zh_tw());
                assert(hant@ =~= zh_hant());
            }
            if str_eq(locale, tw) {
                Some(hant)
            } else {
                None
            }
        },
    }
}

/// Index of the first `/en/` of `s`, if any.
fn find_en_segment(s: &str) -> (r: Option<usize>)
    ensures
        (match r {
            Some(i) => find_sub(s@, en_segment()) == i as int && i + 4 <= s@.len(),
            None => find_sub(s@, en_segment()) < 0,
        }),
{
    proof {
        lemma_find_sub(s@, en_segment());
    }
    let n = s.unicode_len();
    if n < 4 {
        return None;
    }
    let mut i: usize = 0;
    while i < n - 3
        invariant
            4 <= n == s@.len(),
            i <= n,
            forall|j: int| 0 <= j < i ==> !text::begins_with(s@.skip(j), en_segment()),
        decreases n - i,
    {
        let hit = s.get_char(i) == '/' && s.get_char(i + 1) == 'e' && s.get_char(i + 2) == 'n'
            && s.get_char(i + 3) == '/';
        proof {
            let tail = s@.skip(i as int);
            assert(tail[0] == s@[i as int]);
            assert(tail[1] == s@[i as int + 1]);
            assert(tail[2] == s@[i as int + 2]);
            assert(tail[3] == s@[i as int + 3]);
            if hit {
                assert(text::begins_with(tail, en_segment()));
            } else {
                assert(!text::begins_with(tail, en_segment()));
            }
        }
        if hit {
            proof {
                lemma_find_sub(s@, en_segment());
                let r = find_sub(s@, en_segment());
                if 0 <= r < i as int {
                    assert(!text::begins_with(s@.skip(r), en_segment()));
                }
                if r > i as int {
                    assert(!text::begins_with(s@.skip(i as int), en_segment()));
                }
            }
            return Some(i);
        }
        i = i + 1;
    }
    proof {
        lemma_find_sub(s@, en_segment());
        assert forall|j: int| 0 <= j <= s@.len() implies !text::begins_with(
            s@.skip(j),
            en_segment(),
        ) by {
            if j > s@.len() - 4 {
                assert(s@.skip(j).len() < 4);
            }
        }
        if find_sub(s@, en_segment()) >= 0 {
            assert(!text::begins_with(s@.skip(find_sub(s@, en_segment())), en_segment()));
        }
    }
    None
}

/// Rewrite the canonical English URL for a website locale segment: the
/// first `/en/` becomes `/<segment>/`.
pub fn rewrite_url(url: &str, segment: &str) -> (r: String)
    ensures
        r@ == spec_rewrite_url(url@, segment@),
{
    let n = url.unicode_len();
    match find_en_segment(url) {
        None => {
            let r = String::from_str(url);
            r
        },
        Some(i) => {
            let slash = "/";
            proof {
                reveal_strlit("/");
                assert(slash@ =~= seq!['/']);
            }
            let mut out = String::new();
            let head = url.substring_char(0, i);
            let tail = url.substring_char(i + 4, n);
            proof {
                assert(head@ =~= url@.take(i as int));
                assert(tail@ =~= url@.skip(i as int + 4));
            }
            out.append(head);
            out.append(slash);
            out.append(segment);
            out.append(slash);
            out.append(tail);
            proof {
                assert(out@ =~= spec_rewrite_url(url@, segment@));
            }
            out
        },
    }
}

} // verus!
