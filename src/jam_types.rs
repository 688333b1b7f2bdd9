use vstd::prelude::*;

use crate::text::{concat, is_digit, is_lower, push_str};

verus! {

/// The jam sites whose links the library understands.
#[derive(Clone, Copy, Debug, PartialEq, Eq, Hash, Structural)]
pub enum JamType {
    Itch,
    LudumDare,
}

/// `s` begins with `p`.
pub open spec fn starts_with(s: Seq<char>, p: Seq<char>) -> bool {
    s.len() >= p.len() && s.subrange(0, p.len() as int) == p
}

/// `s` without one trailing slash, where it has one.
pub open spec fn strip_slash(s: Seq<char>) -> Seq<char> {
    if s.len() > 0 && s.last() == '/' {
        s.drop_last()
    } else {
        s
    }
}

/// A character of an itch.io jam name: `a-z`, `0-9`, `_` or `-`.
pub open spec fn is_itch_name_char(c: char) -> bool {
    is_lower(c) || is_digit(c) || c == '_' || c == '-'
}

/// A character of a Ludum Dare entry slug: `a-z`, `0-9` or `-`.
pub open spec fn is_ld_slug_char(c: char) -> bool {
    is_lower(c) || is_digit(c) || c == '-'
}

/// `s[from..]` is non-empty and made of name characters: itch.io jam-name characters, or digits
/// where `digits` holds.
pub open spec fn all_name_chars(s: Seq<char>, from: int, digits: bool) -> bool {
    &&& s.len() > from
    &&& forall|k: int|
        from <= k < s.len() ==> if digits {
            is_digit(#[trigger] s[k])
        } else {
            is_itch_name_char(s[k])
        }
}

pub open spec fn itch_jam_prefix() -> Seq<char> {
    "https://itch.io/jam/"@
}

pub open spec fn ld_jam_prefix() -> Seq<char> {
    "https://ldjam.com/events/ludum-dare/"@
}

/// The canonical jam link for `link`: the prefix and a non-empty name, without the trailing
/// slash that may follow.
pub open spec fn spec_jam_link(prefix: Seq<char>, digits: bool, link: Seq<char>) -> Option<Seq<char>> {
    let body = strip_slash(link);
    if starts_with(body, prefix) && all_name_chars(body, prefix.len() as int, digits) {
        Some(body)
    } else {
        None
    }
}

pub open spec fn spec_normalize_jam_link(jam_type: JamType, link: Seq<char>) -> Option<Seq<char>> {
    match jam_type {
        JamType::Itch => spec_jam_link(itch_jam_prefix(), false, link),
        JamType::LudumDare => spec_jam_link(ld_jam_prefix(), true, link),
    }
}

/// The longest run of slug characters at the start of `s`.
pub open spec fn slug_run(s: Seq<char>) -> Seq<char>
    decreases s.len(),
{
    if s.len() > 0 && is_ld_slug_char(s[0]) {
        seq![s[0]] + slug_run(s.drop_first())
    } else {
        Seq::empty()
    }
}

/// The first slug in `s`: the run of slug characters after the first slash that has one.
pub open spec fn first_slug(s: Seq<char>) -> Option<Seq<char>>
    decreases s.len(),
{
    if s.len() < 2 {
        None
    } else if s[0] == '/' && is_ld_slug_char(s[1]) {
        Some(slug_run(s.drop_first()))
    } else {
        first_slug(s.drop_first())
    }
}

/// Ludum Dare pages that are not entries.
pub open spec fn is_reserved_slug(slug: Seq<char>) -> bool {
    slug == "results"@ || slug == "games"@ || slug == "theme"@ || slug == "stats"@ || slug.len() == 0
}

pub open spec fn spec_normalize_jam_entry_link(
    jam_type: JamType,
    jam_link: Seq<char>,
    entry_link: Seq<char>,
) -> Option<Seq<char>> {
    if !starts_with(entry_link, jam_link) {
        None
    } else {
        let tail = entry_link.subrange(jam_link.len() as int, entry_link.len() as int);
        match jam_type {
            JamType::Itch => {
                let t = strip_slash(tail);
                if starts_with(t, "/rate/"@) && all_name_chars(t, 6, true) {
                    Some(jam_link + t)
                } else {
                    None
                }
            },
            JamType::LudumDare => match first_slug(tail) {
                Some(slug) => if is_reserved_slug(slug) {
                    None
                } else {
                    Some(jam_link + "/"@ + slug)
                },
                None => None,
            },
        }
    }
}

/// Whether `s` begins with `p`.
pub fn has_prefix(s: &str, p: &str) -> (r: bool)
    ensures
        r == starts_with(s@, p@),
{
    let n = s.unicode_len();
    let m = p.unicode_len();
    if m > n {
        return false;
    }
    let mut i: usize = 0;
    while i < m
        invariant
            n == s@.len(),
            m == p@.len(),
            m <= n,
            i <= m,
            forall|k: int| 0 <= k < i ==> s@[k] == p@[k],
        decreases m - i,
    {
        if s.get_char(i) != p.get_char(i) {
            proof {
                assert(s@.subrange(0, m as int)[i as int] != p@[i as int]);
            }
            return false;
        }
        i += 1;
    }
    proof {
        assert(s@.subrange(0, m as int) =~= p@);
    }
    true
}

/// Whether `s[from..]` is non-empty and made of name characters.
fn name_chars_from(s: &str, from: usize, digits: bool) -> (r: bool)
    ensures
        r == all_name_chars(s@, from as int, digits),
{
    let n = s.unicode_len();
    if n <= from {
        return false;
    }
    let mut i: usize = from;
    while i < n
        invariant
            n == s@.len(),
            from <= i <= n,
            forall|k: int|
                from <= k < i ==> if digits {
                    is_digit(#[trigger] s@[k])
                } else {
                    is_itch_name_char(s@[k])
                },
        decreases n - i,
    {
        let c = s.get_char(i);
        let ok = if digits {
            '0' <= c && c <= '9'
        } else {
            ('a' <= c && c <= 'z') || ('0' <= c && c <= '9') || c == '_' || c == '-'
        };
        if !ok {
            return false;
        }
        i += 1;
    }
    true
}

/// `s` without one trailing slash.
fn without_slash(s: &str) -> (r: &str)
    ensures
        r@ == strip_slash(s@),
{
    let n = s.unicode_len();
    if n > 0 && s.get_char(n - 1) == '/' {
        let r = s.substring_char(0, n - 1);
        proof {
            assert(r@ =~= s@.drop_last());
        }
        r
    } else {
        s
    }
}

fn jam_link_of(prefix: &str, digits: bool, link: &str) -> (r: Option<String>)
    ensures
        r is Some <==> spec_jam_link(prefix@, digits, link@) is Some,
        r is Some ==> r->0@ == spec_jam_link(prefix@, digits, link@)->0,
{
    let body = without_slash(link);
    if has_prefix(body, prefix) && name_chars_from(body, prefix.unicode_len(), digits) {
        Some(body.to_owned())
    } else {
        None
    }
}

/// Whether `c` is a slug character.
fn slug_char(c: char) -> (r: bool)
    ensures
        r == is_ld_slug_char(c),
{
    ('a' <= c && c <= 'z') || ('0' <= c && c <= '9') || c == '-'
}

/// The first slug in `s`, as a text.
fn find_first_slug(s: &str) -> (r: Option<&str>)
    ensures
        r is Some <==> first_slug(s@) is Some,
        r is Some ==> r->0@ == first_slug(s@)->0,
{
    let n = s.unicode_len();
    let mut i: usize = 0;
    proof {
        assert(s@.subrange(0, n as int) =~= s@);
    }
    while n >= 2 && i < n - 1
        invariant
            n == s@.len(),
            i <= n,
            first_slug(s@) == first_slug(s@.subrange(i as int, n as int)),
        decreases n - i,
    {
        let ghost t = s@.subrange(i as int, n as int);
        proof {
            assert(t.drop_first() =~= s@.subrange(i + 1, n as int));
        }
        if s.get_char(i) == '/' && slug_char(s.get_char(i + 1)) {
            let mut j: usize = i + 1;
            proof {
                assert(t.drop_first() =~= s@.subrange(j as int, n as int));
            }
            while j < n && slug_char(s.get_char(j))
                invariant
                    n == s@.len(),
                    i + 1 <= j <= n,
                    slug_run(s@.subrange(i + 1, n as int)) == s@.subrange(i + 1, j as int) + slug_run(
                        s@.subrange(j as int, n as int),
                    ),
                decreases n - j,
            {
                proof {
                    let u = s@.subrange(j as int, n as int);
                    assert(u.drop_first() =~= s@.subrange(j + 1, n as int));
                    assert(s@.subrange(i + 1, j + 1) =~= s@.subrange(i + 1, j as int) + seq![u[0]]);
                }
                j += 1;
            }
            proof {
                let u = s@.subrange(j as int, n as int);
                assert(slug_run(u) =~= Seq::<char>::empty());
                assert(s@.subrange(i + 1, j as int) + Seq::<char>::empty() =~= s@.subrange(i + 1, j as int));
            }
            return Some(s.substring_char(i + 1, j));
        }
        i += 1;
    }
    None
}

/// `s` is one of the reserved Ludum Dare page names, or empty.
fn reserved_slug(s: &str) -> (r: bool)
    ensures
        r == is_reserved_slug(s@),
{
    crate::config::text_eq(s, "results") || crate::config::text_eq(s, "games") || crate::config::text_eq(
        s,
        "theme",
    ) || crate::config::text_eq(s, "stats") || s.unicode_len() == 0
}

impl JamType {
    /// A jam link of this kind, for showing to users.
    pub fn jam_link_example(&self) -> (r: &'static str)
        ensures
            r@ == match self {
                JamType::Itch => "https://itch.io/jam/example-jam"@,
                JamType::LudumDare => "https://ldjam.com/events/ludum-dare/123456"@,
            },
    {
        match self {
            JamType::Itch => "https://itch.io/jam/example-jam",
            JamType::LudumDare => "https://ldjam.com/events/ludum-dare/123456",
        }
    }

    /// An entry link of this kind under `jam_link`, for showing to users.
    pub fn jam_entry_link_example(&self, jam_link: &str) -> (r: String)
        ensures
            r@ == jam_link@ + match self {
                JamType::Itch => "/rate/123456"@,
                JamType::LudumDare => "/example-game"@,
            },
    {
        match self {
            JamType::Itch => concat(jam_link, "/rate/123456"),
            JamType::LudumDare => concat(jam_link, "/example-game"),
        }
    }

    /// The canonical form of a jam link of this kind, or `None` where `link` is not one.
    pub fn normalize_jam_link(&self, link: &str) -> (r: Option<String>)
        ensures
            r is Some <==> spec_normalize_jam_link(*self, link@) is Some,
            r is Some ==> r->0@ == spec_normalize_jam_link(*self, link@)->0,
    {
        match self {
            JamType::Itch => jam_link_of("https://itch.io/jam/", false, link),
            JamType::LudumDare => jam_link_of("https://ldjam.com/events/ludum-dare/", true, link),
        }
    }

    /// The canonical form of an entry link under `jam_link`, or `None` where `entry_link` is not
    /// an entry of that jam.
    pub fn normalize_jam_entry_link(&self, jam_link: &str, entry_link: &str) -> (r: Option<String>)
        ensures
            r is Some <==> spec_normalize_jam_entry_link(*self, jam_link@, entry_link@) is Some,
            r is Some ==> r->0@ == spec_normalize_jam_entry_link(*self, jam_link@, entry_link@)->0,
    {
        if !has_prefix(entry_link, jam_link) {
            return None;
        }
        let tail = entry_link.substring_char(jam_link.unicode_len(), entry_link.unicode_len());
        match self {
            JamType::Itch => {
                let t = without_slash(tail);
                if has_prefix(t, "/rate/") && name_chars_from(t, 6, true) {
                    Some(concat(jam_link, t))
                } else {
                    None
                }
            },
            JamType::LudumDare => match find_first_slug(tail) {
                Some(slug) => {
                    if reserved_slug(slug) {
                        None
                    } else {
                        let mut r = concat(jam_link, "/");
                        push_str(&mut r, slug);
                        Some(r)
                    }
                },
                None => None,
            },
        }
    }
}


/// The longest run of characters of a jam name (or of digits, where `digits` holds) at the start
/// of `s`.
pub open spec fn name_run(s: Seq<char>, digits: bool) -> Seq<char>
    decreases s.len(),
{
    if s.len() > 0 && (if digits {
        is_digit(s[0])
    } else {
        is_itch_name_char(s[0])
    }) {
        seq![s[0]] + name_run(s.drop_first(), digits)
    } else {
        Seq::empty()
    }
}

/// The jam link at the start of an entry link of this kind: the jam prefix and the name after it.
pub open spec fn jam_part(jam_type: JamType, link: Seq<char>) -> Seq<char> {
    let (prefix, digits) = match jam_type {
        JamType::Itch => (itch_jam_prefix(), false),
        JamType::LudumDare => (ld_jam_prefix(), true),
    };
    prefix + name_run(link.subrange(prefix.len() as int, link.len() as int), digits)
}

/// `link` is an entry of some jam of this kind; gives its canonical form.
pub open spec fn spec_entry_of_any_jam(jam_type: JamType, link: Seq<char>) -> Option<Seq<char>> {
    let prefix = match jam_type {
        JamType::Itch => itch_jam_prefix(),
        JamType::LudumDare => ld_jam_prefix(),
    };
    if starts_with(link, prefix) {
        spec_normalize_jam_entry_link(jam_type, jam_part(jam_type, link), link)
    } else {
        None
    }
}

fn name_char(c: char, digits: bool) -> (r: bool)
    ensures
        r == if digits {
            is_digit(c)
        } else {
            is_itch_name_char(c)
        },
{
    if digits {
        '0' <= c && c <= '9'
    } else {
        ('a' <= c && c <= 'z') || ('0' <= c && c <= '9') || c == '_' || c == '-'
    }
}

/// `link[..k]` where `k` ends the run of name characters that starts at `from`.
fn through_name(link: &str, from: usize, digits: bool) -> (r: &str)
    requires
        from <= link@.len(),
    ensures
        r@ == link@.subrange(0, from as int) + name_run(link@.subrange(from as int, link@.len() as int), digits),
{
    let n = link.unicode_len();
    let mut k: usize = from;
    proof {
        assert(link@.subrange(from as int, from as int) =~= Seq::<char>::empty());
    }
    while k < n && name_char(link.get_char(k), digits)
        invariant
            n == link@.len(),
            from <= k <= n,
            name_run(link@.subrange(from as int, n as int), digits) == link@.subrange(from as int, k as int)
                + name_run(link@.subrange(k as int, n as int), digits),
        decreases n - k,
    {
        proof {
            let u = link@.subrange(k as int, n as int);
            assert(u.drop_first() =~= link@.subrange(k + 1, n as int));
            assert(link@.subrange(from as int, k + 1) =~= link@.subrange(from as int, k as int) + seq![u[0]]);
        }
        k += 1;
    }
    proof {
        let u = link@.subrange(k as int, n as int);
        assert(name_run(u, digits) =~= Seq::<char>::empty());
        assert(link@.subrange(0, k as int) =~= link@.subrange(0, from as int) + link@.subrange(from as int, k as int));
    }
    link.substring_char(0, k)
}

impl JamType {
    /// The canonical form of an entry link of any jam of this kind.
    pub fn entry_of_any_jam(&self, link: &str) -> (r: Option<String>)
        ensures
            r is Some <==> spec_entry_of_any_jam(*self, link@) is Some,
            r is Some ==> r->0@ == spec_entry_of_any_jam(*self, link@)->0,
    {
        let (prefix, digits) = match self {
            JamType::Itch => ("https://itch.io/jam/", false),
            JamType::LudumDare => ("https://ldjam.com/events/ludum-dare/", true),
        };
        if !has_prefix(link, prefix) {
            return None;
        }
        let jam = through_name(link, prefix.unicode_len(), digits);
        proof {
            assert(link@.subrange(0, prefix@.len() as int) == prefix@);
        }
        self.normalize_jam_entry_link(jam, link)
    }
}

/// The canonical form of an entry link of any known jam: itch.io first, then Ludum Dare.
pub fn known_entry_link(link: &str) -> (r: Option<String>)
    ensures
        r is Some <==> (spec_entry_of_any_jam(JamType::Itch, link@) is Some || spec_entry_of_any_jam(
            JamType::LudumDare,
            link@,
        ) is Some),
        r is Some ==> r->0@ == (if spec_entry_of_any_jam(JamType::Itch, link@) is Some {
            spec_entry_of_any_jam(JamType::Itch, link@)->0
        } else {
            spec_entry_of_any_jam(JamType::LudumDare, link@)->0
        }),
{
    match JamType::Itch.entry_of_any_jam(link) {
        Some(e) => Some(e),
        None => JamType::LudumDare.entry_of_any_jam(link),
    }
}
} // verus!
