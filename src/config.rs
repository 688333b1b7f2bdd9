use vstd::prelude::*;

use crate::text::{is_digit, lowercase_of, to_lowercase, trim, trim_of};

verus! {

/// `a` and `b` hold the same characters.
pub fn text_eq(a: &str, b: &str) -> (r: bool)
    ensures
        r == (a@ == b@),
{
    let n = a.unicode_len();
    if n != b.unicode_len() {
        return false;
    }
    let mut i: usize = 0;
    while i < n
        invariant
            n == a@.len(),
            n == b@.len(),
            i <= n,
            forall|j: int| 0 <= j < i ==> a@[j] == b@[j],
        decreases n - i,
    {
        if a.get_char(i) != b.get_char(i) {
            return false;
        }
        i += 1;
    }
    proof {
        assert(a@ =~= b@);
    }
    true
}

/// A setting that holds text with something other than whitespace in it.
pub fn non_empty_string(value: &str) -> (r: bool)
    ensures
        r == (trim_of(value@).len() > 0),
{
    trim(value).unicode_len() > 0
}

/// A setting that holds `true` or `false`, in any case, with whitespace around it.
pub fn boolean(value: &str) -> (r: bool)
    ensures
        r == (lowercase_of(trim_of(value@)) == "true"@ || lowercase_of(trim_of(value@)) == "false"@),
{
    let lowered = to_lowercase(trim(value));
    text_eq(lowered.as_str(), "true") || text_eq(lowered.as_str(), "false")
}

/// The characters `s[a..b]` hold no comma, and are bounded by commas or the ends of `s`.
pub open spec fn is_segment(s: Seq<char>, a: int, b: int) -> bool {
    &&& 0 <= a <= b <= s.len()
    &&& (a == 0 || s[a - 1] == ',')
    &&& (b == s.len() || s[b] == ',')
    &&& forall|k: int| a <= k < b ==> #[trigger] s[k] != ','
}

/// An unsigned number: at least one digit, and digits only.
pub open spec fn is_uint(t: Seq<char>) -> bool {
    t.len() > 0 && forall|k: int| 0 <= k < t.len() ==> is_digit(#[trigger] t[k])
}

/// Whether `t` is an unsigned number.
fn uint_text(t: &str) -> (r: bool)
    ensures
        r == is_uint(t@),
{
    let n = t.unicode_len();
    if n == 0 {
        return false;
    }
    let mut i: usize = 0;
    while i < n
        invariant
            n == t@.len(),
            i <= n,
            forall|k: int| 0 <= k < i ==> is_digit(#[trigger] t@[k]),
        decreases n - i,
    {
        let c = t.get_char(i);
        if !('0' <= c && c <= '9') {
            return false;
        }
        i += 1;
    }
    true
}

/// A segment that ends at `b`, where the characters from `start` up to `b` hold no comma and
/// `start` follows a comma or is 0, starts at `start`.
proof fn lemma_segment_start(s: Seq<char>, start: int, b: int, a: int)
    requires
        is_segment(s, a, b),
        0 <= start <= b,
        start == 0 || s[start - 1] == ',',
        forall|k: int| start <= k < b ==> #[trigger] s[k] != ',',
    ensures
        a == start,
{
    if a < start {
        assert(s[start - 1] != ',');
    } else if a > start {
        assert(s[a - 1] != ',');
    }
}

/// A setting that holds a comma-separated list of unsigned numbers, each with whitespace
/// around it allowed.
pub fn uint_list(value: &str) -> (r: bool)
    ensures
        r == forall|a: int, b: int| #[trigger] is_segment(value@, a, b) ==> is_uint(trim_of(value@.subrange(a, b))),
{
    let s = value;
    let n = s.unicode_len();
    let mut start: usize = 0;
    let mut i: usize = 0;
    while i < n
        invariant
            s@ == value@,
            n == s@.len(),
            start <= i,
            i <= n,
            start == 0 || s@[start - 1] == ',',
            forall|k: int| start <= k < i ==> #[trigger] s@[k] != ',',
            forall|a: int, b: int| #[trigger] is_segment(s@, a, b) && b < start ==> is_uint(trim_of(s@.subrange(a, b))),
        decreases n - i,
    {
        if s.get_char(i) == ',' {
            let piece = s.substring_char(start, i);
            let trimmed = trim(piece);
            if !uint_text(trimmed) {
                proof {
                    assert(is_segment(s@, start as int, i as int));
                    assert(trimmed@ == trim_of(s@.subrange(start as int, i as int)));
                    assert(!is_uint(trim_of(s@.subrange(start as int, i as int))));
                }
                return false;
            }
            proof {
                assert forall|a: int, b: int| #[trigger] is_segment(s@, a, b) && b < i + 1 implies is_uint(trim_of(s@.subrange(a, b))) by {
                    if b >= start {
                        if b < i {
                            assert(s@[b] != ',');
                        }
                        lemma_segment_start(s@, start as int, b, a);
                    }
                }
            }
            start = i + 1;
        }
        i += 1;
    }
    let piece = s.substring_char(start, n);
    let last = uint_text(trim(piece));
    proof {
        assert(is_segment(s@, start as int, n as int));
        if last {
            assert forall|a: int, b: int| #[trigger] is_segment(s@, a, b) implies is_uint(trim_of(s@.subrange(a, b))) by {
                if b >= start {
                    if b < n {
                        assert(s@[b] != ',');
                    }
                    lemma_segment_start(s@, start as int, b, a);
                }
            }
        }
    }
    last
}

/// What a setting must hold.
#[derive(Clone, Copy, Debug, PartialEq, Eq, Structural)]
pub enum SettingKind {
    NonEmptyString,
    Boolean,
    UintList,
}

/// A process setting read from the environment.
#[derive(Clone, Copy, Debug)]
pub struct EnvVar {
    pub name: &'static str,
    pub kind: SettingKind,
}

/// The settings that must be present, and those that may be.
pub fn required_settings() -> (r: Vec<EnvVar>)
    ensures
        r@.len() == 2,
        r@[0].name@ == "DISCORD_BOT_TOKEN"@ && r@[0].kind == SettingKind::NonEmptyString,
        r@[1].name@ == "DATABASE_URL"@ && r@[1].kind == SettingKind::NonEmptyString,
{
    vec![
        EnvVar { name: "DISCORD_BOT_TOKEN", kind: SettingKind::NonEmptyString },
        EnvVar { name: "DATABASE_URL", kind: SettingKind::NonEmptyString },
    ]
}

pub fn optional_settings() -> (r: Vec<EnvVar>)
    ensures
        r@.len() == 2,
        r@[0].name@ == "REGISTER_COMMANDS_GLOBALLY"@ && r@[0].kind == SettingKind::Boolean,
        r@[1].name@ == "REGISTER_COMMANDS_IN_GUILDS"@ && r@[1].kind == SettingKind::UintList,
{
    vec![
        EnvVar { name: "REGISTER_COMMANDS_GLOBALLY", kind: SettingKind::Boolean },
        EnvVar { name: "REGISTER_COMMANDS_IN_GUILDS", kind: SettingKind::UintList },
    ]
}

impl EnvVar {
    /// Whether `value` is acceptable for this setting.
    pub fn validate(&self, value: &str) -> (r: bool)
        ensures
            self.kind == SettingKind::NonEmptyString ==> r == (trim_of(value@).len() > 0),
            self.kind == SettingKind::Boolean ==> r == (lowercase_of(trim_of(value@)) == "true"@
                || lowercase_of(trim_of(value@)) == "false"@),
            self.kind == SettingKind::UintList ==> r == forall|a: int, b: int| #[trigger]
                is_segment(value@, a, b) ==> is_uint(trim_of(value@.subrange(a, b))),
    {
        match self.kind {
            SettingKind::NonEmptyString => non_empty_string(value),
            SettingKind::Boolean => boolean(value),
            SettingKind::UintList => uint_list(value),
        }
    }

    /// The setting read as a flag: true exactly where it is set to `true`; `default` where unset.
    pub fn get_bool(&self, value: Option<&str>, default: bool) -> (r: bool)
        ensures
            r == match value {
                Some(v) => v@ == "true"@,
                None => default,
            },
    {
        match value {
            Some(v) => text_eq(v, "true"),
            None => default,
        }
    }
}

} // verus!
