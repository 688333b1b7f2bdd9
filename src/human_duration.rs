use vstd::prelude::*;

use crate::commands::CommandError;
use crate::text::{is_alphanumeric, is_digit, is_upper, push_str};

verus! {

/// An ASCII whitespace character.
pub open spec fn is_ascii_space(c: char) -> bool {
    c == ' ' || c == '\t' || c == '\n' || c == '\x0C' || c == '\r'
}

/// `c` in lower case, where it is an ASCII capital.
pub open spec fn ascii_lower(c: char) -> char {
    if is_upper(c) {
        ((c as u32) + 32) as char
    } else {
        c
    }
}

/// The words of `s`, split at ASCII whitespace, put in lower case where `lower` holds; `cur` is
/// the word being read.
pub open spec fn words_from(s: Seq<char>, cur: Seq<char>, lower: bool) -> Seq<Seq<char>>
    decreases s.len(),
{
    if s.len() == 0 {
        if cur.len() > 0 {
            seq![cur]
        } else {
            Seq::empty()
        }
    } else if is_ascii_space(s[0]) {
        (if cur.len() > 0 {
            seq![cur]
        } else {
            Seq::empty()
        }) + words_from(s.drop_first(), Seq::empty(), lower)
    } else {
        words_from(s.drop_first(), cur.push(if lower { ascii_lower(s[0]) } else { s[0] }), lower)
    }
}

/// Number of digits at the start of `w`.
pub open spec fn leading_digits(w: Seq<char>) -> nat
    decreases w.len(),
{
    if w.len() > 0 && is_digit(w[0]) {
        1 + leading_digits(w.drop_first())
    } else {
        0
    }
}

/// A word cut after its leading digits, where it has both digits and something after them.
pub open spec fn split_word(w: Seq<char>) -> Seq<Seq<char>> {
    let k = leading_digits(w) as int;
    if 0 < k < w.len() {
        seq![w.subrange(0, k), w.subrange(k, w.len() as int)]
    } else {
        seq![w]
    }
}

/// The parts of all words, in order.
pub open spec fn parts(words: Seq<Seq<char>>) -> Seq<Seq<char>>
    decreases words.len(),
{
    if words.len() == 0 {
        Seq::empty()
    } else {
        parts(words.drop_last()) + split_word(words.last())
    }
}

/// The number a string of decimal digits denotes.
pub open spec fn digits_value(p: Seq<char>) -> int
    decreases p.len(),
{
    if p.len() == 0 {
        0
    } else {
        digits_value(p.drop_last()) * 10 + (p.last() as u32 - '0' as u32)
    }
}

/// A count: a non-empty run of digits that fits in 32 bits.
pub open spec fn count_of(p: Seq<char>) -> Option<int> {
    if p.len() > 0 && (forall|k: int| 0 <= k < p.len() ==> is_digit(#[trigger] p[k])) && digits_value(p)
        <= u32::MAX {
        Some(digits_value(p))
    } else {
        None
    }
}

/// `u` is a non-empty prefix of `name`.
pub open spec fn abbreviates(u: Seq<char>, name: Seq<char>) -> bool {
    0 < u.len() <= name.len() && name.subrange(0, u.len() as int) == u
}

/// Seconds in the unit that `u` abbreviates: days, hours, minutes or seconds, tried in that order.
pub open spec fn unit_seconds(u: Seq<char>) -> Option<int> {
    if abbreviates(u, "days"@) {
        Some(86400)
    } else if abbreviates(u, "hours"@) {
        Some(3600)
    } else if abbreviates(u, "minutes"@) {
        Some(60)
    } else if abbreviates(u, "seconds"@) {
        Some(1)
    } else {
        None
    }
}

/// Total seconds of the parts taken as pairs of count and unit, from part `i` on.
pub open spec fn total_from(ps: Seq<Seq<char>>, i: int) -> Option<int>
    decreases ps.len() - i,
{
    if i >= ps.len() {
        Some(0)
    } else if i + 1 >= ps.len() {
        None
    } else {
        match (count_of(ps[i]), unit_seconds(ps[i + 1]), total_from(ps, i + 2)) {
            (Some(c), Some(u), Some(rest)) => Some(c * u + rest),
            _ => None,
        }
    }
}

/// Only ASCII letters, digits and whitespace.
pub open spec fn duration_chars(s: Seq<char>) -> bool {
    forall|k: int| 0 <= k < s.len() ==> is_alphanumeric(#[trigger] s[k]) || is_ascii_space(s[k])
}

/// The length a duration text denotes, in seconds.
pub open spec fn spec_duration(s: Seq<char>) -> Option<int> {
    if duration_chars(s) {
        total_from(parts(words_from(s, Seq::empty(), true)), 0)
    } else {
        None
    }
}

/// A length of time given by a user, such as `1 day 3 hours` or `1d 3h 2m 59s`.
#[derive(Clone, Copy, Debug, PartialEq, Eq, Structural)]
pub struct HumanDuration {
    pub seconds: i64,
}

fn invalid(text: &str) -> (r: CommandError)
    ensures
        r is InvalidArgument,
{
    let mut message = String::new();
    push_str(&mut message, text);
    push_str(&mut message, "\nDuration examples: `1 day 3 hours 2 minutes 59 seconds`, `1d 3h 2m 59s`.");
    CommandError::InvalidArgument { message }
}

fn to_lower(c: char) -> (r: char)
    ensures
        r == ascii_lower(c),
{
    if 'A' <= c && c <= 'Z' {
        ((c as u8) + 32) as char
    } else {
        c
    }
}

fn space(c: char) -> (r: bool)
    ensures
        r == is_ascii_space(c),
{
    c == ' ' || c == '\t' || c == '\n' || c == '\x0C' || c == '\r'
}

/// The words of `s`, in lower case where `lower` holds.
pub fn split_words(s: &str, lower: bool) -> (r: Vec<Vec<char>>)
    ensures
        r@.len() == words_from(s@, Seq::empty(), lower).len(),
        forall|k: int| 0 <= k < r@.len() ==> (#[trigger] r@[k])@ == words_from(s@, Seq::empty(), lower)[k],
{
    let n = s.unicode_len();
    let mut out: Vec<Vec<char>> = Vec::new();
    let mut cur: Vec<char> = Vec::new();
    let ghost target = words_from(s@, Seq::empty(), lower);
    let mut i: usize = 0;
    proof {
        assert(s@.subrange(0, n as int) =~= s@);
    }
    while i < n
        invariant
            n == s@.len(),
            i <= n,
            target == words_from(s@, Seq::empty(), lower),
            out@.map_values(|w: Vec<char>| w@) + words_from(s@.subrange(i as int, n as int), cur@, lower) == target,
        decreases n - i,
    {
        let c = s.get_char(i);
        let ghost rest = s@.subrange(i as int, n as int);
        proof {
            assert(rest.drop_first() =~= s@.subrange(i + 1, n as int));
            assert(rest[0] == c);
        }
        if space(c) {
            if cur.len() > 0 {
                let ghost before = out@.map_values(|w: Vec<char>| w@);
                let ghost word = cur@;
                out.push(cur);
                cur = Vec::new();
                proof {
                    assert(out@.map_values(|w: Vec<char>| w@) =~= before + seq![word]);
                    assert(before + seq![word] + words_from(s@.subrange(i + 1, n as int), Seq::empty(), lower) =~= before + (
                    seq![word] + words_from(s@.subrange(i + 1, n as int), Seq::empty(), lower)));
                }
            } else {
                proof {
                    assert(Seq::<Seq<char>>::empty() + words_from(s@.subrange(i + 1, n as int), Seq::empty(), lower)
                        =~= words_from(s@.subrange(i + 1, n as int), Seq::empty(), lower));
                    assert(cur@ =~= Seq::<char>::empty());
                }
            }
        } else if lower {
            cur.push(to_lower(c));
        } else {
            cur.push(c);
        }
        i += 1;
    }
    if cur.len() > 0 {
        let ghost before = out@.map_values(|w: Vec<char>| w@);
        let ghost word = cur@;
        out.push(cur);
        proof {
            assert(out@.map_values(|w: Vec<char>| w@) =~= before + seq![word]);
        }
    } else {
        proof {
            assert(out@.map_values(|w: Vec<char>| w@) + Seq::<Seq<char>>::empty() =~= out@.map_values(|w: Vec<char>| w@));
        }
    }
    proof {
        assert(out@.map_values(|w: Vec<char>| w@) =~= target);
        assert forall|k: int| 0 <= k < out@.len() implies (#[trigger] out@[k])@ == target[k] by {
            assert(out@.map_values(|w: Vec<char>| w@)[k] == out@[k]@);
        }
    }
    out
}


proof fn lemma_leading_digits(w: Seq<char>, k: int)
    requires
        0 <= k <= w.len(),
        forall|j: int| 0 <= j < k ==> is_digit(#[trigger] w[j]),
        k == w.len() || !is_digit(w[k]),
    ensures
        leading_digits(w) == k,
    decreases k,
{
    if k > 0 {
        let t = w.drop_first();
        assert forall|j: int| 0 <= j < k - 1 implies is_digit(#[trigger] t[j]) by {
            assert(t[j] == w[j + 1]);
        }
        if k < w.len() {
            assert(t[k - 1] == w[k]);
        }
        lemma_leading_digits(t, k - 1);
    }
}

/// The parts of one word.
fn split_word_exec(w: Vec<char>) -> (r: Vec<Vec<char>>)
    ensures
        r@.map_values(|x: Vec<char>| x@) == split_word(w@),
{
    let n = w.len();
    let mut k: usize = 0;
    while k < n && '0' <= w[k] && w[k] <= '9'
        invariant
            n == w@.len(),
            k <= n,
            forall|j: int| 0 <= j < k ==> is_digit(#[trigger] w@[j]),
        decreases n - k,
    {
        k += 1;
    }
    proof {
        lemma_leading_digits(w@, k as int);
    }
    let mut r: Vec<Vec<char>> = Vec::new();
    if 0 < k && k < n {
        let mut head: Vec<char> = Vec::new();
        let mut tail: Vec<char> = Vec::new();
        let mut i: usize = 0;
        while i < n
            invariant
                n == w@.len(),
                0 < k < n,
                i <= n,
                i <= k ==> head@ == w@.subrange(0, i as int) && tail@.len() == 0,
                i > k ==> head@ == w@.subrange(0, k as int) && tail@ == w@.subrange(k as int, i as int),
            decreases n - i,
        {
            if i < k {
                head.push(w[i]);
                proof {
                    assert(head@ =~= w@.subrange(0, i + 1));
                }
            } else {
                tail.push(w[i]);
                proof {
                    assert(tail@ =~= w@.subrange(k as int, i + 1));
                }
            }
            i += 1;
        }
        let ghost hv = head@;
        let ghost tv = tail@;
        r.push(head);
        r.push(tail);
        proof {
            assert(r@.map_values(|x: Vec<char>| x@) =~= seq![hv, tv]);
        }
    } else {
        let ghost wv = w@;
        r.push(w);
        proof {
            assert(r@.map_values(|x: Vec<char>| x@) =~= seq![wv]);
        }
    }
    r
}

/// The parts of all words.
fn split_parts(words: Vec<Vec<char>>) -> (r: Vec<Vec<char>>)
    ensures
        r@.map_values(|x: Vec<char>| x@) == parts(words@.map_values(|x: Vec<char>| x@)),
{
    let ghost ws = words@.map_values(|x: Vec<char>| x@);
    let mut out: Vec<Vec<char>> = Vec::new();
    let mut words = words;
    let n = words.len();
    let mut i: usize = 0;
    proof {
        assert(ws.subrange(0, 0) =~= Seq::<Seq<char>>::empty());
        assert(out@.map_values(|x: Vec<char>| x@) =~= Seq::<Seq<char>>::empty());
    }
    while i < n
        invariant
            n == ws.len(),
            words@.len() == n,
            i <= n,
            forall|k: int| i <= k < n ==> (#[trigger] words@[k])@ == ws[k],
            out@.map_values(|x: Vec<char>| x@) == parts(ws.subrange(0, i as int)),
        decreases n - i,
    {
        let mut w: Vec<char> = Vec::new();
        std::mem::swap(&mut w, &mut words[i]);
        proof {
            assert(w@ == ws[i as int]);
        }
        let ghost before = out@.map_values(|x: Vec<char>| x@);
        let pieces = split_word_exec(w);
        let ghost pv = pieces@.map_values(|x: Vec<char>| x@);
        let mut pieces = pieces;
        let m = pieces.len();
        let mut j: usize = 0;
        while j < m
            invariant
                m == pieces@.len(),
                j <= m,
                pv.len() == m,
                forall|k: int| j <= k < m ==> (#[trigger] pieces@[k])@ == pv[k],
                out@.map_values(|x: Vec<char>| x@) == before + pv.subrange(0, j as int),
            decreases m - j,
        {
            let mut piece: Vec<char> = Vec::new();
            std::mem::swap(&mut piece, &mut pieces[j]);
            let ghost prev = out@.map_values(|x: Vec<char>| x@);
            out.push(piece);
            proof {
                assert(out@.map_values(|x: Vec<char>| x@) =~= prev.push(pv[j as int]));
                assert(before + pv.subrange(0, j + 1) =~= (before + pv.subrange(0, j as int)).push(pv[j as int]));
            }
            j += 1;
        }
        proof {
            assert(pv.subrange(0, m as int) =~= pv);
            assert(ws.subrange(0, i + 1).drop_last() =~= ws.subrange(0, i as int));
            assert(ws.subrange(0, i + 1).last() == ws[i as int]);
        }
        i += 1;
    }
    proof {
        assert(ws.subrange(0, n as int) =~= ws);
    }
    out
}

proof fn lemma_prefix_value(p: Seq<char>, j: int)
    requires
        0 <= j <= p.len(),
        forall|k: int| 0 <= k < p.len() ==> is_digit(#[trigger] p[k]),
    ensures
        0 <= digits_value(p.subrange(0, j)) <= digits_value(p),
    decreases p.len() - j,
{
    if j < p.len() {
        lemma_prefix_value(p, j + 1);
        let q = p.subrange(0, j + 1);
        assert(q.drop_last() =~= p.subrange(0, j));
        lemma_value_nonneg(p.subrange(0, j));
    } else {
        assert(p.subrange(0, j) =~= p);
        lemma_value_nonneg(p);
    }
}

proof fn lemma_value_nonneg(p: Seq<char>)
    requires
        forall|k: int| 0 <= k < p.len() ==> is_digit(#[trigger] p[k]),
    ensures
        digits_value(p) >= 0,
    decreases p.len(),
{
    if p.len() > 0 {
        let q = p.drop_last();
        assert forall|k: int| 0 <= k < q.len() implies is_digit(#[trigger] q[k]) by {
            assert(q[k] == p[k]);
        }
        lemma_value_nonneg(q);
        assert(is_digit(p[p.len() - 1]));
    }
}

/// The count a part denotes, if it is one.
fn count_exec(p: &Vec<char>) -> (r: Option<u32>)
    ensures
        r is Some <==> count_of(p@) is Some,
        r is Some ==> r->0 == count_of(p@)->0,
{
    let n = p.len();
    if n == 0 {
        return None;
    }
    let mut i: usize = 0;
    while i < n
        invariant
            n == p@.len(),
            i <= n,
            forall|k: int| 0 <= k < i ==> is_digit(#[trigger] p@[k]),
        decreases n - i,
    {
        if !('0' <= p[i] && p[i] <= '9') {
            return None;
        }
        i += 1;
    }
    let mut value: u64 = 0;
    let mut i: usize = 0;
    proof {
        assert(p@.subrange(0, 0) =~= Seq::<char>::empty());
    }
    while i < n
        invariant
            n == p@.len(),
            i <= n,
            forall|k: int| 0 <= k < n ==> is_digit(#[trigger] p@[k]),
            value == digits_value(p@.subrange(0, i as int)),
            value <= u32::MAX,
        decreases n - i,
    {
        let d = (p[i] as u32 - '0' as u32) as u64;
        proof {
            assert(p@.subrange(0, i + 1).drop_last() =~= p@.subrange(0, i as int));
            assert(p@.subrange(0, i + 1).last() == p@[i as int]);
        }
        value = value * 10 + d;
        if value > u32::MAX as u64 {
            proof {
                lemma_prefix_value(p@, i + 1);
            }
            return None;
        }
        i += 1;
    }
    proof {
        assert(p@.subrange(0, n as int) =~= p@);
    }
    Some(value as u32)
}

/// Whether `u` abbreviates `name`.
fn abbreviates_exec(u: &Vec<char>, name: &str) -> (r: bool)
    ensures
        r == abbreviates(u@, name@),
{
    let n = u.len();
    let m = name.unicode_len();
    if n == 0 || n > m {
        return false;
    }
    let mut i: usize = 0;
    while i < n
        invariant
            n == u@.len(),
            m == name@.len(),
            0 < n <= m,
            i <= n,
            forall|k: int| 0 <= k < i ==> u@[k] == name@[k],
        decreases n - i,
    {
        if u[i] != name.get_char(i) {
            proof {
                assert(name@.subrange(0, n as int)[i as int] != u@[i as int]);
            }
            return false;
        }
        i += 1;
    }
    proof {
        assert(name@.subrange(0, n as int) =~= u@);
    }
    true
}

fn unit_exec(u: &Vec<char>) -> (r: Option<u32>)
    ensures
        r is Some <==> unit_seconds(u@) is Some,
        r is Some ==> r->0 == unit_seconds(u@)->0,
{
    if abbreviates_exec(u, "days") {
        Some(86400)
    } else if abbreviates_exec(u, "hours") {
        Some(3600)
    } else if abbreviates_exec(u, "minutes") {
        Some(60)
    } else if abbreviates_exec(u, "seconds") {
        Some(1)
    } else {
        None
    }
}

proof fn lemma_total_nonneg(ps: Seq<Seq<char>>, i: int)
    requires
        0 <= i,
    ensures
        total_from(ps, i) matches Some(t) ==> t >= 0,
    decreases ps.len() - i,
{
    if i + 1 < ps.len() {
        lemma_total_nonneg(ps, i + 2);
        if let (Some(c), Some(u)) = (count_of(ps[i]), unit_seconds(ps[i + 1])) {
            assert(c >= 0) by {
                lemma_value_nonneg(ps[i]);
            }
            assert(c * u >= 0) by (nonlinear_arith)
                requires c >= 0, u >= 0;
        }
    }
}

impl HumanDuration {
    /// Parses pairs of a count and a unit (`days`, `hours`, `minutes`, `seconds`, or any
    /// non-empty prefix of them), in any case, with or without whitespace between count and unit.
    pub fn from_str(s: &str) -> (r: Result<HumanDuration, CommandError>)
        ensures
            r is Ok <==> (spec_duration(s@) is Some && spec_duration(s@)->0 <= i64::MAX),
            r matches Ok(d) ==> d.seconds == spec_duration(s@)->0,
            r matches Err(e) ==> e is InvalidArgument,
    {
        let n = s.unicode_len();
        let mut i: usize = 0;
        while i < n
            invariant
                n == s@.len(),
                i <= n,
                forall|k: int| 0 <= k < i ==> is_alphanumeric(#[trigger] s@[k]) || is_ascii_space(s@[k]),
            decreases n - i,
        {
            let c = s.get_char(i);
            if !(('a' <= c && c <= 'z') || ('A' <= c && c <= 'Z') || ('0' <= c && c <= '9') || space(c)) {
                return Err(invalid("Invalid character in duration."));
            }
            i += 1;
        }
        let words = split_words(s, true);
        proof {
            let ws = words@.map_values(|x: Vec<char>| x@);
            assert(ws =~= words_from(s@, Seq::empty(), true));
        }
        let ps = split_parts(words);
        let ghost pv = ps@.map_values(|x: Vec<char>| x@);
        let m = ps.len();
        let mut total: i128 = 0;
        let mut i: usize = 0;
        while i < m
            invariant
                m == ps@.len(),
                pv == ps@.map_values(|x: Vec<char>| x@),
                pv == parts(words_from(s@, Seq::empty(), true)),
                duration_chars(s@),
                0 <= total <= i64::MAX,
                total_from(pv, 0) == match total_from(pv, i as int) {
                    Some(y) => Some(total + y),
                    None => None,
                },
            decreases m - i,
        {
            if i + 1 >= m {
                return Err(invalid("Unexpected end of duration."));
            }
            proof {
                assert(ps@[i as int]@ == pv[i as int]);
                assert(ps@[i + 1]@ == pv[i + 1]);
            }
            let count = match count_exec(&ps[i]) {
                Some(c) => c,
                None => {
                    return Err(invalid("Expected a number."));
                },
            };
            let unit = match unit_exec(&ps[i + 1]) {
                Some(u) => u,
                None => {
                    return Err(invalid("Unknown time unit."));
                },
            };
            proof {
                lemma_total_nonneg(pv, i + 2);
                assert(count as int * unit as int <= 4294967295 * 86400) by (nonlinear_arith)
                    requires count <= 4294967295, unit <= 86400;
                assert(count as int * unit as int >= 0) by (nonlinear_arith)
                    requires count >= 0, unit >= 0;
            }
            total = total + (count as i128) * (unit as i128);
            if total > i64::MAX as i128 {
                return Err(invalid("Duration is too long."));
            }
            i += 2;
        }
        Ok(HumanDuration { seconds: total as i64 })
    }

    /// The length in nanoseconds.
    pub fn nanos(&self) -> (r: i128)
        ensures
            r == self.seconds * 1_000_000_000,
    {
        (self.seconds as i128) * 1_000_000_000
    }
}
} // verus!
