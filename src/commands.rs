use vstd::prelude::*;

use crate::text::{
    deunicode_char, deunicode_of, is_alphanumeric, is_ascii_char, is_digit, is_lower, is_upper,
    push_char, push_str, spec_upper, trim, trim_of, upper,
};

verus! {

/// Why a command failed.
#[derive(Clone, Debug, PartialEq, Eq)]
pub enum CommandError {
    /// The user gave input that cannot be acted on.
    User { message: String },
    /// Something went wrong on the bot's side.
    Internal { message: String },
    /// A command argument is malformed.
    InvalidArgument { message: String },
}

impl CommandError {
    /// The message shown to the user.
    pub fn message(&self) -> (r: &String)
        ensures
            r == match self {
                CommandError::User { message } => message,
                CommandError::Internal { message } => message,
                CommandError::InvalidArgument { message } => message,
            },
    {
        match self {
            CommandError::User { message } => message,
            CommandError::Internal { message } => message,
            CommandError::InvalidArgument { message } => message,
        }
    }
}

pub fn user_err(message: &str) -> (r: CommandError)
    ensures
        r matches CommandError::User { message: m } && m@ == message@,
{
    CommandError::User { message: message.to_owned() }
}

pub fn internal_err(message: &str) -> (r: CommandError)
    ensures
        r matches CommandError::Internal { message: m } && m@ == message@,
{
    CommandError::Internal { message: message.to_owned() }
}

pub fn invalid_argument(message: String) -> (r: CommandError)
    ensures
        r == (CommandError::InvalidArgument { message }),
{
    CommandError::InvalidArgument { message }
}

/// A character allowed in an exchange slug: an ASCII letter or digit, `-` or `_`.
pub open spec fn is_slug_char(c: char) -> bool {
    is_alphanumeric(c) || c == '-' || c == '_'
}

pub open spec fn all_slug_chars(s: Seq<char>) -> bool {
    forall|i: int| 0 <= i < s.len() ==> is_slug_char(#[trigger] s[i])
}

/// The short name of an exchange, unique within a guild: trimmed, and made of slug characters only.
#[derive(Clone, Debug)]
pub struct ExchangeSlug {
    slug: String,
}

impl View for ExchangeSlug {
    type V = Seq<char>;

    closed spec fn view(&self) -> Seq<char> {
        self.slug@
    }
}

impl ExchangeSlug {
    /// Trims `s` and accepts it where every remaining character is a slug character.
    pub fn from_str(s: &str) -> (r: Result<ExchangeSlug, CommandError>)
        ensures
            r is Ok <==> all_slug_chars(trim_of(s@)),
            r matches Ok(slug) ==> slug@ == trim_of(s@),
            r matches Err(e) ==> e is User,
    {
        let t = trim(s);
        let n = t.unicode_len();
        let mut i: usize = 0;
        while i < n
            invariant
                n == t@.len(),
                t@ == trim_of(s@),
                i <= n,
                forall|j: int| 0 <= j < i ==> is_slug_char(#[trigger] t@[j]),
            decreases n - i,
        {
            let c = t.get_char(i);
            if !(('a' <= c && c <= 'z') || ('A' <= c && c <= 'Z') || ('0' <= c && c <= '9') || c == '-'
                || c == '_') {
                let mut message = String::new();
                push_str(&mut message, "Invalid exchange slug: `");
                push_str(&mut message, t);
                push_str(
                    &mut message,
                    "`.\nIt can only contain a-z, A-Z, 0-9, a dash (-) or an underscore (_).",
                );
                return Err(CommandError::User { message });
            }
            i += 1;
        }
        Ok(ExchangeSlug { slug: t.to_owned() })
    }

    pub fn as_str(&self) -> (r: &str)
        ensures
            r@ == self@,
    {
        self.slug.as_str()
    }

    /// The slug as an owned string.
    pub fn into_string(self) -> (r: String)
        ensures
            r@ == self@,
    {
        self.slug
    }
}

/// A string with no leading or trailing whitespace.
#[derive(Clone, Debug)]
pub struct TrimmedString {
    text: String,
}

impl View for TrimmedString {
    type V = Seq<char>;

    closed spec fn view(&self) -> Seq<char> {
        self.text@
    }
}

impl TrimmedString {
    /// Trims `s`.
    pub fn from_str(s: &str) -> (r: TrimmedString)
        ensures
            r@ == trim_of(s@),
    {
        TrimmedString { text: trim(s).to_owned() }
    }

    pub fn as_str(&self) -> (r: &str)
        ensures
            r@ == self@,
    {
        self.text.as_str()
    }

    pub fn into_string(self) -> (r: String)
        ensures
            r@ == self@,
    {
        self.text
    }
}

/// What one character of a name contributes before slugging: itself where ASCII, else its
/// transliteration, or nothing.
pub open spec fn piece(c: char) -> Seq<char> {
    if is_ascii_char(c) {
        seq![c]
    } else {
        match deunicode_of(c) {
            Some(t) => t,
            None => Seq::empty(),
        }
    }
}

/// A name transliterated to ASCII, character by character.
pub open spec fn ascii_stream(s: Seq<char>) -> Seq<char>
    decreases s.len(),
{
    if s.len() == 0 {
        Seq::empty()
    } else {
        piece(s[0]) + ascii_stream(s.drop_first())
    }
}

/// What an ASCII character adds to a camel-case slug: digits and capitals as they are, a small
/// letter capitalised where it starts a word, anything else dropped.
pub open spec fn emit(c: char, start_of_word: bool) -> Seq<char> {
    if is_digit(c) || is_upper(c) {
        seq![c]
    } else if is_lower(c) {
        seq![if start_of_word { spec_upper(c) } else { c }]
    } else {
        Seq::empty()
    }
}

/// The camel-case slug of an ASCII stream; a word starts after any character that is not a
/// letter or digit.
pub open spec fn camel(stream: Seq<char>, start_of_word: bool) -> Seq<char>
    decreases stream.len(),
{
    if stream.len() == 0 {
        Seq::empty()
    } else {
        emit(stream[0], start_of_word) + camel(stream.drop_first(), !is_alphanumeric(stream[0]))
    }
}

fn add_char(out: &mut String, c: char, start_of_word: bool) -> (next: bool)
    ensures
        final(out)@ == old(out)@ + emit(c, start_of_word),
        next == !is_alphanumeric(c),
{
    if ('0' <= c && c <= '9') || ('A' <= c && c <= 'Z') {
        push_char(out, c);
    } else if 'a' <= c && c <= 'z' {
        if start_of_word {
            push_char(out, upper(c));
        } else {
            push_char(out, c);
        }
    }
    proof {
        assert(final(out)@ =~= old(out)@ + emit(c, start_of_word));
    }
    !(('0' <= c && c <= '9') || ('A' <= c && c <= 'Z') || ('a' <= c && c <= 'z'))
}

proof fn lemma_camel_step(stream: Seq<char>, rest: Seq<char>, flag: bool)
    requires
        stream.len() > 0,
    ensures
        camel(stream + rest, flag) == emit(stream[0], flag) + camel(
            stream.drop_first() + rest,
            !is_alphanumeric(stream[0]),
        ),
{
    assert((stream + rest).drop_first() =~= stream.drop_first() + rest);
    assert((stream + rest)[0] == stream[0]);
}

/// A camel-case slug of a display name: transliterated to ASCII, words capitalised, and
/// everything but letters and digits dropped.
pub fn slugify_camel(name: &str) -> (r: String)
    ensures
        r@ == camel(ascii_stream(name@), false),
{
    let mut slug = String::new();
    let mut start_of_word = false;
    let n = name.unicode_len();
    let mut i: usize = 0;
    proof {
        assert(name@.subrange(0, n as int) =~= name@);
    }
    while i < n
        invariant
            n == name@.len(),
            i <= n,
            slug@ + camel(ascii_stream(name@.subrange(i as int, n as int)), start_of_word) == camel(
                ascii_stream(name@),
                false,
            ),
        decreases n - i,
    {
        let c = name.get_char(i);
        let ghost rest = ascii_stream(name@.subrange(i + 1, n as int));
        proof {
            assert(name@.subrange(i as int, n as int).drop_first() =~= name@.subrange(i + 1, n as int));
            assert(ascii_stream(name@.subrange(i as int, n as int)) == piece(c) + rest);
        }
        if (c as u32) < 128 {
            proof {
                lemma_camel_step(seq![c], rest, start_of_word);
                assert(seq![c].drop_first() + rest =~= rest);
            }
            start_of_word = add_char(&mut slug, c, start_of_word);
            proof {
                assert(slug@ + camel(rest, start_of_word) =~= camel(ascii_stream(name@), false));
            }
        } else {
            match deunicode_char(c) {
                Some(t) => {
                    let tn = t.unicode_len();
                    let mut k: usize = 0;
                    proof {
                        assert(t@.subrange(0, tn as int) =~= t@);
                    }
                    while k < tn
                        invariant
                            tn == t@.len(),
                            k <= tn,
                            slug@ + camel(t@.subrange(k as int, tn as int) + rest, start_of_word) == camel(
                                ascii_stream(name@),
                                false,
                            ),
                        decreases tn - k,
                    {
                        let d = t.get_char(k);
                        proof {
                            let part = t@.subrange(k as int, tn as int);
                            lemma_camel_step(part, rest, start_of_word);
                            assert(part.drop_first() =~= t@.subrange(k + 1, tn as int));
                        }
                        start_of_word = add_char(&mut slug, d, start_of_word);
                        proof {
                            assert(slug@ + camel(t@.subrange(k + 1, tn as int) + rest, start_of_word)
                                =~= camel(ascii_stream(name@), false));
                        }
                        k += 1;
                    }
                    proof {
                        assert(t@.subrange(tn as int, tn as int) + rest =~= rest);
                    }
                },
                None => {
                    proof {
                        assert(piece(c) + rest =~= rest);
                    }
                },
            }
        }
        i += 1;
    }
    proof {
        assert(name@.subrange(n as int, n as int) =~= Seq::<char>::empty());
        assert(slug@ + Seq::<char>::empty() =~= slug@);
    }
    slug
}

} // verus!
