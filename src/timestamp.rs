use vstd::prelude::*;

verus! {

/// How the chat client shows a timestamp.
#[derive(Clone, Copy, Debug, PartialEq, Eq, Structural)]
pub enum TimestampStyle {
    /// Short time, e.g. `16:20`
    ShortTime,
    /// Long time, e.g. `16:20:30`
    LongTime,
    /// Short date, e.g. `20/04/2021`
    ShortDate,
    /// Long date, e.g. `20 April 2021`
    LongDate,
    /// Short date/time, e.g. `20 April 2021 16:20`
    ShortDateTime,
    /// Long date/time, e.g. `Tuesday, 20 April 2021 16:20`
    LongDateTime,
    /// Relative time, e.g. `2 months ago`
    RelativeTime,
}

impl TimestampStyle {
    /// The letter that selects this style in a timestamp tag.
    pub fn suffix(&self) -> (r: &'static str)
        ensures
            r@ == match self {
                TimestampStyle::ShortTime => "t"@,
                TimestampStyle::LongTime => "T"@,
                TimestampStyle::ShortDate => "d"@,
                TimestampStyle::LongDate => "D"@,
                TimestampStyle::ShortDateTime => "f"@,
                TimestampStyle::LongDateTime => "F"@,
                TimestampStyle::RelativeTime => "R"@,
            },
    {
        match self {
            TimestampStyle::ShortTime => "t",
            TimestampStyle::LongTime => "T",
            TimestampStyle::ShortDate => "d",
            TimestampStyle::LongDate => "D",
            TimestampStyle::ShortDateTime => "f",
            TimestampStyle::LongDateTime => "F",
            TimestampStyle::RelativeTime => "R",
        }
    }
}

} // verus!
