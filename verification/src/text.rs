//! Messages put together from fixed words and values.

use vstd::prelude::*;

verus! {

/// One decimal digit.
pub open spec fn digit(value: nat) -> char {
    if value == 0 {
        '0'
    } else if value == 1 {
        '1'
    } else if value == 2 {
        '2'
    } else if value == 3 {
        '3'
    } else if value == 4 {
        '4'
    } else if value == 5 {
        '5'
    } else if value == 6 {
        '6'
    } else if value == 7 {
        '7'
    } else if value == 8 {
        '8'
    } else {
        '9'
    }
}

/// A number in decimal digits, without leading zeros.
pub open spec fn decimal(value: nat) -> Seq<char>
    decreases value,
{
    if value < 10 {
        seq![digit(value)]
    } else {
        decimal(value / 10).push(digit(value % 10))
    }
}

fn digit_text(value: u64) -> (text: &'static str)
    requires
        value < 10,
    ensures
        text@ == seq![digit(value as nat)],
{
    proof {
        reveal_strlit("0");
        reveal_strlit("1");
        reveal_strlit("2");
        reveal_strlit("3");
        reveal_strlit("4");
        reveal_strlit("5");
        reveal_strlit("6");
        reveal_strlit("7");
        reveal_strlit("8");
        reveal_strlit("9");
    }
    match value {
        0 => "0",
        1 => "1",
        2 => "2",
        3 => "3",
        4 => "4",
        5 => "5",
        6 => "6",
        7 => "7",
        8 => "8",
        _ => "9",
    }
}

fn decimal_text(value: u64) -> (text: String)
    ensures
        text@ == decimal(value as nat),
    decreases value,
{
    if value < 10 {
        digit_text(value).to_owned()
    } else {
        let text = decimal_text(value / 10).concat(digit_text(value % 10));
        assert(text@ =~= decimal(value as nat));
        text
    }
}

/// A value that has a place in a message.
pub trait Shown {
    spec fn shown(&self) -> Seq<char>;

    fn show(&self) -> (text: String)
        ensures
            text@ == self.shown(),
    ;
}

impl Shown for u64 {
    open spec fn shown(&self) -> Seq<char> {
        decimal(*self as nat)
    }

    fn show(&self) -> (text: String) {
        decimal_text(*self)
    }
}

impl Shown for u32 {
    open spec fn shown(&self) -> Seq<char> {
        decimal(*self as nat)
    }

    fn show(&self) -> (text: String) {
        decimal_text(*self as u64)
    }
}

impl Shown for usize {
    open spec fn shown(&self) -> Seq<char> {
        decimal(*self as nat)
    }

    fn show(&self) -> (text: String) {
        decimal_text(*self as u64)
    }
}

impl<T: Shown> Shown for Option<T> {
    open spec fn shown(&self) -> Seq<char> {
        match self {
            Some(value) => "Some("@ + value.shown() + ")"@,
            None => "None"@,
        }
    }

    fn show(&self) -> (text: String) {
        match self {
            Some(value) => Message::of("Some(").with(value).and(")").finish(),
            None => Message::of("None").finish(),
        }
    }
}

/// A message in the making.
pub struct Message {
    pub(crate) text: String,
}

impl View for Message {
    type V = Seq<char>;

    open(crate) spec fn view(&self) -> Seq<char> {
        self.text@
    }
}

impl Message {
    /// Begins with some words.
    pub fn of(words: &str) -> (message: Message)
        ensures
            message@ == words@,
    {
        Message { text: words.to_owned() }
    }

    /// Goes on with some words.
    pub fn and(self, words: &str) -> (message: Message)
        ensures
            message@ == self@ + words@,
    {
        Message { text: self.text.concat(words) }
    }

    /// Goes on with a value.
    pub fn with<T: Shown>(self, value: &T) -> (message: Message)
        ensures
            message@ == self@ + value.shown(),
    {
        let shown = value.show();
        Message { text: self.text.concat(shown.as_str()) }
    }

    pub fn finish(self) -> (text: String)
        ensures
            text@ == self@,
    {
        self.text
    }
}

} // verus!
