use vstd::prelude::*;

verus! {

pub const SPACE: u8 = 0x20;
pub const TAB: u8 = 0x09;
pub const LINE_FEED: u8 = 0x0a;
pub const CARRIAGE_RETURN: u8 = 0x0d;
pub const QUOTE: u8 = 0x22;
pub const DOLLAR: u8 = 0x24;
pub const AMPERSAND: u8 = 0x26;
pub const OPEN_PARENTHESIS: u8 = 0x28;
pub const CLOSE_PARENTHESIS: u8 = 0x29;
pub const ASTERISK: u8 = 0x2a;
pub const PLUS: u8 = 0x2b;
pub const MINUS: u8 = 0x2d;
pub const DOT: u8 = 0x2e;
pub const SLASH: u8 = 0x2f;
pub const COLON: u8 = 0x3a;
pub const LESS: u8 = 0x3c;
pub const EQUAL: u8 = 0x3d;
pub const GREATER: u8 = 0x3e;
pub const OPEN_SQUARE_BRACKET: u8 = 0x5b;
pub const BACKSLASH: u8 = 0x5c;
pub const CLOSE_SQUARE_BRACKET: u8 = 0x5d;
pub const UNDERSCORE: u8 = 0x5f;
pub const BACKTICK: u8 = 0x60;
pub const OPEN_CURLY_BRACKET: u8 = 0x7b;
pub const PIPE: u8 = 0x7c;
pub const CLOSE_CURLY_BRACKET: u8 = 0x7d;

/// The classes of bytes over which the scanner takes maximal runs.
#[derive(Debug, Clone, Copy, PartialEq, Eq, Structural)]
pub enum CharClass {
    /// space and tab
    Space,
    /// carriage return and line feed
    Newline,
    /// what may start a keyword: a letter, `_` or `$`
    KeywordStart,
    /// what may continue a keyword: a letter, a digit, `_` or `$`
    KeywordPart,
    /// what may start a number: a decimal digit
    Digit,
    /// what may continue a number: a decimal digit or `_`
    NumericPart,
    /// `* - / + | & > <`
    Operator,
    /// any byte but the double quote
    StringBody,
}

pub open spec fn is_letter(b: u8) -> bool {
    (0x61 <= b && b <= 0x7a) || (0x41 <= b && b <= 0x5a)
}

pub open spec fn is_digit(b: u8) -> bool {
    0x30 <= b && b <= 0x39
}

impl CharClass {
    pub open spec fn spec_matches(self, b: u8) -> bool {
        match self {
            CharClass::Space => b == SPACE || b == TAB,
            CharClass::Newline => b == CARRIAGE_RETURN || b == LINE_FEED,
            CharClass::KeywordStart => is_letter(b) || b == UNDERSCORE || b == DOLLAR,
            CharClass::KeywordPart => is_letter(b) || is_digit(b) || b == UNDERSCORE || b == DOLLAR,
            CharClass::Digit => is_digit(b),
            CharClass::NumericPart => is_digit(b) || b == UNDERSCORE,
            CharClass::Operator => b == ASTERISK || b == MINUS || b == SLASH || b == PLUS || b
                == PIPE || b == AMPERSAND || b == GREATER || b == LESS,
            CharClass::StringBody => b != QUOTE,
        }
    }

    /// Every class but the string body holds ASCII bytes only.
    pub open spec fn is_ascii_only(self) -> bool {
        self != CharClass::StringBody
    }

    pub fn matches(&self, b: u8) -> (r: bool)
        ensures
            r == self.spec_matches(b),
    {
        let letter = (0x61 <= b && b <= 0x7a) || (0x41 <= b && b <= 0x5a);
        let digit = 0x30 <= b && b <= 0x39;
        match self {
            CharClass::Space => b == SPACE || b == TAB,
            CharClass::Newline => b == CARRIAGE_RETURN || b == LINE_FEED,
            CharClass::KeywordStart => letter || b == UNDERSCORE || b == DOLLAR,
            CharClass::KeywordPart => letter || digit || b == UNDERSCORE || b == DOLLAR,
            CharClass::Digit => digit,
            CharClass::NumericPart => digit || b == UNDERSCORE,
            CharClass::Operator => b == ASTERISK || b == MINUS || b == SLASH || b == PLUS || b
                == PIPE || b == AMPERSAND || b == GREATER || b == LESS,
            CharClass::StringBody => b != QUOTE,
        }
    }
}

} // verus!
