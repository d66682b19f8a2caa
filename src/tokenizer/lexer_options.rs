use vstd::prelude::*;

verus! {

/// Scan-context options of one scanning level: which closing delimiter ends
/// the level, and whether the level is an expression embedded in a template.
#[derive(Debug, Clone, Copy, PartialEq, Eq, Structural)]
pub struct LexerOptions {
    pub break_by_close_square_bracket: bool,
    pub break_by_close_parenthesis: bool,
    pub break_by_close_curly_bracket: bool,
    pub template_break_by_close_curly_bracket: bool,
}

impl LexerOptions {
    /// Options with no break condition: the level runs to the end of input.
    pub open spec fn spec_default() -> LexerOptions {
        LexerOptions {
            break_by_close_square_bracket: false,
            break_by_close_parenthesis: false,
            break_by_close_curly_bracket: false,
            template_break_by_close_curly_bracket: false,
        }
    }

    pub fn set_break_by_close_square_bracket(self, break_by_close_square_bracket: bool) -> (r:
        LexerOptions)
        ensures
            r == (LexerOptions { break_by_close_square_bracket, ..self }),
    {
        LexerOptions { break_by_close_square_bracket, ..self }
    }

    pub fn set_break_by_close_parenthesis(self, break_by_close_parenthesis: bool) -> (r:
        LexerOptions)
        ensures
            r == (LexerOptions { break_by_close_parenthesis, ..self }),
    {
        LexerOptions { break_by_close_parenthesis, ..self }
    }

    pub fn set_break_by_close_curly_bracket(self, break_by_close_curly_bracket: bool) -> (r:
        LexerOptions)
        ensures
            r == (LexerOptions { break_by_close_curly_bracket, ..self }),
    {
        LexerOptions { break_by_close_curly_bracket, ..self }
    }

    pub fn set_template_break_by_close_curly_bracket(
        self,
        template_break_by_close_curly_bracket: bool,
    ) -> (r: LexerOptions)
        ensures
            r == (LexerOptions { template_break_by_close_curly_bracket, ..self }),
    {
        LexerOptions { template_break_by_close_curly_bracket, ..self }
    }
}

impl Default for LexerOptions {
    fn default() -> (r: LexerOptions)
        ensures
            r == LexerOptions::spec_default(),
    {
        LexerOptions {
            break_by_close_square_bracket: false,
            break_by_close_parenthesis: false,
            break_by_close_curly_bracket: false,
            template_break_by_close_curly_bracket: false,
        }
    }
}

} // verus!
