use vstd::prelude::*;
use crate::ui::color::Color;
use crate::text::syntax_highlighter::HighlightKind;

verus! {

pub struct Theme {
    pub normal: Color,
    pub comment: Color,
    pub keyword: Color,
    pub number: Color,
    pub symbol: Color,
    pub string: Color,
    pub selection: Color,
    pub border: Color,
    pub background: Color,
}

/// The kinds of highlight that a theme gives a color of its own.
pub open spec fn themed_kind(kind: HighlightKind) -> bool {
    match kind {
        HighlightKind::Normal | HighlightKind::Comment | HighlightKind::Keyword | HighlightKind::Number
        | HighlightKind::Symbol | HighlightKind::String => true,
        _ => false,
    }
}

impl Theme {
    /// The theme's color for a kind of highlight.
    pub fn highlight_kind_to_color(&self, highlight_kind: HighlightKind) -> (r: Color)
        requires
            themed_kind(highlight_kind),
        ensures
            r == match highlight_kind {
                HighlightKind::Normal => self.normal,
                HighlightKind::Comment => self.comment,
                HighlightKind::Keyword => self.keyword,
                HighlightKind::Number => self.number,
                HighlightKind::Symbol => self.symbol,
                _ => self.string,
            },
    {
        match highlight_kind {
            HighlightKind::Normal => self.normal,
            HighlightKind::Comment => self.comment,
            HighlightKind::Keyword => self.keyword,
            HighlightKind::Number => self.number,
            HighlightKind::Symbol => self.symbol,
            _ => self.string,
        }
    }

    /// Whether the background is dark: the mean of its red, green and blue is below the middle.
    pub fn is_dark(&self) -> (r: bool)
        ensures
            r == ((self.background.r + self.background.g + self.background.b) / 3 < 128),
    {
        let background_average = (self.background.r as usize + self.background.g as usize
            + self.background.b as usize) / 3;
        background_average < 128
    }
}

} // verus!
