//! The themes that can be chosen.
use vstd::prelude::*;

verus! {

#[derive(Clone, Copy, Debug, PartialEq, Eq, Structural)]
pub enum ThemeKind {
    Default,
    Monochrome,
    HighContrast,
}

impl Default for ThemeKind {
    fn default() -> (theme: Self)
        ensures
            theme == ThemeKind::Default,
    {
        ThemeKind::Default
    }
}

impl ThemeKind {
    pub open spec fn following(self) -> ThemeKind {
        match self {
            ThemeKind::Default => ThemeKind::Monochrome,
            ThemeKind::Monochrome => ThemeKind::HighContrast,
            ThemeKind::HighContrast => ThemeKind::Default,
        }
    }

    pub fn next(self) -> (theme: Self)
        ensures
            theme == self.following(),
    {
        match self {
            ThemeKind::Default => ThemeKind::Monochrome,
            ThemeKind::Monochrome => ThemeKind::HighContrast,
            ThemeKind::HighContrast => ThemeKind::Default,
        }
    }

    pub open spec fn label_text(self) -> Seq<char> {
        match self {
            ThemeKind::Default => "default"@,
            ThemeKind::Monochrome => "monochrome"@,
            ThemeKind::HighContrast => "high-contrast"@,
        }
    }

    pub fn label(self) -> (label: &'static str)
        ensures
            label@ == self.label_text(),
    {
        match self {
            ThemeKind::Default => "default",
            ThemeKind::Monochrome => "monochrome",
            ThemeKind::HighContrast => "high-contrast",
        }
    }
}

/// Going on to the next theme reaches every theme and comes back.
pub proof fn themes_go_round(theme: ThemeKind)
    ensures
        theme.following().following().following() == theme,
        theme.following() != theme,
        theme.following().following() != theme,
{
}

/// The colours of the themes.
#[derive(Clone, Copy, Debug, PartialEq, Eq, Structural)]
pub enum Color {
    Black,
    Cyan,
    Green,
    LightCyan,
    LightGreen,
    LightMagenta,
    LightYellow,
    Magenta,
    Red,
    White,
    Yellow,
}

/// How a text stands out beside its colours.
#[derive(Clone, Copy, Debug, PartialEq, Eq, Structural)]
pub enum Emphasis {
    Plain,
    Bold,
    Italic,
    Underlined,
    Reversed,
}

/// How a text is drawn.
#[derive(Clone, Copy, Debug, PartialEq, Eq, Structural)]
pub struct Paint {
    pub foreground: Option<Color>,
    pub background: Option<Color>,
    pub emphasis: Emphasis,
}

/// How the parts of the screen are drawn.
#[derive(Clone, Copy, Debug, PartialEq, Eq, Structural)]
pub struct Theme {
    pub title: Paint,
    pub columns: Paint,
    pub directory: Paint,
    pub symlink: Paint,
    pub error: Paint,
    pub mountpoint: Paint,
    pub selected: Paint,
    pub matched: Paint,
    pub accent: Paint,
    pub dialog: Paint,
}

impl Theme {
    pub open spec fn of_kind(kind: ThemeKind) -> Theme {
        match kind {
            ThemeKind::Default => Theme {
                title: Paint { foreground: None, background: None, emphasis: Emphasis::Bold },
                columns: Paint { foreground: None, background: None, emphasis: Emphasis::Bold },
                directory: Paint { foreground: Some(Color::Cyan), background: None, emphasis: Emphasis::Plain },
                symlink: Paint { foreground: Some(Color::Magenta), background: None, emphasis: Emphasis::Plain },
                error: Paint { foreground: Some(Color::Red), background: None, emphasis: Emphasis::Plain },
                mountpoint: Paint { foreground: Some(Color::Yellow), background: None, emphasis: Emphasis::Plain },
                selected: Paint { foreground: Some(Color::Black), background: Some(Color::White), emphasis: Emphasis::Bold },
                matched: Paint { foreground: Some(Color::Yellow), background: None, emphasis: Emphasis::Plain },
                accent: Paint { foreground: Some(Color::Green), background: None, emphasis: Emphasis::Plain },
                dialog: Paint { foreground: None, background: None, emphasis: Emphasis::Plain },
            },
            ThemeKind::Monochrome => Theme {
                title: Paint { foreground: None, background: None, emphasis: Emphasis::Bold },
                columns: Paint { foreground: None, background: None, emphasis: Emphasis::Bold },
                directory: Paint { foreground: None, background: None, emphasis: Emphasis::Bold },
                symlink: Paint { foreground: None, background: None, emphasis: Emphasis::Italic },
                error: Paint { foreground: None, background: None, emphasis: Emphasis::Reversed },
                mountpoint: Paint { foreground: None, background: None, emphasis: Emphasis::Underlined },
                selected: Paint { foreground: None, background: None, emphasis: Emphasis::Reversed },
                matched: Paint { foreground: None, background: None, emphasis: Emphasis::Underlined },
                accent: Paint { foreground: None, background: None, emphasis: Emphasis::Bold },
                dialog: Paint { foreground: None, background: None, emphasis: Emphasis::Plain },
            },
            ThemeKind::HighContrast => Theme {
                title: Paint { foreground: Some(Color::Black), background: Some(Color::Yellow), emphasis: Emphasis::Bold },
                columns: Paint { foreground: Some(Color::Yellow), background: None, emphasis: Emphasis::Bold },
                directory: Paint { foreground: Some(Color::LightCyan), background: None, emphasis: Emphasis::Bold },
                symlink: Paint { foreground: Some(Color::LightMagenta), background: None, emphasis: Emphasis::Plain },
                error: Paint { foreground: Some(Color::White), background: Some(Color::Red), emphasis: Emphasis::Plain },
                mountpoint: Paint { foreground: Some(Color::Black), background: Some(Color::Yellow), emphasis: Emphasis::Plain },
                selected: Paint { foreground: Some(Color::Black), background: Some(Color::LightGreen), emphasis: Emphasis::Bold },
                matched: Paint { foreground: Some(Color::Black), background: Some(Color::LightYellow), emphasis: Emphasis::Plain },
                accent: Paint { foreground: Some(Color::LightGreen), background: None, emphasis: Emphasis::Bold },
                dialog: Paint { foreground: Some(Color::White), background: None, emphasis: Emphasis::Plain },
            },
        }
    }

    /// How the parts of the screen are drawn in a theme.
    pub fn for_kind(kind: ThemeKind) -> (theme: Self)
        ensures
            theme == Theme::of_kind(kind),
    {
        match kind {
            ThemeKind::Default => Theme {
                title: Paint { foreground: None, background: None, emphasis: Emphasis::Bold },
                columns: Paint { foreground: None, background: None, emphasis: Emphasis::Bold },
                directory: Paint { foreground: Some(Color::Cyan), background: None, emphasis: Emphasis::Plain },
                symlink: Paint { foreground: Some(Color::Magenta), background: None, emphasis: Emphasis::Plain },
                error: Paint { foreground: Some(Color::Red), background: None, emphasis: Emphasis::Plain },
                mountpoint: Paint { foreground: Some(Color::Yellow), background: None, emphasis: Emphasis::Plain },
                selected: Paint { foreground: Some(Color::Black), background: Some(Color::White), emphasis: Emphasis::Bold },
                matched: Paint { foreground: Some(Color::Yellow), background: None, emphasis: Emphasis::Plain },
                accent: Paint { foreground: Some(Color::Green), background: None, emphasis: Emphasis::Plain },
                dialog: Paint { foreground: None, background: None, emphasis: Emphasis::Plain },
            },
            ThemeKind::Monochrome => Theme {
                title: Paint { foreground: None, background: None, emphasis: Emphasis::Bold },
                columns: Paint { foreground: None, background: None, emphasis: Emphasis::Bold },
                directory: Paint { foreground: None, background: None, emphasis: Emphasis::Bold },
                symlink: Paint { foreground: None, background: None, emphasis: Emphasis::Italic },
                error: Paint { foreground: None, background: None, emphasis: Emphasis::Reversed },
                mountpoint: Paint { foreground: None, background: None, emphasis: Emphasis::Underlined },
                selected: Paint { foreground: None, background: None, emphasis: Emphasis::Reversed },
                matched: Paint { foreground: None, background: None, emphasis: Emphasis::Underlined },
                accent: Paint { foreground: None, background: None, emphasis: Emphasis::Bold },
                dialog: Paint { foreground: None, background: None, emphasis: Emphasis::Plain },
            },
            ThemeKind::HighContrast => Theme {
                title: Paint { foreground: Some(Color::Black), background: Some(Color::Yellow), emphasis: Emphasis::Bold },
                columns: Paint { foreground: Some(Color::Yellow), background: None, emphasis: Emphasis::Bold },
                directory: Paint { foreground: Some(Color::LightCyan), background: None, emphasis: Emphasis::Bold },
                symlink: Paint { foreground: Some(Color::LightMagenta), background: None, emphasis: Emphasis::Plain },
                error: Paint { foreground: Some(Color::White), background: Some(Color::Red), emphasis: Emphasis::Plain },
                mountpoint: Paint { foreground: Some(Color::Black), background: Some(Color::Yellow), emphasis: Emphasis::Plain },
                selected: Paint { foreground: Some(Color::Black), background: Some(Color::LightGreen), emphasis: Emphasis::Bold },
                matched: Paint { foreground: Some(Color::Black), background: Some(Color::LightYellow), emphasis: Emphasis::Plain },
                accent: Paint { foreground: Some(Color::LightGreen), background: None, emphasis: Emphasis::Bold },
                dialog: Paint { foreground: Some(Color::White), background: None, emphasis: Emphasis::Plain },
            },
        }
    }
}

/// The monochrome theme draws everything without colours.
pub proof fn monochrome_has_no_colours()
    ensures
        ({
            let theme = Theme::of_kind(ThemeKind::Monochrome);
            forall|paint: Paint|
                paint == theme.title || paint == theme.columns || paint == theme.directory || paint
                    == theme.symlink || paint == theme.error || paint == theme.mountpoint || paint
                    == theme.selected || paint == theme.matched || paint == theme.accent || paint
                    == theme.dialog ==> (#[trigger] paint.foreground) is None && paint.background is None
        }),
{
}

/// In every theme directories, links, failures and mount points look different
/// from each other, and so do the selected and the found line.
pub proof fn themes_tell_entries_apart(kind: ThemeKind)
    ensures
        ({
            let theme = Theme::of_kind(kind);
            &&& theme.directory != theme.symlink && theme.directory != theme.error
                && theme.directory != theme.mountpoint
            &&& theme.symlink != theme.error && theme.symlink != theme.mountpoint
            &&& theme.error != theme.mountpoint
            &&& theme.selected != theme.matched
            &&& kind == ThemeKind::Default ==> theme.directory.foreground == Some(Color::Cyan)
                && theme.error.foreground == Some(Color::Red) && theme.symlink.foreground == Some(
                Color::Magenta,
            ) && theme.mountpoint.foreground == Some(Color::Yellow)
            &&& kind == ThemeKind::HighContrast ==> theme.selected.background == Some(
                Color::LightGreen,
            ) && theme.error.background == Some(Color::Red)
        }),
{
}

} // verus!
