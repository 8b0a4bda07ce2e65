//! The closed sets of words that the command line and the console helper
//! understand.

use crate::text::same_text;
use vstd::prelude::*;

verus! {

/// A command on the stored model.
#[derive(Debug, Clone, Copy, PartialEq, Eq)]
pub enum RagCommand {
    /// Build the model from the source files.
    Build,
    /// Remove the stored model.
    Remove,
    /// Report whether a stored model is there.
    Status,
    /// Any other word: it is reported as invalid and nothing is done.
    Unknown,
}

/// A colour of the console.
#[derive(Debug, Clone, Copy, PartialEq, Eq)]
pub enum Colour {
    Green,
    Red,
    Cyan,
    Purple,
    Blue,
    Yellow,
}

/// A way of printing a line on the console.
#[derive(Debug, Clone, Copy, PartialEq, Eq)]
pub enum PrintStyle {
    /// Green, behind one space, without line feed, flushed at once.
    FlushGreen,
    /// Green, with line feed.
    Green,
    /// Green, without line feed.
    GreenNoLineFeed,
    /// Red, with line feed.
    Red,
    /// Cyan, with line feed.
    Cyan,
    /// Purple, with line feed.
    Purple,
    /// Purple, without line feed.
    PurpleNoLineFeed,
    /// Blue, with line feed.
    Blue,
    /// Yellow, with line feed.
    Yellow,
    /// Yellow, without line feed.
    YellowNoLineFeed,
    /// Any other name: printed as `Yellow` is.
    Unknown,
}

/// The command that `word` names.
pub open spec fn command_of(word: Seq<char>) -> RagCommand {
    if word == "build"@ {
        RagCommand::Build
    } else if word == "remove"@ {
        RagCommand::Remove
    } else if word == "status"@ {
        RagCommand::Status
    } else {
        RagCommand::Unknown
    }
}

/// The style that `name` names.
pub open spec fn style_of(name: Seq<char>) -> PrintStyle {
    if name == "flush_green"@ {
        PrintStyle::FlushGreen
    } else if name == "green"@ {
        PrintStyle::Green
    } else if name == "green_noLineFeed"@ {
        PrintStyle::GreenNoLineFeed
    } else if name == "red"@ {
        PrintStyle::Red
    } else if name == "cyan"@ {
        PrintStyle::Cyan
    } else if name == "purple"@ {
        PrintStyle::Purple
    } else if name == "purple_noLineFeed"@ {
        PrintStyle::PurpleNoLineFeed
    } else if name == "blue"@ {
        PrintStyle::Blue
    } else if name == "yellow"@ {
        PrintStyle::Yellow
    } else if name == "yellow_noLineFeed"@ {
        PrintStyle::YellowNoLineFeed
    } else {
        PrintStyle::Unknown
    }
}

impl RagCommand {
    /// Reads a command; a word that is none of the three is `Unknown`.
    pub fn parse(word: &str) -> (command: RagCommand)
        ensures
            command == command_of(word@),
    {
        if same_text(word, "build") {
            RagCommand::Build
        } else if same_text(word, "remove") {
            RagCommand::Remove
        } else if same_text(word, "status") {
            RagCommand::Status
        } else {
            RagCommand::Unknown
        }
    }
}

impl PrintStyle {
    /// Reads the name of a style; a name that is none of the ten is
    /// `Unknown`.
    pub fn parse(name: &str) -> (style: PrintStyle)
        ensures
            style == style_of(name@),
    {
        if same_text(name, "flush_green") {
            PrintStyle::FlushGreen
        } else if same_text(name, "green") {
            PrintStyle::Green
        } else if same_text(name, "green_noLineFeed") {
            PrintStyle::GreenNoLineFeed
        } else if same_text(name, "red") {
            PrintStyle::Red
        } else if same_text(name, "cyan") {
            PrintStyle::Cyan
        } else if same_text(name, "purple") {
            PrintStyle::Purple
        } else if same_text(name, "purple_noLineFeed") {
            PrintStyle::PurpleNoLineFeed
        } else if same_text(name, "blue") {
            PrintStyle::Blue
        } else if same_text(name, "yellow") {
            PrintStyle::Yellow
        } else if same_text(name, "yellow_noLineFeed") {
            PrintStyle::YellowNoLineFeed
        } else {
            PrintStyle::Unknown
        }
    }

    /// The colour of the style.
    pub open spec fn spec_colour(&self) -> Colour {
        match self {
            PrintStyle::FlushGreen | PrintStyle::Green | PrintStyle::GreenNoLineFeed => Colour::Green,
            PrintStyle::Red => Colour::Red,
            PrintStyle::Cyan => Colour::Cyan,
            PrintStyle::Purple | PrintStyle::PurpleNoLineFeed => Colour::Purple,
            PrintStyle::Blue => Colour::Blue,
            PrintStyle::Yellow | PrintStyle::YellowNoLineFeed | PrintStyle::Unknown => Colour::Yellow,
        }
    }

    /// Whether a line feed follows the text.
    pub open spec fn spec_ends_line(&self) -> bool {
        !(self is FlushGreen || self is GreenNoLineFeed || self is PurpleNoLineFeed
            || self is YellowNoLineFeed)
    }

    /// The colour of the style.
    #[verifier::when_used_as_spec(spec_colour)]
    pub fn colour(&self) -> (colour: Colour)
        ensures
            colour == self.spec_colour(),
    {
        match self {
            PrintStyle::FlushGreen | PrintStyle::Green | PrintStyle::GreenNoLineFeed => Colour::Green,
            PrintStyle::Red => Colour::Red,
            PrintStyle::Cyan => Colour::Cyan,
            PrintStyle::Purple | PrintStyle::PurpleNoLineFeed => Colour::Purple,
            PrintStyle::Blue => Colour::Blue,
            PrintStyle::Yellow | PrintStyle::YellowNoLineFeed | PrintStyle::Unknown => Colour::Yellow,
        }
    }

    /// Whether a line feed follows the text.
    #[verifier::when_used_as_spec(spec_ends_line)]
    pub fn ends_line(&self) -> (ends: bool)
        ensures
            ends == self.spec_ends_line(),
    {
        match self {
            PrintStyle::FlushGreen
            | PrintStyle::GreenNoLineFeed
            | PrintStyle::PurpleNoLineFeed
            | PrintStyle::YellowNoLineFeed => false,
            _ => true,
        }
    }
}

} // verus!
