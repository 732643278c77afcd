//! Commands produced by the interactive command parser.

use vstd::prelude::*;

verus! {

/// Outcome of parsing one line of interactive input.
#[derive(Debug, PartialEq)]
pub enum AppCmd {
    Quit,
    NoCommand,
    AddMissingText,
    ToggleMissingIndex,
    Add(String),
    Toggle(usize),
}

/// Mathematical model of an `AppCmd`.
pub ghost enum AppCmdView {
    Quit,
    NoCommand,
    AddMissingText,
    ToggleMissingIndex,
    Add(Seq<char>),
    Toggle(int),
}

impl View for AppCmd {
    type V = AppCmdView;

    open spec fn view(&self) -> AppCmdView {
        match self {
            AppCmd::Quit => AppCmdView::Quit,
            AppCmd::NoCommand => AppCmdView::NoCommand,
            AppCmd::AddMissingText => AppCmdView::AddMissingText,
            AppCmd::ToggleMissingIndex => AppCmdView::ToggleMissingIndex,
            AppCmd::Add(t) => AppCmdView::Add(t@),
            AppCmd::Toggle(i) => AppCmdView::Toggle(*i as int),
        }
    }
}

} // verus!
