//! What can go wrong in roaming.

use vstd::prelude::*;

verus! {

/// An error of the roaming layer, by the part that raised it, with its text.
#[derive(Debug, Clone, PartialEq, Eq)]
pub enum RoamingError {
    /// A key or an endpoint id could not be used.
    Identity(String),
    /// An invite could not be read or does not hold.
    Invite(String),
    /// A connection card could not be read.
    Card(String),
    /// The transport could not be set up or failed.
    Transport(String),
    /// The host refused the connection, with its code.
    Rejected(String),
}

/// The part that raised an error, with the characters of its text.
pub enum ErrorView {
    Identity(Seq<char>),
    Invite(Seq<char>),
    Card(Seq<char>),
    Transport(Seq<char>),
    Rejected(Seq<char>),
}

impl View for RoamingError {
    type V = ErrorView;

    open spec fn view(&self) -> ErrorView {
        match self {
            RoamingError::Identity(m) => ErrorView::Identity(m@),
            RoamingError::Invite(m) => ErrorView::Invite(m@),
            RoamingError::Card(m) => ErrorView::Card(m@),
            RoamingError::Transport(m) => ErrorView::Transport(m@),
            RoamingError::Rejected(m) => ErrorView::Rejected(m@),
        }
    }
}

} // verus!
