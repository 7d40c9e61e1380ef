//! The interactive review session's decisions. The keyboard loop, the
//! prompts and every filesystem effect live in the surrounding binary; the
//! mapping from what the operator typed to what happens is verified here.

use vstd::prelude::*;

verus! {

/// What one keypress in the review loop asks for.
#[derive(Clone, Copy, PartialEq, Eq, Structural, Debug)]
pub enum ReviewAction {
    /// Move the item to the graveyard.
    Archive,
    /// Ask for an epitaph note, then archive.
    NoteArchive,
    /// Update the modification time and keep the item.
    Touch,
    /// Delete the item permanently, after confirmation.
    Delete,
    /// Preview the item with the pager.
    View,
    /// Open the item with the default application.
    Open,
    /// Keep the item and move on.
    Skip,
    /// End the review session.
    Quit,
    /// Show the list of actions.
    Help,
    /// None of the known keys.
    Invalid,
}

/// The action one lowercased key selects.
pub fn review_action(key: char) -> (r: ReviewAction)
    ensures
        (r is Archive) <==> key == 'a',
        (r is NoteArchive) <==> key == 'n',
        (r is Touch) <==> key == 't',
        (r is Delete) <==> key == 'd',
        (r is View) <==> key == 'v',
        (r is Open) <==> key == 'o',
        (r is Skip) <==> key == 's',
        (r is Quit) <==> key == 'q',
        (r is Help) <==> key == '?',
{
    if key == 'a' {
        ReviewAction::Archive
    } else if key == 'n' {
        ReviewAction::NoteArchive
    } else if key == 't' {
        ReviewAction::Touch
    } else if key == 'd' {
        ReviewAction::Delete
    } else if key == 'v' {
        ReviewAction::View
    } else if key == 'o' {
        ReviewAction::Open
    } else if key == 's' {
        ReviewAction::Skip
    } else if key == 'q' {
        ReviewAction::Quit
    } else if key == '?' {
        ReviewAction::Help
    } else {
        ReviewAction::Invalid
    }
}

/// An empty note archives without an epitaph; anything else becomes one.
pub fn note_or_plain<'a>(note: &'a str) -> (r: Option<&'a str>)
    ensures
        match r {
            Some(n) => n@ == note@ && note@.len() > 0,
            None => note@.len() == 0,
        },
{
    if note.unicode_len() == 0 {
        None
    } else {
        Some(note)
    }
}

/// A deletion goes ahead only when the typed confirmation is exactly the
/// item's name.
pub fn delete_confirmed(confirmation: &str, name: &str) -> (r: bool)
    ensures
        r == (confirmation@ == name@),
{
    crate::text::eq_str(confirmation, name)
}

} // verus!
