//! The decisions behind the two menu prompts.
//!
//! The surrounding program reads a line, trims it, and hands the token
//! here; an unrecognized token is reported as invalid, and the caller
//! prompts again.

use vstd::prelude::*;

verus! {

/// Where the two collections come from, as the first prompt selects it:
/// exit, the keyboard, or a file named afterwards. Any other token is
/// invalid and the prompt is repeated.
#[derive(Clone, Copy, Debug, PartialEq, Eq, Structural)]
pub enum InputSource {
    /// End the run.
    Exit,
    /// Two lines typed at the keyboard.
    Keyboard,
    /// The first two lines of a file.
    File,
    /// An unrecognized selection.
    Invalid,
}

/// The element kind of a run, as the second prompt selects it. Any
/// other token is invalid and the prompt is repeated.
#[derive(Clone, Copy, Debug, PartialEq, Eq, Structural)]
pub enum KeyType {
    /// End the run.
    Exit,
    /// Signed 32-bit integers.
    Integer,
    /// Case-normalized strings.
    Text,
    /// Single characters.
    Character,
    /// An unrecognized selection.
    Invalid,
}

/// The source that a menu token selects.
pub open spec fn source_of_token(t: Seq<char>) -> InputSource {
    if t == seq!['0'] {
        InputSource::Exit
    } else if t == seq!['1'] {
        InputSource::Keyboard
    } else if t == seq!['2'] {
        InputSource::File
    } else {
        InputSource::Invalid
    }
}

/// The element kind that a menu token selects.
pub open spec fn key_type_of_token(t: Seq<char>) -> KeyType {
    if t == seq!['0'] {
        KeyType::Exit
    } else if t == seq!['1'] {
        KeyType::Integer
    } else if t == seq!['2'] {
        KeyType::Text
    } else if t == seq!['3'] {
        KeyType::Character
    } else {
        KeyType::Invalid
    }
}

/// Reads the first menu selection from its token.
pub fn select_source(token: &str) -> (r: InputSource)
    ensures
        r == source_of_token(token@),
{
    if token.unicode_len() != 1 {
        return InputSource::Invalid;
    }
    let c = token.get_char(0);
    if c == '0' {
        proof {
            assert(token@ =~= seq!['0']);
        }
        InputSource::Exit
    } else if c == '1' {
        proof {
            assert(token@ =~= seq!['1']);
        }
        InputSource::Keyboard
    } else if c == '2' {
        proof {
            assert(token@ =~= seq!['2']);
        }
        InputSource::File
    } else {
        InputSource::Invalid
    }
}

/// Reads the element-kind selection from its token.
pub fn select_key_type(token: &str) -> (r: KeyType)
    ensures
        r == key_type_of_token(token@),
{
    if token.unicode_len() != 1 {
        return KeyType::Invalid;
    }
    let c = token.get_char(0);
    if c == '0' {
        proof {
            assert(token@ =~= seq!['0']);
        }
        KeyType::Exit
    } else if c == '1' {
        proof {
            assert(token@ =~= seq!['1']);
        }
        KeyType::Integer
    } else if c == '2' {
        proof {
            assert(token@ =~= seq!['2']);
        }
        KeyType::Text
    } else if c == '3' {
        proof {
            assert(token@ =~= seq!['3']);
        }
        KeyType::Character
    } else {
        KeyType::Invalid
    }
}

} // verus!
