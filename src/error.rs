use vstd::prelude::*;
use vstd::string::*;
use crate::render::{decimal, write_decimal};

verus! {

/// Why a parse failed.
#[derive(Clone, Copy, Debug, PartialEq, Eq, Structural)]
pub enum Fault {
    ExpectedRoot,
    TrailingCharacter,
    ExpectedKey,
    ExpectedColon,
    ExpectedValue,
    BadEscape,
    LeadingZeros,
    Unparsable,
    ListCloseInObject,
    ObjectCloseInList,
    ExpectedSeparator,
    KeyInList,
    Leftovers,
    MissingKey,
    MissingValue,
    Incomplete,
    RootCount,
    RootNotContainer,
    UnexpectedFinal,
}

/// The message that each fault reports.
pub open spec fn fault_text(f: Fault) -> Seq<char> {
    match f {
        Fault::ExpectedRoot => "Expected '{' or '['."@,
        Fault::TrailingCharacter => "Any character after the end of root container is not allowed."@,
        Fault::ExpectedKey => "Expected a String value as key."@,
        Fault::ExpectedColon => "Expected ':' followed by value of given key"@,
        Fault::ExpectedValue => "Expected value to be number, string, true, false or null"@,
        Fault::BadEscape => "Unavailable Escape Character"@,
        Fault::LeadingZeros => "Too many 0 on front!"@,
        Fault::Unparsable => "Unparsable primitive data"@,
        Fault::ListCloseInObject => "Unexpected ']'! You are inside an Object, not a List!"@,
        Fault::ObjectCloseInList => "Unexpected '}'! You are inside a List, not an Object!"@,
        Fault::ExpectedSeparator => "Expected ',' or the closing bracket after a value"@,
        Fault::KeyInList => "A key shouldn't exist inside a list"@,
        Fault::Leftovers => "There are some leftovers which have not been processed yet"@,
        Fault::MissingKey => "Expected to be key."@,
        Fault::MissingValue => "Expected to be value."@,
        Fault::Incomplete => "Incomplete JSON structure"@,
        Fault::RootCount => "There is no or more than one JSON structure in a single file"@,
        Fault::RootNotContainer => "Unexpected root JSON data type"@,
        Fault::UnexpectedFinal => "Unexpected final tokens in parser memory"@,
    }
}

impl Fault {
    /// The message of this fault.
    pub fn text(&self) -> (r: String)
        ensures
            r@ == fault_text(*self),
    {
        match self {
            Fault::ExpectedRoot => String::from_str("Expected '{' or '['."),
            Fault::TrailingCharacter => String::from_str(
                "Any character after the end of root container is not allowed.",
            ),
            Fault::ExpectedKey => String::from_str("Expected a String value as key."),
            Fault::ExpectedColon => String::from_str("Expected ':' followed by value of given key"),
            Fault::ExpectedValue => String::from_str(
                "Expected value to be number, string, true, false or null",
            ),
            Fault::BadEscape => String::from_str("Unavailable Escape Character"),
            Fault::LeadingZeros => String::from_str("Too many 0 on front!"),
            Fault::Unparsable => String::from_str("Unparsable primitive data"),
            Fault::ListCloseInObject => String::from_str(
                "Unexpected ']'! You are inside an Object, not a List!",
            ),
            Fault::ObjectCloseInList => String::from_str(
                "Unexpected '}'! You are inside a List, not an Object!",
            ),
            Fault::ExpectedSeparator => String::from_str(
                "Expected ',' or the closing bracket after a value",
            ),
            Fault::KeyInList => String::from_str("A key shouldn't exist inside a list"),
            Fault::Leftovers => String::from_str(
                "There are some leftovers which have not been processed yet",
            ),
            Fault::MissingKey => String::from_str("Expected to be key."),
            Fault::MissingValue => String::from_str("Expected to be value."),
            Fault::Incomplete => String::from_str("Incomplete JSON structure"),
            Fault::RootCount => String::from_str(
                "There is no or more than one JSON structure in a single file",
            ),
            Fault::RootNotContainer => String::from_str("Unexpected root JSON data type"),
            Fault::UnexpectedFinal => String::from_str("Unexpected final tokens in parser memory"),
        }
    }
}

/// A parse failure: where it happened (1-based line and column) and why.
#[derive(Debug)]
pub struct ParseErr {
    pub line_idx: usize,
    pub ch_pos: usize,
    pub msg: String,
}

impl ParseErr {
    /// An error at line `lidx`, column `chpos`, with message `err_msg`.
    pub fn e(lidx: usize, chpos: usize, err_msg: String) -> (r: ParseErr)
        ensures
            r.line_idx == lidx,
            r.ch_pos == chpos,
            r.msg@ == err_msg@,
    {
        ParseErr { line_idx: lidx, ch_pos: chpos, msg: err_msg }
    }

    /// The line, from 1.
    pub fn line(&self) -> (r: usize)
        ensures
            r == self.line_idx,
    {
        self.line_idx
    }

    /// The column, from 1.
    pub fn column(&self) -> (r: usize)
        ensures
            r == self.ch_pos,
    {
        self.ch_pos
    }

    /// The message.
    pub fn message(&self) -> (r: &str)
        ensures
            r@ == self.msg@,
    {
        self.msg.as_str()
    }

    /// The error as one line of text: `Line[<line>], Char[<column>]: <message>`.
    pub fn to_text(&self) -> (r: String)
        ensures
            r@ == "Line["@ + decimal(self.line_idx as nat) + "], Char["@ + decimal(
                self.ch_pos as nat,
            ) + "]: "@ + self.msg@,
    {
        let mut out = String::from_str("Line[");
        write_decimal(&mut out, self.line_idx as u64);
        out.append("], Char[");
        write_decimal(&mut out, self.ch_pos as u64);
        out.append("]: ");
        out.append(self.msg.as_str());
        out
    }
}

} // verus!
