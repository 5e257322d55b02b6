use vstd::prelude::*;

verus! {

/// An enum representing the available store commands.
///
/// A `Put` holds its value before its key so that the value is encoded first:
/// given the offset at which a record starts, the value can be decoded without
/// first decoding the key.
#[derive(Debug)]
pub enum Command {
    /// Set a given `key` to a given `value`.
    Put { value: String, key: String },
    /// Remove a given `key`.
    Remove { key: String },
}

/// The mathematical shape of a [`Command`]: its strings as character
/// sequences.
pub enum CommandModel {
    Put { value: Seq<char>, key: Seq<char> },
    Remove { key: Seq<char> },
}

impl View for Command {
    type V = CommandModel;

    open spec fn view(&self) -> CommandModel {
        match self {
            Command::Put { value, key } => CommandModel::Put { value: value@, key: key@ },
            Command::Remove { key } => CommandModel::Remove { key: key@ },
        }
    }
}

/// The number of framing bytes that precede the value in an encoded `Put`
/// record: the array header of the variant, the variant tag, and the array
/// header of the fields.
pub const VALUE_OFFSET: u64 = 3;

/// A marker struct indicating that the contained value is a valid offset of a
/// value inside a segment.
#[derive(Debug, Clone, Copy)]
pub struct Offset(u64);

impl Offset {
    /// The offset of the value of a `Put` record that starts at byte
    /// `start` of its segment.
    pub fn from_record_start(start: u64) -> (r: Offset)
        requires
            start + VALUE_OFFSET <= u64::MAX,
        ensures
            r@ == start + VALUE_OFFSET,
    {
        Offset(start + VALUE_OFFSET)
    }

    /// The absolute byte position this offset stands for.
    pub fn get(&self) -> (r: u64)
        ensures
            r == self@,
    {
        self.0
    }
}

impl View for Offset {
    type V = u64;

    closed spec fn view(&self) -> u64 {
        self.0
    }
}

} // verus!
