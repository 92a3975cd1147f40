use vstd::prelude::*;

verus! {

/// Location of the latest record of a live key: the segment generation, the
/// record's length in bytes and its offset within the segment.
#[derive(Clone, Copy, Debug, PartialEq, Eq, Structural)]
pub struct CommandPos {
    /// Generation of the segment that holds the record.
    pub file_id: u64,
    /// Length of the record in bytes.
    pub value_size: u64,
    /// Offset of the record within its segment.
    pub value_pos: u64,
}

impl CommandPos {
    /// Points this location at a new record and returns the length of the
    /// record it pointed at before.
    pub fn change(&mut self, file_id: u64, value_size: u64, value_pos: u64) -> (r: u64)
        ensures
            r == old(self).value_size,
            *final(self) == (CommandPos { file_id, value_size, value_pos }),
    {
        let res = self.value_size;
        self.file_id = file_id;
        self.value_size = value_size;
        self.value_pos = value_pos;
        res
    }
}

/// A record of the log: an assignment of a value to a key, or a tombstone.
#[derive(Debug)]
pub enum DataCommand {
    /// Assigns `value` to `key`.
    Put {
        /// The key.
        key: String,
        /// The value.
        value: String,
    },
    /// Removes `key`.
    Rm {
        /// The key.
        key: String,
    },
}

/// The mathematical content of a record: its key and value as characters.
pub enum CommandView {
    Put { key: Seq<char>, value: Seq<char> },
    Rm { key: Seq<char> },
}

impl View for DataCommand {
    type V = CommandView;

    open spec fn view(&self) -> CommandView {
        match self {
            DataCommand::Put { key, value } => CommandView::Put { key: key@, value: value@ },
            DataCommand::Rm { key } => CommandView::Rm { key: key@ },
        }
    }
}

impl DataCommand {
    /// Builds the record that assigns `value` to `key`.
    pub fn set(key: String, value: String) -> (r: DataCommand)
        ensures
            r@ == (CommandView::Put { key: key@, value: value@ }),
    {
        DataCommand::Put { key, value }
    }

    /// Builds the tombstone of `key`.
    pub fn rm(key: String) -> (r: DataCommand)
        ensures
            r@ == (CommandView::Rm { key: key@ }),
    {
        DataCommand::Rm { key }
    }
}

/// An entry of a hint file: where a key's value stands in a merged segment.
pub struct HintCommand {
    key_size: u64,
    value_size: u64,
    value_pos: String,
    key: String,
}

} // verus!
