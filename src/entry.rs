use vstd::prelude::*;

verus! {

/// One record of an edit decision list. Times are in microseconds.
#[derive(Debug)]
pub struct Entry {
    pub index: usize,
    /// Where the record starts on the timeline.
    pub timestamp: i64,
    /// How long the record lasts; negative where it ends before it starts.
    pub duration: i64,
    pub color: Option<String>,
    pub name: Option<String>,
    pub description: Option<String>,
}

/// An `Entry` with its texts as sequences of characters.
pub struct EntryModel {
    pub index: nat,
    pub timestamp: int,
    pub duration: int,
    pub color: Option<Seq<char>>,
    pub name: Option<Seq<char>>,
    pub description: Option<Seq<char>>,
}

pub open spec fn text_view(o: Option<String>) -> Option<Seq<char>> {
    match o {
        Some(s) => Some(s@),
        None => None,
    }
}

impl View for Entry {
    type V = EntryModel;

    open spec fn view(&self) -> EntryModel {
        EntryModel {
            index: self.index as nat,
            timestamp: self.timestamp as int,
            duration: self.duration as int,
            color: text_view(self.color),
            name: text_view(self.name),
            description: text_view(self.description),
        }
    }
}

/// The views of a sequence of entries.
pub open spec fn views(s: Seq<Entry>) -> Seq<EntryModel> {
    s.map_values(|e: Entry| e@)
}

} // verus!
