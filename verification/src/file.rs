use vstd::prelude::*;

verus! {

/// What was read from the filesystem about one entry when it was scanned.
///
/// Timestamps are nanoseconds relative to the Unix epoch; one that the
/// filesystem would not give is `None`.
#[derive(Clone, Copy, Debug, PartialEq, Eq)]
pub struct Meta {
    pub created: Option<i128>,
    pub modified: Option<i128>,
    pub size: u64,
    pub is_hidden: bool,
}

/// One entry of a directory listing.
///
/// `length` and `is_selected` belong to the session rather than to the
/// filesystem: a refresh keeps them for every path that is listed again.
#[derive(Clone, Debug, PartialEq, Eq)]
pub struct File {
    pub path: String,
    pub name: String,
    pub meta: Meta,
    pub length: Option<u64>,
    pub is_selected: bool,
}

/// The mathematical value of a [`File`].
pub struct FileView {
    pub path: Seq<char>,
    pub name: Seq<char>,
    pub meta: Meta,
    pub length: Option<u64>,
    pub is_selected: bool,
}

impl View for File {
    type V = FileView;

    open spec fn view(&self) -> FileView {
        FileView {
            path: self.path@,
            name: self.name@,
            meta: self.meta,
            length: self.length,
            is_selected: self.is_selected,
        }
    }
}

impl File {
    /// Whether the entry is not hidden.
    pub fn is_visible(&self) -> (r: bool)
        ensures
            r == !self@.meta.is_hidden,
    {
        !self.meta.is_hidden
    }
}

impl FileView {
    /// This entry with the session's fields taken from `old`.
    pub open spec fn carrying(self, old: FileView) -> FileView {
        FileView { length: old.length, is_selected: old.is_selected, ..self }
    }
}

} // verus!
