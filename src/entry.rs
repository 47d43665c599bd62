use vstd::prelude::*;

use crate::dir::{Dir, Entry, File};
use crate::metadata::Metadata;

verus! {

impl Entry {
    /// The long name of the entry, or its 8.3 name when it has no long name.
    pub open spec fn spec_name(&self) -> Seq<char> {
        match self {
            Entry::File(f) => if f.lfn@.len() > 0 { f.lfn@ } else { f.short_file_name@ },
            Entry::Dir(d) => if d.lfn@.len() > 0 { d.lfn@ } else { d.short_file_name@ },
        }
    }

    /// The name of the file or directory: its long name if it has one, else
    /// its 8.3 name.
    pub fn name(&self) -> (r: &str)
        ensures
            r@ == self.spec_name(),
    {
        match self {
            Entry::File(x) => {
                if !x.lfn.as_str().is_empty() {
                    x.lfn.as_str()
                } else {
                    x.short_file_name.as_str()
                }
            },
            Entry::Dir(x) => {
                if !x.lfn.as_str().is_empty() {
                    x.lfn.as_str()
                } else {
                    x.short_file_name.as_str()
                }
            },
        }
    }

    /// The metadata associated with the entry.
    pub fn metadata(&self) -> (r: &Metadata)
        ensures
            *r == match self {
                Entry::File(f) => f.meta,
                Entry::Dir(d) => d.meta,
            },
    {
        match self {
            Entry::File(x) => &x.meta,
            Entry::Dir(x) => &x.meta,
        }
    }

    /// The file, if the entry is one.
    pub fn as_file(&self) -> (r: Option<&File>)
        ensures
            match self {
                Entry::File(f) => r == Some(f),
                Entry::Dir(_) => r is None,
            },
    {
        match self {
            Entry::File(x) => Some(x),
            _ => None,
        }
    }

    /// The directory, if the entry is one.
    pub fn as_dir(&self) -> (r: Option<&Dir>)
        ensures
            match self {
                Entry::Dir(d) => r == Some(d),
                Entry::File(_) => r is None,
            },
    {
        match self {
            Entry::Dir(x) => Some(x),
            _ => None,
        }
    }

    /// The file, if the entry is one.
    pub fn into_file(self) -> (r: Option<File>)
        ensures
            match self {
                Entry::File(f) => r == Some(f),
                Entry::Dir(_) => r is None,
            },
    {
        match self {
            Entry::File(x) => Some(x),
            _ => None,
        }
    }

    /// The directory, if the entry is one.
    pub fn into_dir(self) -> (r: Option<Dir>)
        ensures
            match self {
                Entry::Dir(d) => r == Some(d),
                Entry::File(_) => r is None,
            },
    {
        match self {
            Entry::Dir(x) => Some(x),
            _ => None,
        }
    }
}

} // verus!
