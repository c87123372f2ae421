//! Which files may be written, and how folders for them are named.
use crate::text::{chars_of, number_text, push_count, push_text, string_of};
use vstd::prelude::*;

verus! {

/// Why a file may not be written.
#[derive(Clone, Copy, Debug, PartialEq, Eq, Structural)]
pub enum WriteFault {
    /// A folder stands in its place.
    Folder,
    /// It is one that the work was made of.
    Protected,
    /// It is named twice.
    Twice,
    /// It exists, and nothing may be overwritten.
    Exists,
}

/// Checks files, one after the other, before any of them is written. Files are
/// told apart by numbers: one number for one file.
pub struct WriteCheck {
    overwrite: bool,
    protected: Vec<u64>,
    admitted: Vec<u64>,
}

/// Why a file may not be written after others.
pub open spec fn write_fault(
    protected: Seq<u64>,
    admitted: Seq<u64>,
    overwrite: bool,
    folder: bool,
    file: u64,
    exists_already: bool,
) -> Option<WriteFault> {
    if folder {
        Some(WriteFault::Folder)
    } else if protected.contains(file) {
        Some(WriteFault::Protected)
    } else if admitted.contains(file) {
        Some(WriteFault::Twice)
    } else if exists_already && !overwrite {
        Some(WriteFault::Exists)
    } else {
        None
    }
}

fn holds(list: &Vec<u64>, file: u64) -> (r: bool)
    ensures
        r == list@.contains(file),
{
    let mut i: usize = 0;
    while i < list.len()
        invariant
            i <= list.len(),
            forall|k: int| 0 <= k < i ==> #[trigger] list[k] != file,
        decreases list.len() - i,
    {
        if list[i] == file {
            proof {
                assert(list@[i as int] == file);
            }
            return true;
        }
        i += 1;
    }
    false
}

impl WriteCheck {
    /// Whether files are overwritten.
    pub closed spec fn overwrites(self) -> bool {
        self.overwrite
    }

    /// The files that stay as they are.
    pub closed spec fn kept(self) -> Seq<u64> {
        self.protected@
    }

    /// The files that may be written.
    pub closed spec fn written(self) -> Seq<u64> {
        self.admitted@
    }

    /// No file is written twice, and none that stays as it is.
    pub closed spec fn valid(self) -> bool {
        &&& self.admitted@.no_duplicates()
        &&& forall|i: int|
            0 <= i < self.admitted.len() ==> !self.protected@.contains(#[trigger] self.admitted[i])
    }

    pub fn new(overwrite: bool, protected: Vec<u64>) -> (check: Self)
        ensures
            check.valid(),
            check.overwrites() == overwrite,
            check.kept() == protected@,
            check.written() == Seq::<u64>::empty(),
    {
        WriteCheck { overwrite, protected, admitted: Vec::new() }
    }

    /// Admits a file, or tells why it may not be written. No file is ever admitted twice,
    /// and none that has to stay as it is.
    pub fn admit_file(&mut self, folder: bool, file: u64, exists_already: bool) -> (r: Result<
        (),
        WriteFault,
    >)
        requires
            old(self).valid(),
        ensures
            final(self).valid(),
            final(self).overwrites() == old(self).overwrites(),
            final(self).kept() == old(self).kept(),
            match r {
                Ok(_) => write_fault(
                    old(self).kept(),
                    old(self).written(),
                    old(self).overwrites(),
                    folder,
                    file,
                    exists_already,
                ) is None && final(self).written() == old(self).written().push(file),
                Err(fault) => write_fault(
                    old(self).kept(),
                    old(self).written(),
                    old(self).overwrites(),
                    folder,
                    file,
                    exists_already,
                ) == Some(fault) && final(self).written() == old(self).written(),
            },
            final(self).written().no_duplicates(),
            forall|i: int|
                0 <= i < final(self).written().len() ==> !final(self).kept().contains(
                    #[trigger] final(self).written()[i],
                ),
    {
        if folder {
            return Err(WriteFault::Folder);
        }
        if holds(&self.protected, file) {
            return Err(WriteFault::Protected);
        }
        if holds(&self.admitted, file) {
            return Err(WriteFault::Twice);
        }
        if exists_already && !self.overwrite {
            return Err(WriteFault::Exists);
        }
        self.admitted.push(file);
        Ok(())
    }
}

/// The name of the folder of an attempt to find a new one.
pub open spec fn folder_name(stem: Seq<char>, attempt: int) -> Seq<char> {
    if attempt == 1 {
        stem + "_export"@
    } else {
        stem + "_export_"@ + number_text(attempt)
    }
}

/// How many names for a new folder are tried.
pub const FOLDER_ATTEMPTS: u32 = 10000;

/// Names the folder of an attempt, as long as there are names left.
pub fn export_folder(stem: &str, attempt: u32) -> (r: Option<String>)
    ensures
        match r {
            Some(name) => 1 <= attempt <= FOLDER_ATTEMPTS && name@ == folder_name(
                stem@,
                attempt as int,
            ),
            None => attempt == 0 || attempt > FOLDER_ATTEMPTS,
        },
{
    if attempt == 0 || attempt > FOLDER_ATTEMPTS {
        return None;
    }
    let mut name = chars_of(stem);
    if attempt == 1 {
        push_text(&mut name, "_export");
    } else {
        push_text(&mut name, "_export_");
        push_count(&mut name, attempt as u128);
    }
    Some(string_of(&name))
}

} // verus!
