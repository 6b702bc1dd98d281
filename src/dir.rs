//! The files of a log directory, held as plain values: the metadata file,
//! the primary log and one file per index.
use vstd::prelude::*;

use crate::bytes::copy_range;
use crate::entry::{entries_in, payloads};
use crate::log::{PRIMARY_START_OFFSET, primary_header};
use crate::records::{MetaView, meta_of};

verus! {

/// The content of a log directory. Whoever stores it on a filesystem writes
/// the primary log and the index files before the metadata, so that a crash
/// in between leaves the previous commit in force (bytes past the committed
/// length are ignored).
#[derive(Debug)]
pub struct LogDir {
    /// The metadata file; `None` where the log was never created.
    pub meta: Option<Vec<u8>>,
    /// The primary log file.
    pub primary: Vec<u8>,
    /// The index files, by file name.
    pub index_files: Vec<(String, Vec<u8>)>,
}

/// The model of the index files: name and bytes.
pub open spec fn files_view(v: Seq<(String, Vec<u8>)>) -> Seq<(Seq<char>, Seq<u8>)> {
    v.map_values(|f: (String, Vec<u8>)| (f.0@, f.1@))
}

/// The last file named `name`.
pub open spec fn file_in(files: Seq<(Seq<char>, Seq<u8>)>, name: Seq<char>) -> Option<Seq<u8>>
    decreases files.len(),
{
    if files.len() == 0 {
        None
    } else if files.last().0 == name {
        Some(files.last().1)
    } else {
        file_in(files.drop_last(), name)
    }
}

/// The metadata a directory holds; `None` where it is absent or damaged.
pub open spec fn dir_meta(d: &LogDir) -> Option<MetaView> {
    match d.meta {
        Some(m) => meta_of(m@),
        None => None,
    }
}

/// Whether the committed part of the primary log is present and starts with
/// the header.
pub open spec fn primary_ok(primary: Seq<u8>, m: MetaView) -> bool {
    &&& PRIMARY_START_OFFSET <= m.primary_len <= primary.len()
    &&& primary.subrange(0, PRIMARY_START_OFFSET as int) == primary_header()
}

/// The committed entries of a directory, with their offsets; `None` where
/// the metadata or the committed part of the primary log is damaged. Bytes
/// past the committed length are ignored.
pub open spec fn dir_entries(d: &LogDir) -> Option<Seq<(int, Seq<u8>)>> {
    match dir_meta(d) {
        Some(m) => if primary_ok(d.primary@, m) {
            entries_in(d.primary@.subrange(0, m.primary_len as int), PRIMARY_START_OFFSET as int)
        } else {
            None
        },
        None => None,
    }
}

/// The committed entries of a directory, in order.
pub open spec fn dir_payloads(d: &LogDir) -> Seq<Seq<u8>> {
    payloads(dir_entries(d).unwrap())
}

impl LogDir {
    /// A directory with no files.
    pub fn new() -> (r: Self)
        ensures
            r.meta is None,
            r.primary@.len() == 0,
            r.index_files@.len() == 0,
    {
        LogDir { meta: None, primary: Vec::new(), index_files: Vec::new() }
    }

    /// A copy of this directory's content.
    pub fn duplicate(&self) -> (r: Self)
        ensures
            r.primary@ == self.primary@,
            files_view(r.index_files@) == files_view(self.index_files@),
            match (r.meta, self.meta) {
                (Some(a), Some(b)) => a@ == b@,
                (None, None) => true,
                _ => false,
            },
    {
        let meta = match &self.meta {
            Some(m) => {
                assert(m@.subrange(0, m@.len() as int) =~= m@);
                Some(copy_range(m.as_slice(), 0, m.len()))
            },
            None => None,
        };
        let primary = copy_range(self.primary.as_slice(), 0, self.primary.len());
        assert(self.primary@.subrange(0, self.primary@.len() as int) =~= self.primary@);
        let mut files: Vec<(String, Vec<u8>)> = Vec::new();
        let mut i: usize = 0;
        while i < self.index_files.len()
            invariant
                i <= self.index_files@.len(),
                files_view(files@) == files_view(self.index_files@).subrange(0, i as int),
            decreases self.index_files@.len() - i,
        {
            let name = self.index_files[i].0.clone();
            let bytes = copy_range(self.index_files[i].1.as_slice(), 0, self.index_files[i].1.len());
            assert(self.index_files@[i as int].1@.subrange(0, self.index_files@[i as int].1@.len() as int)
                =~= self.index_files@[i as int].1@);
            let ghost prev = files@;
            files.push((name, bytes));
            assert(files_view(files@) =~= files_view(prev).push(files_view(self.index_files@)[i as int]));
            assert(files_view(self.index_files@).subrange(0, i + 1) =~= files_view(self.index_files@).subrange(0, i as int).push(files_view(self.index_files@)[i as int]));
            i = i + 1;
        }
        assert(files_view(self.index_files@).subrange(0, self.index_files@.len() as int) =~= files_view(self.index_files@));
        LogDir { meta, primary, index_files: files }
    }

    /// The last index file named `name`.
    pub fn index_file(&self, name: &String) -> (r: Option<&Vec<u8>>)
        ensures
            match r {
                Some(b) => file_in(files_view(self.index_files@), name@) == Some(b@),
                None => file_in(files_view(self.index_files@), name@) is None,
            },
    {
        let ghost fs = files_view(self.index_files@);
        let mut i: usize = self.index_files.len();
        assert(fs.subrange(0, i as int) =~= fs);
        while i > 0
            invariant
                i <= self.index_files@.len(),
                fs == files_view(self.index_files@),
                file_in(fs, name@) == file_in(fs.subrange(0, i as int), name@),
            decreases i,
        {
            let ghost sub = fs.subrange(0, i as int);
            assert(sub.drop_last() =~= fs.subrange(0, i - 1));
            if self.index_files[i - 1].0 == *name {
                return Some(&self.index_files[i - 1].1);
            }
            i = i - 1;
        }
        None
    }

    /// Writes index file `name`, replacing any earlier file of that name.
    pub fn write_index_file(&mut self, name: String, bytes: Vec<u8>)
        ensures
            file_in(files_view(final(self).index_files@), name@) == Some(bytes@),
            forall|n: Seq<char>| n != name@ ==> file_in(files_view(final(self).index_files@), n)
                == file_in(files_view(old(self).index_files@), n),
            final(self).meta == old(self).meta,
            final(self).primary == old(self).primary,
    {
        let ghost before = files_view(self.index_files@);
        self.index_files.push((name, bytes));
        proof {
            let after = files_view(self.index_files@);
            assert(after.drop_last() =~= before);
        }
    }
}

} // verus!
