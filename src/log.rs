//! The log engine: committed entries, an in-memory buffer of new entries,
//! and the index and fold state kept over both.
use vstd::prelude::*;

use crate::bytes::{bytes_eq, copy_range};
use crate::dir::{LogDir, dir_entries, dir_meta, file_in, files_view};
use crate::checksum::{ENTRY_FLAG_XXHASH64, spec_entry_flag};
use crate::entry::{
    checksum_len, entries_size, entry_size, encode_entry_into, entries_in, lemma_entries_in_append, parse_entries, payloads, view_entries,
};
use crate::error::Error;
use crate::fold::{FoldDef, FoldFunc, fold_entries, lemma_fold_entries_concat, wrapping_add_u64};
use crate::index::{
    IndexState, apply_outputs, check_func_outputs, index_entries, lemma_index_entries_concat,
    lookup_in, offsets_view, outputs_valid, pairs_view,
};
use crate::open_options::{
    FlushFilterContext, FlushFilterOutput, IndexDef, IndexFunc, OpenOptions, OpenOptionsView,
    filtered,
};
use crate::records::{
    LogMetadata, META_KIND_FOLD, META_KIND_INDEX, MetaView, decode_index_file, encode_index_file,
    find_item, index_file_pairs, vecs_view,
};

verus! {

/// Offset of the first entry in the primary log: entries follow the header.
pub const PRIMARY_START_OFFSET: u64 = 12;

/// The header of the primary log, "indexedlog0" and a zero byte.
pub open spec fn primary_header() -> Seq<u8> {
    seq![105u8, 110, 100, 101, 120, 101, 100, 108, 111, 103, 48, 0]
}

/// The header of the primary log.
pub fn primary_header_bytes() -> (r: Vec<u8>)
    ensures
        r@ == primary_header(),
{
    let r: Vec<u8> = vec![105u8, 110, 100, 101, 120, 101, 100, 108, 111, 103, 48, 0];
    assert(r@ =~= primary_header());
    r
}

/// `entries` with every offset moved by `delta`.
pub open spec fn shift(entries: Seq<(int, Seq<u8>)>, delta: int) -> Seq<(int, Seq<u8>)> {
    entries.map_values(|e: (int, Seq<u8>)| (e.0 + delta, e.1))
}

/// An append-only log of byte entries with indexes and folds over them.
///
/// Entries appended since the log was opened (or last synced) stay in memory
/// until `sync`; they are visible to this instance only.
pub struct Log {
    /// Whether the log is backed by a directory (`false`: in memory).
    pub(crate) on_disk: bool,
    /// The committed primary log: header, then entries.
    pub(crate) disk_buf: Vec<u8>,
    /// Encoded entries not yet committed.
    pub(crate) mem_buf: Vec<u8>,
    pub(crate) meta: LogMetadata,
    pub(crate) indexes: Vec<IndexState>,
    pub(crate) folds: Vec<u64>,
    pub(crate) open_options: OpenOptions,
    /// For each index, the position (in `all_entries`) where the part
    /// replayed in memory starts, and the pairs loaded from disk before it.
    pub(crate) index_start: Ghost<Seq<int>>,
    pub(crate) index_base: Ghost<Seq<Seq<(Seq<u8>, int)>>>,
    /// For each fold, the position where the part replayed in memory
    /// starts, and the checkpointed state before it.
    pub(crate) fold_start: Ghost<Seq<int>>,
    pub(crate) fold_base: Ghost<Seq<u64>>,
}

impl Log {
    /// The committed entries, with their offsets.
    pub closed spec fn disk_entries(&self) -> Seq<(int, Seq<u8>)> {
        entries_in(self.disk_buf@, PRIMARY_START_OFFSET as int).unwrap()
    }

    /// The entries appended since open or the last sync, with their offsets.
    pub closed spec fn mem_entries(&self) -> Seq<(int, Seq<u8>)> {
        shift(entries_in(self.mem_buf@, 0).unwrap(), self.disk_buf@.len() as int)
    }

    /// All entries, committed ones first, with their offsets.
    pub open spec fn all_entries(&self) -> Seq<(int, Seq<u8>)> {
        self.disk_entries() + self.mem_entries()
    }

    /// All entries, in order.
    pub open spec fn entries(&self) -> Seq<Seq<u8>> {
        payloads(self.all_entries())
    }

    /// The length of the primary log including the in-memory entries: the
    /// offset the next entry gets.
    pub closed spec fn total_len(&self) -> int {
        (self.disk_buf@.len() + self.mem_buf@.len()) as int
    }

    /// The committed length of the primary log.
    pub closed spec fn committed_len(&self) -> int {
        self.disk_buf@.len() as int
    }

    /// Whether the log is backed by a directory.
    pub closed spec fn is_on_disk(&self) -> bool {
        self.on_disk
    }

    /// The options the log was opened with.
    pub closed spec fn options(&self) -> crate::open_options::OpenOptionsView {
        self.open_options@
    }

    /// The extraction function of index `i`.
    pub open spec fn index_func(&self, i: int) -> IndexFunc {
        self.options().index_defs[i].0
    }

    /// The reduction of fold `i`.
    pub open spec fn fold_func(&self, i: int) -> FoldFunc {
        self.options().fold_defs[i].1
    }

    /// The key-to-offset pairs of index `i`.
    pub closed spec fn index_view(&self, i: int) -> Seq<(Seq<u8>, int)> {
        self.indexes@[i]@
    }

    /// The state of fold `i`.
    pub closed spec fn fold_view(&self, i: int) -> u64 {
        self.folds@[i]
    }

    /// The internal consistency of the log.
    pub closed spec fn wf(&self) -> bool {
        let all = self.all_entries();
        &&& entries_in(self.disk_buf@, PRIMARY_START_OFFSET as int) is Some
        &&& entries_in(self.mem_buf@, 0) is Some
        &&& self.disk_buf@.len() == self.meta.primary_len
        &&& PRIMARY_START_OFFSET <= self.disk_buf@.len()
        &&& self.disk_buf@.len() + self.mem_buf@.len() <= u64::MAX
        &&& self.indexes@.len() == self.open_options@.index_defs.len()
        &&& self.index_start@.len() == self.indexes@.len()
        &&& self.index_base@.len() == self.indexes@.len()
        &&& self.folds@.len() == self.open_options@.fold_defs.len()
        &&& self.fold_start@.len() == self.folds@.len()
        &&& self.fold_base@.len() == self.folds@.len()
        &&& forall|i: int|
            0 <= i < self.indexes@.len() ==> {
                &&& 0 <= #[trigger] self.index_start@[i] <= all.len()
                &&& self.indexes@[i]@ == index_entries(
                    self.open_options@.index_defs[i].0,
                    self.index_base@[i],
                    all.subrange(self.index_start@[i], all.len() as int),
                )
            }
        &&& forall|i: int|
            0 <= i < self.folds@.len() ==> {
                &&& 0 <= #[trigger] self.fold_start@[i] <= all.len()
                &&& self.folds@[i] == fold_entries(
                    self.open_options@.fold_defs[i].1,
                    self.fold_base@[i],
                    all.subrange(self.fold_start@[i], all.len() as int),
                )
            }
    }

    /// Whether what the indexes and folds loaded from disk agrees with the
    /// entries before the point where each was replayed in memory. Holds of
    /// in-memory logs and is kept by `append`.
    pub closed spec fn sound(&self) -> bool {
        let all = self.all_entries();
        &&& forall|i: int|
            0 <= i < self.indexes@.len() ==> #[trigger] self.index_base@[i] == index_entries(
                self.open_options@.index_defs[i].0,
                Seq::empty(),
                all.subrange(0, self.index_start@[i]),
            )
        &&& forall|i: int|
            0 <= i < self.folds@.len() ==> #[trigger] self.fold_base@[i] == fold_entries(
                self.open_options@.fold_defs[i].1,
                self.open_options@.fold_defs[i].1.spec_initial(),
                all.subrange(0, self.fold_start@[i]),
            )
    }

    /// The number of indexes.
    pub closed spec fn index_count(&self) -> int {
        self.indexes@.len() as int
    }

    /// The number of folds.
    pub closed spec fn fold_count(&self) -> int {
        self.folds@.len() as int
    }

    /// A well-formed log has one index state per index definition and one
    /// fold state per fold definition, and its lengths fit in 64 bits.
    pub proof fn lemma_wf_counts(&self)
        requires
            self.wf(),
        ensures
            self.index_count() == self.options().index_defs.len(),
            self.fold_count() == self.options().fold_defs.len(),
            PRIMARY_START_OFFSET <= self.committed_len() <= self.total_len() <= u64::MAX,
    {
    }

    /// In a sound log, index `i` holds exactly the pairs of indexing every
    /// entry in order.
    pub proof fn lemma_index_complete(&self, i: int)
        requires
            self.wf(),
            self.sound(),
            0 <= i < self.index_count(),
        ensures
            self.index_view(i) == index_entries(self.index_func(i), Seq::empty(), self.all_entries()),
    {
        let all = self.all_entries();
        let s = self.index_start@[i];
        lemma_index_entries_concat(
            self.index_func(i),
            Seq::empty(),
            all.subrange(0, s),
            all.subrange(s, all.len() as int),
        );
        assert(all.subrange(0, s) + all.subrange(s, all.len() as int) =~= all);
    }

    /// In a sound log, fold `i` holds the reduction of every entry in order.
    pub proof fn lemma_fold_complete(&self, i: int)
        requires
            self.wf(),
            self.sound(),
            0 <= i < self.fold_count(),
        ensures
            self.fold_view(i) == fold_entries(
                self.fold_func(i),
                self.fold_func(i).spec_initial(),
                self.all_entries(),
            ),
    {
        let all = self.all_entries();
        let s = self.fold_start@[i];
        lemma_fold_entries_concat(
            self.fold_func(i),
            self.fold_func(i).spec_initial(),
            all.subrange(0, s),
            all.subrange(s, all.len() as int),
        );
        assert(all.subrange(0, s) + all.subrange(s, all.len() as int) =~= all);
    }

    /// The entry offsets whose index output named `key` in index
    /// `index_id`, oldest first.
    pub fn lookup(&self, index_id: usize, key: &[u8]) -> (r: Result<Vec<u64>, Error>)
        requires
            self.wf(),
        ensures
            match r {
                Ok(v) => index_id < self.index_count() && offsets_view(v@) == lookup_in(
                    self.index_view(index_id as int),
                    key@,
                ),
                Err(e) => index_id >= self.index_count() && e is UnknownId,
            },
    {
        if index_id >= self.indexes.len() {
            return Err(Error::UnknownId);
        }
        Ok(self.indexes[index_id].lookup(key))
    }

    /// The state of fold `fold_id`.
    pub fn fold(&self, fold_id: usize) -> (r: Result<u64, Error>)
        requires
            self.wf(),
        ensures
            match r {
                Ok(v) => fold_id < self.fold_count() && v == self.fold_view(fold_id as int),
                Err(e) => fold_id >= self.fold_count() && e is UnknownId,
            },
    {
        if fold_id >= self.folds.len() {
            return Err(Error::UnknownId);
        }
        Ok(self.folds[fold_id])
    }

    /// All entries in commit order: the committed ones, then those in memory.
    pub fn iter(&self) -> (r: Vec<Vec<u8>>)
        requires
            self.wf(),
        ensures
            vecs_view(r@) == self.entries(),
    {
        let mut out: Vec<Vec<u8>> = Vec::new();
        let disk = match parse_entries(self.disk_buf.as_slice(), PRIMARY_START_OFFSET as usize) {
            Ok(v) => v,
            Err(_) => {
                assert(false);
                Vec::new()
            },
        };
        let mem = match parse_entries(self.mem_buf.as_slice(), 0) {
            Ok(v) => v,
            Err(_) => {
                assert(false);
                Vec::new()
            },
        };
        let ghost d = view_entries(disk@);
        let ghost m = view_entries(mem@);
        let mut i: usize = 0;
        while i < disk.len()
            invariant
                i <= disk@.len(),
                d == view_entries(disk@),
                vecs_view(out@) == payloads(d.subrange(0, i as int)),
            decreases disk@.len() - i,
        {
            let ghost before = out@;
            let c = copy_range(disk[i].1.as_slice(), 0, disk[i].1.len());
            assert(disk[i as int].1@.subrange(0, disk[i as int].1@.len() as int) =~= disk[i as int].1@);
            out.push(c);
            assert(vecs_view(out@) =~= vecs_view(before).push(c@));
            assert(payloads(d.subrange(0, i + 1)) =~= payloads(d.subrange(0, i as int)).push(d[i as int].1));
            i = i + 1;
        }
        assert(d.subrange(0, d.len() as int) =~= d);
        let mut j: usize = 0;
        while j < mem.len()
            invariant
                j <= mem@.len(),
                m == view_entries(mem@),
                vecs_view(out@) == payloads(d) + payloads(m.subrange(0, j as int)),
            decreases mem@.len() - j,
        {
            let ghost before = out@;
            let c = copy_range(mem[j].1.as_slice(), 0, mem[j].1.len());
            assert(mem[j as int].1@.subrange(0, mem[j as int].1@.len() as int) =~= mem[j as int].1@);
            out.push(c);
            assert(vecs_view(out@) =~= vecs_view(before).push(c@));
            assert(payloads(m.subrange(0, j + 1)) =~= payloads(m.subrange(0, j as int)).push(m[j as int].1));
            j = j + 1;
        }
        assert(m.subrange(0, m.len() as int) =~= m);
        assert(payloads(d) + payloads(m) =~= self.entries());
        out
    }

    /// Whether `append` has buffered enough for the configured automatic
    /// sync: never without a threshold; with `Some(n)`, once the in-memory
    /// buffer exceeds `n` bytes.
    pub fn needs_auto_sync(&self) -> (r: bool)
        ensures
            r == match self.options().auto_sync_threshold {
                Some(n) => self.total_len() - self.committed_len() > n,
                None => false,
            },
    {
        match self.open_options.get_auto_sync_threshold() {
            Some(n) => self.mem_buf.len() as u64 > n,
            None => false,
        }
    }
}

pub proof fn lemma_entries_in_start(buf: Seq<u8>)
    requires
        buf.len() == PRIMARY_START_OFFSET,
    ensures
        entries_in(buf, PRIMARY_START_OFFSET as int) == Some(Seq::<(int, Seq<u8>)>::empty()),
{
}

impl OpenOptions {
    /// The initial state of every fold.
    pub fn empty_folds(&self) -> (r: Vec<u64>)
        ensures
            r@.len() == self@.fold_defs.len(),
            forall|i: int| 0 <= i < r@.len() ==> r@[i] == (#[trigger] self@.fold_defs[i]).1.spec_initial(),
    {
        let mut r: Vec<u64> = Vec::new();
        let mut i: usize = 0;
        while i < self.fold_def_count()
            invariant
                i <= self@.fold_defs.len(),
                r@.len() == i,
                forall|j: int| 0 <= j < i ==> r@[j] == (#[trigger] self@.fold_defs[j]).1.spec_initial(),
            decreases self@.fold_defs.len() - i,
        {
            r.push(0);
            i = i + 1;
        }
        r
    }

    /// An empty log that lives in memory only: it never touches the
    /// filesystem and cannot be synced.
    pub fn create_in_memory(&self) -> (r: Result<Log, Error>)
        ensures
            r is Ok,
            r matches Ok(log) ==> {
                &&& log.wf()
                &&& log.sound()
                &&& !log.is_on_disk()
                &&& log.entries().len() == 0
                &&& log.options() == self@
                &&& log.committed_len() == PRIMARY_START_OFFSET
                &&& log.total_len() == PRIMARY_START_OFFSET
                &&& log.index_count() == self@.index_defs.len()
                &&& log.fold_count() == self@.fold_defs.len()
                &&& forall|i: int| 0 <= i < log.fold_count() ==> #[trigger] log.fold_view(i)
                    == self@.fold_defs[i].1.spec_initial()
                &&& forall|i: int| 0 <= i < log.index_count() ==> #[trigger] log.index_view(i)
                    == Seq::<(Seq<u8>, int)>::empty()
            },
    {
        let disk_buf = primary_header_bytes();
        proof {
            lemma_entries_in_start(disk_buf@);
        }
        let mut indexes: Vec<IndexState> = Vec::new();
        let mut i: usize = 0;
        while i < self.index_def_count()
            invariant
                i <= self@.index_defs.len(),
                indexes@.len() == i,
                forall|j: int| 0 <= j < i ==> (#[trigger] indexes@[j])@ == Seq::<(Seq<u8>, int)>::empty(),
            decreases self@.index_defs.len() - i,
        {
            indexes.push(IndexState::new());
            i = i + 1;
        }
        let folds = self.empty_folds();
        let n = indexes.len();
        let ghost index_start = Seq::new(n as nat, |j: int| 0int);
        let ghost index_base = Seq::new(n as nat, |j: int| Seq::<(Seq<u8>, int)>::empty());
        let ghost fold_start = Seq::new(folds@.len(), |j: int| 0int);
        let ghost fold_base = folds@;
        let log = Log {
            on_disk: false,
            disk_buf,
            mem_buf: Vec::new(),
            meta: LogMetadata::new_with_primary_len(PRIMARY_START_OFFSET),
            indexes,
            folds,
            open_options: self.duplicate(),
            index_start: Ghost(index_start),
            index_base: Ghost(index_base),
            fold_start: Ghost(fold_start),
            fold_base: Ghost(fold_base),
        };
        proof {
            assert(entries_in(log.mem_buf@, 0) == Some(Seq::<(int, Seq<u8>)>::empty()));
            let all = log.all_entries();
            assert(all =~= Seq::<(int, Seq<u8>)>::empty());
            assert(all.subrange(0, 0) =~= Seq::<(int, Seq<u8>)>::empty());
            assert(log.entries() =~= Seq::<Seq<u8>>::empty());
        }
        Ok(log)
    }
}

impl Log {
    /// Whether every index accepts the outputs its function gives for `data`.
    pub open spec fn accepts(&self, data: Seq<u8>) -> bool {
        forall|i: int|
            0 <= i < self.index_count() ==> outputs_valid(
                (#[trigger] self.index_func(i)).spec_outputs(data),
                data,
            )
    }

    /// Checks that every index function gives usable outputs for `data`.
    fn check_outputs(&self, data: &[u8]) -> (r: Result<(), Error>)
        requires
            self.wf(),
        ensures
            r is Ok <==> self.accepts(data@),
            r matches Err(e) ==> e is RangeOutOfBounds,
    {
        let mut i: usize = 0;
        while i < self.indexes.len()
            invariant
                self.wf(),
                i <= self.indexes@.len(),
                forall|j: int|
                    0 <= j < i ==> outputs_valid(
                        (#[trigger] self.index_func(j)).spec_outputs(data@),
                        data@,
                    ),
            decreases self.indexes@.len() - i,
        {
            let func = self.open_options.index_def(i).func();
            match check_func_outputs(func, data) {
                Ok(()) => {},
                Err(e) => {
                    assert(func == self.index_func(i as int));
                    return Err(e);
                },
            }
            i = i + 1;
        }
        Ok(())
    }

    /// Appends an entry. It is visible to this instance's iteration, lookups
    /// and folds at once, and becomes durable at the next `sync`. Fails,
    /// changing nothing, where an index function gives a key range outside
    /// the entry.
    #[verifier::rlimit(50)]
    pub fn append(&mut self, data: &[u8]) -> (r: Result<(), Error>)
        requires
            old(self).wf(),
            old(self).total_len() + data@.len() + 17 <= u64::MAX,
        ensures
            final(self).wf(),
            r is Ok <==> old(self).accepts(data@),
            r matches Err(e) ==> e is RangeOutOfBounds && *final(self) == *old(self),
            r is Ok ==> {
                &&& final(self).all_entries() == old(self).all_entries().push(
                    (old(self).total_len(), data@),
                )
                &&& final(self).committed_len() == old(self).committed_len()
                &&& final(self).total_len() == old(self).total_len() + entry_size(
                    old(self).options().checksum_type,
                    data@.len(),
                )
                &&& final(self).index_count() == old(self).index_count()
                &&& final(self).fold_count() == old(self).fold_count()
                &&& final(self).options() == old(self).options()
                &&& final(self).is_on_disk() == old(self).is_on_disk()
                &&& old(self).sound() ==> final(self).sound()
                &&& forall|i: int|
                    0 <= i < old(self).index_count() ==> #[trigger] final(self).index_view(i)
                        == apply_outputs(
                        old(self).index_view(i),
                        old(self).index_func(i).spec_outputs(data@),
                        data@,
                        old(self).total_len(),
                    )
                &&& forall|i: int|
                    0 <= i < old(self).fold_count() ==> #[trigger] final(self).fold_view(i)
                        == old(self).fold_func(i).spec_step(old(self).fold_view(i), data@)
            },
    {
        self.check_outputs(data)?;
        let offset = self.disk_buf.len() as u64 + self.mem_buf.len() as u64;
        let ghost old_all = self.all_entries();
        let ghost old_indexes = self.indexes@;
        let ghost old_folds = self.folds@;
        let ghost mem_before = self.mem_buf@;
        let flag = encode_entry_into(&mut self.mem_buf, self.open_options.get_checksum_type(), data);
        proof {
            lemma_entries_in_append(mem_before, flag, data@, 0);
            let raw = entries_in(mem_before, 0).unwrap();
            assert(shift(raw.push((mem_before.len() as int, data@)), self.disk_buf@.len() as int)
                =~= shift(raw, self.disk_buf@.len() as int).push((offset as int, data@)));
            assert(self.all_entries() =~= old_all.push((offset as int, data@)));
            crate::entry::lemma_encode_entry_len(flag, data@);
        }
        let ghost mid = *self;
        let mut i: usize = 0;
        while i < self.indexes.len()
            invariant
                i <= self.indexes@.len(),
                self.indexes@.len() == old_indexes.len(),
                self.open_options@.index_defs.len() == old_indexes.len(),
                old(self).accepts(data@),
                old_indexes.len() == old(self).index_count(),
                old(self).options() == self.open_options@,
                self.disk_buf == mid.disk_buf,
                self.mem_buf == mid.mem_buf,
                self.folds == mid.folds,
                self.meta == mid.meta,
                self.on_disk == mid.on_disk,
                self.open_options == mid.open_options,
                self.index_start == mid.index_start,
                self.index_base == mid.index_base,
                self.fold_start == mid.fold_start,
                self.fold_base == mid.fold_base,
                old_folds == mid.folds@,
                forall|j: int| 0 <= j < old_indexes.len() ==> #[trigger] self.index_func(j) == old(self).index_func(j),
                forall|j: int|
                    0 <= j < i ==> (#[trigger] self.indexes@[j])@ == apply_outputs(
                        old_indexes[j]@,
                        old(self).index_func(j).spec_outputs(data@),
                        data@,
                        offset as int,
                    ),
                forall|j: int| i <= j < old_indexes.len() ==> #[trigger] self.indexes@[j] == old_indexes[j],
            decreases old_indexes.len() - i,
        {
            let func = self.open_options.index_def(i).func();
            let outs = func.outputs(data);
            assert(outputs_valid(old(self).index_func(i as int).spec_outputs(data@), data@));
            self.indexes[i].apply_outputs(&outs, data, offset);
            i = i + 1;
        }
        let ghost mid2 = *self;
        let mut k: usize = 0;
        while k < self.folds.len()
            invariant
                k <= self.folds@.len(),
                self.disk_buf == mid2.disk_buf,
                self.mem_buf == mid2.mem_buf,
                self.indexes == mid2.indexes,
                self.meta == mid2.meta,
                self.on_disk == mid2.on_disk,
                self.open_options == mid2.open_options,
                self.index_start == mid2.index_start,
                self.index_base == mid2.index_base,
                self.fold_start == mid2.fold_start,
                self.fold_base == mid2.fold_base,
                self.folds@.len() == old_folds.len(),
                self.open_options@.fold_defs.len() == old_folds.len(),
                old(self).options() == self.open_options@,
                forall|j: int|
                    0 <= j < k ==> #[trigger] self.folds@[j] == old(self).fold_func(j).spec_step(
                        old_folds[j],
                        data@,
                    ),
                forall|j: int| k <= j < old_folds.len() ==> #[trigger] self.folds@[j] == old_folds[j],
            decreases old_folds.len() - k,
        {
            let func = self.open_options.get_fold_def(k).func();
            let v = func.step(self.folds[k], data);
            self.folds.set(k, v);
            k = k + 1;
        }
        proof {
            let all = self.all_entries();
            assert forall|i: int| 0 <= i < self.indexes@.len() implies {
                &&& 0 <= #[trigger] self.index_start@[i] <= all.len()
                &&& self.indexes@[i]@ == index_entries(
                    self.open_options@.index_defs[i].0,
                    self.index_base@[i],
                    all.subrange(self.index_start@[i], all.len() as int),
                )
            } by {
                let s = self.index_start@[i];
                assert(all.subrange(s, all.len() as int).drop_last() =~= old_all.subrange(s, old_all.len() as int));
            }
            assert forall|i: int| 0 <= i < self.folds@.len() implies {
                &&& 0 <= #[trigger] self.fold_start@[i] <= all.len()
                &&& self.folds@[i] == fold_entries(
                    self.open_options@.fold_defs[i].1,
                    self.fold_base@[i],
                    all.subrange(self.fold_start@[i], all.len() as int),
                )
            } by {
                let s = self.fold_start@[i];
                assert(all.subrange(s, all.len() as int).drop_last() =~= old_all.subrange(s, old_all.len() as int));
            }
            if old(self).sound() {
                assert forall|i: int| 0 <= i < self.indexes@.len() implies #[trigger] self.index_base@[i]
                    == index_entries(
                    self.open_options@.index_defs[i].0,
                    Seq::empty(),
                    all.subrange(0, self.index_start@[i]),
                ) by {
                    assert(all.subrange(0, self.index_start@[i]) =~= old_all.subrange(0, self.index_start@[i]));
                }
                assert forall|i: int| 0 <= i < self.folds@.len() implies #[trigger] self.fold_base@[i]
                    == fold_entries(
                    self.open_options@.fold_defs[i].1,
                    self.open_options@.fold_defs[i].1.spec_initial(),
                    all.subrange(0, self.fold_start@[i]),
                ) by {
                    assert(all.subrange(0, self.fold_start@[i]) =~= old_all.subrange(0, self.fold_start@[i]));
                }
            }
        }
        Ok(())
    }
}

/// The metadata key of the index named `name`.
pub open spec fn index_meta_key(name: Seq<char>) -> Seq<u8> {
    vstd::utf8::encode_utf8("2-"@ + name)
}

/// The metadata key of the fold named `name`.
pub open spec fn fold_meta_key(name: Seq<char>) -> Seq<u8> {
    vstd::utf8::encode_utf8(name)
}

/// The file name of the index named `name`.
pub open spec fn index_file_name(name: Seq<char>) -> Seq<char> {
    "index2-"@ + name
}

/// How much of the primary log the on-disk index `key` covers.
pub open spec fn index_progress(m: MetaView, key: Seq<u8>) -> int {
    match find_item(m.items, META_KIND_INDEX, key) {
        Some(it) => it.1 as int,
        None => PRIMARY_START_OFFSET as int,
    }
}

/// Whether no on-disk index trails the committed length by more than its
/// lag threshold.
pub open spec fn lag_within(m: MetaView, opts: OpenOptionsView) -> bool {
    forall|i: int|
        0 <= i < opts.index_defs.len() ==> m.primary_len - index_progress(
            m,
            index_meta_key((#[trigger] opts.index_defs[i]).1),
        ) <= opts.index_defs[i].2
}

/// Whether the on-disk state of index `def` is damaged: progress past the
/// committed length, or an index file that is missing or does not decode.
pub open spec fn index_damaged(
    d: &LogDir,
    m: MetaView,
    def: crate::open_options::IndexDefView,
) -> bool {
    match find_item(m.items, META_KIND_INDEX, index_meta_key(def.1)) {
        Some(it) => it.1 > m.primary_len || match file_in(
            files_view(d.index_files@),
            index_file_name(def.1),
        ) {
            Some(b) => index_file_pairs(b) is None,
            None => true,
        },
        None => false,
    }
}

/// Whether the checkpoint of fold `def` lies past the committed length.
pub open spec fn fold_damaged(m: MetaView, def: crate::open_options::FoldDefView) -> bool {
    match find_item(m.items, META_KIND_FOLD, fold_meta_key(def.0)) {
        Some(it) => it.1 > m.primary_len,
        None => false,
    }
}

/// Whether the on-disk state of an index or a fold is damaged.
pub open spec fn indexes_damaged(d: &LogDir, m: MetaView, opts: OpenOptionsView) -> bool {
    ||| exists|i: int|
        0 <= i < opts.index_defs.len() && index_damaged(d, m, #[trigger] opts.index_defs[i])
    ||| exists|i: int|
        0 <= i < opts.fold_defs.len() && fold_damaged(m, #[trigger] opts.fold_defs[i])
}

/// Whether the on-disk state of index `def` agrees with the entries `es`:
/// its file holds what indexing the entries before its progress gives.
pub open spec fn index_consistent(
    d: &LogDir,
    m: MetaView,
    es: Seq<(int, Seq<u8>)>,
    def: crate::open_options::IndexDefView,
) -> bool {
    match find_item(m.items, META_KIND_INDEX, index_meta_key(def.1)) {
        Some(it) => it.1 <= m.primary_len && match file_in(files_view(d.index_files@), index_file_name(def.1)) {
            Some(b) => index_file_pairs(b) == Some(
                index_entries(def.0, Seq::empty(), es.subrange(0, first_pos(es, it.1 as int))),
            ),
            None => false,
        },
        None => true,
    }
}

/// Whether the checkpoint of fold `def` agrees with the entries `es`.
pub open spec fn fold_consistent(
    m: MetaView,
    es: Seq<(int, Seq<u8>)>,
    def: crate::open_options::FoldDefView,
) -> bool {
    match find_item(m.items, META_KIND_FOLD, fold_meta_key(def.0)) {
        Some(it) => it.1 <= m.primary_len && it.2 == fold_entries(
            def.1,
            def.1.spec_initial(),
            es.subrange(0, first_pos(es, it.1 as int)),
        ),
        None => true,
    }
}

/// Whether every index file and fold checkpoint of `d` agrees with its
/// committed entries, as the log itself writes them.
pub open spec fn dir_consistent(d: &LogDir, opts: OpenOptionsView) -> bool {
    &&& dir_meta(d) is Some
    &&& dir_entries(d) is Some
    &&& forall|i: int|
        0 <= i < opts.index_defs.len() ==> index_consistent(
            d,
            dir_meta(d).unwrap(),
            dir_entries(d).unwrap(),
            #[trigger] opts.index_defs[i],
        )
    &&& forall|i: int|
        0 <= i < opts.fold_defs.len() ==> fold_consistent(
            dir_meta(d).unwrap(),
            dir_entries(d).unwrap(),
            #[trigger] opts.fold_defs[i],
        )
}

/// Whether definitions that share a name share their function, as the
/// names promise: an index name stands for one extraction function, a fold
/// name for one reduction.
pub open spec fn names_agree(opts: OpenOptionsView) -> bool {
    &&& forall|i: int, j: int|
        0 <= i < opts.index_defs.len() && 0 <= j < opts.index_defs.len() && (#[trigger] opts.index_defs[i]).1
            == (#[trigger] opts.index_defs[j]).1 ==> opts.index_defs[i].0 == opts.index_defs[j].0
    &&& forall|i: int, j: int|
        0 <= i < opts.fold_defs.len() && 0 <= j < opts.fold_defs.len() && (#[trigger] opts.fold_defs[i]).0
            == (#[trigger] opts.fold_defs[j]).0 ==> opts.fold_defs[i].1 == opts.fold_defs[j].1
}

pub proof fn lemma_prefixed_injective(p: Seq<char>, a: Seq<char>, b: Seq<char>)
    requires
        p + a == p + b,
    ensures
        a == b,
{
    assert(a =~= (p + a).subrange(p.len() as int, (p + a).len() as int));
    assert(b =~= (p + b).subrange(p.len() as int, (p + b).len() as int));
}

pub proof fn lemma_meta_keys_injective(a: Seq<char>, b: Seq<char>)
    ensures
        index_meta_key(a) == index_meta_key(b) ==> a == b,
        fold_meta_key(a) == fold_meta_key(b) ==> a == b,
        index_file_name(a) == index_file_name(b) ==> a == b,
{
    vstd::utf8::encode_utf8_decode_utf8("2-"@ + a);
    vstd::utf8::encode_utf8_decode_utf8("2-"@ + b);
    vstd::utf8::encode_utf8_decode_utf8(a);
    vstd::utf8::encode_utf8_decode_utf8(b);
    if index_meta_key(a) == index_meta_key(b) {
        lemma_prefixed_injective("2-"@, a, b);
    }
    if index_file_name(a) == index_file_name(b) {
        lemma_prefixed_injective("index2-"@, a, b);
    }
}

/// Whether some index function gives an unusable output for some entry.
pub open spec fn entries_rejected(es: Seq<(int, Seq<u8>)>, opts: OpenOptionsView) -> bool {
    exists|i: int, j: int|
        0 <= i < opts.index_defs.len() && 0 <= j < es.len() && !outputs_valid(
            (#[trigger] opts.index_defs[i]).0.spec_outputs((#[trigger] es[j]).1),
            es[j].1,
        )
}

/// The position of the first entry of `es` at or after offset `p`.
pub open spec fn first_pos(es: Seq<(int, Seq<u8>)>, p: int) -> int
    decreases es.len(),
{
    if es.len() == 0 || es[0].0 >= p {
        0
    } else {
        1 + first_pos(es.subrange(1, es.len() as int), p)
    }
}

pub proof fn lemma_first_pos_bounds(es: Seq<(int, Seq<u8>)>, p: int)
    ensures
        0 <= first_pos(es, p) <= es.len(),
        (forall|j: int| 0 <= j < es.len() ==> (#[trigger] es[j]).0 >= p) ==> first_pos(es, p) == 0,
        (forall|j: int| 0 <= j < es.len() ==> (#[trigger] es[j]).0 < p) ==> first_pos(es, p) == es.len(),
    decreases es.len(),
{
    if es.len() > 0 {
        let rest = es.subrange(1, es.len() as int);
        lemma_first_pos_bounds(rest, p);
        if forall|j: int| 0 <= j < es.len() ==> (#[trigger] es[j]).0 < p {
            assert forall|j: int| 0 <= j < rest.len() implies (#[trigger] rest[j]).0 < p by {
                assert(rest[j] == es[j + 1]);
            }
        }
    }
}

pub proof fn lemma_first_pos_concat(a: Seq<(int, Seq<u8>)>, b: Seq<(int, Seq<u8>)>, p: int)
    requires
        forall|k: int| 0 <= k < b.len() ==> (#[trigger] b[k]).0 >= p,
    ensures
        first_pos(a + b, p) == first_pos(a, p),
    decreases a.len(),
{
    if a.len() == 0 {
        assert(a + b =~= b);
        if b.len() > 0 {
            assert(b[0].0 >= p);
        }
    } else {
        assert((a + b)[0] == a[0]);
        assert((a + b).subrange(1, (a + b).len() as int) =~= a.subrange(1, a.len() as int) + b);
        lemma_first_pos_concat(a.subrange(1, a.len() as int), b, p);
    }
}

/// Appending entries after the committed length keeps every index file and
/// fold checkpoint in agreement with the committed entries.
pub proof fn lemma_consistent_after_append(old_dir: &LogDir, new_dir: &LogDir, opts: OpenOptionsView)
    requires
        dir_consistent(old_dir, opts),
        dir_meta(new_dir) is Some,
        dir_entries(new_dir) is Some,
        dir_meta(new_dir).unwrap().items == dir_meta(old_dir).unwrap().items,
        dir_meta(new_dir).unwrap().primary_len >= dir_meta(old_dir).unwrap().primary_len,
        new_dir.index_files == old_dir.index_files,
        dir_entries(new_dir).unwrap().len() >= dir_entries(old_dir).unwrap().len(),
        dir_entries(new_dir).unwrap().subrange(0, dir_entries(old_dir).unwrap().len() as int)
            == dir_entries(old_dir).unwrap(),
        forall|k: int|
            dir_entries(old_dir).unwrap().len() <= k < dir_entries(new_dir).unwrap().len()
                ==> (#[trigger] dir_entries(new_dir).unwrap()[k]).0 >= dir_meta(old_dir).unwrap().primary_len,
    ensures
        dir_consistent(new_dir, opts),
{
    let m = dir_meta(old_dir).unwrap();
    let m2 = dir_meta(new_dir).unwrap();
    let es = dir_entries(old_dir).unwrap();
    let es2 = dir_entries(new_dir).unwrap();
    let tail = es2.subrange(es.len() as int, es2.len() as int);
    assert(es2 =~= es + tail);
    assert forall|p: int| p <= m.primary_len implies first_pos(es2, p) == first_pos(es, p) && es2.subrange(
        0,
        first_pos(es2, p),
    ) == es.subrange(0, first_pos(es, p)) by {
        assert forall|k: int| 0 <= k < tail.len() implies (#[trigger] tail[k]).0 >= p by {
            assert(tail[k] == es2[k + es.len()]);
        }
        lemma_first_pos_concat(es, tail, p);
        lemma_first_pos_bounds(es, p);
        assert(es2.subrange(0, first_pos(es, p)) =~= es.subrange(0, first_pos(es, p)));
    }
    assert forall|i: int| 0 <= i < opts.index_defs.len() implies index_consistent(
        new_dir,
        m2,
        es2,
        #[trigger] opts.index_defs[i],
    ) by {
        assert(index_consistent(old_dir, m, es, opts.index_defs[i]));
    }
    assert forall|i: int| 0 <= i < opts.fold_defs.len() implies fold_consistent(
        m2,
        es2,
        #[trigger] opts.fold_defs[i],
    ) by {
        assert(fold_consistent(m, es, opts.fold_defs[i]));
    }
}

/// Whether some index function gives an unusable output for some payload.
pub open spec fn payloads_rejected(ps: Seq<Seq<u8>>, opts: OpenOptionsView) -> bool {
    exists|i: int, j: int|
        0 <= i < opts.index_defs.len() && 0 <= j < ps.len() && !outputs_valid(
            (#[trigger] opts.index_defs[i]).0.spec_outputs(#[trigger] ps[j]),
            ps[j],
        )
}

pub proof fn lemma_entries_rejected_payloads(es: Seq<(int, Seq<u8>)>, opts: OpenOptionsView)
    requires
        entries_rejected(es, opts),
    ensures
        payloads_rejected(payloads(es), opts),
{
    let (i, j) = choose|i: int, j: int|
        0 <= i < opts.index_defs.len() && 0 <= j < es.len() && !outputs_valid(
            (#[trigger] opts.index_defs[i]).0.spec_outputs((#[trigger] es[j]).1),
            es[j].1,
        );
    assert(payloads(es)[j] == es[j].1);
}

/// Appending entries never repairs damaged index state: what is damaged
/// after the commit was damaged before it.
pub proof fn lemma_damage_before_append(old_dir: &LogDir, new_dir: &LogDir, opts: OpenOptionsView)
    requires
        dir_meta(old_dir) is Some,
        dir_meta(new_dir) is Some,
        dir_meta(new_dir).unwrap().items == dir_meta(old_dir).unwrap().items,
        dir_meta(new_dir).unwrap().primary_len >= dir_meta(old_dir).unwrap().primary_len,
        new_dir.index_files == old_dir.index_files,
    ensures
        indexes_damaged(new_dir, dir_meta(new_dir).unwrap(), opts) ==> indexes_damaged(
            old_dir,
            dir_meta(old_dir).unwrap(),
            opts,
        ),
{
}

/// The position of the first entry at or after `progress`.
fn first_at_or_after(entries: &Vec<(u64, Vec<u8>)>, progress: u64) -> (k: usize)
    ensures
        k <= entries@.len(),
        k == first_pos(view_entries(entries@), progress as int),
{
    let ghost es = view_entries(entries@);
    let mut k: usize = 0;
    assert(es.subrange(0, es.len() as int) =~= es);
    while k < entries.len() && entries[k].0 < progress
        invariant
            k <= entries@.len(),
            es == view_entries(entries@),
            first_pos(es, progress as int) == k + first_pos(es.subrange(k as int, es.len() as int), progress as int),
        decreases entries@.len() - k,
    {
        let ghost sub = es.subrange(k as int, es.len() as int);
        assert(sub[0] == es[k as int]);
        assert(sub.subrange(1, sub.len() as int) =~= es.subrange(k + 1, es.len() as int));
        k = k + 1;
    }
    proof {
        let sub = es.subrange(k as int, es.len() as int);
        if k < entries@.len() {
            assert(sub[0] == es[k as int]);
        }
    }
    k
}

impl OpenOptions {
    /// Reads the metadata of `dir`, creating the log first where it is
    /// missing and `create` is set.
    fn load_or_create_meta(&self, dir: &mut LogDir) -> (r: Result<LogMetadata, Error>)
        ensures
            match r {
                Ok(m) => {
                    &&& dir_meta(final(dir)) == Some(m@)
                    &&& final(dir).index_files == old(dir).index_files
                    &&& old(dir).meta is Some ==> *final(dir) == *old(dir)
                    &&& old(dir).meta is None ==> {
                        &&& self@.create
                        &&& final(dir).primary@ == primary_header()
                        &&& m@.primary_len == PRIMARY_START_OFFSET
                        &&& m@.items.len() == 0
                    }
                },
                Err(e) => {
                    &&& *final(dir) == *old(dir)
                    &&& (e is NotFound || e is Corruption)
                    &&& e is NotFound <==> (old(dir).meta is None && !self@.create)
                    &&& e is Corruption <==> (old(dir).meta is Some && dir_meta(old(dir)) is None)
                },
            },
    {
        match &dir.meta {
            Some(bytes) => LogMetadata::decode(bytes.as_slice()),
            None => {
                if !self.get_create() {
                    return Err(Error::NotFound);
                }
                let meta = LogMetadata::new_with_primary_len(PRIMARY_START_OFFSET);
                let bytes = meta.encode();
                proof {
                    crate::records::lemma_meta_round_trip(meta@);
                }
                dir.primary = primary_header_bytes();
                dir.meta = Some(bytes);
                Ok(meta)
            },
        }
    }

    /// Loads index `def`: its on-disk pairs, then the entries from its
    /// progress on replayed in memory. Returns the state, the position where
    /// replay started, the progress, and the loaded pairs.
    fn load_index(
        def: &IndexDef,
        meta: &LogMetadata,
        dir: &LogDir,
        entries: &Vec<(u64, Vec<u8>)>,
    ) -> (r: Result<(IndexState, usize, u64, Ghost<Seq<(Seq<u8>, int)>>), Error>)
        requires
            meta@.primary_len >= PRIMARY_START_OFFSET,
        ensures
            match r {
                Ok((st, k, p, base)) => {
                    let es = view_entries(entries@);
                    &&& k <= es.len()
                    &&& p <= meta@.primary_len
                    &&& p == index_progress(meta@, index_meta_key(def.spec_name()))
                    &&& k == first_pos(es, p as int)
                    &&& st@ == index_entries(def.spec_func(), base@, es.subrange(k as int, es.len() as int))
                    &&& match find_item(meta@.items, META_KIND_INDEX, index_meta_key(def.spec_name())) {
                        Some(it) => match file_in(files_view(dir.index_files@), index_file_name(def.spec_name())) {
                            Some(b) => index_file_pairs(b) == Some(base@),
                            None => false,
                        },
                        None => base@ == Seq::<(Seq<u8>, int)>::empty(),
                    }
                },
                Err(e) => {
                    ||| (e is RangeOutOfBounds && exists|j: int|
                        0 <= j < entries@.len() && !outputs_valid(
                            def.spec_func().spec_outputs((#[trigger] view_entries(entries@)[j]).1),
                            view_entries(entries@)[j].1,
                        ))
                    ||| (e is Corruption && match find_item(
                        meta@.items,
                        META_KIND_INDEX,
                        index_meta_key(def.spec_name()),
                    ) {
                        Some(it) => it.1 > meta@.primary_len || match file_in(
                            files_view(dir.index_files@),
                            index_file_name(def.spec_name()),
                        ) {
                            Some(b) => index_file_pairs(b) is None,
                            None => true,
                        },
                        None => false,
                    })
                },
            },
    {
        let key = def.metaname();
        let key_bytes = key.as_str().as_bytes();
        let (progress, mut state, base) = match meta.find(META_KIND_INDEX, key_bytes) {
            Some(j) => {
                let p = meta.items[j].progress;
                if p > meta.primary_len {
                    return Err(Error::Corruption);
                }
                let fname = def.filename();
                match dir.index_file(&fname) {
                    Some(bytes) => {
                        let pairs = decode_index_file(bytes.as_slice())?;
                        let ghost base = pairs_view(pairs@);
                        (p, IndexState::from_pairs(pairs), Ghost(base))
                    },
                    None => {
                        return Err(Error::Corruption);
                    },
                }
            },
            None => (PRIMARY_START_OFFSET, IndexState::new(), Ghost(Seq::empty())),
        };
        let func = def.func();
        let k = first_at_or_after(entries, progress);
        let ghost es = view_entries(entries@);
        let mut i: usize = k;
        assert(es.subrange(k as int, k as int) =~= Seq::<(int, Seq<u8>)>::empty());
        while i < entries.len()
            invariant
                k <= i <= entries@.len(),
                es == view_entries(entries@),
                func == def.spec_func(),
                state@ == index_entries(func, base@, es.subrange(k as int, i as int)),
            decreases entries@.len() - i,
        {
            let data = entries[i].1.as_slice();
            match check_func_outputs(func, data) {
                Ok(()) => {},
                Err(e) => {
                    assert(es[i as int].1 == data@);
                    assert(!outputs_valid(def.spec_func().spec_outputs(view_entries(entries@)[i as int].1), view_entries(entries@)[i as int].1));
                    return Err(e);
                },
            }
            let outs = func.outputs(data);
            state.apply_outputs(&outs, data, entries[i].0);
            assert(es.subrange(k as int, i + 1).drop_last() =~= es.subrange(k as int, i as int));
            i = i + 1;
        }
        Ok((state, k, progress, base))
    }

    /// Loads fold `def`: its checkpoint, then the entries from there on
    /// replayed in memory. Returns the state, the position where replay
    /// started, the checkpoint's progress and its state.
    fn load_fold(def: &FoldDef, meta: &LogMetadata, entries: &Vec<(u64, Vec<u8>)>) -> (r: Result<
        (u64, usize, u64, u64),
        Error,
    >)
        requires
            meta@.primary_len >= PRIMARY_START_OFFSET,
        ensures
            match r {
                Ok((v, k, p, base)) => {
                    let es = view_entries(entries@);
                    &&& k <= es.len()
                    &&& p <= meta@.primary_len
                    &&& k == first_pos(es, p as int)
                    &&& v == fold_entries(def.spec_func(), base, es.subrange(k as int, es.len() as int))
                    &&& match find_item(meta@.items, META_KIND_FOLD, fold_meta_key(def.spec_name())) {
                        Some(it) => base == it.2 && p == it.1,
                        None => base == def.spec_func().spec_initial() && p == PRIMARY_START_OFFSET,
                    }
                },
                Err(e) => e is Corruption && match find_item(
                    meta@.items,
                    META_KIND_FOLD,
                    fold_meta_key(def.spec_name()),
                ) {
                    Some(it) => it.1 > meta@.primary_len,
                    None => false,
                },
            },
    {
        let (progress, base) = match meta.find(META_KIND_FOLD, def.name().as_bytes()) {
            Some(j) => {
                let p = meta.items[j].progress;
                if p > meta.primary_len {
                    return Err(Error::Corruption);
                }
                (p, meta.items[j].value)
            },
            None => (PRIMARY_START_OFFSET, 0),
        };
        let func = def.func();
        let k = first_at_or_after(entries, progress);
        let ghost es = view_entries(entries@);
        let mut value = base;
        let mut i: usize = k;
        assert(es.subrange(k as int, k as int) =~= Seq::<(int, Seq<u8>)>::empty());
        while i < entries.len()
            invariant
                k <= i <= entries@.len(),
                es == view_entries(entries@),
                value == fold_entries(func, base, es.subrange(k as int, i as int)),
            decreases entries@.len() - i,
        {
            value = func.step(value, entries[i].1.as_slice());
            assert(es.subrange(k as int, i + 1).drop_last() =~= es.subrange(k as int, i as int));
            i = i + 1;
        }
        Ok((value, k, progress, base))
    }
}

impl OpenOptions {
    /// Writes back the indexes that trail the committed length by more than
    /// their lag threshold, and the fold checkpoints that are behind, then
    /// the metadata where anything changed.
    #[verifier::rlimit(50)]
    fn write_back(
        &self,
        dir: &mut LogDir,
        meta: &mut LogMetadata,
        indexes: &Vec<IndexState>,
        progresses: &Vec<u64>,
        folds: &Vec<u64>,
        fold_progresses: &Vec<u64>,
        es: Ghost<Seq<(int, Seq<u8>)>>,
        complete: Ghost<bool>,
    )
        requires
            dir_meta(old(dir)) == Some(old(meta)@),
            PRIMARY_START_OFFSET <= old(meta)@.primary_len,
            indexes@.len() == self@.index_defs.len(),
            progresses@.len() == self@.index_defs.len(),
            folds@.len() == self@.fold_defs.len(),
            fold_progresses@.len() == self@.fold_defs.len(),
            forall|k: int| 0 <= k < es@.len() ==> (#[trigger] es@[k]).0 < old(meta)@.primary_len,
            forall|j: int|
                0 <= j < self@.index_defs.len() ==> {
                    &&& #[trigger] progresses@[j] <= old(meta)@.primary_len
                    &&& progresses@[j] == index_progress(old(meta)@, index_meta_key(self@.index_defs[j].1))
                },
            forall|j: int|
                0 <= j < self@.fold_defs.len() ==> #[trigger] fold_progresses@[j] <= old(meta)@.primary_len,
            forall|j: int|
                0 <= j < self@.index_defs.len() ==> !index_damaged(old(dir), old(meta)@, #[trigger] self@.index_defs[j]),
            forall|j: int|
                0 <= j < self@.fold_defs.len() ==> !fold_damaged(old(meta)@, #[trigger] self@.fold_defs[j]),
            complete@ ==> {
                &&& forall|j: int|
                    0 <= j < self@.index_defs.len() ==> (#[trigger] indexes@[j])@ == index_entries(
                        self@.index_defs[j].0,
                        Seq::empty(),
                        es@,
                    )
                &&& forall|j: int|
                    0 <= j < self@.fold_defs.len() ==> #[trigger] folds@[j] == fold_entries(
                        self@.fold_defs[j].1,
                        self@.fold_defs[j].1.spec_initial(),
                        es@,
                    )
                &&& forall|j: int|
                    0 <= j < self@.index_defs.len() ==> index_consistent(
                        old(dir),
                        old(meta)@,
                        es@,
                        #[trigger] self@.index_defs[j],
                    )
                &&& forall|j: int|
                    0 <= j < self@.fold_defs.len() ==> fold_consistent(
                        old(meta)@,
                        es@,
                        #[trigger] self@.fold_defs[j],
                    )
            },
        ensures
            final(dir).primary == old(dir).primary,
            dir_meta(final(dir)) == Some(final(meta)@),
            final(meta)@.primary_len == old(meta)@.primary_len,
            final(meta)@.epoch == old(meta)@.epoch,
            lag_within(final(meta)@, self@),
            lag_within(old(meta)@, self@) ==> *final(dir) == *old(dir) && final(meta)@ == old(meta)@,
            !indexes_damaged(final(dir), final(meta)@, self@),
            complete@ && names_agree(self@) ==> {
                &&& forall|j: int|
                    0 <= j < self@.index_defs.len() ==> index_consistent(
                        final(dir),
                        final(meta)@,
                        es@,
                        #[trigger] self@.index_defs[j],
                    )
                &&& forall|j: int|
                    0 <= j < self@.fold_defs.len() ==> fold_consistent(
                        final(meta)@,
                        es@,
                        #[trigger] self@.fold_defs[j],
                    )
            },
    {
        let ghost m0 = meta@;
        let ghost dir0 = *dir;
        let primary_len = meta.primary_len;
        proof {
            lemma_first_pos_bounds(es@, primary_len as int);
            assert(es@.subrange(0, es@.len() as int) =~= es@);
        }
        let mut dirty = false;
        let mut i: usize = 0;
        while i < self.index_def_count()
            invariant
                i <= self@.index_defs.len(),
                indexes@.len() == self@.index_defs.len(),
                progresses@.len() == self@.index_defs.len(),
                meta@.primary_len == primary_len,
                meta@.epoch == m0.epoch,
                primary_len == m0.primary_len,
                dir.primary == dir0.primary,
                dir.meta == dir0.meta,
                dir_meta(&dir0) == Some(m0),
                !dirty ==> meta@ == m0 && *dir == dir0,
                lag_within(m0, self@) ==> !dirty,
                forall|j: int|
                    0 <= j < self@.index_defs.len() ==> !index_damaged(dir, meta@, #[trigger] self@.index_defs[j]),
                forall|j: int|
                    0 <= j < self@.fold_defs.len() ==> !fold_damaged(meta@, #[trigger] self@.fold_defs[j]),
                first_pos(es@, primary_len as int) == es@.len(),
                es@.subrange(0, es@.len() as int) == es@,
                forall|k: u8, n: Seq<u8>|
                    k != META_KIND_INDEX ==> #[trigger] find_item(meta@.items, k, n) == find_item(m0.items, k, n),
                forall|n: Seq<char>| #[trigger] file_in(files_view(dir.index_files@), n) == file_in(files_view(dir0.index_files@), n) || exists|j: int| 0 <= j < i && n == index_file_name((#[trigger] self@.index_defs[j]).1),
                forall|j: int|
                    0 <= j < self@.index_defs.len() ==> {
                        &&& #[trigger] progresses@[j] <= primary_len
                        &&& progresses@[j] == index_progress(m0, index_meta_key(self@.index_defs[j].1))
                    },
                forall|j: int|
                    0 <= j < i ==> primary_len - index_progress(
                        meta@,
                        index_meta_key((#[trigger] self@.index_defs[j]).1),
                    ) <= self@.index_defs[j].2,
                forall|j: int|
                    i <= j < self@.index_defs.len() ==> {
                        ||| index_progress(meta@, index_meta_key((#[trigger] self@.index_defs[j]).1)) == progresses@[j]
                        ||| index_progress(meta@, index_meta_key(self@.index_defs[j].1)) == primary_len
                    },
                complete@ ==> forall|j: int|
                    0 <= j < self@.index_defs.len() ==> (#[trigger] indexes@[j])@ == index_entries(
                        self@.index_defs[j].0,
                        Seq::empty(),
                        es@,
                    ),
                complete@ && names_agree(self@) ==> forall|j: int|
                    0 <= j < self@.index_defs.len() ==> index_consistent(
                        dir,
                        meta@,
                        es@,
                        #[trigger] self@.index_defs[j],
                    ),
            decreases self@.index_defs.len() - i,
        {
            let def = self.index_def(i);
            let lag = primary_len - progresses[i];
            assert(self@.index_defs[i as int].2 == def.spec_lag_threshold());
            if lag > def.get_lag_threshold() {
                let bytes = encode_index_file(indexes[i].pairs());
                let ghost dir_before = *dir;
                dir.write_index_file(def.filename(), bytes);
                let key = def.metaname();
                let key_bytes = copy_range(key.as_str().as_bytes(), 0, key.as_str().as_bytes().len());
                let ghost before = meta@;
                meta.set_item(META_KIND_INDEX, key_bytes, primary_len, 0);
                dirty = true;
                proof {
                    let kb = index_meta_key(def.spec_name());
                    assert(key_bytes@ == kb);
                    assert(index_progress(meta@, kb) == primary_len);
                    assert forall|j: int| 0 <= j < self@.index_defs.len() && index_meta_key(self@.index_defs[j].1) != kb implies
                        index_progress(meta@, index_meta_key(#[trigger] self@.index_defs[j].1)) == index_progress(before, index_meta_key(self@.index_defs[j].1)) by {
                        assert(find_item(meta@.items, META_KIND_INDEX, index_meta_key(self@.index_defs[j].1)) == find_item(before.items, META_KIND_INDEX, index_meta_key(self@.index_defs[j].1)));
                    }
                    assert(self@.index_defs[i as int].1 == def.spec_name());
                    crate::records::lemma_index_file_round_trip(indexes@[i as int]@);
                    assert forall|j: int| 0 <= j < self@.index_defs.len() implies !index_damaged(
                        dir,
                        meta@,
                        #[trigger] self@.index_defs[j],
                    ) by {
                        let dj = self@.index_defs[j];
                        lemma_meta_keys_injective(dj.1, def.spec_name());
                        assert(!index_damaged(&dir_before, before, dj));
                        if dj.1 == def.spec_name() {
                            assert(find_item(meta@.items, META_KIND_INDEX, kb) == Some((META_KIND_INDEX, primary_len, 0u64, kb)));
                            assert(file_in(files_view(dir.index_files@), index_file_name(dj.1)) == Some(bytes@));
                        } else {
                            assert(find_item(meta@.items, META_KIND_INDEX, index_meta_key(dj.1)) == find_item(before.items, META_KIND_INDEX, index_meta_key(dj.1)));
                            assert(file_in(files_view(dir.index_files@), index_file_name(dj.1)) == file_in(files_view(dir_before.index_files@), index_file_name(dj.1)));
                        }
                    }
                    assert forall|j: int| 0 <= j < self@.fold_defs.len() implies !fold_damaged(
                        meta@,
                        #[trigger] self@.fold_defs[j],
                    ) by {
                        let dj = self@.fold_defs[j];
                        assert(!fold_damaged(before, dj));
                        assert(find_item(meta@.items, META_KIND_FOLD, fold_meta_key(dj.0)) == find_item(before.items, META_KIND_FOLD, fold_meta_key(dj.0)));
                    }
                    assert forall|n: Seq<char>| #[trigger] file_in(files_view(dir.index_files@), n) == file_in(files_view(dir0.index_files@), n) || exists|j: int| 0 <= j < i + 1 && n == index_file_name((#[trigger] self@.index_defs[j]).1) by {
                        if n != index_file_name(def.spec_name()) {
                            assert(file_in(files_view(dir.index_files@), n) == file_in(files_view(dir_before.index_files@), n));
                        }
                    }
                    if complete@ && names_agree(self@) {
                        assert forall|j: int| 0 <= j < self@.index_defs.len() implies index_consistent(
                            dir,
                            meta@,
                            es@,
                            #[trigger] self@.index_defs[j],
                        ) by {
                            let dj = self@.index_defs[j];
                            lemma_meta_keys_injective(dj.1, def.spec_name());
                            assert(index_consistent(&dir_before, before, es@, dj));
                            if dj.1 == def.spec_name() {
                                assert(dj.0 == self@.index_defs[i as int].0);
                                assert(indexes@[i as int]@ == index_entries(dj.0, Seq::empty(), es@));
                                crate::records::lemma_index_file_round_trip(indexes@[i as int]@);
                                assert(file_in(files_view(dir.index_files@), index_file_name(dj.1)) == Some(bytes@));
                                assert(find_item(meta@.items, META_KIND_INDEX, kb) == Some((META_KIND_INDEX, primary_len, 0u64, kb)));
                            } else {
                                assert(find_item(meta@.items, META_KIND_INDEX, index_meta_key(dj.1)) == find_item(before.items, META_KIND_INDEX, index_meta_key(dj.1)));
                                assert(file_in(files_view(dir.index_files@), index_file_name(dj.1)) == file_in(files_view(dir_before.index_files@), index_file_name(dj.1)));
                            }
                        }
                    }
                }
            }
            i = i + 1;
        }
        let mut f: usize = 0;
        while f < self.fold_def_count()
            invariant
                f <= self@.fold_defs.len(),
                folds@.len() == self@.fold_defs.len(),
                fold_progresses@.len() == self@.fold_defs.len(),
                meta@.primary_len == primary_len,
                meta@.epoch == m0.epoch,
                dir.primary == dir0.primary,
                dirty || dir.meta == dir0.meta,
                dir_meta(&dir0) == Some(m0),
                !dirty ==> meta@ == m0 && *dir == dir0,
                lag_within(m0, self@) ==> !dirty,
                forall|j: int|
                    0 <= j < self@.index_defs.len() ==> !index_damaged(dir, meta@, #[trigger] self@.index_defs[j]),
                forall|j: int|
                    0 <= j < self@.fold_defs.len() ==> !fold_damaged(meta@, #[trigger] self@.fold_defs[j]),
                first_pos(es@, primary_len as int) == es@.len(),
                es@.subrange(0, es@.len() as int) == es@,
                forall|k: u8, n: Seq<u8>|
                    k != META_KIND_FOLD ==> #[trigger] find_item(meta@.items, k, n) == find_item(old(meta)@.items, k, n) || k == META_KIND_INDEX,
                forall|j: int|
                    0 <= j < self@.fold_defs.len() ==> #[trigger] fold_progresses@[j] <= primary_len,
                forall|j: int|
                    0 <= j < self@.index_defs.len() ==> primary_len - index_progress(
                        meta@,
                        index_meta_key((#[trigger] self@.index_defs[j]).1),
                    ) <= self@.index_defs[j].2,
                complete@ && names_agree(self@) ==> forall|j: int|
                    0 <= j < self@.index_defs.len() ==> index_consistent(
                        dir,
                        meta@,
                        es@,
                        #[trigger] self@.index_defs[j],
                    ),
                complete@ ==> forall|j: int|
                    0 <= j < self@.fold_defs.len() ==> #[trigger] folds@[j] == fold_entries(
                        self@.fold_defs[j].1,
                        self@.fold_defs[j].1.spec_initial(),
                        es@,
                    ),
                complete@ && names_agree(self@) ==> forall|j: int|
                    0 <= j < self@.fold_defs.len() ==> fold_consistent(
                        meta@,
                        es@,
                        #[trigger] self@.fold_defs[j],
                    ),
            decreases self@.fold_defs.len() - f,
        {
            if dirty && fold_progresses[f] < primary_len {
                let def = self.get_fold_def(f);
                let name = def.name().as_bytes();
                let key_bytes = copy_range(name, 0, name.len());
                let ghost before = meta@;
                meta.set_item(META_KIND_FOLD, key_bytes, primary_len, folds[f]);
                dirty = true;
                proof {
                    assert(key_bytes@ == fold_meta_key(def.spec_name()));
                    assert(self@.fold_defs[f as int].0 == def.spec_name());
                    assert forall|j: int| 0 <= j < self@.index_defs.len() implies !index_damaged(
                        dir,
                        meta@,
                        #[trigger] self@.index_defs[j],
                    ) by {
                        let dj = self@.index_defs[j];
                        assert(!index_damaged(dir, before, dj));
                        assert(find_item(meta@.items, META_KIND_INDEX, index_meta_key(dj.1)) == find_item(before.items, META_KIND_INDEX, index_meta_key(dj.1)));
                    }
                    assert forall|j: int| 0 <= j < self@.fold_defs.len() implies !fold_damaged(
                        meta@,
                        #[trigger] self@.fold_defs[j],
                    ) by {
                        let dj = self@.fold_defs[j];
                        lemma_meta_keys_injective(dj.0, def.spec_name());
                        assert(!fold_damaged(before, dj));
                        if dj.0 != def.spec_name() {
                            assert(find_item(meta@.items, META_KIND_FOLD, fold_meta_key(dj.0)) == find_item(before.items, META_KIND_FOLD, fold_meta_key(dj.0)));
                        }
                    }
                    assert forall|j: int| 0 <= j < self@.index_defs.len() implies
                        index_progress(meta@, index_meta_key(#[trigger] self@.index_defs[j].1)) == index_progress(before, index_meta_key(self@.index_defs[j].1)) by {
                        assert(find_item(meta@.items, META_KIND_INDEX, index_meta_key(self@.index_defs[j].1)) == find_item(before.items, META_KIND_INDEX, index_meta_key(self@.index_defs[j].1)));
                    }
                    if complete@ && names_agree(self@) {
                        assert forall|j: int| 0 <= j < self@.index_defs.len() implies index_consistent(
                            dir,
                            meta@,
                            es@,
                            #[trigger] self@.index_defs[j],
                        ) by {
                            let dj = self@.index_defs[j];
                            assert(index_consistent(dir, before, es@, dj));
                            assert(find_item(meta@.items, META_KIND_INDEX, index_meta_key(dj.1)) == find_item(before.items, META_KIND_INDEX, index_meta_key(dj.1)));
                        }
                        assert(self@.fold_defs[f as int].0 == def.spec_name());
                        assert forall|j: int| 0 <= j < self@.fold_defs.len() implies fold_consistent(
                            meta@,
                            es@,
                            #[trigger] self@.fold_defs[j],
                        ) by {
                            let dj = self@.fold_defs[j];
                            lemma_meta_keys_injective(dj.0, def.spec_name());
                            assert(fold_consistent(before, es@, dj));
                            if dj.0 == def.spec_name() {
                                assert(dj.1 == self@.fold_defs[f as int].1);
                                assert(folds@[f as int] == fold_entries(dj.1, dj.1.spec_initial(), es@));
                            } else {
                                assert(find_item(meta@.items, META_KIND_FOLD, fold_meta_key(dj.0)) == find_item(before.items, META_KIND_FOLD, fold_meta_key(dj.0)));
                            }
                        }
                    }
                }
            }
            f = f + 1;
        }
        if dirty {
            let bytes = meta.encode();
            proof {
                crate::records::lemma_meta_round_trip(meta@);
            }
            let ghost dir_before = *dir;
            dir.meta = Some(bytes);
            proof {
                assert forall|j: int| 0 <= j < self@.index_defs.len() implies !index_damaged(
                    dir,
                    meta@,
                    #[trigger] self@.index_defs[j],
                ) by {
                    assert(!index_damaged(&dir_before, meta@, self@.index_defs[j]));
                }
                if complete@ && names_agree(self@) {
                    assert forall|j: int| 0 <= j < self@.index_defs.len() implies index_consistent(
                        dir,
                        meta@,
                        es@,
                        #[trigger] self@.index_defs[j],
                    ) by {
                        assert(index_consistent(&dir_before, meta@, es@, self@.index_defs[j]));
                    }
                }
            }
        }
    }

    /// Opens the log held in `dir`, creating it first where it is missing
    /// and `create` is set. Indexes are loaded from their files and caught
    /// up in memory; an index that trails the committed length by more than
    /// its lag threshold is written back, as are fold checkpoints.
    #[verifier::rlimit(50)]
    pub fn open_internal(&self, dir: &mut LogDir) -> (r: Result<Log, Error>)
        ensures
            old(dir).meta is None && !self@.create ==> r is Err,
            match r {
                Ok(log) => {
                    &&& log.wf()
                    &&& log.is_on_disk()
                    &&& log.options() == self@
                    &&& log.committed_len() == log.total_len()
                    &&& dir_entries(final(dir)) == Some(log.all_entries())
                    &&& lag_within(dir_meta(final(dir)).unwrap(), self@)
                    &&& !indexes_damaged(final(dir), dir_meta(final(dir)).unwrap(), self@)
                    &&& old(dir).meta is Some ==> {
                        &&& final(dir).primary == old(dir).primary
                        &&& dir_entries(old(dir)) == dir_entries(final(dir))
                        &&& dir_meta(final(dir)).unwrap().epoch == dir_meta(old(dir)).unwrap().epoch
                        &&& dir_meta(final(dir)).unwrap().primary_len == dir_meta(old(dir)).unwrap().primary_len
                    }
                    &&& old(dir).meta is None ==> log.entries().len() == 0
                        && log.committed_len() == PRIMARY_START_OFFSET
                    &&& log.index_count() == self@.index_defs.len()
                    &&& log.fold_count() == self@.fold_defs.len()
                    &&& old(dir).meta is Some && lag_within(dir_meta(old(dir)).unwrap(), self@)
                        ==> *final(dir) == *old(dir)
                    &&& (old(dir).meta is None || dir_consistent(old(dir), self@)) ==> log.sound()
                    &&& (old(dir).meta is None || dir_consistent(old(dir), self@)) && names_agree(self@)
                        ==> dir_consistent(final(dir), self@)
                },
                Err(e) => {
                    &&& e is NotFound <==> (old(dir).meta is None && !self@.create)
                    &&& e is Corruption ==> old(dir).meta is Some && (dir_entries(old(dir)) is None
                        || indexes_damaged(old(dir), dir_meta(old(dir)).unwrap(), self@))
                    &&& (old(dir).meta is Some && dir_entries(old(dir)) is None) ==> e is Corruption
                    &&& e is RangeOutOfBounds ==> dir_entries(old(dir)) is Some && entries_rejected(
                        dir_entries(old(dir)).unwrap(),
                        self@,
                    )
                    &&& *final(dir) == *old(dir)
                    &&& (e is NotFound || e is Corruption || e is RangeOutOfBounds)
                },
            },
    {
        let mut meta = self.load_or_create_meta(dir)?;
        let ghost dir0 = *dir;
        proof {
            assert(primary_header().len() == PRIMARY_START_OFFSET);
            if old(dir).meta is None {
                assert(meta@.items.len() == 0);
                assert(dir.primary@.subrange(0, PRIMARY_START_OFFSET as int) =~= primary_header());
            } else {
                assert(*dir == *old(dir));
            }
        }
        if meta.primary_len < PRIMARY_START_OFFSET || meta.primary_len > dir.primary.len() as u64 {
            return Err(Error::Corruption);
        }
        let header = primary_header_bytes();
        let head = copy_range(dir.primary.as_slice(), 0, PRIMARY_START_OFFSET as usize);
        if !bytes_eq(head.as_slice(), header.as_slice()) {
            return Err(Error::Corruption);
        }
        let primary_len = meta.primary_len;
        let disk_buf = copy_range(dir.primary.as_slice(), 0, primary_len as usize);
        proof {
            if old(dir).meta is None {
                lemma_entries_in_start(disk_buf@);
            }
        }
        let entries = parse_entries(disk_buf.as_slice(), PRIMARY_START_OFFSET as usize)?;
        let ghost es = view_entries(entries@);
        let ghost m0 = meta@;
        let ghost consistent = old(dir).meta is None || dir_consistent(old(dir), self@);
        proof {
            crate::entry::lemma_entries_in_offsets(disk_buf@, PRIMARY_START_OFFSET as int);
            lemma_first_pos_bounds(es, PRIMARY_START_OFFSET as int);
            assert(forall|k: int| 0 <= k < es.len() ==> (#[trigger] es[k]).0 < primary_len);
            assert(disk_buf@ =~= dir.primary@.subrange(0, primary_len as int));
            assert(dir_entries(&dir0) == Some(es));
            if old(dir).meta is None {
                assert(es.len() == 0);
            }
        }

        let mut indexes: Vec<IndexState> = Vec::new();
        let mut progresses: Vec<u64> = Vec::new();
        let ghost mut starts: Seq<int> = Seq::empty();
        let ghost mut bases: Seq<Seq<(Seq<u8>, int)>> = Seq::empty();
        let mut i: usize = 0;
        while i < self.index_def_count()
            invariant
                i <= self@.index_defs.len(),
                *dir == dir0,
                meta@ == m0,
                old(dir).meta is None ==> m0.items.len() == 0 && self@.create,
                old(dir).meta is Some ==> dir0 == *old(dir),
                dir_meta(&dir0) == Some(m0),
                dir_entries(&dir0) == Some(es),
                old(dir).meta is None ==> es.len() == 0,
                forall|k: int| 0 <= k < es.len() ==> (#[trigger] es[k]).0 < primary_len,
                m0.primary_len == primary_len,
                primary_len >= PRIMARY_START_OFFSET,
                es == view_entries(entries@),
                indexes@.len() == i,
                progresses@.len() == i,
                starts.len() == i,
                bases.len() == i,
                forall|j: int|
                    0 <= j < i ==> {
                        &&& #[trigger] progresses@[j] <= primary_len
                        &&& progresses@[j] == index_progress(m0, index_meta_key(self@.index_defs[j].1))
                    },
                forall|j: int| 0 <= j < i ==> !index_damaged(&dir0, m0, #[trigger] self@.index_defs[j]),
                consistent == (old(dir).meta is None || dir_consistent(old(dir), self@)),
                forall|j: int|
                    0 <= j < i ==> consistent ==> #[trigger] bases[j] == index_entries(
                        self@.index_defs[j].0,
                        Seq::empty(),
                        es.subrange(0, starts[j]),
                    ),
                forall|j: int|
                    0 <= j < i ==> {
                        &&& 0 <= #[trigger] starts[j] <= es.len()
                        &&& indexes@[j]@ == index_entries(
                            self@.index_defs[j].0,
                            bases[j],
                            es.subrange(starts[j], es.len() as int),
                        )
                    },
            decreases self@.index_defs.len() - i,
        {
            let def = self.index_def(i);
            match Self::load_index(def, &meta, dir, &entries) {
                Ok((st, k, p, base)) => {
                    indexes.push(st);
                    progresses.push(p);
                    proof {
                        assert(self@.index_defs[i as int].1 == def.spec_name());
                        assert(self@.index_defs[i as int].0 == def.spec_func());
                        if consistent {
                            if old(dir).meta is Some {
                                assert(index_consistent(old(dir), m0, es, self@.index_defs[i as int]));
                            }
                            if find_item(m0.items, META_KIND_INDEX, index_meta_key(def.spec_name())) is None {
                                assert(es.subrange(0, k as int) =~= Seq::<(int, Seq<u8>)>::empty());
                            }
                        }
                        starts = starts.push(k as int);
                        bases = bases.push(base@);
                    }
                },
                Err(e) => {
                    proof {
                        assert(self@.index_defs[i as int].0 == def.spec_func());
                        if e is RangeOutOfBounds {
                            assert(old(dir).meta is Some);
                            assert(dir_entries(old(dir)) == Some(es));
                            assert(entries_rejected(es, self@));
                        }
                        if e is Corruption {
                            assert(self@.index_defs[i as int].1 == def.spec_name());
                            if old(dir).meta is None {
                                assert(find_item(m0.items, META_KIND_INDEX, index_meta_key(def.spec_name())) is None);
                            }
                            assert(indexes_damaged(old(dir), m0, self@));
                        }
                    }
                    return Err(e);
                },
            }
            i = i + 1;
        }

        let mut folds: Vec<u64> = Vec::new();
        let mut fold_progresses: Vec<u64> = Vec::new();
        let ghost mut fstarts: Seq<int> = Seq::empty();
        let ghost mut fbases: Seq<u64> = Seq::empty();
        let mut f: usize = 0;
        while f < self.fold_def_count()
            invariant
                f <= self@.fold_defs.len(),
                *dir == dir0,
                meta@ == m0,
                old(dir).meta is None ==> m0.items.len() == 0 && self@.create,
                old(dir).meta is Some ==> dir0 == *old(dir),
                dir_meta(&dir0) == Some(m0),
                dir_entries(&dir0) == Some(es),
                old(dir).meta is None ==> es.len() == 0,
                forall|k: int| 0 <= k < es.len() ==> (#[trigger] es[k]).0 < primary_len,
                m0.primary_len == primary_len,
                primary_len >= PRIMARY_START_OFFSET,
                es == view_entries(entries@),
                folds@.len() == f,
                fold_progresses@.len() == f,
                fstarts.len() == f,
                fbases.len() == f,
                consistent == (old(dir).meta is None || dir_consistent(old(dir), self@)),
                forall|j: int|
                    0 <= j < f ==> consistent ==> #[trigger] fbases[j] == fold_entries(
                        self@.fold_defs[j].1,
                        self@.fold_defs[j].1.spec_initial(),
                        es.subrange(0, fstarts[j]),
                    ),
                forall|j: int| 0 <= j < f ==> #[trigger] fold_progresses@[j] <= primary_len,
                forall|j: int| 0 <= j < f ==> !fold_damaged(m0, #[trigger] self@.fold_defs[j]),
                forall|j: int| 0 <= j < self@.index_defs.len() ==> !index_damaged(&dir0, m0, #[trigger] self@.index_defs[j]),
                forall|j: int|
                    0 <= j < f ==> {
                        &&& 0 <= #[trigger] fstarts[j] <= es.len()
                        &&& folds@[j] == fold_entries(
                            self@.fold_defs[j].1,
                            fbases[j],
                            es.subrange(fstarts[j], es.len() as int),
                        )
                    },
            decreases self@.fold_defs.len() - f,
        {
            let def = self.get_fold_def(f);
            match Self::load_fold(def, &meta, &entries) {
                Ok((v, k, p, base)) => {
                    folds.push(v);
                    fold_progresses.push(p);
                    proof {
                        assert(self@.fold_defs[f as int].0 == def.spec_name());
                        assert(self@.fold_defs[f as int].1 == def.spec_func());
                        if consistent {
                            if old(dir).meta is Some {
                                assert(fold_consistent(m0, es, self@.fold_defs[f as int]));
                            }
                            if find_item(m0.items, META_KIND_FOLD, fold_meta_key(def.spec_name())) is None {
                                assert(es.subrange(0, k as int) =~= Seq::<(int, Seq<u8>)>::empty());
                            }
                        }
                        fstarts = fstarts.push(k as int);
                        fbases = fbases.push(base);
                    }
                },
                Err(e) => {
                    proof {
                        assert(self@.fold_defs[f as int].0 == def.spec_name());
                        if old(dir).meta is None {
                            assert(find_item(m0.items, META_KIND_FOLD, fold_meta_key(def.spec_name())) is None);
                        }
                        assert(indexes_damaged(old(dir), m0, self@));
                    }
                    return Err(e);
                },
            }
            f = f + 1;
        }

        let ghost complete = consistent;
        proof {
            if complete {
                assert forall|j: int| 0 <= j < self@.index_defs.len() implies (#[trigger] indexes@[j])@
                    == index_entries(self@.index_defs[j].0, Seq::empty(), es) by {
                    lemma_index_entries_concat(
                        self@.index_defs[j].0,
                        Seq::empty(),
                        es.subrange(0, starts[j]),
                        es.subrange(starts[j], es.len() as int),
                    );
                    assert(es.subrange(0, starts[j]) + es.subrange(starts[j], es.len() as int) =~= es);
                }
                assert forall|j: int| 0 <= j < self@.fold_defs.len() implies #[trigger] folds@[j]
                    == fold_entries(self@.fold_defs[j].1, self@.fold_defs[j].1.spec_initial(), es) by {
                    lemma_fold_entries_concat(
                        self@.fold_defs[j].1,
                        self@.fold_defs[j].1.spec_initial(),
                        es.subrange(0, fstarts[j]),
                        es.subrange(fstarts[j], es.len() as int),
                    );
                    assert(es.subrange(0, fstarts[j]) + es.subrange(fstarts[j], es.len() as int) =~= es);
                }
                if old(dir).meta is Some {
                    assert(dir_consistent(old(dir), self@));
                }
            }
        }
        self.write_back(dir, &mut meta, &indexes, &progresses, &folds, &fold_progresses, Ghost(es), Ghost(complete));
        let log = Log {
            on_disk: true,
            disk_buf,
            mem_buf: Vec::new(),
            meta,
            indexes,
            folds,
            open_options: self.duplicate(),
            index_start: Ghost(starts),
            index_base: Ghost(bases),
            fold_start: Ghost(fstarts),
            fold_base: Ghost(fbases),
        };
        proof {
            assert(entries_in(log.mem_buf@, 0) == Some(Seq::<(int, Seq<u8>)>::empty()));
            assert(log.mem_entries() =~= Seq::<(int, Seq<u8>)>::empty());
            assert(log.all_entries() =~= es);
            assert(disk_buf@ =~= dir.primary@.subrange(0, primary_len as int));
        }
        Ok(log)
    }

    /// Opens the log held in `dir`; see `open_internal`.
    pub fn open(&self, dir: &mut LogDir) -> (r: Result<Log, Error>)
        ensures
            old(dir).meta is None && !self@.create ==> r is Err,
            match r {
                Ok(log) => {
                    &&& log.wf()
                    &&& log.is_on_disk()
                    &&& log.options() == self@
                    &&& log.committed_len() == log.total_len()
                    &&& dir_entries(final(dir)) == Some(log.all_entries())
                    &&& lag_within(dir_meta(final(dir)).unwrap(), self@)
                    &&& !indexes_damaged(final(dir), dir_meta(final(dir)).unwrap(), self@)
                    &&& old(dir).meta is Some ==> {
                        &&& final(dir).primary == old(dir).primary
                        &&& dir_entries(old(dir)) == dir_entries(final(dir))
                    }
                    &&& old(dir).meta is None ==> log.entries().len() == 0
                        && log.committed_len() == PRIMARY_START_OFFSET
                    &&& log.index_count() == self@.index_defs.len()
                    &&& log.fold_count() == self@.fold_defs.len()
                    &&& old(dir).meta is Some && lag_within(dir_meta(old(dir)).unwrap(), self@)
                        ==> *final(dir) == *old(dir)
                    &&& (old(dir).meta is None || dir_consistent(old(dir), self@)) ==> log.sound()
                    &&& (old(dir).meta is None || dir_consistent(old(dir), self@)) && names_agree(self@)
                        ==> dir_consistent(final(dir), self@)
                },
                Err(e) => {
                    &&& e is NotFound <==> (old(dir).meta is None && !self@.create)
                    &&& e is Corruption ==> old(dir).meta is Some && (dir_entries(old(dir)) is None
                        || indexes_damaged(old(dir), dir_meta(old(dir)).unwrap(), self@))
                    &&& (old(dir).meta is Some && dir_entries(old(dir)) is None) ==> e is Corruption
                    &&& e is RangeOutOfBounds ==> dir_entries(old(dir)) is Some && entries_rejected(
                        dir_entries(old(dir)).unwrap(),
                        self@,
                    )
                    &&& *final(dir) == *old(dir)
                    &&& (e is NotFound || e is Corruption || e is RangeOutOfBounds)
                },
            },
    {
        self.open_internal(dir)
    }
}

/// Filtering a prefix of `xs` never gives more bytes to write than
/// filtering all of it.
pub proof fn lemma_filtered_size_prefix(
    filter: Option<crate::open_options::FlushFilterView>,
    checksum_type: crate::checksum::ChecksumType,
    xs: Seq<Seq<u8>>,
    k: int,
)
    requires
        0 <= k <= xs.len(),
    ensures
        entries_size(checksum_type, filtered(filter, xs.subrange(0, k))) <= entries_size(
            checksum_type,
            filtered(filter, xs),
        ),
    decreases xs.len(),
{
    if k == xs.len() {
        assert(xs.subrange(0, k) =~= xs);
    } else {
        lemma_filtered_size_prefix(filter, checksum_type, xs.drop_last(), k);
        assert(xs.drop_last().subrange(0, k) =~= xs.subrange(0, k));
        let f = filtered(filter, xs);
        let g = filtered(filter, xs.drop_last());
        if f.len() > 0 && f.drop_last() == g {
        }
        assert(f == g || (f.len() > 0 && f.drop_last() =~= g)) by {
            if f != g {
                assert(f.drop_last() =~= g);
            }
        }
    }
}

impl Log {
    /// Appends the buffered entries, as the flush filter decides, to the
    /// primary log `primary`.
    #[verifier::rlimit(50)]
    fn flush_buffer(&self, primary: &mut Vec<u8>, primary_len: u64) -> (r: Result<(), Error>)
        requires
            self.wf(),
            PRIMARY_START_OFFSET <= old(primary)@.len(),
            old(primary)@.subrange(0, PRIMARY_START_OFFSET as int) == primary_header(),
            entries_in(old(primary)@, PRIMARY_START_OFFSET as int) is Some,
        ensures
            r is Ok ==> {
                &&& old(primary)@.len() <= final(primary)@.len()
                &&& entries_in(final(primary)@, PRIMARY_START_OFFSET as int).unwrap().len()
                    >= entries_in(old(primary)@, PRIMARY_START_OFFSET as int).unwrap().len()
                &&& entries_in(final(primary)@, PRIMARY_START_OFFSET as int).unwrap().subrange(
                    0,
                    entries_in(old(primary)@, PRIMARY_START_OFFSET as int).unwrap().len() as int,
                ) == entries_in(old(primary)@, PRIMARY_START_OFFSET as int).unwrap()
                &&& forall|k: int|
                    entries_in(old(primary)@, PRIMARY_START_OFFSET as int).unwrap().len() <= k
                        < entries_in(final(primary)@, PRIMARY_START_OFFSET as int).unwrap().len()
                        ==> (#[trigger] entries_in(final(primary)@, PRIMARY_START_OFFSET as int).unwrap()[k]).0
                        >= old(primary)@.len()
                &&& PRIMARY_START_OFFSET <= final(primary)@.len()
                &&& final(primary)@.subrange(0, PRIMARY_START_OFFSET as int) == primary_header()
                &&& entries_in(final(primary)@, PRIMARY_START_OFFSET as int) is Some
                &&& payloads(entries_in(final(primary)@, PRIMARY_START_OFFSET as int).unwrap())
                    == payloads(entries_in(old(primary)@, PRIMARY_START_OFFSET as int).unwrap())
                    + filtered(self.options().flush_filter, payloads(self.mem_entries()))
            },
            r matches Err(e) ==> e is TooLarge && old(primary)@.len() + entries_size(
                self.options().checksum_type,
                filtered(self.options().flush_filter, payloads(self.mem_entries())),
            ) > u64::MAX,
    {
        let ghost old_entries = entries_in(primary@, PRIMARY_START_OFFSET as int).unwrap();
        let mem = match parse_entries(self.mem_buf.as_slice(), 0) {
            Ok(v) => v,
            Err(_) => {
                assert(false);
                Vec::new()
            },
        };
        let ghost mv = view_entries(mem@);
        let ghost mem_payloads = payloads(mv);
        let ghost filter = self.options().flush_filter;
        proof {
            assert(old_entries.subrange(0, old_entries.len() as int) =~= old_entries);
            assert(payloads(self.mem_entries()) =~= mem_payloads);
            assert(old_entries + Seq::<(int, Seq<u8>)>::empty() =~= old_entries);
        }
        let checksum_type = self.open_options.get_checksum_type();
        let ctx = FlushFilterContext { primary_len };
        let mut j: usize = 0;
        assert(mem_payloads.subrange(0, 0) =~= Seq::<Seq<u8>>::empty());
        assert(payloads(old_entries) + Seq::<Seq<u8>>::empty() =~= payloads(old_entries));
        while j < mem.len()
            invariant
                self.wf(),
                j <= mem@.len(),
                mv == view_entries(mem@),
                mem_payloads == payloads(mv),
                filter == self.options().flush_filter,
                checksum_type == self.options().checksum_type,
                mem_payloads == payloads(self.mem_entries()),
                primary@.len() == old(primary)@.len() + entries_size(
                    checksum_type,
                    filtered(filter, mem_payloads.subrange(0, j as int)),
                ),
                old(primary)@.len() <= primary@.len(),
                PRIMARY_START_OFFSET <= primary@.len(),
                entries_in(primary@, PRIMARY_START_OFFSET as int).unwrap().len() >= old_entries.len(),
                entries_in(primary@, PRIMARY_START_OFFSET as int).unwrap().subrange(0, old_entries.len() as int)
                    == old_entries,
                forall|k: int|
                    old_entries.len() <= k < entries_in(primary@, PRIMARY_START_OFFSET as int).unwrap().len()
                        ==> (#[trigger] entries_in(primary@, PRIMARY_START_OFFSET as int).unwrap()[k]).0
                        >= old(primary)@.len(),
                primary@.subrange(0, PRIMARY_START_OFFSET as int) == primary_header(),
                entries_in(primary@, PRIMARY_START_OFFSET as int) is Some,
                payloads(entries_in(primary@, PRIMARY_START_OFFSET as int).unwrap()) == payloads(
                    old_entries,
                ) + filtered(filter, mem_payloads.subrange(0, j as int)),
            decreases mem@.len() - j,
        {
            let data = mem[j].1.as_slice();
            let ghost before = primary@;
            let ghost before_es = entries_in(primary@, PRIMARY_START_OFFSET as int).unwrap();
            proof {
                assert(mem_payloads.subrange(0, j + 1).drop_last() =~= mem_payloads.subrange(0, j as int));
                assert(mem_payloads.subrange(0, j + 1).last() == data@);
            }
            let out = match self.open_options.get_flush_filter() {
                Some(f) => f.apply(&ctx, data),
                None => FlushFilterOutput::Keep,
            };
            let ghost written: Option<Seq<u8>> = match out@ {
                crate::open_options::FlushFilterOutputView::Keep => Some(data@),
                crate::open_options::FlushFilterOutputView::Drop => None,
                crate::open_options::FlushFilterOutputView::Replace(b) => Some(b),
            };
            proof {
                assert(filtered(filter, mem_payloads.subrange(0, j + 1)) == match written {
                    Some(w) => filtered(filter, mem_payloads.subrange(0, j as int)).push(w),
                    None => filtered(filter, mem_payloads.subrange(0, j as int)),
                });
            }
            let to_write: Option<&[u8]> = match &out {
                FlushFilterOutput::Keep => Some(data),
                FlushFilterOutput::Drop => None,
                FlushFilterOutput::Replace(b) => Some(b.as_slice()),
            };
            match to_write {
                Some(w) => {
                    let plen = primary.len() as u64;
                    let sum_len: u64 = if checksum_type.entry_flag(w.len()) == ENTRY_FLAG_XXHASH64 {
                        8
                    } else {
                        4
                    };
                    if plen > u64::MAX - 9 - sum_len || w.len() as u64 > u64::MAX - 9 - sum_len - plen {
                        proof {
                            let w_spec = written.unwrap();
                            assert(w@ == w_spec);
                            lemma_filtered_size_prefix(filter, checksum_type, mem_payloads, j + 1);
                            assert(entries_size(checksum_type, filtered(filter, mem_payloads.subrange(0, j + 1)))
                                == entries_size(checksum_type, filtered(filter, mem_payloads.subrange(0, j as int)))
                                + entry_size(checksum_type, w@.len())) by {
                                assert(filtered(filter, mem_payloads.subrange(0, j + 1)).drop_last()
                                    =~= filtered(filter, mem_payloads.subrange(0, j as int)));
                            }
                            assert(sum_len == checksum_len(spec_entry_flag(checksum_type, w@.len())));
                            assert(plen + entry_size(checksum_type, w@.len()) > u64::MAX);
                        }
                        return Err(Error::TooLarge);
                    }
                    let flag = encode_entry_into(primary, checksum_type, w);
                    proof {
                        crate::entry::lemma_encode_entry_len(flag, w@);
                        assert(filtered(filter, mem_payloads.subrange(0, j + 1)).drop_last()
                            =~= filtered(filter, mem_payloads.subrange(0, j as int)));
                        lemma_entries_in_append(before, flag, w@, PRIMARY_START_OFFSET as int);
                        assert(payloads(before_es.push((before.len() as int, w@))) =~= payloads(before_es).push(w@));
                        assert(before_es.push((before.len() as int, w@)).subrange(0, old_entries.len() as int)
                            =~= before_es.subrange(0, old_entries.len() as int));
                        assert(primary@.subrange(0, PRIMARY_START_OFFSET as int) =~= before.subrange(0, PRIMARY_START_OFFSET as int));
                    }
                },
                None => {
                    assert(filtered(filter, mem_payloads.subrange(0, j + 1))
                        == filtered(filter, mem_payloads.subrange(0, j as int)));
                },
            }
            j = j + 1;
        }
        proof {
            assert(mem_payloads.subrange(0, mem_payloads.len() as int) =~= mem_payloads);
        }
        Ok(())
    }
}

impl Log {
    /// Writes the buffered entries, as the flush filter decides, after the
    /// committed part of `dir`'s primary log, then the metadata with the new
    /// committed length.
    #[verifier::rlimit(50)]
    fn write_buffer(&self, dir: &mut LogDir) -> (r: Result<(), Error>)
        requires
            self.wf(),
        ensures
            r is Ok ==> {
                &&& dir_entries(old(dir)) is Some
                &&& final(dir).meta is Some
                &&& dir_entries(final(dir)) is Some
                &&& payloads(dir_entries(final(dir)).unwrap()) == payloads(
                    dir_entries(old(dir)).unwrap(),
                ) + filtered(self.options().flush_filter, payloads(self.mem_entries()))
                &&& dir_meta(final(dir)).unwrap().primary_len >= dir_meta(old(dir)).unwrap().primary_len
                &&& dir_consistent(old(dir), self.options()) ==> dir_consistent(final(dir), self.options())
                &&& dir_meta(final(dir)).unwrap().items == dir_meta(old(dir)).unwrap().items
                &&& final(dir).index_files == old(dir).index_files
            },
            r matches Err(e) ==> {
                &&& *final(dir) == *old(dir)
                &&& e is NotFound <==> old(dir).meta is None
                &&& e is Corruption ==> dir_entries(old(dir)) is None
                &&& e is TooLarge ==> dir_meta(old(dir)) is Some && dir_meta(old(dir)).unwrap().primary_len
                    + entries_size(
                    self.options().checksum_type,
                    filtered(self.options().flush_filter, payloads(self.mem_entries())),
                ) > u64::MAX
                &&& (e is NotFound || e is Corruption || e is TooLarge)
            },
    {
        let meta = match &dir.meta {
            Some(bytes) => LogMetadata::decode(bytes.as_slice())?,
            None => {
                return Err(Error::NotFound);
            },
        };
        proof {
            assert(primary_header().len() == PRIMARY_START_OFFSET);
        }
        if meta.primary_len < PRIMARY_START_OFFSET || meta.primary_len > dir.primary.len() as u64 {
            return Err(Error::Corruption);
        }
        let header = primary_header_bytes();
        let head = copy_range(dir.primary.as_slice(), 0, PRIMARY_START_OFFSET as usize);
        if !bytes_eq(head.as_slice(), header.as_slice()) {
            return Err(Error::Corruption);
        }
        let mut primary = copy_range(dir.primary.as_slice(), 0, meta.primary_len as usize);
        let committed = parse_entries(primary.as_slice(), PRIMARY_START_OFFSET as usize)?;
        let ghost before_flush = primary@;
        proof {
            assert(primary@.subrange(0, PRIMARY_START_OFFSET as int) =~= primary_header());
            assert(dir_entries(old(dir)) == entries_in(before_flush, PRIMARY_START_OFFSET as int));
        }
        self.flush_buffer(&mut primary, meta.primary_len)?;
        let plen = primary.len() as u64;
        let epoch = wrapping_add_u64(meta.epoch, 1);
        let new_meta = LogMetadata { primary_len: plen, epoch, items: meta.items };
        let bytes = new_meta.encode();
        proof {
            crate::records::lemma_meta_round_trip(new_meta@);
            assert(before_flush.len() == meta.primary_len);
        }
        let ghost old_dir = *dir;
        dir.primary = primary;
        dir.meta = Some(bytes);
        proof {
            assert(dir.primary@.subrange(0, plen as int) =~= dir.primary@);
            if dir_consistent(&old_dir, self.options()) {
                assert(dir_entries(dir) == entries_in(dir.primary@, PRIMARY_START_OFFSET as int));
                assert(dir_entries(&old_dir) == entries_in(before_flush, PRIMARY_START_OFFSET as int));
                lemma_consistent_after_append(&old_dir, dir, self.options());
            }
        }
        Ok(())
    }

    /// Commits the entries buffered in memory to `dir`, which must hold the
    /// current content of the log's directory (read under the exclusive
    /// lock). Entries that other writers committed meanwhile come first; the
    /// flush filter then decides, entry by entry, what of this instance's
    /// buffer is written. The primary log is written before the metadata,
    /// and bytes past the committed length (left by a crash) are dropped.
    /// The log is then reloaded from `dir`. An in-memory log cannot sync.
    #[verifier::rlimit(50)]
    pub fn sync(&mut self, dir: &mut LogDir) -> (r: Result<(), Error>)
        requires
            old(self).wf(),
        ensures
            final(self).wf(),
            !old(self).is_on_disk() ==> (r matches Err(e) && e is InMemorySync),
            r is Err ==> *final(self) == *old(self),
            r is Ok ==> {
                &&& old(self).is_on_disk()
                &&& dir_entries(old(dir)) is Some
                &&& payloads(dir_entries(final(dir)).unwrap()) == payloads(
                    dir_entries(old(dir)).unwrap(),
                ) + filtered(old(self).options().flush_filter, payloads(old(self).mem_entries()))
                &&& dir_entries(final(dir)) == Some(final(self).all_entries())
                &&& final(self).committed_len() == final(self).total_len()
                &&& final(self).options() == old(self).options()
                &&& final(self).index_count() == old(self).options().index_defs.len()
                &&& final(self).fold_count() == old(self).options().fold_defs.len()
                &&& final(self).is_on_disk()
                &&& dir_meta(final(dir)).unwrap().primary_len >= dir_meta(old(dir)).unwrap().primary_len
                &&& lag_within(dir_meta(final(dir)).unwrap(), final(self).options())
                &&& dir_consistent(old(dir), old(self).options()) ==> final(self).sound()
                &&& dir_consistent(old(dir), old(self).options()) && names_agree(old(self).options())
                    ==> dir_consistent(final(dir), old(self).options())
            },
            r matches Err(e) ==> {
                &&& *final(dir) == *old(dir)
                &&& e is InMemorySync <==> !old(self).is_on_disk()
                &&& e is NotFound ==> old(dir).meta is None
                &&& e is Corruption ==> dir_entries(old(dir)) is None || indexes_damaged(
                    old(dir),
                    dir_meta(old(dir)).unwrap(),
                    old(self).options(),
                )
                &&& e is RangeOutOfBounds ==> payloads_rejected(
                    payloads(dir_entries(old(dir)).unwrap()) + filtered(
                        old(self).options().flush_filter,
                        payloads(old(self).mem_entries()),
                    ),
                    old(self).options(),
                )
                &&& e is TooLarge ==> dir_meta(old(dir)).unwrap().primary_len + entries_size(
                    old(self).options().checksum_type,
                    filtered(old(self).options().flush_filter, payloads(old(self).mem_entries())),
                ) > u64::MAX
                &&& (e is InMemorySync || e is NotFound || e is Corruption || e is TooLarge
                    || e is RangeOutOfBounds)
            },
    {
        if !self.on_disk {
            return Err(Error::InMemorySync);
        }
        let mut scratch = dir.duplicate();
        let ghost start = scratch;
        proof {
            assert(dir_meta(&start) == dir_meta(old(dir)));
            assert(dir_entries(&start) == dir_entries(old(dir)));
            assert(forall|n: Seq<char>| #[trigger] file_in(files_view(start.index_files@), n) == file_in(files_view(old(dir).index_files@), n));
            assert(dir_consistent(&start, self.options()) == dir_consistent(old(dir), self.options()));
            assert(indexes_damaged(&start, dir_meta(&start).unwrap(), self.options()) == indexes_damaged(old(dir), dir_meta(old(dir)).unwrap(), self.options()));
        }
        self.write_buffer(&mut scratch)?;
        let ghost mid = scratch;
        match self.open_options.open_internal(&mut scratch) {
            Ok(log) => {
                *self = log;
                *dir = scratch;
                Ok(())
            },
            Err(e) => {
                proof {
                    if e is Corruption {
                        lemma_damage_before_append(&start, &mid, self.options());
                    }
                    if e is RangeOutOfBounds {
                        lemma_entries_rejected_payloads(dir_entries(&mid).unwrap(), self.options());
                    }
                }
                Err(e)
            },
        }
    }
}

impl Log {
    /// The generation of the metadata the log was loaded from.
    pub closed spec fn epoch(&self) -> u64 {
        self.meta.epoch
    }

    /// The committed length of the primary log.
    pub fn primary_len(&self) -> (r: u64)
        requires
            self.wf(),
        ensures
            r == self.committed_len(),
    {
        self.meta.primary_len
    }

    /// The offset the next appended entry gets.
    pub fn next_offset(&self) -> (r: u64)
        requires
            self.wf(),
        ensures
            r == self.total_len(),
    {
        self.disk_buf.len() as u64 + self.mem_buf.len() as u64
    }

    /// Whether `dir` no longer holds what this log was loaded from: another
    /// writer committed since, or the metadata is gone or damaged. Compares
    /// the committed length and the generation only.
    pub fn changed_on_disk(&self, dir: &LogDir) -> (r: bool)
        requires
            self.wf(),
        ensures
            r == match dir_meta(dir) {
                Some(m) => m.primary_len != self.committed_len() || m.epoch != self.epoch(),
                None => true,
            },
    {
        match &dir.meta {
            None => true,
            Some(bytes) => match LogMetadata::decode(bytes.as_slice()) {
                Ok(m) => m.primary_len != self.meta.primary_len || m.epoch != self.meta.epoch,
                Err(_) => true,
            },
        }
    }

    /// The options the log was opened with.
    pub fn open_options(&self) -> (r: &OpenOptions)
        ensures
            r@ == self.options(),
    {
        &self.open_options
    }
}

} // verus!
