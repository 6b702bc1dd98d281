//! Index, fold and flush-filter definitions, and the builder that opens a log.
use vstd::prelude::*;
use vstd::string::StringExecFns;

use std::ops::Range;

use crate::bytes::{bytes_eq, copy_range};
use crate::checksum::ChecksumType;
use crate::error::{Error, SHORT_DATA_LEN};
use crate::fold::{FoldDef, FoldFunc};

verus! {

/// Default lag threshold: about 500 entries of a typical 20-byte key index.
pub const DEFAULT_LAG_THRESHOLD: u64 = 12500;

/// Output of an index function. Bytes that can be used for lookups.
#[derive(Debug)]
pub enum IndexOutput {
    /// The index key is a slice, relative to the data entry (the input of the
    /// index function).
    Reference(Range<u64>),
    /// The index key is a separate sequence of bytes unrelated to the input
    /// bytes.
    Owned(Vec<u8>),
    /// Remove all values associated with the key in the index. The entry is
    /// not removed from the log.
    Remove(Vec<u8>),
    /// Remove all values associated with all keys with the given prefix in the
    /// index. The entry is not removed from the log.
    RemovePrefix(Vec<u8>),
}

/// The model of an `IndexOutput`.
pub enum IndexOutputView {
    Reference(int, int),
    Owned(Seq<u8>),
    Remove(Seq<u8>),
    RemovePrefix(Seq<u8>),
}

impl View for IndexOutput {
    type V = IndexOutputView;

    open spec fn view(&self) -> IndexOutputView {
        match self {
            IndexOutput::Reference(r) => IndexOutputView::Reference(r.start as int, r.end as int),
            IndexOutput::Owned(k) => IndexOutputView::Owned(k@),
            IndexOutput::Remove(k) => IndexOutputView::Remove(k@),
            IndexOutput::RemovePrefix(k) => IndexOutputView::RemovePrefix(k@),
        }
    }
}

/// The key an output names for `data`: `None` for a reference outside the
/// data, and for the two removal instructions.
pub open spec fn output_key(o: IndexOutputView, data: Seq<u8>) -> Option<Seq<u8>> {
    match o {
        IndexOutputView::Reference(start, end) => if 0 <= start <= end <= data.len() {
            Some(data.subrange(start, end))
        } else {
            None
        },
        IndexOutputView::Owned(k) => Some(k),
        _ => None,
    }
}

/// Whether `o` is usable on `data`: a reference must lie within the data.
pub open spec fn output_valid(o: IndexOutputView, data: Seq<u8>) -> bool {
    match o {
        IndexOutputView::Reference(start, end) => 0 <= start <= end <= data.len(),
        _ => true,
    }
}

impl IndexOutput {
    /// The key bytes this output names for `data`.
    pub fn into_cow(self, data: &[u8]) -> (r: Result<Vec<u8>, Error>)
        ensures
            match r {
                Ok(k) => output_key(self@, data@) == Some(k@),
                Err(e) => {
                    &&& output_key(self@, data@) is None
                    &&& match self@ {
                        IndexOutputView::Reference(start, end) => e == Error::RangeOutOfBounds {
                            start: start as u64,
                            end: end as u64,
                            data_len: data@.len() as u64,
                            data: e->data,
                        } && (e->data is Some <==> data@.len() < SHORT_DATA_LEN) && (
                        e->data is Some ==> e->data->0@ == data@),
                        _ => e is RemovalUsedAsKey,
                    }
                },
            },
    {
        match self {
            IndexOutput::Reference(range) => {
                if range.start <= range.end && range.end <= data.len() as u64 {
                    Ok(copy_range(data, range.start as usize, range.end as usize))
                } else {
                    let echoed = if data.len() < SHORT_DATA_LEN {
                        Some(copy_range(data, 0, data.len()))
                    } else {
                        None
                    };
                    proof {
                        if echoed is Some {
                            assert(data@.subrange(0, data@.len() as int) =~= data@);
                        }
                    }
                    Err(
                        Error::RangeOutOfBounds {
                            start: range.start,
                            end: range.end,
                            data_len: data.len() as u64,
                            data: echoed,
                        },
                    )
                }
            },
            IndexOutput::Owned(key) => Ok(key),
            IndexOutput::Remove(_) | IndexOutput::RemovePrefix(_) => Err(Error::RemovalUsedAsKey),
        }
    }
}

/// The models of a list of index outputs.
pub open spec fn outputs_view(v: Seq<IndexOutput>) -> Seq<IndexOutputView> {
    v.map_values(|o: IndexOutput| o@)
}

/// An entry starting with this byte retracts the key that follows it
/// (`IndexFunc::Tagged`).
pub const TAG_REMOVE: u8 = 45;

/// An entry starting with this byte retracts every key with the prefix that
/// follows it (`IndexFunc::Tagged`).
pub const TAG_REMOVE_PREFIX: u8 = 42;

/// A pure function that extracts index keys from an entry.
#[derive(Clone, Copy, Debug, PartialEq, Eq, Structural)]
pub enum IndexFunc {
    /// The key is the first `n` bytes of the entry, as a reference. An entry
    /// shorter than `n` bytes is a programming error.
    Prefix(u64),
    /// The key is the whole entry, as a reference.
    Whole,
    /// An entry `-k` removes key `k`; an entry `*p` removes every key with
    /// prefix `p`; any other non-empty entry is its own (owned) key; an empty
    /// entry has no key.
    Tagged,
}

impl IndexFunc {
    /// The outputs this function gives for `data`.
    pub open spec fn spec_outputs(self, data: Seq<u8>) -> Seq<IndexOutputView> {
        match self {
            IndexFunc::Prefix(n) => seq![IndexOutputView::Reference(0, n as int)],
            IndexFunc::Whole => seq![IndexOutputView::Reference(0, data.len() as int)],
            IndexFunc::Tagged => if data.len() == 0 {
                Seq::empty()
            } else if data[0] == TAG_REMOVE {
                seq![IndexOutputView::Remove(data.subrange(1, data.len() as int))]
            } else if data[0] == TAG_REMOVE_PREFIX {
                seq![IndexOutputView::RemovePrefix(data.subrange(1, data.len() as int))]
            } else {
                seq![IndexOutputView::Owned(data)]
            },
        }
    }

    /// The outputs this function gives for `data`.
    pub fn outputs(&self, data: &[u8]) -> (r: Vec<IndexOutput>)
        ensures
            outputs_view(r@) == self.spec_outputs(data@),
    {
        let mut r: Vec<IndexOutput> = Vec::new();
        match self {
            IndexFunc::Prefix(n) => {
                r.push(IndexOutput::Reference(Range { start: 0, end: *n }));
            },
            IndexFunc::Whole => {
                r.push(IndexOutput::Reference(Range { start: 0, end: data.len() as u64 }));
            },
            IndexFunc::Tagged => {
                if data.len() == 0 {
                } else if data[0] == TAG_REMOVE {
                    r.push(IndexOutput::Remove(copy_range(data, 1, data.len())));
                } else if data[0] == TAG_REMOVE_PREFIX {
                    r.push(IndexOutput::RemovePrefix(copy_range(data, 1, data.len())));
                } else {
                    let all = copy_range(data, 0, data.len());
                    assert(data@.subrange(0, data@.len() as int) =~= data@);
                    r.push(IndexOutput::Owned(all));
                }
            },
        }
        assert(outputs_view(r@) =~= self.spec_outputs(data@));
        r
    }
}

/// Definition of an index: its name, the function that extracts its keys, and
/// how many bytes of the log it may leave un-indexed on disk.
#[derive(Clone, Debug)]
pub struct IndexDef {
    /// Extracts index keys from an entry.
    pub(crate) func: IndexFunc,
    /// Name of the index, part of its file name and of its metadata key.
    /// Changing the function requires a different name.
    pub(crate) name: String,
    /// How many bytes (as counted in the primary log) may be left not indexed
    /// on disk; that tail is rebuilt in memory on open.
    pub(crate) lag_threshold: u64,
}

impl IndexDef {
    pub closed spec fn spec_func(&self) -> IndexFunc {
        self.func
    }

    pub closed spec fn spec_name(&self) -> Seq<char> {
        self.name@
    }

    pub closed spec fn spec_lag_threshold(&self) -> u64 {
        self.lag_threshold
    }

    /// Creates an index definition with the default lag threshold.
    pub fn new(name: &str, index_func: IndexFunc) -> (r: Self)
        ensures
            r.spec_name() == name@,
            r.spec_func() == index_func,
            r.spec_lag_threshold() == DEFAULT_LAG_THRESHOLD,
    {
        IndexDef { func: index_func, name: name.to_owned(), lag_threshold: DEFAULT_LAG_THRESHOLD }
    }

    /// Sets how many bytes of the log may be left not indexed on disk.
    pub fn lag_threshold(self, lag_threshold: u64) -> (r: Self)
        ensures
            r.spec_name() == self.spec_name(),
            r.spec_func() == self.spec_func(),
            r.spec_lag_threshold() == lag_threshold,
    {
        IndexDef { func: self.func, name: self.name, lag_threshold }
    }

    /// The name of the index.
    pub fn name(&self) -> (r: &str)
        ensures
            r@ == self.spec_name(),
    {
        self.name.as_str()
    }

    /// A copy of this definition.
    pub fn duplicate(&self) -> (r: Self)
        ensures
            r.spec_name() == self.spec_name(),
            r.spec_func() == self.spec_func(),
            r.spec_lag_threshold() == self.spec_lag_threshold(),
    {
        IndexDef { func: self.func, name: self.name.clone(), lag_threshold: self.lag_threshold }
    }

    /// The extraction function.
    pub fn func(&self) -> (r: IndexFunc)
        ensures
            r == self.spec_func(),
    {
        self.func
    }

    /// How many bytes of the log may be left not indexed on disk.
    pub fn get_lag_threshold(&self) -> (r: u64)
        ensures
            r == self.spec_lag_threshold(),
    {
        self.lag_threshold
    }

    /// Name used in log metadata.
    pub fn metaname(&self) -> (r: String)
        ensures
            r@ == "2-"@ + self.spec_name(),
    {
        let r = "2-".to_owned();
        r.concat(self.name.as_str())
    }

    /// Name used in the filesystem.
    pub fn filename(&self) -> (r: String)
        ensures
            r@ == "index2-"@ + self.spec_name(),
    {
        let r = "index2-".to_owned();
        r.concat(self.name.as_str())
    }
}

/// Potentially useful context for a flush filter.
pub struct FlushFilterContext {
    /// The committed length of the primary log the entry is about to join.
    pub primary_len: u64,
}

/// Output of a flush filter.
#[derive(Debug)]
pub enum FlushFilterOutput {
    /// Insert the entry as is.
    Keep,
    /// Remove this entry.
    Drop,
    /// Replace this entry with the specified new content.
    Replace(Vec<u8>),
}

/// The model of a `FlushFilterOutput`.
pub enum FlushFilterOutputView {
    Keep,
    Drop,
    Replace(Seq<u8>),
}

impl View for FlushFilterOutput {
    type V = FlushFilterOutputView;

    open spec fn view(&self) -> FlushFilterOutputView {
        match self {
            FlushFilterOutput::Keep => FlushFilterOutputView::Keep,
            FlushFilterOutput::Drop => FlushFilterOutputView::Drop,
            FlushFilterOutput::Replace(v) => FlushFilterOutputView::Replace(v@),
        }
    }
}

/// A per-entry decision taken at sync time, before the entry becomes
/// durable.
#[derive(Clone, Debug)]
pub enum FlushFilter {
    /// Drop every entry equal to these bytes.
    DropEqual(Vec<u8>),
    /// Replace every entry equal to the first bytes with the second.
    ReplaceEqual(Vec<u8>, Vec<u8>),
}

/// The model of a `FlushFilter`.
pub enum FlushFilterView {
    DropEqual(Seq<u8>),
    ReplaceEqual(Seq<u8>, Seq<u8>),
}

impl View for FlushFilter {
    type V = FlushFilterView;

    open spec fn view(&self) -> FlushFilterView {
        match self {
            FlushFilter::DropEqual(v) => FlushFilterView::DropEqual(v@),
            FlushFilter::ReplaceEqual(a, b) => FlushFilterView::ReplaceEqual(a@, b@),
        }
    }
}

/// What `filter` decides for `data`.
pub open spec fn spec_filter(filter: FlushFilterView, data: Seq<u8>) -> FlushFilterOutputView {
    match filter {
        FlushFilterView::DropEqual(v) => if data == v {
            FlushFilterOutputView::Drop
        } else {
            FlushFilterOutputView::Keep
        },
        FlushFilterView::ReplaceEqual(a, b) => if data == a {
            FlushFilterOutputView::Replace(b)
        } else {
            FlushFilterOutputView::Keep
        },
    }
}

/// The payloads that reach the disk when `datas` are flushed through
/// `filter`, in order.
pub open spec fn filtered(filter: Option<FlushFilterView>, datas: Seq<Seq<u8>>) -> Seq<Seq<u8>>
    decreases datas.len(),
{
    if datas.len() == 0 {
        datas
    } else {
        let rest = filtered(filter, datas.drop_last());
        match filter {
            None => rest.push(datas.last()),
            Some(f) => match spec_filter(f, datas.last()) {
                FlushFilterOutputView::Keep => rest.push(datas.last()),
                FlushFilterOutputView::Drop => rest,
                FlushFilterOutputView::Replace(b) => rest.push(b),
            },
        }
    }
}

impl FlushFilter {
    /// Decides what happens to `data` at sync time.
    pub fn apply(&self, ctx: &FlushFilterContext, data: &[u8]) -> (r: FlushFilterOutput)
        ensures
            r@ == spec_filter(self@, data@),
    {
        match self {
            FlushFilter::DropEqual(v) => if bytes_eq(data, v.as_slice()) {
                FlushFilterOutput::Drop
            } else {
                FlushFilterOutput::Keep
            },
            FlushFilter::ReplaceEqual(a, b) => if bytes_eq(data, a.as_slice()) {
                let c = copy_range(b.as_slice(), 0, b.len());
                assert(b@.subrange(0, b@.len() as int) =~= b@);
                FlushFilterOutput::Replace(c)
            } else {
                FlushFilterOutput::Keep
            },
        }
    }

    /// A copy of this filter.
    pub fn duplicate(&self) -> (r: Self)
        ensures
            r@ == self@,
    {
        match self {
            FlushFilter::DropEqual(v) => {
                let c = copy_range(v.as_slice(), 0, v.len());
                assert(v@.subrange(0, v@.len() as int) =~= v@);
                FlushFilter::DropEqual(c)
            },
            FlushFilter::ReplaceEqual(a, b) => {
                let c = copy_range(a.as_slice(), 0, a.len());
                let d = copy_range(b.as_slice(), 0, b.len());
                assert(a@.subrange(0, a@.len() as int) =~= a@);
                assert(b@.subrange(0, b@.len() as int) =~= b@);
                FlushFilter::ReplaceEqual(c, d)
            },
        }
    }
}

/// The model of an `IndexDef`: function, name, lag threshold.
pub type IndexDefView = (IndexFunc, Seq<char>, u64);

/// The model of a `FoldDef`: name, function.
pub type FoldDefView = (Seq<char>, FoldFunc);

/// The model of `OpenOptions`.
pub struct OpenOptionsView {
    pub index_defs: Seq<IndexDefView>,
    pub fold_defs: Seq<FoldDefView>,
    pub create: bool,
    pub checksum_type: ChecksumType,
    pub flush_filter: Option<FlushFilterView>,
    pub fsync: bool,
    pub auto_sync_threshold: Option<u64>,
    pub btrfs_compression: bool,
}

/// The model of a list of index definitions.
pub open spec fn index_defs_view(v: Seq<IndexDef>) -> Seq<IndexDefView> {
    v.map_values(|d: IndexDef| (d.spec_func(), d.spec_name(), d.spec_lag_threshold()))
}

/// The model of a list of fold definitions.
pub open spec fn fold_defs_view(v: Seq<FoldDef>) -> Seq<FoldDefView> {
    v.map_values(|d: FoldDef| (d.spec_name(), d.spec_func()))
}

/// Options that configure how a log is opened.
#[derive(Debug)]
pub struct OpenOptions {
    pub(crate) index_defs: Vec<IndexDef>,
    pub(crate) fold_defs: Vec<FoldDef>,
    pub(crate) create: bool,
    pub(crate) checksum_type: ChecksumType,
    pub(crate) flush_filter: Option<FlushFilter>,
    pub(crate) fsync: bool,
    pub(crate) auto_sync_threshold: Option<u64>,
    pub(crate) btrfs_compression: bool,
}

impl View for OpenOptions {
    type V = OpenOptionsView;

    closed spec fn view(&self) -> OpenOptionsView {
        OpenOptionsView {
            index_defs: index_defs_view(self.index_defs@),
            fold_defs: fold_defs_view(self.fold_defs@),
            create: self.create,
            checksum_type: self.checksum_type,
            flush_filter: match self.flush_filter {
                Some(f) => Some(f@),
                None => None,
            },
            fsync: self.fsync,
            auto_sync_threshold: self.auto_sync_threshold,
            btrfs_compression: self.btrfs_compression,
        }
    }
}

impl OpenOptions {
    /// A blank set of options: no indexes or folds, `create` and `fsync`
    /// off, automatic checksums, no flush filter, no automatic sync.
    pub fn new() -> (r: Self)
        ensures
            r@ == (OpenOptionsView {
                index_defs: Seq::empty(),
                fold_defs: Seq::empty(),
                create: false,
                checksum_type: ChecksumType::Auto,
                flush_filter: None,
                fsync: false,
                auto_sync_threshold: None,
                btrfs_compression: false,
            }),
    {
        let r = OpenOptions {
            create: false,
            index_defs: Vec::new(),
            fold_defs: Vec::new(),
            checksum_type: ChecksumType::Auto,
            flush_filter: None,
            fsync: false,
            auto_sync_threshold: None,
            btrfs_compression: false,
        };
        assert(r@.index_defs =~= Seq::<IndexDefView>::empty());
        assert(r@.fold_defs =~= Seq::<FoldDefView>::empty());
        r
    }

    /// Sets whether `sync` forces data to stable storage.
    pub fn fsync(self, fsync: bool) -> (r: Self)
        ensures
            r@ == (OpenOptionsView { fsync, ..self@ }),
    {
        let mut r = self;
        r.fsync = fsync;
        r
    }

    /// Adds an index definition with the default lag threshold.
    pub fn index(self, name: &str, func: IndexFunc) -> (r: Self)
        ensures
            r@ == (OpenOptionsView {
                index_defs: self@.index_defs.push((func, name@, DEFAULT_LAG_THRESHOLD)),
                ..self@
            }),
    {
        let mut r = self;
        let ghost before = r.index_defs@;
        let def = IndexDef::new(name, func);
        r.index_defs.push(def);
        assert(index_defs_view(r.index_defs@) =~= index_defs_view(before).push(
            (func, name@, DEFAULT_LAG_THRESHOLD),
        ));
        r
    }

    /// Adds a fold definition.
    pub fn fold_def(self, name: &str, func: FoldFunc) -> (r: Self)
        ensures
            r@ == (OpenOptionsView {
                fold_defs: self@.fold_defs.push((name@, func)),
                ..self@
            }),
    {
        let mut r = self;
        let ghost before = r.fold_defs@;
        let def = FoldDef::new(name, func);
        r.fold_defs.push(def);
        assert(fold_defs_view(r.fold_defs@) =~= fold_defs_view(before).push((name@, func)));
        r
    }

    /// Sets the index definitions.
    pub fn index_defs(self, index_defs: Vec<IndexDef>) -> (r: Self)
        ensures
            r@ == (OpenOptionsView { index_defs: index_defs_view(index_defs@), ..self@ }),
    {
        let mut r = self;
        r.index_defs = index_defs;
        r
    }

    /// Sets whether `open` creates the log when it does not exist.
    pub fn create(self, create: bool) -> (r: Self)
        ensures
            r@ == (OpenOptionsView { create, ..self@ }),
    {
        let mut r = self;
        r.create = create;
        r
    }

    /// Sets when `append` syncs by itself: `None` never; `Some(n)` once the
    /// in-memory buffer exceeds `n` bytes (`Some(0)`: after every append).
    pub fn auto_sync_threshold(self, threshold: Option<u64>) -> (r: Self)
        ensures
            r@ == (OpenOptionsView { auto_sync_threshold: threshold, ..self@ }),
    {
        let mut r = self;
        r.auto_sync_threshold = threshold;
        r
    }

    /// Sets the checksum type.
    pub fn checksum_type(self, checksum_type: ChecksumType) -> (r: Self)
        ensures
            r@ == (OpenOptionsView { checksum_type, ..self@ }),
    {
        let mut r = self;
        r.checksum_type = checksum_type;
        r
    }

    /// Sets the flush filter, applied at sync time to each new entry.
    pub fn flush_filter(self, flush_filter: Option<FlushFilter>) -> (r: Self)
        ensures
            r@ == (OpenOptionsView {
                flush_filter: match flush_filter {
                    Some(f) => Some(f@),
                    None => None,
                },
                ..self@
            }),
    {
        let mut r = self;
        r.flush_filter = flush_filter;
        r
    }

    /// Makes every index stay fully caught up on disk.
    pub fn with_zero_index_lag(self) -> (r: Self)
        ensures
            r@ == (OpenOptionsView {
                index_defs: self@.index_defs.map_values(
                    |d: IndexDefView| (d.0, d.1, 0u64),
                ),
                ..self@
            }),
    {
        let mut r = self;
        let ghost before = r.index_defs@;
        let mut defs: Vec<IndexDef> = Vec::new();
        let mut i: usize = 0;
        while i < r.index_defs.len()
            invariant
                i <= r.index_defs@.len(),
                r.index_defs@ == before,
                index_defs_view(defs@) == index_defs_view(before).subrange(0, i as int).map_values(
                    |d: IndexDefView| (d.0, d.1, 0u64),
                ),
            decreases r.index_defs@.len() - i,
        {
            let d = r.index_defs[i].duplicate().lag_threshold(0);
            let ghost prev = defs@;
            defs.push(d);
            assert(index_defs_view(defs@) =~= index_defs_view(prev).push(
                (d.spec_func(), d.spec_name(), 0u64),
            ));
            assert(index_defs_view(before).subrange(0, i + 1).map_values(
                |d: IndexDefView| (d.0, d.1, 0u64),
            ) =~= index_defs_view(before).subrange(0, i as int).map_values(
                |d: IndexDefView| (d.0, d.1, 0u64),
            ).push((d.spec_func(), d.spec_name(), 0u64)));
            i = i + 1;
        }
        assert(index_defs_view(before).subrange(0, before.len() as int) =~= index_defs_view(before));
        r.index_defs = defs;
        r
    }

    /// Sets whether the log accounts for transparent btrfs compression.
    pub fn btrfs_compression(self, btrfs: bool) -> (r: Self)
        ensures
            r@ == (OpenOptionsView { btrfs_compression: btrfs, ..self@ }),
    {
        let mut r = self;
        r.btrfs_compression = btrfs;
        r
    }

    /// The number of index definitions.
    pub fn index_def_count(&self) -> (r: usize)
        ensures
            r == self@.index_defs.len(),
    {
        self.index_defs.len()
    }

    /// The index definition at `i`.
    pub fn index_def(&self, i: usize) -> (r: &IndexDef)
        requires
            i < self@.index_defs.len(),
        ensures
            (r.spec_func(), r.spec_name(), r.spec_lag_threshold()) == self@.index_defs[i as int],
    {
        &self.index_defs[i]
    }

    /// The number of fold definitions.
    pub fn fold_def_count(&self) -> (r: usize)
        ensures
            r == self@.fold_defs.len(),
    {
        self.fold_defs.len()
    }

    /// The fold definition at `i`.
    pub fn get_fold_def(&self, i: usize) -> (r: &FoldDef)
        requires
            i < self@.fold_defs.len(),
        ensures
            (r.spec_name(), r.spec_func()) == self@.fold_defs[i as int],
    {
        &self.fold_defs[i]
    }

    /// Whether `open` creates a missing log.
    pub fn get_create(&self) -> (r: bool)
        ensures
            r == self@.create,
    {
        self.create
    }

    /// Whether `sync` forces data to stable storage.
    pub fn get_fsync(&self) -> (r: bool)
        ensures
            r == self@.fsync,
    {
        self.fsync
    }

    /// The checksum type of new entries.
    pub fn get_checksum_type(&self) -> (r: ChecksumType)
        ensures
            r == self@.checksum_type,
    {
        self.checksum_type
    }

    /// The automatic sync threshold.
    pub fn get_auto_sync_threshold(&self) -> (r: Option<u64>)
        ensures
            r == self@.auto_sync_threshold,
    {
        self.auto_sync_threshold
    }

    /// The flush filter.
    pub fn get_flush_filter(&self) -> (r: &Option<FlushFilter>)
        ensures
            match r {
                Some(f) => self@.flush_filter == Some(f@),
                None => self@.flush_filter is None,
            },
    {
        &self.flush_filter
    }

    /// A copy of these options.
    pub fn duplicate(&self) -> (r: Self)
        ensures
            r@ == self@,
    {
        let mut defs: Vec<IndexDef> = Vec::new();
        let mut i: usize = 0;
        while i < self.index_defs.len()
            invariant
                i <= self.index_defs@.len(),
                index_defs_view(defs@) == index_defs_view(self.index_defs@).subrange(0, i as int),
            decreases self.index_defs@.len() - i,
        {
            let ghost prev = defs@;
            let d = self.index_defs[i].duplicate();
            defs.push(d);
            let ghost all = index_defs_view(self.index_defs@);
            assert(index_defs_view(defs@) =~= index_defs_view(prev).push(all[i as int]));
            assert(all.subrange(0, i + 1) =~= all.subrange(0, i as int).push(all[i as int]));
            i = i + 1;
        }
        let mut folds: Vec<FoldDef> = Vec::new();
        let mut j: usize = 0;
        while j < self.fold_defs.len()
            invariant
                j <= self.fold_defs@.len(),
                index_defs_view(defs@) == index_defs_view(self.index_defs@),
                fold_defs_view(folds@) == fold_defs_view(self.fold_defs@).subrange(0, j as int),
            decreases self.fold_defs@.len() - j,
        {
            let ghost prev = folds@;
            let d = self.fold_defs[j].duplicate();
            folds.push(d);
            let ghost all = fold_defs_view(self.fold_defs@);
            assert(fold_defs_view(folds@) =~= fold_defs_view(prev).push(all[j as int]));
            assert(all.subrange(0, j + 1) =~= all.subrange(0, j as int).push(all[j as int]));
            j = j + 1;
        }
        assert(index_defs_view(self.index_defs@).subrange(0, self.index_defs@.len() as int) =~= index_defs_view(self.index_defs@));
        assert(fold_defs_view(self.fold_defs@).subrange(0, self.fold_defs@.len() as int) =~= fold_defs_view(self.fold_defs@));
        let filter = match &self.flush_filter {
            Some(f) => Some(f.duplicate()),
            None => None,
        };
        OpenOptions {
            index_defs: defs,
            fold_defs: folds,
            create: self.create,
            checksum_type: self.checksum_type,
            flush_filter: filter,
            fsync: self.fsync,
            auto_sync_threshold: self.auto_sync_threshold,
            btrfs_compression: self.btrfs_compression,
        }
    }
}

} // verus!
