//! Streaming aggregates ("folds") over the entries of a log.
use vstd::prelude::*;

verus! {

/// `a + b`, wrapping at 2^64.
pub open spec fn add_wrap(a: u64, b: u64) -> u64 {
    if a + b > u64::MAX {
        (a + b - u64::MAX - 1) as u64
    } else {
        (a + b) as u64
    }
}

/// `a + b`, wrapping at 2^64.
pub fn wrapping_add_u64(a: u64, b: u64) -> (r: u64)
    ensures
        r == add_wrap(a, b),
{
    if a > u64::MAX - b {
        b - (u64::MAX - a) - 1
    } else {
        a + b
    }
}

/// A pure reduction over entries, in commit order. Values wrap at 2^64.
#[derive(Clone, Copy, Debug, PartialEq, Eq, Structural)]
pub enum FoldFunc {
    /// The number of entries.
    Count,
    /// The total number of payload bytes.
    TotalBytes,
}

impl FoldFunc {
    /// The state after consuming `data` in state `value`.
    pub open spec fn spec_step(self, value: u64, data: Seq<u8>) -> u64 {
        match self {
            FoldFunc::Count => add_wrap(value, 1),
            FoldFunc::TotalBytes => add_wrap(value, (data.len() % 0x1_0000_0000_0000_0000) as u64),
        }
    }

    /// The state a fresh fold starts from.
    pub open spec fn spec_initial(self) -> u64 {
        0
    }

    /// The state after consuming `data` in state `value`.
    pub fn step(self, value: u64, data: &[u8]) -> (r: u64)
        ensures
            r == self.spec_step(value, data@),
    {
        match self {
            FoldFunc::Count => wrapping_add_u64(value, 1),
            FoldFunc::TotalBytes => wrapping_add_u64(value, data.len() as u64),
        }
    }
}

/// The state after folding `entries` in order, starting from `value`.
pub open spec fn fold_entries(func: FoldFunc, value: u64, entries: Seq<(int, Seq<u8>)>) -> u64
    decreases entries.len(),
{
    if entries.len() == 0 {
        value
    } else {
        func.spec_step(fold_entries(func, value, entries.drop_last()), entries.last().1)
    }
}

/// Folding `a` then `b` is folding `a + b`.
pub proof fn lemma_fold_entries_concat(
    func: FoldFunc,
    value: u64,
    a: Seq<(int, Seq<u8>)>,
    b: Seq<(int, Seq<u8>)>,
)
    ensures
        fold_entries(func, fold_entries(func, value, a), b) == fold_entries(func, value, a + b),
    decreases b.len(),
{
    if b.len() > 0 {
        lemma_fold_entries_concat(func, value, a, b.drop_last());
        assert((a + b).drop_last() =~= a + b.drop_last());
        assert((a + b).last() == b.last());
    } else {
        assert(a + b =~= a);
    }
}

/// Definition of a fold: its name and its reduction.
#[derive(Clone, Debug)]
pub struct FoldDef {
    /// Name of the fold, its key in the log metadata.
    pub(crate) name: String,
    /// The reduction.
    pub(crate) func: FoldFunc,
}

impl FoldDef {
    pub closed spec fn spec_name(&self) -> Seq<char> {
        self.name@
    }

    pub closed spec fn spec_func(&self) -> FoldFunc {
        self.func
    }

    /// Creates a fold definition.
    pub fn new(name: &str, func: FoldFunc) -> (r: Self)
        ensures
            r.spec_name() == name@,
            r.spec_func() == func,
    {
        FoldDef { name: name.to_owned(), func }
    }

    /// The name of the fold.
    pub fn name(&self) -> (r: &str)
        ensures
            r@ == self.spec_name(),
    {
        self.name.as_str()
    }

    /// The reduction of the fold.
    pub fn func(&self) -> (r: FoldFunc)
        ensures
            r == self.spec_func(),
    {
        self.func
    }

    /// A copy of this definition.
    pub fn duplicate(&self) -> (r: Self)
        ensures
            r.spec_name() == self.spec_name(),
            r.spec_func() == self.spec_func(),
    {
        FoldDef { name: self.name.clone(), func: self.func }
    }
}

} // verus!
