//! The key-to-offset association an index maintains, its model, and the
//! per-key scan that lookups agree with.
use vstd::prelude::*;

use crate::bytes::{bytes_eq, copy_range, is_prefix, starts_with};
use crate::error::Error;
use crate::open_options::{IndexFunc, IndexOutput, IndexOutputView, output_valid, outputs_view};

verus! {

/// The pairs of `pairs` whose key satisfies `keep`, in order.
pub open spec fn retain_keys(pairs: Seq<(Seq<u8>, int)>, keep: spec_fn(Seq<u8>) -> bool) -> Seq<
    (Seq<u8>, int),
>
    decreases pairs.len(),
{
    if pairs.len() == 0 {
        pairs
    } else {
        let rest = retain_keys(pairs.drop_last(), keep);
        if keep(pairs.last().0) {
            rest.push(pairs.last())
        } else {
            rest
        }
    }
}

/// Keeps the keys other than `k`.
pub open spec fn other_keys(k: Seq<u8>) -> spec_fn(Seq<u8>) -> bool {
    |x: Seq<u8>| x != k
}

/// Keeps the keys that do not start with `p`.
pub open spec fn keys_outside(p: Seq<u8>) -> spec_fn(Seq<u8>) -> bool {
    |x: Seq<u8>| !is_prefix(p, x)
}

/// The index after one output of the entry at `offset` with bytes `data`.
pub open spec fn apply_output(
    pairs: Seq<(Seq<u8>, int)>,
    o: IndexOutputView,
    data: Seq<u8>,
    offset: int,
) -> Seq<(Seq<u8>, int)> {
    match o {
        IndexOutputView::Reference(start, end) => pairs.push((data.subrange(start, end), offset)),
        IndexOutputView::Owned(k) => pairs.push((k, offset)),
        IndexOutputView::Remove(k) => retain_keys(pairs, other_keys(k)),
        IndexOutputView::RemovePrefix(p) => retain_keys(pairs, keys_outside(p)),
    }
}

/// The index after all `outs` of one entry, in order.
pub open spec fn apply_outputs(
    pairs: Seq<(Seq<u8>, int)>,
    outs: Seq<IndexOutputView>,
    data: Seq<u8>,
    offset: int,
) -> Seq<(Seq<u8>, int)>
    decreases outs.len(),
{
    if outs.len() == 0 {
        pairs
    } else {
        apply_output(apply_outputs(pairs, outs.drop_last(), data, offset), outs.last(), data, offset)
    }
}

/// Whether every output is usable on `data`.
pub open spec fn outputs_valid(outs: Seq<IndexOutputView>, data: Seq<u8>) -> bool {
    forall|i: int| 0 <= i < outs.len() ==> output_valid(#[trigger] outs[i], data)
}

/// Whether `func` gives usable outputs on every entry.
pub open spec fn entries_indexable(func: IndexFunc, entries: Seq<(int, Seq<u8>)>) -> bool {
    forall|i: int|
        0 <= i < entries.len() ==> outputs_valid(func.spec_outputs(#[trigger] entries[i].1), entries[i].1)
}

/// The index over `entries`, in order, starting from `base`.
pub open spec fn index_entries(
    func: IndexFunc,
    base: Seq<(Seq<u8>, int)>,
    entries: Seq<(int, Seq<u8>)>,
) -> Seq<(Seq<u8>, int)>
    decreases entries.len(),
{
    if entries.len() == 0 {
        base
    } else {
        let e = entries.last();
        apply_outputs(index_entries(func, base, entries.drop_last()), func.spec_outputs(e.1), e.1, e.0)
    }
}

/// The offsets associated with `key`, oldest first.
pub open spec fn lookup_in(pairs: Seq<(Seq<u8>, int)>, key: Seq<u8>) -> Seq<int>
    decreases pairs.len(),
{
    if pairs.len() == 0 {
        Seq::empty()
    } else {
        let rest = lookup_in(pairs.drop_last(), key);
        if pairs.last().0 == key {
            rest.push(pairs.last().1)
        } else {
            rest
        }
    }
}

/// What one output does to the offsets found so far for `key`.
pub open spec fn scan_output(
    found: Seq<int>,
    o: IndexOutputView,
    data: Seq<u8>,
    offset: int,
    key: Seq<u8>,
) -> Seq<int> {
    match o {
        IndexOutputView::Reference(start, end) => if data.subrange(start, end) == key {
            found.push(offset)
        } else {
            found
        },
        IndexOutputView::Owned(k) => if k == key {
            found.push(offset)
        } else {
            found
        },
        IndexOutputView::Remove(k) => if k == key {
            Seq::empty()
        } else {
            found
        },
        IndexOutputView::RemovePrefix(p) => if is_prefix(p, key) {
            Seq::empty()
        } else {
            found
        },
    }
}

pub open spec fn scan_outputs(
    found: Seq<int>,
    outs: Seq<IndexOutputView>,
    data: Seq<u8>,
    offset: int,
    key: Seq<u8>,
) -> Seq<int>
    decreases outs.len(),
{
    if outs.len() == 0 {
        found
    } else {
        scan_output(scan_outputs(found, outs.drop_last(), data, offset, key), outs.last(), data, offset, key)
    }
}

/// A brute-force scan of `entries` for `key`: the offsets of the entries whose
/// outputs name `key`, in order, forgetting those that a later removal covers.
pub open spec fn scan_entries(func: IndexFunc, entries: Seq<(int, Seq<u8>)>, key: Seq<u8>) -> Seq<int>
    decreases entries.len(),
{
    if entries.len() == 0 {
        Seq::empty()
    } else {
        let e = entries.last();
        scan_outputs(scan_entries(func, entries.drop_last(), key), func.spec_outputs(e.1), e.1, e.0, key)
    }
}

pub proof fn lemma_lookup_retain(pairs: Seq<(Seq<u8>, int)>, keep: spec_fn(Seq<u8>) -> bool, key: Seq<u8>)
    ensures
        lookup_in(retain_keys(pairs, keep), key) == if keep(key) {
            lookup_in(pairs, key)
        } else {
            Seq::empty()
        },
    decreases pairs.len(),
{
    if pairs.len() > 0 {
        lemma_lookup_retain(pairs.drop_last(), keep, key);
        let rest = retain_keys(pairs.drop_last(), keep);
        if keep(pairs.last().0) {
            assert(rest.push(pairs.last()).drop_last() =~= rest);
        }
    }
}

pub proof fn lemma_lookup_apply_output(
    pairs: Seq<(Seq<u8>, int)>,
    o: IndexOutputView,
    data: Seq<u8>,
    offset: int,
    key: Seq<u8>,
)
    ensures
        lookup_in(apply_output(pairs, o, data, offset), key) == scan_output(
            lookup_in(pairs, key),
            o,
            data,
            offset,
            key,
        ),
{
    match o {
        IndexOutputView::Reference(start, end) => {
            assert(pairs.push((data.subrange(start, end), offset)).drop_last() =~= pairs);
        },
        IndexOutputView::Owned(k) => {
            assert(pairs.push((k, offset)).drop_last() =~= pairs);
        },
        IndexOutputView::Remove(k) => {
            lemma_lookup_retain(pairs, other_keys(k), key);
        },
        IndexOutputView::RemovePrefix(p) => {
            lemma_lookup_retain(pairs, keys_outside(p), key);
        },
    }
}

pub proof fn lemma_lookup_apply_outputs(
    pairs: Seq<(Seq<u8>, int)>,
    outs: Seq<IndexOutputView>,
    data: Seq<u8>,
    offset: int,
    key: Seq<u8>,
)
    ensures
        lookup_in(apply_outputs(pairs, outs, data, offset), key) == scan_outputs(
            lookup_in(pairs, key),
            outs,
            data,
            offset,
            key,
        ),
    decreases outs.len(),
{
    if outs.len() > 0 {
        lemma_lookup_apply_outputs(pairs, outs.drop_last(), data, offset, key);
        lemma_lookup_apply_output(
            apply_outputs(pairs, outs.drop_last(), data, offset),
            outs.last(),
            data,
            offset,
            key,
        );
    }
}

/// Looking a key up in the index built over `entries` gives what a
/// brute-force scan of the entries gives.
pub proof fn lemma_lookup_index_entries(func: IndexFunc, entries: Seq<(int, Seq<u8>)>, key: Seq<u8>)
    ensures
        lookup_in(index_entries(func, Seq::empty(), entries), key) == scan_entries(func, entries, key),
    decreases entries.len(),
{
    if entries.len() > 0 {
        let e = entries.last();
        lemma_lookup_index_entries(func, entries.drop_last(), key);
        lemma_lookup_apply_outputs(
            index_entries(func, Seq::empty(), entries.drop_last()),
            func.spec_outputs(e.1),
            e.1,
            e.0,
            key,
        );
    }
}

/// Indexing `a` then `b` from `base` is indexing `a + b`.
pub proof fn lemma_index_entries_concat(
    func: IndexFunc,
    base: Seq<(Seq<u8>, int)>,
    a: Seq<(int, Seq<u8>)>,
    b: Seq<(int, Seq<u8>)>,
)
    ensures
        index_entries(func, index_entries(func, base, a), b) == index_entries(func, base, a + b),
    decreases b.len(),
{
    if b.len() > 0 {
        lemma_index_entries_concat(func, base, a, b.drop_last());
        assert((a + b).drop_last() =~= a + b.drop_last());
        assert((a + b).last() == b.last());
    } else {
        assert(a + b =~= a);
    }
}

/// Checks that `func` gives usable outputs for `data`.
pub fn check_func_outputs(func: IndexFunc, data: &[u8]) -> (r: Result<(), Error>)
    ensures
        r is Ok <==> outputs_valid(func.spec_outputs(data@), data@),
        r matches Err(e) ==> e is RangeOutOfBounds,
{
    let mut outs = func.outputs(data);
    let ghost ov = outputs_view(outs@);
    let mut k: usize = 0;
    while k < outs.len()
        invariant
            k <= outs@.len(),
            ov == outputs_view(outs@),
            ov == func.spec_outputs(data@),
            forall|m: int| 0 <= m < k ==> output_valid(#[trigger] ov[m], data@),
        decreases outs@.len() - k,
    {
        let valid = match &outs[k] {
            IndexOutput::Reference(range) => range.start <= range.end && range.end <= data.len() as u64,
            _ => true,
        };
        assert(valid == output_valid(ov[k as int], data@));
        if !valid {
            let o = outs.remove(k);
            assert(o@ == ov[k as int]);
            return match o.into_cow(data) {
                Ok(_) => {
                    assert(false);
                    Err(Error::UnknownId)
                },
                Err(e) => Err(e),
            };
        }
        k = k + 1;
    }
    Ok(())
}

/// The model of a key-to-offset list.
pub open spec fn pairs_view(v: Seq<(Vec<u8>, u64)>) -> Seq<(Seq<u8>, int)> {
    v.map_values(|p: (Vec<u8>, u64)| (p.0@, p.1 as int))
}

/// The model of a list of offsets.
pub open spec fn offsets_view(v: Seq<u64>) -> Seq<int> {
    v.map_values(|o: u64| o as int)
}

/// The in-memory state of one index: its key-to-offset pairs in the order
/// they were added.
#[derive(Debug)]
pub struct IndexState {
    pub(crate) pairs: Vec<(Vec<u8>, u64)>,
}

impl View for IndexState {
    type V = Seq<(Seq<u8>, int)>;

    closed spec fn view(&self) -> Seq<(Seq<u8>, int)> {
        pairs_view(self.pairs@)
    }
}

impl IndexState {
    /// An empty index.
    pub fn new() -> (r: Self)
        ensures
            r@ == Seq::<(Seq<u8>, int)>::empty(),
    {
        let r = IndexState { pairs: Vec::new() };
        assert(r@ =~= Seq::<(Seq<u8>, int)>::empty());
        r
    }

    /// An index holding `pairs`.
    pub fn from_pairs(pairs: Vec<(Vec<u8>, u64)>) -> (r: Self)
        ensures
            r@ == pairs_view(pairs@),
    {
        IndexState { pairs }
    }

    /// The pairs of the index.
    pub fn pairs(&self) -> (r: &Vec<(Vec<u8>, u64)>)
        ensures
            pairs_view(r@) == self@,
    {
        &self.pairs
    }

    /// The offsets associated with `key`, oldest first.
    pub fn lookup(&self, key: &[u8]) -> (r: Vec<u64>)
        ensures
            offsets_view(r@) == lookup_in(self@, key@),
    {
        let mut r: Vec<u64> = Vec::new();
        let mut i: usize = 0;
        while i < self.pairs.len()
            invariant
                i <= self.pairs@.len(),
                offsets_view(r@) == lookup_in(pairs_view(self.pairs@).subrange(0, i as int), key@),
            decreases self.pairs@.len() - i,
        {
            let ghost before = r@;
            proof {
                let ps = pairs_view(self.pairs@);
                assert(ps.subrange(0, i + 1).drop_last() =~= ps.subrange(0, i as int));
            }
            if bytes_eq(self.pairs[i].0.as_slice(), key) {
                r.push(self.pairs[i].1);
                assert(offsets_view(r@) =~= offsets_view(before).push(self.pairs@[i as int].1 as int));
            }
            i = i + 1;
        }
        assert(pairs_view(self.pairs@).subrange(0, self.pairs@.len() as int) =~= pairs_view(self.pairs@));
        r
    }

    /// Keeps the pairs whose key is not `key` (`remove_prefix` false) or
    /// does not start with `key` (`remove_prefix` true).
    fn remove(&mut self, key: &[u8], remove_prefix: bool)
        ensures
            final(self)@ == retain_keys(
                old(self)@,
                if remove_prefix {
                    keys_outside(key@)
                } else {
                    other_keys(key@)
                },
            ),
    {
        let ghost keep = if remove_prefix {
            keys_outside(key@)
        } else {
            other_keys(key@)
        };
        let ghost ps = old(self)@;
        let mut kept: Vec<(Vec<u8>, u64)> = Vec::new();
        let mut i: usize = 0;
        while i < self.pairs.len()
            invariant
                i <= self.pairs@.len(),
                pairs_view(self.pairs@) == ps,
                keep == if remove_prefix {
                    keys_outside(key@)
                } else {
                    other_keys(key@)
                },
                pairs_view(kept@) == retain_keys(ps.subrange(0, i as int), keep),
            decreases self.pairs@.len() - i,
        {
            assert(ps.subrange(0, i + 1).drop_last() =~= ps.subrange(0, i as int));
            let k = &self.pairs[i].0;
            let drop = if remove_prefix {
                starts_with(k.as_slice(), key)
            } else {
                bytes_eq(k.as_slice(), key)
            };
            assert(ps[i as int].0 == k@);
            proof {
                let sub = ps.subrange(0, i + 1);
                assert(sub.last() == ps[i as int]);
                assert(retain_keys(sub, keep) == if keep(ps[i as int].0) {
                    retain_keys(ps.subrange(0, i as int), keep).push(ps[i as int])
                } else {
                    retain_keys(ps.subrange(0, i as int), keep)
                });
                if remove_prefix {
                    assert(keys_outside(key@)(k@) == !is_prefix(key@, k@));
                } else {
                    assert(other_keys(key@)(k@) == (k@ != key@));
                }
                assert(keep(ps[i as int].0) == !drop);
            }
            if !drop {
                let ghost before = kept@;
                let copy = copy_range(k.as_slice(), 0, k.len());
                assert(k@.subrange(0, k@.len() as int) =~= k@);
                kept.push((copy, self.pairs[i].1));
                assert(pairs_view(kept@) =~= pairs_view(before).push(ps[i as int]));
            }
            i = i + 1;
        }
        assert(ps.subrange(0, ps.len() as int) =~= ps);
        self.pairs = kept;

    }

    /// Applies one usable output of the entry at `offset`.
    pub fn apply_output(&mut self, o: &IndexOutput, data: &[u8], offset: u64)
        requires
            output_valid(o@, data@),
        ensures
            final(self)@ == apply_output(old(self)@, o@, data@, offset as int),
    {
        let ghost before = self@;
        match o {
            IndexOutput::Reference(r) => {
                let start = r.start;
                let end = r.end;
                assert(o@ == IndexOutputView::Reference(start as int, end as int));
                let len = data.len();
                let k = copy_range(data, start as usize, end as usize);
                self.pairs.push((k, offset));
                assert(self@ =~= before.push((k@, offset as int)));
            },
            IndexOutput::Owned(k) => {
                let k2 = copy_range(k.as_slice(), 0, k.len());
                assert(k@.subrange(0, k@.len() as int) =~= k@);
                self.pairs.push((k2, offset));
                assert(self@ =~= before.push((k2@, offset as int)));
            },
            IndexOutput::Remove(k) => {
                self.remove(k.as_slice(), false);
            },
            IndexOutput::RemovePrefix(p) => {
                self.remove(p.as_slice(), true);
            },
        }
    }

    /// Applies all usable outputs of the entry at `offset`, in order.
    pub fn apply_outputs(&mut self, outs: &Vec<IndexOutput>, data: &[u8], offset: u64)
        requires
            outputs_valid(outputs_view(outs@), data@),
        ensures
            final(self)@ == apply_outputs(old(self)@, outputs_view(outs@), data@, offset as int),
    {
        let ghost start = self@;
        let ghost ov = outputs_view(outs@);
        let mut i: usize = 0;
        while i < outs.len()
            invariant
                i <= outs@.len(),
                ov == outputs_view(outs@),
                outputs_valid(ov, data@),
                self@ == apply_outputs(start, ov.subrange(0, i as int), data@, offset as int),
            decreases outs@.len() - i,
        {
            assert(ov.subrange(0, i + 1).drop_last() =~= ov.subrange(0, i as int));
            assert(output_valid(ov[i as int], data@));
            self.apply_output(&outs[i], data, offset);
            i = i + 1;
        }
        assert(ov.subrange(0, ov.len() as int) =~= ov);
    }
}

} // verus!
