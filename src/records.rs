//! Files made of checksummed records: the metadata file and index files.
//! Each record is stored as an entry with an xxhash64 checksum.
use vstd::prelude::*;

use crate::bytes::{copy_range, get_le64, le64, push_all, push_le64, read_le64, lemma_le64_round_trip};
use crate::checksum::{ChecksumType, ENTRY_FLAG_XXHASH64};
use crate::entry::{
    encode_entry, encode_entry_into, entries_in, lemma_entries_in_append, parse_entries, payloads,
    view_entries,
};
use crate::error::Error;

verus! {

/// The bytes of a file holding `recs`, in order.
pub open spec fn encode_records(recs: Seq<Seq<u8>>) -> Seq<u8>
    decreases recs.len(),
{
    if recs.len() == 0 {
        Seq::empty()
    } else {
        encode_records(recs.drop_last()) + encode_entry(ENTRY_FLAG_XXHASH64, recs.last())
    }
}

/// The records a file holds; `None` where it is damaged.
pub open spec fn records_of(file: Seq<u8>) -> Option<Seq<Seq<u8>>> {
    match entries_in(file, 0) {
        Some(es) => Some(payloads(es)),
        None => None,
    }
}

/// Whether every record length fits in 64 bits.
pub open spec fn records_fit(recs: Seq<Seq<u8>>) -> bool {
    forall|i: int| 0 <= i < recs.len() ==> #[trigger] recs[i].len() <= u64::MAX
}

pub proof fn lemma_records_round_trip(recs: Seq<Seq<u8>>)
    requires
        records_fit(recs),
    ensures
        records_of(encode_records(recs)) == Some(recs),
    decreases recs.len(),
{
    if recs.len() == 0 {
        assert(payloads(Seq::<(int, Seq<u8>)>::empty()) =~= recs);
    } else {
        let init = recs.drop_last();
        assert(records_fit(init)) by {
            assert forall|i: int| 0 <= i < init.len() implies #[trigger] init[i].len() <= u64::MAX by {
                assert(init[i] == recs[i]);
            }
        }
        lemma_records_round_trip(init);
        let buf = encode_records(init);
        let es = entries_in(buf, 0).unwrap();
        assert(recs.last() == recs[recs.len() - 1]);
        lemma_entries_in_append(buf, ENTRY_FLAG_XXHASH64, recs.last(), 0);
        assert(payloads(es) == init);
        assert(payloads(es.push((buf.len() as int, recs.last()))) =~= payloads(es).push(recs.last()));
        assert(init.push(recs.last()) =~= recs);
    }
}

/// The models of a list of byte vectors.
pub open spec fn vecs_view(v: Seq<Vec<u8>>) -> Seq<Seq<u8>> {
    v.map_values(|r: Vec<u8>| r@)
}

/// The bytes of a file holding `recs`, in order.
pub fn encode_records_exec(recs: &Vec<Vec<u8>>) -> (r: Vec<u8>)
    ensures
        r@ == encode_records(vecs_view(recs@)),
{
    let ghost all = vecs_view(recs@);
    let mut out: Vec<u8> = Vec::new();
    let mut i: usize = 0;
    while i < recs.len()
        invariant
            i <= recs@.len(),
            all == vecs_view(recs@),
            out@ == encode_records(all.subrange(0, i as int)),
        decreases recs@.len() - i,
    {
        assert(all.subrange(0, i + 1).drop_last() =~= all.subrange(0, i as int));
        encode_entry_into(&mut out, ChecksumType::Xxhash64, recs[i].as_slice());
        i = i + 1;
    }
    assert(all.subrange(0, all.len() as int) =~= all);
    out
}

/// The records a file holds.
pub fn decode_records(file: &[u8]) -> (r: Result<Vec<Vec<u8>>, Error>)
    ensures
        match r {
            Ok(v) => records_of(file@) == Some(vecs_view(v@)),
            Err(e) => records_of(file@) is None && e is Corruption,
        },
{
    let entries = parse_entries(file, 0)?;
    let mut out: Vec<Vec<u8>> = Vec::new();
    let mut i: usize = 0;
    let ghost es = view_entries(entries@);
    while i < entries.len()
        invariant
            i <= entries@.len(),
            es == view_entries(entries@),
            vecs_view(out@) == payloads(es.subrange(0, i as int)),
        decreases entries@.len() - i,
    {
        let data = copy_range(entries[i].1.as_slice(), 0, entries[i].1.len());
        assert(entries[i as int].1@.subrange(0, entries[i as int].1@.len() as int) =~= entries[i as int].1@);
        let ghost before = out@;
        out.push(data);
        assert(vecs_view(out@) =~= vecs_view(before).push(data@));
        assert(payloads(es.subrange(0, i + 1)) =~= payloads(es.subrange(0, i as int)).push(es[i as int].1));
        i = i + 1;
    }
    assert(es.subrange(0, es.len() as int) =~= es);
    Ok(out)
}

// ---- index files: one record per (key, offset) pair ----

/// The record of one index pair: the offset, then the key.
pub open spec fn pair_record(p: (Seq<u8>, int)) -> Seq<u8> {
    le64(p.1 as u64) + p.0
}

/// The pair a record holds; `None` where it is too short.
pub open spec fn record_pair(r: Seq<u8>) -> Option<(Seq<u8>, int)> {
    if r.len() >= 8 {
        Some((r.subrange(8, r.len() as int), read_le64(r.subrange(0, 8)) as int))
    } else {
        None
    }
}

/// The bytes of an index file holding `pairs`.
pub open spec fn index_file_bytes(pairs: Seq<(Seq<u8>, int)>) -> Seq<u8> {
    encode_records(pairs.map_values(|p: (Seq<u8>, int)| pair_record(p)))
}

/// The pairs an index file holds; `None` where it is damaged.
pub open spec fn index_file_pairs(file: Seq<u8>) -> Option<Seq<(Seq<u8>, int)>> {
    match records_of(file) {
        Some(recs) => if forall|i: int| 0 <= i < recs.len() ==> (#[trigger] recs[i]).len() >= 8 {
            Some(recs.map_values(|r: Seq<u8>| record_pair(r).unwrap()))
        } else {
            None
        },
        None => None,
    }
}

/// Whether every offset and key length of `pairs` fits in 64 bits.
pub open spec fn pairs_fit(pairs: Seq<(Seq<u8>, int)>) -> bool {
    forall|i: int|
        0 <= i < pairs.len() ==> 0 <= (#[trigger] pairs[i]).1 <= u64::MAX && pairs[i].0.len() + 8
            <= u64::MAX
}

pub proof fn lemma_index_file_round_trip(pairs: Seq<(Seq<u8>, int)>)
    requires
        pairs_fit(pairs),
    ensures
        index_file_pairs(index_file_bytes(pairs)) == Some(pairs),
{
    let recs = pairs.map_values(|p: (Seq<u8>, int)| pair_record(p));
    assert forall|i: int| 0 <= i < recs.len() implies #[trigger] recs[i].len() <= u64::MAX && recs[i].len() >= 8 && record_pair(recs[i]) == Some(pairs[i]) by {
        let p = pairs[i];
        lemma_le64_round_trip(p.1 as u64);
        assert(recs[i] == le64(p.1 as u64) + p.0);
        assert(recs[i].subrange(0, 8) =~= le64(p.1 as u64));
        assert(recs[i].subrange(8, recs[i].len() as int) =~= p.0);
    }
    lemma_records_round_trip(recs);
    assert(recs.map_values(|r: Seq<u8>| record_pair(r).unwrap()) =~= pairs);
}

/// The bytes of an index file holding `pairs`.
pub fn encode_index_file(pairs: &Vec<(Vec<u8>, u64)>) -> (r: Vec<u8>)
    ensures
        r@ == index_file_bytes(crate::index::pairs_view(pairs@)),
        pairs_fit(crate::index::pairs_view(pairs@)),
{
    let ghost ps = crate::index::pairs_view(pairs@);
    let mut recs: Vec<Vec<u8>> = Vec::new();
    let mut i: usize = 0;
    while i < pairs.len()
        invariant
            i <= pairs@.len(),
            ps == crate::index::pairs_view(pairs@),
            forall|j: int| 0 <= j < i ==> 0 <= (#[trigger] ps[j]).1 <= u64::MAX && ps[j].0.len() + 8 <= u64::MAX,
            vecs_view(recs@) == ps.subrange(0, i as int).map_values(
                |p: (Seq<u8>, int)| pair_record(p),
            ),
        decreases pairs@.len() - i,
    {
        let mut rec: Vec<u8> = Vec::new();
        push_le64(&mut rec, pairs[i].1);
        push_all(&mut rec, pairs[i].0.as_slice());
        let rec_len = rec.len();
        assert(rec@.len() == 8 + ps[i as int].0.len());
        let ghost before = recs@;
        recs.push(rec);
        assert(vecs_view(recs@) =~= vecs_view(before).push(rec@));
        assert(rec@ == pair_record(ps[i as int]));
        assert(ps.subrange(0, i + 1).map_values(|p: (Seq<u8>, int)| pair_record(p))
            =~= ps.subrange(0, i as int).map_values(|p: (Seq<u8>, int)| pair_record(p)).push(pair_record(ps[i as int])));
        i = i + 1;
    }
    assert(ps.subrange(0, ps.len() as int) =~= ps);
    encode_records_exec(&recs)
}

/// The pairs an index file holds.
pub fn decode_index_file(file: &[u8]) -> (r: Result<Vec<(Vec<u8>, u64)>, Error>)
    ensures
        match r {
            Ok(v) => index_file_pairs(file@) == Some(crate::index::pairs_view(v@)),
            Err(e) => index_file_pairs(file@) is None && e is Corruption,
        },
{
    let recs = decode_records(file)?;
    let ghost rs = vecs_view(recs@);
    let mut out: Vec<(Vec<u8>, u64)> = Vec::new();
    let mut i: usize = 0;
    while i < recs.len()
        invariant
            i <= recs@.len(),
            rs == vecs_view(recs@),
            records_of(file@) == Some(rs),
            forall|j: int| 0 <= j < i ==> (#[trigger] rs[j]).len() >= 8,
            crate::index::pairs_view(out@) == rs.subrange(0, i as int).map_values(
                |r: Seq<u8>| record_pair(r).unwrap(),
            ),
        decreases recs@.len() - i,
    {
        let rec = &recs[i];
        if rec.len() < 8 {
            assert(rs[i as int].len() < 8);
            return Err(Error::Corruption);
        }
        let offset = get_le64(rec.as_slice(), 0);
        let key = copy_range(rec.as_slice(), 8, rec.len());
        let ghost before = out@;
        out.push((key, offset));
        assert(crate::index::pairs_view(out@) =~= crate::index::pairs_view(before).push((key@, offset as int)));
        assert(rs[i as int] == rec@);
        assert(rec@.subrange(8, rec@.len() as int) == key@);
        assert(record_pair(rs[i as int]) == Some((key@, offset as int)));
        assert(rs.subrange(0, i + 1).map_values(|r: Seq<u8>| record_pair(r).unwrap())
            =~= rs.subrange(0, i as int).map_values(|r: Seq<u8>| record_pair(r).unwrap()).push(record_pair(rs[i as int]).unwrap()));
        i = i + 1;
    }
    assert(rs.subrange(0, rs.len() as int) =~= rs);
    Ok(out)
}

// ---- the metadata file ----

/// Metadata item kind: the progress of an index.
pub const META_KIND_INDEX: u8 = 105;

/// Metadata item kind: the checkpoint of a fold.
pub const META_KIND_FOLD: u8 = 102;

/// One named item of the metadata: the length of the primary log already
/// reflected in an index (or fold), and for a fold its state there.
#[derive(Debug)]
pub struct MetaItem {
    pub kind: u8,
    pub progress: u64,
    pub value: u64,
    pub name: Vec<u8>,
}

/// The model of a metadata item: kind, progress, value, name.
pub type MetaItemView = (u8, u64, u64, Seq<u8>);

impl View for MetaItem {
    type V = MetaItemView;

    open spec fn view(&self) -> MetaItemView {
        (self.kind, self.progress, self.value, self.name@)
    }
}

/// The metadata of a log: the committed length of the primary log, a
/// generation counter that every commit advances, and the named items.
#[derive(Debug)]
pub struct LogMetadata {
    pub primary_len: u64,
    pub epoch: u64,
    pub items: Vec<MetaItem>,
}

/// The model of `LogMetadata`.
pub struct MetaView {
    pub primary_len: u64,
    pub epoch: u64,
    pub items: Seq<MetaItemView>,
}

/// The models of a list of metadata items.
pub open spec fn items_view(v: Seq<MetaItem>) -> Seq<MetaItemView> {
    v.map_values(|it: MetaItem| it@)
}

impl View for LogMetadata {
    type V = MetaView;

    open spec fn view(&self) -> MetaView {
        MetaView { primary_len: self.primary_len, epoch: self.epoch, items: items_view(self.items@) }
    }
}

/// The record of one metadata item.
pub open spec fn item_record(it: MetaItemView) -> Seq<u8> {
    seq![it.0] + le64(it.1) + le64(it.2) + it.3
}

/// The item a record holds; `None` where it is too short.
pub open spec fn record_item(r: Seq<u8>) -> Option<MetaItemView> {
    if r.len() >= 17 {
        Some(
            (
                r[0],
                read_le64(r.subrange(1, 9)),
                read_le64(r.subrange(9, 17)),
                r.subrange(17, r.len() as int),
            ),
        )
    } else {
        None
    }
}

/// The records of a metadata file: a header (committed length and epoch),
/// then one record per item.
pub open spec fn meta_records(m: MetaView) -> Seq<Seq<u8>> {
    seq![le64(m.primary_len) + le64(m.epoch)] + m.items.map_values(
        |it: MetaItemView| item_record(it),
    )
}

/// The bytes of a metadata file.
pub open spec fn meta_bytes(m: MetaView) -> Seq<u8> {
    encode_records(meta_records(m))
}

/// The metadata a file holds; `None` where it is damaged.
pub open spec fn meta_of(file: Seq<u8>) -> Option<MetaView> {
    match records_of(file) {
        Some(recs) => if recs.len() >= 1 && recs[0].len() == 16 && forall|i: int|
            1 <= i < recs.len() ==> (#[trigger] recs[i]).len() >= 17 {
            Some(
                MetaView {
                    primary_len: read_le64(recs[0].subrange(0, 8)),
                    epoch: read_le64(recs[0].subrange(8, 16)),
                    items: recs.subrange(1, recs.len() as int).map_values(
                        |r: Seq<u8>| record_item(r).unwrap(),
                    ),
                },
            )
        } else {
            None
        },
        None => None,
    }
}

/// Whether every item name of `m` fits in a record.
pub open spec fn meta_fits(m: MetaView) -> bool {
    forall|i: int| 0 <= i < m.items.len() ==> (#[trigger] m.items[i]).3.len() + 17 <= u64::MAX
}

pub proof fn lemma_meta_round_trip(m: MetaView)
    requires
        meta_fits(m),
    ensures
        meta_of(meta_bytes(m)) == Some(m),
{
    let recs = meta_records(m);
    let head = le64(m.primary_len) + le64(m.epoch);
    lemma_le64_round_trip(m.primary_len);
    lemma_le64_round_trip(m.epoch);
    assert(recs[0] == head);
    assert(head.subrange(0, 8) =~= le64(m.primary_len));
    assert(head.subrange(8, 16) =~= le64(m.epoch));
    let tail = m.items.map_values(|it: MetaItemView| item_record(it));
    assert forall|i: int| 0 <= i < recs.len() implies #[trigger] recs[i].len() <= u64::MAX && (i
        >= 1 ==> recs[i].len() >= 17 && record_item(recs[i]) == Some(m.items[i - 1])) by {
        if i >= 1 {
            let it = m.items[i - 1];
            lemma_le64_round_trip(it.1);
            lemma_le64_round_trip(it.2);
            assert(recs[i] == tail[i - 1]);
            let r = recs[i];
            assert(r.subrange(1, 9) =~= le64(it.1));
            assert(r.subrange(9, 17) =~= le64(it.2));
            assert(r.subrange(17, r.len() as int) =~= it.3);
        }
    }
    lemma_records_round_trip(recs);
    assert(recs.subrange(1, recs.len() as int).map_values(|r: Seq<u8>| record_item(r).unwrap())
        =~= m.items);
}

impl LogMetadata {
    /// Metadata of an empty log whose entries start at `primary_len`.
    pub fn new_with_primary_len(primary_len: u64) -> (r: Self)
        ensures
            r@.primary_len == primary_len,
            r@.epoch == 0,
            r@.items.len() == 0,
    {
        let r = LogMetadata { primary_len, epoch: 0, items: Vec::new() };
        assert(r@.items =~= Seq::<MetaItemView>::empty());
        r
    }

    /// The bytes of the metadata file.
    pub fn encode(&self) -> (r: Vec<u8>)
        ensures
            r@ == meta_bytes(self@),
            meta_fits(self@),
    {
        let mut recs: Vec<Vec<u8>> = Vec::new();
        let mut head: Vec<u8> = Vec::new();
        push_le64(&mut head, self.primary_len);
        push_le64(&mut head, self.epoch);
        recs.push(head);
        let ghost items = items_view(self.items@);
        let mut i: usize = 0;
        while i < self.items.len()
            invariant
                i <= self.items@.len(),
                items == items_view(self.items@),
                forall|j: int| 0 <= j < i ==> (#[trigger] items[j]).3.len() + 17 <= u64::MAX,
                vecs_view(recs@) == seq![le64(self.primary_len) + le64(self.epoch)]
                    + items.subrange(0, i as int).map_values(|it: MetaItemView| item_record(it)),
            decreases self.items@.len() - i,
        {
            let it = &self.items[i];
            let mut rec: Vec<u8> = Vec::new();
            rec.push(it.kind);
            push_le64(&mut rec, it.progress);
            push_le64(&mut rec, it.value);
            push_all(&mut rec, it.name.as_slice());
            let rec_len = rec.len();
            assert(rec@.len() == 17 + items[i as int].3.len());
            let ghost before = recs@;
            recs.push(rec);
            assert(rec@ == item_record(items[i as int]));
            assert(vecs_view(recs@) =~= vecs_view(before).push(rec@));
            assert(items.subrange(0, i + 1).map_values(|it: MetaItemView| item_record(it))
                =~= items.subrange(0, i as int).map_values(|it: MetaItemView| item_record(it)).push(item_record(items[i as int])));
            i = i + 1;
        }
        assert(items.subrange(0, items.len() as int) =~= items);
        assert(vecs_view(recs@) =~= meta_records(self@));
        encode_records_exec(&recs)
    }

    /// The metadata a file holds.
    pub fn decode(file: &[u8]) -> (r: Result<LogMetadata, Error>)
        ensures
            match r {
                Ok(m) => meta_of(file@) == Some(m@),
                Err(e) => meta_of(file@) is None && e is Corruption,
            },
    {
        let recs = decode_records(file)?;
        let ghost rs = vecs_view(recs@);
        if recs.len() < 1 || recs[0].len() != 16 {
            return Err(Error::Corruption);
        }
        let primary_len = get_le64(recs[0].as_slice(), 0);
        let epoch = get_le64(recs[0].as_slice(), 8);
        let mut items: Vec<MetaItem> = Vec::new();
        let mut i: usize = 1;
        while i < recs.len()
            invariant
                1 <= i <= recs@.len(),
                rs == vecs_view(recs@),
                records_of(file@) == Some(rs),
                forall|j: int| 1 <= j < i ==> (#[trigger] rs[j]).len() >= 17,
                items_view(items@) == rs.subrange(1, i as int).map_values(
                    |r: Seq<u8>| record_item(r).unwrap(),
                ),
            decreases recs@.len() - i,
        {
            let rec = &recs[i];
            if rec.len() < 17 {
                assert(rs[i as int].len() < 17);
                return Err(Error::Corruption);
            }
            let it = MetaItem {
                kind: rec[0],
                progress: get_le64(rec.as_slice(), 1),
                value: get_le64(rec.as_slice(), 9),
                name: copy_range(rec.as_slice(), 17, rec.len()),
            };
            let ghost before = items@;
            items.push(it);
            assert(rs[i as int] == rec@);
            assert(items_view(items@) =~= items_view(before).push(it@));
            assert(rs.subrange(1, i + 1).map_values(|r: Seq<u8>| record_item(r).unwrap())
                =~= rs.subrange(1, i as int).map_values(|r: Seq<u8>| record_item(r).unwrap()).push(record_item(rs[i as int]).unwrap()));
            i = i + 1;
        }
        Ok(LogMetadata { primary_len, epoch, items })
    }
}

/// Whether `it` has `kind` and `name`.
pub open spec fn item_is(it: MetaItemView, kind: u8, name: Seq<u8>) -> bool {
    it.0 == kind && it.3 == name
}

/// The first item of `items` with `kind` and `name`.
pub open spec fn find_item(items: Seq<MetaItemView>, kind: u8, name: Seq<u8>) -> Option<MetaItemView>
    decreases items.len(),
{
    if items.len() == 0 {
        None
    } else if item_is(items[0], kind, name) {
        Some(items[0])
    } else {
        find_item(items.subrange(1, items.len() as int), kind, name)
    }
}

pub proof fn lemma_find_item_at(items: Seq<MetaItemView>, kind: u8, name: Seq<u8>, j: int)
    requires
        0 <= j <= items.len(),
        forall|m: int| 0 <= m < j ==> !item_is(#[trigger] items[m], kind, name),
    ensures
        j < items.len() && item_is(items[j], kind, name) ==> find_item(items, kind, name) == Some(
            items[j],
        ),
        j == items.len() ==> find_item(items, kind, name) is None,
    decreases j,
{
    if j > 0 {
        let rest = items.subrange(1, items.len() as int);
        assert(!item_is(items[0], kind, name));
        assert forall|m: int| 0 <= m < j - 1 implies !item_is(#[trigger] rest[m], kind, name) by {
            assert(rest[m] == items[m + 1]);
        }
        lemma_find_item_at(rest, kind, name, j - 1);
        if j < items.len() {
            assert(rest[j - 1] == items[j]);
        }
    }
}

pub proof fn lemma_find_item_same(a: Seq<MetaItemView>, b: Seq<MetaItemView>, kind: u8, name: Seq<u8>)
    requires
        a.len() == b.len(),
        forall|m: int|
            0 <= m < a.len() ==> (item_is(#[trigger] a[m], kind, name) == item_is(b[m], kind, name))
                && (item_is(a[m], kind, name) ==> a[m] == b[m]),
    ensures
        find_item(a, kind, name) == find_item(b, kind, name),
    decreases a.len(),
{
    if a.len() > 0 {
        let ra = a.subrange(1, a.len() as int);
        let rb = b.subrange(1, b.len() as int);
        assert(item_is(a[0], kind, name) == item_is(b[0], kind, name));
        assert forall|m: int|
            0 <= m < ra.len() implies (item_is(#[trigger] ra[m], kind, name) == item_is(rb[m], kind, name))
                && (item_is(ra[m], kind, name) ==> ra[m] == rb[m]) by {
            assert(ra[m] == a[m + 1]);
            assert(rb[m] == b[m + 1]);
        }
        lemma_find_item_same(ra, rb, kind, name);
    }
}

pub proof fn lemma_find_item_push(a: Seq<MetaItemView>, x: MetaItemView, kind: u8, name: Seq<u8>)
    ensures
        find_item(a.push(x), kind, name) == match find_item(a, kind, name) {
            Some(it) => Some(it),
            None => if item_is(x, kind, name) {
                Some(x)
            } else {
                None
            },
        },
    decreases a.len(),
{
    if a.len() > 0 {
        let rest = a.subrange(1, a.len() as int);
        assert(a.push(x).subrange(1, a.len() + 1 as int) =~= rest.push(x));
        assert(a.push(x)[0] == a[0]);
        lemma_find_item_push(rest, x, kind, name);
    } else {
        assert(a.push(x)[0] == x);
        assert(a.push(x).subrange(1, 1) =~= Seq::<MetaItemView>::empty());
        assert(find_item(Seq::<MetaItemView>::empty(), kind, name) is None);
    }
}

impl LogMetadata {
    /// The position of the first item with `kind` and `name`.
    pub fn find(&self, kind: u8, name: &[u8]) -> (r: Option<usize>)
        ensures
            match r {
                Some(j) => {
                    &&& j < self.items@.len()
                    &&& find_item(self@.items, kind, name@) == Some(self@.items[j as int])
                    &&& item_is(self@.items[j as int], kind, name@)
                    &&& forall|m: int| 0 <= m < j ==> !item_is(#[trigger] self@.items[m], kind, name@)
                },
                None => find_item(self@.items, kind, name@) is None,
            },
    {
        let ghost items = self@.items;
        let mut i: usize = 0;
        while i < self.items.len()
            invariant
                i <= self.items@.len(),
                items == self@.items,
                forall|m: int| 0 <= m < i ==> !item_is(#[trigger] items[m], kind, name@),
            decreases self.items@.len() - i,
        {
            let it = &self.items[i];
            if it.kind == kind && crate::bytes::bytes_eq(it.name.as_slice(), name) {
                proof {
                    assert(items[i as int] == it@);
                    lemma_find_item_at(items, kind, name@, i as int);
                }
                return Some(i);
            }
            assert(items[i as int] == it@);
            i = i + 1;
        }
        proof {
            lemma_find_item_at(items, kind, name@, i as int);
        }
        None
    }

    /// Sets the progress and value of the item with `kind` and `name`,
    /// adding it where it is missing.
    pub fn set_item(&mut self, kind: u8, name: Vec<u8>, progress: u64, value: u64)
        ensures
            find_item(final(self)@.items, kind, name@) == Some((kind, progress, value, name@)),
            forall|k: u8, n: Seq<u8>|
                !(k == kind && n == name@) ==> #[trigger] find_item(final(self)@.items, k, n)
                    == find_item(old(self)@.items, k, n),
            final(self)@.primary_len == old(self)@.primary_len,
            final(self)@.epoch == old(self)@.epoch,
    {
        let ghost before = self@.items;
        let it = MetaItem { kind, progress, value, name };
        let ghost x = it@;
        match self.find(kind, it.name.as_slice()) {
            Some(j) => {
                self.items.set(j, it);
                proof {
                    let after = self@.items;
                    assert(after =~= before.update(j as int, x));
                    assert forall|m: int| 0 <= m < j implies !item_is(#[trigger] after[m], kind, x.3) by {
                        assert(after[m] == before[m]);
                    }
                    lemma_find_item_at(after, kind, x.3, j as int);
                    assert forall|k: u8, n: Seq<u8>| !(k == kind && n == x.3) implies #[trigger] find_item(after, k, n)
                        == find_item(before, k, n) by {
                        lemma_find_item_same(before, after, k, n);
                    }
                }
            },
            None => {
                self.items.push(it);
                proof {
                    let after = self@.items;
                    assert(after =~= before.push(x));
                    lemma_find_item_push(before, x, kind, x.3);
                    assert forall|k: u8, n: Seq<u8>| !(k == kind && n == x.3) implies #[trigger] find_item(after, k, n)
                        == find_item(before, k, n) by {
                        lemma_find_item_push(before, x, k, n);
                    }
                }
            },
        }
    }
}

} // verus!
