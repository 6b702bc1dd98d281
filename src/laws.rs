//! Properties that relate several operations of the log.
use vstd::prelude::*;

use crate::dir::{LogDir, dir_entries, dir_meta, primary_ok};
use crate::entry::{
    ENTRY_HEADER_LEN, checksum_len, checksum_ok, entries_in, entry_at, lemma_entries_in_broken,
    lemma_entries_in_elem, payloads,
};
use crate::index::{lookup_in, scan_entries};
use crate::log::{Log, PRIMARY_START_OFFSET, indexes_damaged};
use crate::open_options::{FlushFilterView, OpenOptionsView, filtered};

verus! {

/// Round trip: when a directory holds exactly what a log has committed, and
/// the log's buffered entries are synced without a flush filter, reopening
/// the directory recovers every entry of the log, in order.
pub proof fn law_round_trip(log: &Log, before: &LogDir, after: &LogDir, reopened: &Log)
    requires
        log.options().flush_filter is None,
        dir_entries(before) is Some,
        payloads(dir_entries(before).unwrap()) == payloads(log.disk_entries()),
        payloads(dir_entries(after).unwrap()) == payloads(dir_entries(before).unwrap()) + filtered(
            log.options().flush_filter,
            payloads(log.mem_entries()),
        ),
        dir_entries(after) == Some(reopened.all_entries()),
    ensures
        reopened.entries() == log.entries(),
{
    lemma_filtered_none(payloads(log.mem_entries()));
    assert(payloads(log.disk_entries() + log.mem_entries()) =~= payloads(log.disk_entries())
        + payloads(log.mem_entries()));
}

/// Without a filter, every buffered entry is written as it is.
pub proof fn lemma_filtered_none(xs: Seq<Seq<u8>>)
    ensures
        filtered(None, xs) == xs,
    decreases xs.len(),
{
    if xs.len() > 0 {
        lemma_filtered_none(xs.drop_last());
        assert(xs.drop_last().push(xs.last()) =~= xs);
    }
}

/// Index correctness: in a sound log, looking a key up in an index gives
/// exactly the offsets a brute-force scan of all entries gives. Logs created
/// in memory are sound, `append` keeps a log sound, and `open` and `sync`
/// give sound logs on directories whose index files and fold checkpoints
/// agree with their entries (`dir_consistent`), which they keep so where
/// names stand for one function each (`names_agree`).
pub proof fn law_lookup_matches_scan(log: &Log, i: int, key: Seq<u8>)
    requires
        log.wf(),
        log.sound(),
        0 <= i < log.index_count(),
    ensures
        lookup_in(log.index_view(i), key) == scan_entries(log.index_func(i), log.all_entries(), key),
{
    log.lemma_index_complete(i);
    crate::index::lemma_lookup_index_entries(log.index_func(i), log.all_entries(), key);
}

/// Crash safety: cutting the primary log anywhere past the committed
/// length changes neither the committed entries nor whether the index
/// state is damaged, so a log that opened before opens the same after.
pub proof fn law_truncated_tail(full: &LogDir, truncated: &LogDir, opts: OpenOptionsView)
    requires
        truncated.meta == full.meta,
        truncated.index_files == full.index_files,
        dir_meta(full) is Some,
        dir_meta(full).unwrap().primary_len <= truncated.primary@.len() <= full.primary@.len(),
        truncated.primary@ == full.primary@.subrange(0, truncated.primary@.len() as int),
    ensures
        dir_entries(truncated) == dir_entries(full),
        indexes_damaged(truncated, dir_meta(truncated).unwrap(), opts) == indexes_damaged(
            full,
            dir_meta(full).unwrap(),
            opts,
        ),
{
    let m = dir_meta(full).unwrap();
    if primary_ok(full.primary@, m) {
        assert(truncated.primary@.subrange(0, m.primary_len as int) =~= full.primary@.subrange(
            0,
            m.primary_len as int,
        ));
        assert(truncated.primary@.subrange(0, PRIMARY_START_OFFSET as int) =~= full.primary@.subrange(
            0,
            PRIMARY_START_OFFSET as int,
        ));
    } else if PRIMARY_START_OFFSET <= m.primary_len {
        assert(truncated.primary@.subrange(0, PRIMARY_START_OFFSET as int) =~= full.primary@.subrange(
            0,
            PRIMARY_START_OFFSET as int,
        ));
    }
}

/// Checksum detection: changing one byte of a committed entry's checksum
/// field or payload, in a way the checksum notices (anything but a collision:
/// a changed entry whose stored checksum still matches its payload), makes
/// the committed entries unreadable, so opening the directory reports
/// corruption, whatever the checksum type.
pub proof fn law_changed_byte_detected(d: &LogDir, changed: &LogDir, k: int, q: int, b: u8)
    requires
        dir_entries(d) is Some,
        0 <= k < dir_entries(d).unwrap().len(),
        changed.meta == d.meta,
        changed.primary@ == d.primary@.update(q, b),
        ({
            let o = dir_entries(d).unwrap()[k].0;
            let p = dir_entries(d).unwrap()[k].1;
            let flag = d.primary@[o];
            let start = o + ENTRY_HEADER_LEN + checksum_len(flag);
            &&& o + ENTRY_HEADER_LEN <= q < start + p.len()
            &&& !checksum_ok(
                flag,
                changed.primary@.subrange(o + ENTRY_HEADER_LEN, start),
                changed.primary@.subrange(start, start + p.len()),
            )
        }),
    ensures
        dir_entries(changed) is None,
{
    let m = dir_meta(d).unwrap();
    let len = m.primary_len as int;
    let buf = d.primary@.subrange(0, len);
    let buf2 = changed.primary@.subrange(0, len);
    let es = entries_in(buf, PRIMARY_START_OFFSET as int).unwrap();
    lemma_entries_in_elem(buf, PRIMARY_START_OFFSET as int, k);
    let o = es[k].0;
    let p = es[k].1;
    let flag = buf[o];
    let start = o + ENTRY_HEADER_LEN + checksum_len(flag);
    assert(buf[o] == d.primary@[o]);
    assert(buf.subrange(start, start + p.len()) == p);
    if primary_ok(changed.primary@, m) {
        assert(buf2 =~= buf.update(q, b));
        assert(buf2.subrange(o + 1, o + 9) =~= buf.subrange(o + 1, o + 9));
        assert(buf2[o] == buf[o]);
        assert(buf2.subrange(o + ENTRY_HEADER_LEN, start) =~= changed.primary@.subrange(o + ENTRY_HEADER_LEN, start));
        assert(buf2.subrange(start, start + p.len()) =~= changed.primary@.subrange(start, start + p.len()));
        assert(entry_at(buf2, o) is None);
        lemma_entries_in_broken(buf, buf2, PRIMARY_START_OFFSET as int, k);
    }
}

/// The buffer of `sessions[j]` joins the log where `committed[j]` holds.
pub open spec fn committed_buffers(sessions: Seq<Seq<Seq<u8>>>, committed: Seq<bool>) -> Seq<Seq<u8>>
    decreases sessions.len(),
{
    if sessions.len() == 0 {
        Seq::empty()
    } else {
        let rest = committed_buffers(sessions.drop_last(), committed);
        if committed[sessions.len() - 1] {
            rest + sessions.last()
        } else {
            rest
        }
    }
}

/// Round trip over several sessions: when each session on a directory either
/// syncs its buffer (with no filter and no other writer: the committed
/// entries grow by exactly that buffer) or is dropped unsynced (the directory
/// keeps its entries), the directory ends with its first entries followed by
/// the buffers of the synced sessions, in commit order; dropped buffers never
/// appear, and reopening recovers exactly that sequence.
pub proof fn law_sessions_round_trip(
    dirs: Seq<Seq<Seq<u8>>>,
    sessions: Seq<Seq<Seq<u8>>>,
    committed: Seq<bool>,
)
    requires
        dirs.len() == sessions.len() + 1,
        committed.len() == sessions.len(),
        forall|j: int|
            0 <= j < sessions.len() ==> #[trigger] dirs[j + 1] == if committed[j] {
                dirs[j] + filtered(None, sessions[j])
            } else {
                dirs[j]
            },
    ensures
        dirs.last() == dirs[0] + committed_buffers(sessions, committed),
    decreases sessions.len(),
{
    if sessions.len() > 0 {
        let n = sessions.len() - 1;
        law_sessions_round_trip(dirs.drop_last(), sessions.drop_last(), committed.drop_last());
        assert(dirs.drop_last().last() == dirs[n]);
        assert(dirs[n + 1] == dirs.last());
        lemma_filtered_none(sessions[n]);
        assert(committed_buffers(sessions.drop_last(), committed.drop_last()) == committed_buffers(
            sessions.drop_last(),
            committed,
        )) by {
            lemma_committed_buffers_prefix(sessions.drop_last(), committed.drop_last(), committed);
        }
        if committed[n] {
            assert(dirs[0] + committed_buffers(sessions, committed) =~= dirs[0] + committed_buffers(
                sessions.drop_last(),
                committed,
            ) + sessions[n]);
        }
    } else {
        assert(dirs[0] + Seq::<Seq<u8>>::empty() =~= dirs[0]);
    }
}

pub proof fn lemma_committed_buffers_prefix(
    sessions: Seq<Seq<Seq<u8>>>,
    a: Seq<bool>,
    b: Seq<bool>,
)
    requires
        sessions.len() <= a.len(),
        sessions.len() <= b.len(),
        forall|j: int| 0 <= j < sessions.len() ==> a[j] == b[j],
    ensures
        committed_buffers(sessions, a) == committed_buffers(sessions, b),
    decreases sessions.len(),
{
    if sessions.len() > 0 {
        lemma_committed_buffers_prefix(sessions.drop_last(), a, b);
    }
}

/// What a filter that drops one value writes: every buffered entry but those
/// equal to it, in order.
pub proof fn law_drop_filter(xs: Seq<Seq<u8>>, sentinel: Seq<u8>)
    ensures
        filtered(Some(FlushFilterView::DropEqual(sentinel)), xs) == xs.filter(
            |x: Seq<u8>| x != sentinel,
        ),
    decreases xs.len(),
{
    reveal(Seq::filter);
    if xs.len() > 0 {
        law_drop_filter(xs.drop_last(), sentinel);
    }
}

/// What a filter that replaces one value writes: every buffered entry, with
/// those equal to `from` replaced by `to`.
pub proof fn law_replace_filter(xs: Seq<Seq<u8>>, from: Seq<u8>, to: Seq<u8>)
    ensures
        filtered(Some(FlushFilterView::ReplaceEqual(from, to)), xs) == xs.map_values(
            |x: Seq<u8>| if x == from {
                to
            } else {
                x
            },
        ),
    decreases xs.len(),
{
    if xs.len() > 0 {
        law_replace_filter(xs.drop_last(), from, to);
        assert(xs.map_values(|x: Seq<u8>| if x == from { to } else { x }) =~= xs.drop_last().map_values(
            |x: Seq<u8>| if x == from { to } else { x },
        ).push(if xs.last() == from { to } else { xs.last() }));
    } else {
        assert(xs.map_values(|x: Seq<u8>| if x == from { to } else { x }) =~= xs);
    }
}

} // verus!
