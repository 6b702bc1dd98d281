//! The on-disk format of one entry: a flag byte naming the checksum
//! algorithm, the payload length (8 bytes, little-endian), the checksum of the
//! payload (8 or 4 bytes), then the payload.
use vstd::prelude::*;

use crate::bytes::{copy_range, get_le32, get_le64, le32, le64, push_all, push_le32, push_le64,
    read_le32, read_le64, lemma_le32_round_trip, lemma_le64_round_trip};
use crate::checksum::{
    ChecksumType, ENTRY_FLAG_XXHASH64, ENTRY_FLAG_XXHASH32, is_entry_flag, spec_entry_flag,
    xxhash32, xxhash32_of, xxhash64, xxhash64_of,
};
use crate::error::Error;

verus! {

/// Bytes before the checksum field: the flag and the payload length.
pub const ENTRY_HEADER_LEN: usize = 9;

/// Size of the checksum field for an entry with `flag`.
pub open spec fn checksum_len(flag: u8) -> nat {
    if flag == ENTRY_FLAG_XXHASH64 {
        8
    } else {
        4
    }
}

/// The checksum field stored for `data` under `flag`.
pub open spec fn checksum_field(flag: u8, data: Seq<u8>) -> Seq<u8> {
    if flag == ENTRY_FLAG_XXHASH64 {
        le64(xxhash64_of(data))
    } else {
        le32(xxhash32_of(data))
    }
}

/// Whether the stored checksum `field` matches `data` under `flag`.
pub open spec fn checksum_ok(flag: u8, field: Seq<u8>, data: Seq<u8>) -> bool {
    if flag == ENTRY_FLAG_XXHASH64 {
        read_le64(field) == xxhash64_of(data)
    } else {
        read_le32(field) == xxhash32_of(data)
    }
}

/// The bytes of one encoded entry.
pub open spec fn encode_entry(flag: u8, data: Seq<u8>) -> Seq<u8> {
    seq![flag] + le64(data.len() as u64) + checksum_field(flag, data) + data
}

/// The entry that starts at `pos` in `buf`: its payload and the position
/// after it; `None` where the bytes there are malformed or fail the checksum.
pub open spec fn entry_at(buf: Seq<u8>, pos: int) -> Option<(Seq<u8>, int)> {
    if pos < 0 || pos + ENTRY_HEADER_LEN > buf.len() {
        None
    } else {
        let flag = buf[pos];
        if !is_entry_flag(flag) {
            None
        } else {
            let len = read_le64(buf.subrange(pos + 1, pos + 9)) as int;
            let start = pos + ENTRY_HEADER_LEN + checksum_len(flag);
            let end = start + len;
            if end > buf.len() {
                None
            } else {
                let data = buf.subrange(start, end);
                if checksum_ok(flag, buf.subrange(pos + ENTRY_HEADER_LEN, start), data) {
                    Some((data, end))
                } else {
                    None
                }
            }
        }
    }
}

/// The entries that fill `buf` from `pos` to its end, each with its offset;
/// `None` where any of them is malformed or fails its checksum.
pub open spec fn entries_in(buf: Seq<u8>, pos: int) -> Option<Seq<(int, Seq<u8>)>>
    decreases buf.len() - pos,
{
    if pos >= buf.len() {
        if pos == buf.len() {
            Some(Seq::empty())
        } else {
            None
        }
    } else {
        match entry_at(buf, pos) {
            None => None,
            Some((data, next)) => if pos < next <= buf.len() {
                match entries_in(buf, next) {
                    None => None,
                    Some(rest) => Some(seq![(pos, data)] + rest),
                }
            } else {
                None
            },
        }
    }
}

/// The encoded size of an entry of `len` bytes under `checksum_type`.
pub open spec fn entry_size(checksum_type: ChecksumType, len: nat) -> int {
    ENTRY_HEADER_LEN + checksum_len(spec_entry_flag(checksum_type, len)) + len
}

/// The encoded size of `datas`, each as one entry under `checksum_type`.
pub open spec fn entries_size(checksum_type: ChecksumType, datas: Seq<Seq<u8>>) -> int
    decreases datas.len(),
{
    if datas.len() == 0 {
        0
    } else {
        entries_size(checksum_type, datas.drop_last()) + entry_size(checksum_type, datas.last().len())
    }
}

/// The payloads of `entries`, in order.
pub open spec fn payloads(entries: Seq<(int, Seq<u8>)>) -> Seq<Seq<u8>> {
    entries.map_values(|e: (int, Seq<u8>)| e.1)
}

/// The model of a list of (offset, payload) pairs.
pub open spec fn view_entries(v: Seq<(u64, Vec<u8>)>) -> Seq<(int, Seq<u8>)> {
    v.map_values(|e: (u64, Vec<u8>)| (e.0 as int, e.1@))
}

pub proof fn lemma_entry_at_extend(buf: Seq<u8>, extra: Seq<u8>, pos: int)
    requires
        entry_at(buf, pos) is Some,
    ensures
        entry_at(buf + extra, pos) == entry_at(buf, pos),
{
    let b2 = buf + extra;
    let flag = buf[pos];
    assert(b2[pos] == flag);
    assert(b2.subrange(pos + 1, pos + 9) =~= buf.subrange(pos + 1, pos + 9));
    let len = read_le64(buf.subrange(pos + 1, pos + 9)) as int;
    let start = pos + ENTRY_HEADER_LEN + checksum_len(flag);
    let end = start + len;
    assert(b2.subrange(start, end) =~= buf.subrange(start, end));
    assert(b2.subrange(pos + ENTRY_HEADER_LEN, start) =~= buf.subrange(
        pos + ENTRY_HEADER_LEN,
        start,
    ));
}

pub proof fn lemma_encode_entry_len(flag: u8, data: Seq<u8>)
    requires
        is_entry_flag(flag),
    ensures
        encode_entry(flag, data).len() == ENTRY_HEADER_LEN + checksum_len(flag) + data.len(),
{
    lemma_le64_round_trip(data.len() as u64);
    lemma_le64_round_trip(xxhash64_of(data));
    lemma_le32_round_trip(xxhash32_of(data));
}

pub proof fn lemma_entry_at_encoded(buf: Seq<u8>, flag: u8, data: Seq<u8>)
    requires
        is_entry_flag(flag),
        data.len() <= u64::MAX,
    ensures
        entry_at(buf + encode_entry(flag, data), buf.len() as int) == Some(
            (data, (buf.len() + encode_entry(flag, data).len()) as int),
        ),
{
    let enc = encode_entry(flag, data);
    let b2 = buf + enc;
    let pos = buf.len() as int;
    lemma_encode_entry_len(flag, data);
    lemma_le64_round_trip(data.len() as u64);
    lemma_le64_round_trip(xxhash64_of(data));
    lemma_le32_round_trip(xxhash32_of(data));
    assert(b2[pos] == flag);
    assert(b2.subrange(pos + 1, pos + 9) =~= le64(data.len() as u64));
    let start = pos + ENTRY_HEADER_LEN + checksum_len(flag);
    assert(b2.subrange(pos + ENTRY_HEADER_LEN, start) =~= checksum_field(flag, data));
    assert(b2.subrange(start, start + data.len()) =~= data);
}

pub proof fn lemma_entries_in_concat(buf: Seq<u8>, extra: Seq<u8>, pos: int)
    requires
        entries_in(buf, pos) is Some,
    ensures
        entries_in(buf + extra, pos) == match entries_in(buf + extra, buf.len() as int) {
            Some(rest) => Some(entries_in(buf, pos).unwrap() + rest),
            None => None,
        },
    decreases buf.len() - pos,
{
    let b2 = buf + extra;
    if pos >= buf.len() {
        assert(pos == buf.len());
        match entries_in(b2, pos) {
            Some(rest) => {
                assert(entries_in(buf, pos).unwrap() + rest =~= rest);
            },
            None => {},
        }
    } else {
        let (data, next) = entry_at(buf, pos).unwrap();
        lemma_entry_at_extend(buf, extra, pos);
        lemma_entries_in_concat(buf, extra, next);
        let head = seq![(pos, data)];
        let rest = entries_in(buf, next).unwrap();
        match entries_in(b2, buf.len() as int) {
            Some(tail) => {
                assert(head + (rest + tail) =~= (head + rest) + tail);
            },
            None => {},
        }
    }
}

pub proof fn lemma_entries_in_append(buf: Seq<u8>, flag: u8, data: Seq<u8>, pos: int)
    requires
        entries_in(buf, pos) is Some,
        is_entry_flag(flag),
        data.len() <= u64::MAX,
    ensures
        entries_in(buf + encode_entry(flag, data), pos) == Some(
            entries_in(buf, pos).unwrap().push((buf.len() as int, data)),
        ),
{
    let enc = encode_entry(flag, data);
    let b2 = buf + enc;
    lemma_entries_in_concat(buf, enc, pos);
    lemma_entry_at_encoded(buf, flag, data);
    lemma_encode_entry_len(flag, data);
    let next = (buf.len() + enc.len()) as int;
    assert(entries_in(b2, next) == Some(Seq::<(int, Seq<u8>)>::empty()));
    assert(entries_in(b2, buf.len() as int) == Some(seq![(buf.len() as int, data)] + Seq::<
        (int, Seq<u8>),
    >::empty()));
    assert(seq![(buf.len() as int, data)] + Seq::<(int, Seq<u8>)>::empty() =~= seq![
        (buf.len() as int, data),
    ]);
    assert(entries_in(buf, pos).unwrap() + seq![(buf.len() as int, data)] =~= entries_in(
        buf,
        pos,
    ).unwrap().push((buf.len() as int, data)));
}

pub proof fn lemma_entry_at_prefix(buf: Seq<u8>, buf2: Seq<u8>, pos: int)
    requires
        entry_at(buf, pos) is Some,
        entry_at(buf, pos).unwrap().1 <= buf2.len(),
        forall|i: int| 0 <= i < entry_at(buf, pos).unwrap().1 ==> buf2[i] == buf[i],
    ensures
        entry_at(buf2, pos) == entry_at(buf, pos),
{
    let next = entry_at(buf, pos).unwrap().1;
    let flag = buf[pos];
    assert(buf2.subrange(pos + 1, pos + 9) =~= buf.subrange(pos + 1, pos + 9));
    let len = read_le64(buf.subrange(pos + 1, pos + 9)) as int;
    let start = pos + ENTRY_HEADER_LEN + checksum_len(flag);
    assert(buf2.subrange(start, start + len) =~= buf.subrange(start, start + len));
    assert(buf2.subrange(pos + ENTRY_HEADER_LEN, start) =~= buf.subrange(pos + ENTRY_HEADER_LEN, start));
}

pub proof fn lemma_entries_in_elem(buf: Seq<u8>, pos: int, k: int)
    requires
        entries_in(buf, pos) is Some,
        0 <= k < entries_in(buf, pos).unwrap().len(),
    ensures
        ({
            let e = entries_in(buf, pos).unwrap()[k];
            &&& e.0 >= pos
            &&& entry_at(buf, e.0) is Some
            &&& entry_at(buf, e.0).unwrap().0 == e.1
        }),
    decreases k,
{
    let (data, next) = entry_at(buf, pos).unwrap();
    if k > 0 {
        lemma_entries_in_elem(buf, next, k - 1);
        assert(entries_in(buf, pos).unwrap()[k] == entries_in(buf, next).unwrap()[k - 1]);
    }
}

pub proof fn lemma_entries_in_offsets(buf: Seq<u8>, pos: int)
    requires
        entries_in(buf, pos) is Some,
    ensures
        forall|k: int|
            0 <= k < entries_in(buf, pos).unwrap().len() ==> pos <= (#[trigger] entries_in(
                buf,
                pos,
            ).unwrap()[k]).0 < buf.len(),
{
    assert forall|k: int|
        0 <= k < entries_in(buf, pos).unwrap().len() implies pos <= (#[trigger] entries_in(
            buf,
            pos,
        ).unwrap()[k]).0 < buf.len() by {
        lemma_entries_in_elem(buf, pos, k);
    }
}

pub proof fn lemma_entries_in_broken(buf: Seq<u8>, buf2: Seq<u8>, pos: int, k: int)
    requires
        entries_in(buf, pos) is Some,
        0 <= k < entries_in(buf, pos).unwrap().len(),
        buf2.len() == buf.len(),
        forall|i: int| 0 <= i < entries_in(buf, pos).unwrap()[k].0 ==> buf2[i] == buf[i],
        entry_at(buf2, entries_in(buf, pos).unwrap()[k].0) is None,
    ensures
        entries_in(buf2, pos) is None,
    decreases k,
{
    let (data, next) = entry_at(buf, pos).unwrap();
    if k > 0 {
        let es = entries_in(buf, pos).unwrap();
        assert(es[k] == entries_in(buf, next).unwrap()[k - 1]);
        lemma_entries_in_elem(buf, next, k - 1);
        lemma_entry_at_prefix(buf, buf2, pos);
        lemma_entries_in_broken(buf, buf2, next, k - 1);
    }
}

/// Appends the encoding of `data` under `checksum_type` to `out`, and returns
/// the entry flag that was chosen.
pub fn encode_entry_into(out: &mut Vec<u8>, checksum_type: ChecksumType, data: &[u8]) -> (flag: u8)
    ensures
        flag == spec_entry_flag(checksum_type, data@.len()),
        is_entry_flag(flag),
        final(out)@ == old(out)@ + encode_entry(flag, data@),
{
    let flag = checksum_type.entry_flag(data.len());
    let ghost start = out@;
    out.push(flag);
    push_le64(out, data.len() as u64);
    if flag == ENTRY_FLAG_XXHASH64 {
        let h = xxhash64(data);
        push_le64(out, h);
    } else {
        let h = xxhash32(data);
        push_le32(out, h);
    }
    push_all(out, data);
    assert(out@ =~= start + encode_entry(flag, data@));
    flag
}

/// Locates the entry that starts at `pos`: returns where its payload starts
/// and ends, after checking its checksum.
pub fn read_entry(buf: &[u8], pos: usize) -> (r: Result<(usize, usize), Error>)
    ensures
        match r {
            Ok((start, end)) => {
                &&& pos < start <= end <= buf@.len()
                &&& entry_at(buf@, pos as int) == Some(
                    (buf@.subrange(start as int, end as int), end as int),
                )
            },
            Err(e) => entry_at(buf@, pos as int) is None && e is Corruption,
        },
{
    if pos > buf.len() || buf.len() - pos < ENTRY_HEADER_LEN {
        return Err(Error::Corruption);
    }
    let flag = buf[pos];
    if flag != ENTRY_FLAG_XXHASH64 && flag != ENTRY_FLAG_XXHASH32 {
        return Err(Error::Corruption);
    }
    let len = get_le64(buf, pos + 1);
    let sum_len: usize = if flag == ENTRY_FLAG_XXHASH64 {
        8
    } else {
        4
    };
    if buf.len() - pos - ENTRY_HEADER_LEN < sum_len {
        return Err(Error::Corruption);
    }
    let start = pos + ENTRY_HEADER_LEN + sum_len;
    if len > (buf.len() - start) as u64 {
        return Err(Error::Corruption);
    }
    let end = start + len as usize;
    let data = copy_range(buf, start, end);
    let ok = if flag == ENTRY_FLAG_XXHASH64 {
        get_le64(buf, pos + ENTRY_HEADER_LEN) == xxhash64(data.as_slice())
    } else {
        get_le32(buf, pos + ENTRY_HEADER_LEN) == xxhash32(data.as_slice())
    };
    if ok {
        Ok((start, end))
    } else {
        Err(Error::Corruption)
    }
}

/// Decodes every entry of `buf` from `pos` to its end, with their offsets.
pub fn parse_entries(buf: &[u8], pos: usize) -> (r: Result<Vec<(u64, Vec<u8>)>, Error>)
    ensures
        match r {
            Ok(v) => entries_in(buf@, pos as int) == Some(view_entries(v@)),
            Err(e) => entries_in(buf@, pos as int) is None && e is Corruption,
        },
{
    let mut out: Vec<(u64, Vec<u8>)> = Vec::new();
    let mut p: usize = pos;
    if p > buf.len() {
        return Err(Error::Corruption);
    }
    while p < buf.len()
        invariant
            p <= buf@.len(),
            entries_in(buf@, pos as int) == match entries_in(buf@, p as int) {
                Some(rest) => Some(view_entries(out@) + rest),
                None => None,
            },
        decreases buf@.len() - p,
    {
        match read_entry(buf, p) {
            Err(e) => {
                return Err(e);
            },
            Ok((start, end)) => {
                let data = copy_range(buf, start, end);
                let ghost old_out = out@;
                out.push((p as u64, data));
                proof {
                    assert(view_entries(out@) =~= view_entries(old_out) + seq![
                        (p as int, data@),
                    ]);
                    match entries_in(buf@, end as int) {
                        Some(rest) => {
                            assert(view_entries(old_out) + (seq![(p as int, data@)] + rest)
                                =~= view_entries(out@) + rest);
                        },
                        None => {},
                    }
                }
                p = end;
            },
        }
    }
    assert(view_entries(out@) + Seq::<(int, Seq<u8>)>::empty() =~= view_entries(out@));
    Ok(out)
}

} // verus!
