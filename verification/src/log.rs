//! Replay: the meaning of a folder of log files.
//!
//! A log file replays front to back, each record updating a key/value map;
//! replay stops at the first position that does not parse (a torn tail).
//! A folder replays its files in ascending generation order. The store's
//! central invariant is that its in-memory index reads exactly as the
//! replay of its folder, which is what makes closing and reopening lossless.

use vstd::prelude::*;

use crate::codec::{
    encodable, encode_record, lemma_parse_bounds, lemma_parse_encode, lemma_parse_stable,
    parse_record, SpecRecord,
};
use crate::storage::LogFile;

verus! {

/// One record's effect on the replayed map.
pub open spec fn apply_rec(m: Map<Seq<char>, Seq<char>>, r: SpecRecord) -> Map<
    Seq<char>,
    Seq<char>,
> {
    match r {
        SpecRecord::RSet { key, value } => m.insert(key, value),
        SpecRecord::RRemove { key } => m.remove(key),
    }
}

/// A log is clean from `pos` on: records chain exactly to the end, with
/// no trailing bytes. The store only ever appends whole records, so the
/// files it writes are clean.
pub open spec fn wf_log_from(bytes: Seq<u8>, pos: int) -> bool
    decreases bytes.len() - pos,
    when 0 <= pos <= bytes.len()
    via wf_log_from_decreases
{
    match parse_record(bytes, pos) {
        Some(pr) => wf_log_from(bytes, pr.1),
        None => pos == bytes.len(),
    }
}

#[via_fn]
proof fn wf_log_from_decreases(bytes: Seq<u8>, pos: int) {
    if parse_record(bytes, pos) is Some {
        lemma_parse_bounds(bytes, pos);
    }
}

/// Replays the records of `bytes` from `pos` onto `m`, stopping at the
/// first position that does not parse.
pub open spec fn replay_bytes(bytes: Seq<u8>, pos: int, m: Map<Seq<char>, Seq<char>>) -> Map<
    Seq<char>,
    Seq<char>,
>
    decreases bytes.len() - pos,
    when 0 <= pos <= bytes.len()
    via replay_bytes_decreases
{
    match parse_record(bytes, pos) {
        Some(pr) => replay_bytes(bytes, pr.1, apply_rec(m, pr.0)),
        None => m,
    }
}

#[via_fn]
proof fn replay_bytes_decreases(bytes: Seq<u8>, pos: int, m: Map<Seq<char>, Seq<char>>) {
    if parse_record(bytes, pos) is Some {
        lemma_parse_bounds(bytes, pos);
    }
}

/// Replays a list of files front to back.
pub open spec fn replay_files(files: Seq<LogFile>, m: Map<Seq<char>, Seq<char>>) -> Map<
    Seq<char>,
    Seq<char>,
>
    decreases files.len(),
{
    if files.len() == 0 {
        m
    } else {
        replay_files(files.drop_first(), replay_bytes(files[0].data@, 0, m))
    }
}

/// The replay of a whole folder, files in list order.
pub open spec fn replay_folder(files: Seq<LogFile>) -> Map<Seq<char>, Seq<char>> {
    replay_files(files, Map::empty())
}

/// What replay assigns to one key.
pub open spec fn replay_val(files: Seq<LogFile>, k: Seq<char>) -> Option<Seq<char>> {
    if replay_folder(files).dom().contains(k) {
        Some(replay_folder(files)[k])
    } else {
        None
    }
}

/// Appending one whole record to a clean log replays as applying that
/// record after the rest, and the log stays clean.
pub proof fn lemma_log_extend(
    data: Seq<u8>,
    r: SpecRecord,
    pos: int,
    m: Map<Seq<char>, Seq<char>>,
)
    requires
        0 <= pos <= data.len(),
        wf_log_from(data, pos),
        encodable(r),
    ensures
        wf_log_from(data + encode_record(r), pos),
        replay_bytes(data + encode_record(r), pos, m) == apply_rec(replay_bytes(data, pos, m), r),
    decreases data.len() - pos,
{
    let enc = encode_record(r);
    let whole = data + enc;
    if pos == data.len() {
        assert(parse_record(data, pos) is None);
        assert(whole.subrange(pos, pos + enc.len()) =~= enc);
        lemma_parse_encode(whole, pos, r);
        assert(parse_record(whole, pos) == Some((r, pos + enc.len())));
        assert(pos + enc.len() == whole.len());
        assert(parse_record(whole, whole.len() as int) is None);
        assert(replay_bytes(whole, pos, m) == replay_bytes(
            whole,
            whole.len() as int,
            apply_rec(m, r),
        ));
        assert(replay_bytes(whole, whole.len() as int, apply_rec(m, r)) == apply_rec(m, r));
        assert(replay_bytes(data, pos, m) == m);
        assert(wf_log_from(whole, whole.len() as int));
    } else {
        assert(parse_record(data, pos) is Some);
        let pr = parse_record(data, pos)->0;
        lemma_parse_bounds(data, pos);
        assert(whole.subrange(0, data.len() as int) =~= data);
        lemma_parse_stable(data, whole, pos);
        lemma_log_extend(data, r, pr.1, apply_rec(m, pr.0));
    }
}

/// The replay of a file list is unchanged by appending an empty file.
pub proof fn lemma_files_push_empty(files: Seq<LogFile>, f: LogFile, m: Map<Seq<char>, Seq<char>>)
    requires
        f.data@.len() == 0,
    ensures
        replay_files(files.push(f), m) == replay_files(files, m),
    decreases files.len(),
{
    if files.len() == 0 {
        assert(files.push(f)[0] == f);
        assert(parse_record(f.data@, 0) is None);
        assert(replay_bytes(f.data@, 0, m) == m);
        assert(files.push(f).drop_first() =~= Seq::<LogFile>::empty());
        assert(replay_files(files.push(f).drop_first(), replay_bytes(f.data@, 0, m)) == m);
        assert(replay_files(files.push(f), m) == m);
        assert(replay_files(files, m) == m);
    } else {
        assert(files.push(f)[0] == files[0]);
        assert(files.push(f).drop_first() =~= files.drop_first().push(f));
        lemma_files_push_empty(files.drop_first(), f, replay_bytes(files[0].data@, 0, m));
    }
}

/// Files replay back to front as well: the last file's records apply after
/// the replay of everything before it.
pub proof fn lemma_replay_files_snoc(s: Seq<LogFile>, f: LogFile, m: Map<Seq<char>, Seq<char>>)
    ensures
        replay_files(s.push(f), m) == replay_bytes(f.data@, 0, replay_files(s, m)),
    decreases s.len(),
{
    if s.len() == 0 {
        assert(s.push(f)[0] == f);
        assert(s.push(f).drop_first() =~= Seq::<LogFile>::empty());
        assert(replay_files(s.push(f).drop_first(), replay_bytes(f.data@, 0, m))
            == replay_bytes(f.data@, 0, m));
        assert(replay_files(s, m) == m);
    } else {
        assert(s.push(f)[0] == s[0]);
        assert(s.push(f).drop_first() =~= s.drop_first().push(f));
        lemma_replay_files_snoc(s.drop_first(), f, replay_bytes(s[0].data@, 0, m));
    }
}

/// Appending one whole record to the newest file of a list, when that file
/// is clean, replays as applying the record after everything else.
pub proof fn lemma_files_extend(
    files: Seq<LogFile>,
    f2: LogFile,
    r: SpecRecord,
    m: Map<Seq<char>, Seq<char>>,
)
    requires
        files.len() >= 1,
        wf_log_from(files.last().data@, 0),
        encodable(r),
        f2.gen == files.last().gen,
        f2.data@ == files.last().data@ + encode_record(r),
    ensures
        replay_files(files.update(files.len() - 1, f2), m) == apply_rec(
            replay_files(files, m),
            r,
        ),
        wf_log_from(f2.data@, 0),
    decreases files.len(),
{
    let upd = files.update(files.len() - 1, f2);
    if files.len() == 1 {
        assert(upd[0] == f2);
        assert(upd.drop_first() =~= Seq::<LogFile>::empty());
        assert(files.drop_first() =~= Seq::<LogFile>::empty());
        assert(files[0] == files.last());
        lemma_log_extend(files.last().data@, r, 0, m);
        assert(replay_files(upd.drop_first(), replay_bytes(upd[0].data@, 0, m)) == replay_bytes(
            upd[0].data@,
            0,
            m,
        ));
        assert(replay_files(upd, m) == replay_bytes(f2.data@, 0, m));
        assert(replay_files(files.drop_first(), replay_bytes(files[0].data@, 0, m))
            == replay_bytes(files[0].data@, 0, m));
        assert(replay_files(files, m) == replay_bytes(files[0].data@, 0, m));
    } else {
        assert(upd[0] == files[0]);
        assert(upd.drop_first() =~= files.drop_first().update(files.drop_first().len() - 1, f2));
        assert(files.drop_first().last() == files.last());
        lemma_files_extend(files.drop_first(), f2, r, replay_bytes(files[0].data@, 0, m));
    }
}

} // verus!
