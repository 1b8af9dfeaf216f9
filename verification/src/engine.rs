//! The log-structured store.
//!
//! Keys map to byte ranges of framed `Set` records inside generation files;
//! writes append records to the newest file; removals append `Remove`
//! records; stale bytes are counted and compacted away once they pass a
//! threshold. The store's invariant ties the in-memory index to the replay
//! of its folder, so closing and reopening rebuilds the same state.

use vstd::prelude::*;

use crate::codec::{
    encodable, encode_command, encode_record, lemma_parse_stable, parse_command, parse_record,
    Command, SpecRecord,
};
use crate::log::{
    apply_rec, lemma_files_extend, replay_bytes, replay_files, replay_folder, replay_val,
    wf_log_from,
};
use crate::order::{str_compare, str_lt, StrOrd};
use crate::storage::{
    bytes_of, has_gen, lemma_bytes_of_absent, lemma_bytes_of_at, lemma_bytes_of_update,
    sorted_gens, unique_gens, Folder, LogFile,
};

verus! {

/// Stale bytes tolerated before a write triggers compaction.
pub const COMPACTION_THRESHOLD: u64 = 16384;

/// The store's errors.
#[derive(Debug, Clone, Copy, PartialEq, Eq, Structural)]
pub enum KvsError {
    /// `remove` of a key that is not present.
    KeyNotFound,
    /// A log record read back as something other than the `Set` the index
    /// promised: corruption.
    UnexpectedCommandType,
    /// The folder's generation numbers leave no room for a fresh writer.
    GenerationExhausted,
}

impl KvsError {
    /// A short description of the error.
    pub fn message(&self) -> (s: &'static str)
        ensures
            s@ == match self {
                KvsError::KeyNotFound => "Key not found"@,
                KvsError::UnexpectedCommandType => "Unexpected command type"@,
                KvsError::GenerationExhausted => "Generation numbers exhausted"@,
            },
    {
        match self {
            KvsError::KeyNotFound => "Key not found",
            KvsError::UnexpectedCommandType => "Unexpected command type",
            KvsError::GenerationExhausted => "Generation numbers exhausted",
        }
    }
}

/// Where the newest `Set` for a key lies: generation, byte offset, length.
#[derive(Debug, Clone, Copy)]
pub struct CommandPos {
    pub gen: u64,
    pub pos: u64,
    pub len: u64,
}

/// The position the index assigns to key `k`: the first matching entry.
pub open spec fn ival(s: Seq<(String, CommandPos)>, k: Seq<char>) -> Option<CommandPos>
    decreases s.len(),
{
    if s.len() == 0 {
        None
    } else if s[0].0@ == k {
        Some(s[0].1)
    } else {
        ival(s.drop_first(), k)
    }
}

/// Whether some entry is for key `k`.
pub open spec fn has_key(s: Seq<(String, CommandPos)>, k: Seq<char>) -> bool {
    exists|i: int| 0 <= i < s.len() && s[i].0@ == k
}

/// Index entries strictly ascend by key.
pub open spec fn sorted_keys(s: Seq<(String, CommandPos)>) -> bool {
    forall|i: int, j: int| 0 <= i < j < s.len() ==> str_lt(#[trigger] s[i].0@, #[trigger] s[j].0@)
}

/// The bytes the live index entries cover.
pub open spec fn live_total(s: Seq<(String, CommandPos)>) -> int
    decreases s.len(),
{
    if s.len() == 0 {
        0
    } else {
        s[0].1.len + live_total(s.drop_first())
    }
}

/// The bytes all files hold together.
pub open spec fn total_size(s: Seq<LogFile>) -> int
    decreases s.len(),
{
    if s.len() == 0 {
        0
    } else {
        s[0].data@.len() + total_size(s.drop_first())
    }
}

/// A matching position means some entry carries the key.
proof fn lemma_ival_some_has_key(s: Seq<(String, CommandPos)>, k: Seq<char>)
    requires
        ival(s, k) is Some,
    ensures
        has_key(s, k),
    decreases s.len(),
{
    if s.len() > 0 {
        if s[0].0@ == k {
        } else {
            assert(forall|j: int|
                0 <= j < s.drop_first().len() ==> #[trigger] s.drop_first()[j] == s[j + 1]);
            lemma_ival_some_has_key(s.drop_first(), k);
            let j = choose|j: int| 0 <= j < s.drop_first().len() && s.drop_first()[j].0@ == k;
            assert(s[j + 1].0@ == k);
        }
    }
}

/// A key without an entry reads as absent.
proof fn lemma_ival_absent(s: Seq<(String, CommandPos)>, k: Seq<char>)
    requires
        !has_key(s, k),
    ensures
        ival(s, k) is None,
    decreases s.len(),
{
    if s.len() > 0 {
        assert(s[0].0@ != k);
        assert(forall|j: int|
            0 <= j < s.drop_first().len() ==> #[trigger] s.drop_first()[j] == s[j + 1]);
        lemma_ival_absent(s.drop_first(), k);
    }
}

/// With sorted (hence unique) keys, any matching entry gives the position.
proof fn lemma_ival_at(s: Seq<(String, CommandPos)>, i: int)
    requires
        sorted_keys(s),
        0 <= i < s.len(),
    ensures
        ival(s, s[i].0@) == Some(s[i].1),
    decreases s.len(),
{
    if i > 0 {
        assert(str_lt(s[0].0@, s[i].0@));
        assert(s[0].0@ != s[i].0@) by {
            crate::order::lemma_str_trichotomy(s[0].0@, s[i].0@);
        }
        assert(forall|j: int|
            0 <= j < s.drop_first().len() ==> #[trigger] s.drop_first()[j] == s[j + 1]);
        lemma_ival_at(s.drop_first(), i - 1);
    }
}

/// Updating entry `i` in place changes only its key's reading.
proof fn lemma_ival_update(s: Seq<(String, CommandPos)>, i: int, e: (String, CommandPos), k: Seq<char>)
    requires
        sorted_keys(s),
        0 <= i < s.len(),
        e.0@ == s[i].0@,
    ensures
        ival(s.update(i, e), k) == if k == e.0@ {
            Some(e.1)
        } else {
            ival(s, k)
        },
    decreases s.len(),
{
    if i == 0 {
        assert(s.update(0, e)[0] == e);
        assert(s.update(0, e).drop_first() =~= s.drop_first());
    } else {
        assert(s.update(i, e)[0] == s[0]);
        assert(s.update(i, e).drop_first() =~= s.drop_first().update(i - 1, e));
        assert(forall|j: int|
            0 <= j < s.drop_first().len() ==> #[trigger] s.drop_first()[j] == s[j + 1]);
        lemma_ival_update(s.drop_first(), i - 1, e, k);
        if k == e.0@ {
            assert(str_lt(s[0].0@, s[i].0@));
            assert(s[0].0@ != s[i].0@) by {
                crate::order::lemma_str_trichotomy(s[0].0@, s[i].0@);
            }
        }
    }
}

/// Inserting a fresh entry at `i` adds its key and keeps the others.
proof fn lemma_ival_insert(s: Seq<(String, CommandPos)>, i: int, e: (String, CommandPos), k: Seq<char>)
    requires
        0 <= i <= s.len(),
        !has_key(s, e.0@),
    ensures
        ival(s.insert(i, e), k) == if k == e.0@ {
            Some(e.1)
        } else {
            ival(s, k)
        },
    decreases s.len(),
{
    if i == 0 {
        assert(s.insert(0, e)[0] == e);
        assert(s.insert(0, e).drop_first() =~= s);
        if k == e.0@ {
        } else {
        }
    } else {
        assert(s.insert(i, e)[0] == s[0]);
        assert(s.insert(i, e).drop_first() =~= s.drop_first().insert(i - 1, e));
        assert(forall|j: int|
            0 <= j < s.drop_first().len() ==> #[trigger] s.drop_first()[j] == s[j + 1]);
        assert(!has_key(s.drop_first(), e.0@)) by {
            if has_key(s.drop_first(), e.0@) {
                let j = choose|j: int|
                    0 <= j < s.drop_first().len() && s.drop_first()[j].0@ == e.0@;
                assert(s[j + 1].0@ == e.0@);
            }
        }
        lemma_ival_insert(s.drop_first(), i - 1, e, k);
        if k == e.0@ {
            assert(s[0].0@ != e.0@);
        }
    }
}

/// Removing entry `i` drops its key and keeps the others.
proof fn lemma_ival_remove(s: Seq<(String, CommandPos)>, i: int, k: Seq<char>)
    requires
        sorted_keys(s),
        0 <= i < s.len(),
    ensures
        ival(s.remove(i), k) == if k == s[i].0@ {
            None
        } else {
            ival(s, k)
        },
    decreases s.len(),
{
    if i == 0 {
        assert(s.remove(0) =~= s.drop_first());
        if k == s[0].0@ {
            assert(!has_key(s.drop_first(), k)) by {
                if has_key(s.drop_first(), k) {
                    let j = choose|j: int|
                        0 <= j < s.drop_first().len() && s.drop_first()[j].0@ == k;
                    assert(s.drop_first()[j] == s[j + 1]);
                    assert(str_lt(s[0].0@, s[j + 1].0@));
                    crate::order::lemma_str_trichotomy(s[0].0@, s[j + 1].0@);
                }
            }
            lemma_ival_absent(s.drop_first(), k);
        }
    } else {
        assert(s.remove(i)[0] == s[0]);
        assert(s.remove(i).drop_first() =~= s.drop_first().remove(i - 1));
        assert(forall|j: int|
            0 <= j < s.drop_first().len() ==> #[trigger] s.drop_first()[j] == s[j + 1]);
        lemma_ival_remove(s.drop_first(), i - 1, k);
        if k == s[i].0@ {
            assert(str_lt(s[0].0@, s[i].0@));
            crate::order::lemma_str_trichotomy(s[0].0@, s[i].0@);
        }
    }
}

/// Appending an entry for a fresh key adds its reading and keeps the rest.
proof fn lemma_ival_push(s: Seq<(String, CommandPos)>, e: (String, CommandPos), k: Seq<char>)
    requires
        !has_key(s, e.0@),
    ensures
        ival(s.push(e), k) == if k == e.0@ {
            Some(e.1)
        } else {
            ival(s, k)
        },
{
    assert(s.push(e) =~= s.insert(s.len() as int, e));
    lemma_ival_insert(s, s.len() as int, e, k);
}

/// Live-byte sums under appending an entry.
proof fn lemma_live_push(s: Seq<(String, CommandPos)>, e: (String, CommandPos))
    ensures
        live_total(s.push(e)) == live_total(s) + e.1.len,
{
    assert(s.push(e) =~= s.insert(s.len() as int, e));
    lemma_live_insert(s, s.len() as int, e);
}

/// Live-byte sums under the same three reshapings.
proof fn lemma_live_update(s: Seq<(String, CommandPos)>, i: int, e: (String, CommandPos))
    requires
        0 <= i < s.len(),
    ensures
        live_total(s.update(i, e)) == live_total(s) - s[i].1.len + e.1.len,
    decreases s.len(),
{
    if i == 0 {
        assert(s.update(0, e)[0] == e);
        assert(s.update(0, e).drop_first() =~= s.drop_first());
    } else {
        assert(s.update(i, e)[0] == s[0]);
        assert(s.update(i, e).drop_first() =~= s.drop_first().update(i - 1, e));
        lemma_live_update(s.drop_first(), i - 1, e);
        assert(s.drop_first()[i - 1] == s[i]);
    }
}

proof fn lemma_live_insert(s: Seq<(String, CommandPos)>, i: int, e: (String, CommandPos))
    requires
        0 <= i <= s.len(),
    ensures
        live_total(s.insert(i, e)) == live_total(s) + e.1.len,
    decreases s.len(),
{
    if i == 0 {
        assert(s.insert(0, e)[0] == e);
        assert(s.insert(0, e).drop_first() =~= s);
    } else {
        assert(s.insert(i, e)[0] == s[0]);
        assert(s.insert(i, e).drop_first() =~= s.drop_first().insert(i - 1, e));
        lemma_live_insert(s.drop_first(), i - 1, e);
    }
}

proof fn lemma_live_remove(s: Seq<(String, CommandPos)>, i: int)
    requires
        0 <= i < s.len(),
    ensures
        live_total(s.remove(i)) == live_total(s) - s[i].1.len,
    decreases s.len(),
{
    if i == 0 {
        assert(s.remove(0) =~= s.drop_first());
    } else {
        assert(s.remove(i)[0] == s[0]);
        assert(s.remove(i).drop_first() =~= s.drop_first().remove(i - 1));
        lemma_live_remove(s.drop_first(), i - 1);
        assert(s.drop_first()[i - 1] == s[i]);
    }
}

/// Whether `m` holds `k`, as an optional value.
pub open spec fn map_opt(m: Map<Seq<char>, Seq<char>>, k: Seq<char>) -> Option<Seq<char>> {
    if m.dom().contains(k) {
        Some(m[k])
    } else {
        None
    }
}

/// The position points at a whole `Set` record for key `k`.
pub open spec fn entry_ok(files: Seq<LogFile>, k: Seq<char>, cp: CommandPos) -> bool {
    match bytes_of(files, cp.gen) {
        Some(b) => match parse_record(b, cp.pos as int) {
            Some((rec, end)) => match rec {
                SpecRecord::RSet { key, value } => key == k && end == cp.pos + cp.len,
                SpecRecord::RRemove { .. } => false,
            },
            None => false,
        },
        None => false,
    }
}

/// The value stored at a position, if it holds a whole `Set` record.
pub open spec fn entry_val(files: Seq<LogFile>, cp: CommandPos) -> Option<Seq<char>> {
    match bytes_of(files, cp.gen) {
        Some(b) => match parse_record(b, cp.pos as int) {
            Some((rec, end)) => match rec {
                SpecRecord::RSet { key, value } => if end == cp.pos + cp.len {
                    Some(value)
                } else {
                    None
                },
                SpecRecord::RRemove { .. } => None,
            },
            None => None,
        },
        None => None,
    }
}

/// What the index reads for key `k` out of the files.
pub open spec fn lookup_val(
    index: Seq<(String, CommandPos)>,
    files: Seq<LogFile>,
    k: Seq<char>,
) -> Option<Seq<char>> {
    match ival(index, k) {
        Some(cp) => entry_val(files, cp),
        None => None,
    }
}

/// Extending the newest file in place preserves every index entry: other
/// files are untouched, and a record inside the extended file parses the
/// same with more bytes after it.
proof fn lemma_entry_preserved_extend(files: Seq<LogFile>, f2: LogFile, k: Seq<char>, cp: CommandPos)
    requires
        sorted_gens(files),
        files.len() >= 1,
        f2.gen == files.last().gen,
        files.last().data@.len() <= f2.data@.len(),
        f2.data@.subrange(0, files.last().data@.len() as int) == files.last().data@,
        entry_ok(files, k, cp),
    ensures
        entry_ok(files.update(files.len() - 1, f2), k, cp),
        entry_val(files.update(files.len() - 1, f2), cp) == entry_val(files, cp),
{
    assert(unique_gens(files));
    lemma_bytes_of_update(files, files.len() - 1, f2, cp.gen);
    if cp.gen == f2.gen {
        lemma_bytes_of_at(files, files.len() - 1);
        lemma_parse_stable(files.last().data@, f2.data@, cp.pos as int);
    }
}

/// Neighbours in order put the whole list in order.
proof fn lemma_adjacent_sorted(s: Seq<LogFile>)
    requires
        forall|i: int| 0 <= i < s.len() - 1 ==> (#[trigger] s[i].gen) < s[i + 1].gen,
    ensures
        sorted_gens(s),
    decreases s.len(),
{
    if s.len() > 1 {
        assert(forall|i: int|
            0 <= i < s.drop_last().len() ==> #[trigger] s.drop_last()[i] == s[i]);
        lemma_adjacent_sorted(s.drop_last());
        assert forall|i: int, j: int| 0 <= i < j < s.len() implies s[i].gen < s[j].gen by {
            if j < s.len() - 1 {
                assert(s.drop_last()[i].gen < s.drop_last()[j].gen);
            } else if i == s.len() - 2 {
                assert(s[i].gen < s[i + 1].gen);
            } else {
                assert(s.drop_last()[i].gen < s.drop_last()[s.len() - 2].gen);
                assert(s[s.len() - 2].gen < s[s.len() - 1].gen);
            }
        }
    }
}

/// Orders files by ascending generation. An already-ordered list comes
/// back untouched.
fn sort_files(input: Vec<LogFile>) -> (out: Vec<LogFile>)
    requires
        unique_gens(input@),
    ensures
        sorted_gens(out@),
        out@.len() == input@.len(),
        forall|i: int| 0 <= i < out@.len() ==> input@.contains(#[trigger] out@[i]),
        sorted_gens(input@) ==> out@ == input@,
{
    let n = input.len();
    let mut in_order = true;
    let mut i: usize = 1;
    while i < n
        invariant
            1 <= i <= n || n == 0,
            n == input@.len(),
            in_order <==> (forall|j: int| 0 <= j < i - 1 ==> (#[trigger] input@[j].gen)
                < input@[j + 1].gen),
        decreases n - i,
    {
        if input[i - 1].gen >= input[i].gen {
            in_order = false;
            proof {
                assert(!((input@[i - 1].gen) < input@[i as int].gen));
            }
        }
        i = i + 1;
    }
    if in_order {
        proof {
            if n > 0 {
                lemma_adjacent_sorted(input@);
            }
            assert(forall|j: int|
                0 <= j < input@.len() ==> input@.contains(#[trigger] input@[j]));
        }
        return input;
    }
    let mut rest = input;
    let mut out: Vec<LogFile> = Vec::new();
    let ghost orig = rest@;
    while rest.len() > 0
        invariant
            unique_gens(rest@),
            sorted_gens(out@),
            out@.len() + rest@.len() == orig.len(),
            orig == input@,
            forall|a: int, b: int|
                0 <= a < out@.len() && 0 <= b < rest@.len() ==> (#[trigger] out@[a].gen) < (
                #[trigger] rest@[b].gen),
            forall|a: int| 0 <= a < out@.len() ==> orig.contains(#[trigger] out@[a]),
            forall|b: int| 0 <= b < rest@.len() ==> orig.contains(#[trigger] rest@[b]),
        decreases rest@.len(),
    {
        let mut m: usize = 0;
        let mut j: usize = 1;
        while j < rest.len()
            invariant
                m < j || (j <= 1 && m == 0),
                m < rest@.len(),
                j <= rest@.len(),
                forall|a: int| 0 <= a < j ==> (#[trigger] rest@[a].gen) >= rest@[m as int].gen,
            decreases rest@.len() - j,
        {
            if rest[j].gen < rest[m].gen {
                m = j;
            }
            j = j + 1;
        }
        let ghost rest0 = rest@;
        let ghost out0 = out@;
        let f = rest.remove(m);
        out.push(f);
        proof {
            assert(rest@ =~= rest0.remove(m as int));
            assert(forall|a: int| 0 <= a < m ==> #[trigger] rest@[a] == rest0[a]);
            assert(forall|a: int|
                m <= a < rest@.len() ==> #[trigger] rest@[a] == rest0[a + 1]);
            assert(out@ =~= out0.push(f));
            assert(unique_gens(rest@));
            assert forall|a: int, b: int|
                0 <= a < out@.len() && 0 <= b < rest@.len() implies (#[trigger] out@[a].gen) < (
            #[trigger] rest@[b].gen) by {
                let bg = if b < m {
                    b
                } else {
                    b + 1
                };
                assert(rest@[b] == rest0[bg]);
                assert(rest0[bg].gen >= f.gen);
                assert(rest0[bg].gen != f.gen);
                if a < out0.len() {
                    assert(out0[a].gen < rest0[bg].gen);
                }
            }
            assert(sorted_gens(out@)) by {
                assert forall|a: int, b: int| 0 <= a < b < out@.len() implies out@[a].gen
                    < out@[b].gen by {
                    if b < out0.len() {
                        assert(out0[a].gen < out0[b].gen);
                    } else {
                        assert(out0[a].gen < rest0[m as int].gen);
                    }
                }
            }
            assert(orig.contains(f)) by {
                assert(rest0[m as int] == f);
            }
        }
    }
    proof {
        assert(rest@.len() == 0);
    }
    out
}

/// Entry lists with the same lengths cover the same live bytes.
proof fn lemma_live_pointwise(s1: Seq<(String, CommandPos)>, s2: Seq<(String, CommandPos)>)
    requires
        s1.len() == s2.len(),
        forall|j: int| 0 <= j < s1.len() ==> (#[trigger] s1[j].1).len == s2[j].1.len,
    ensures
        live_total(s1) == live_total(s2),
    decreases s1.len(),
{
    if s1.len() > 0 {
        assert(forall|j: int|
            0 <= j < s1.drop_first().len() ==> #[trigger] s1.drop_first()[j] == s1[j + 1]);
        assert(forall|j: int|
            0 <= j < s2.drop_first().len() ==> #[trigger] s2.drop_first()[j] == s2[j + 1]);
        lemma_live_pointwise(s1.drop_first(), s2.drop_first());
    }
}

/// Under the store invariant an index entry's length is exactly the
/// length of the record it points at, by canonicity of the framing.
proof fn lemma_entry_len_is_record_len(files: Seq<LogFile>, k: Seq<char>, cp: CommandPos)
    requires
        entry_ok(files, k, cp),
    ensures
        entry_val(files, cp) matches Some(v) && cp.len == encode_record(
            SpecRecord::RSet { key: k, value: v },
        ).len(),
{
    let b = bytes_of(files, cp.gen)->0;
    crate::codec::lemma_parse_canonical(b, cp.pos as int);
}

/// Total file size under an in-place replacement.
proof fn lemma_total_update(s: Seq<LogFile>, i: int, f: LogFile)
    requires
        0 <= i < s.len(),
    ensures
        total_size(s.update(i, f)) == total_size(s) - s[i].data@.len() + f.data@.len(),
    decreases s.len(),
{
    if i == 0 {
        assert(s.update(0, f)[0] == f);
        assert(s.update(0, f).drop_first() =~= s.drop_first());
    } else {
        assert(s.update(i, f)[0] == s[0]);
        assert(s.update(i, f).drop_first() =~= s.drop_first().update(i - 1, f));
        lemma_total_update(s.drop_first(), i - 1, f);
        assert(s.drop_first()[i - 1] == s[i]);
    }
}

/// Total file size under appending a file.
proof fn lemma_total_push(s: Seq<LogFile>, f: LogFile)
    ensures
        total_size(s.push(f)) == total_size(s) + f.data@.len(),
    decreases s.len(),
{
    if s.len() == 0 {
        assert(s.push(f)[0] == f);
        assert(s.push(f).drop_first() =~= Seq::<LogFile>::empty());
    } else {
        assert(s.push(f)[0] == s[0]);
        assert(s.push(f).drop_first() =~= s.drop_first().push(f));
        lemma_total_push(s.drop_first(), f);
    }
    if s.len() == 0 {
        assert(total_size(s.push(f).drop_first()) == 0);
    }
}

/// A non-negative sum, clamped to the counter's ceiling.
pub open spec fn sat64(n: int) -> u64 {
    if n > u64::MAX {
        u64::MAX
    } else if n < 0 {
        0u64
    } else {
        n as u64
    }
}

/// Adds without wrapping: the true sum when it fits, else the maximum.
fn sat_add(a: u64, b: u64) -> (r: u64)
    ensures
        r == sat64(a + b),
        r as int <= a + b,
        r >= a,
        a + b <= u64::MAX ==> r == a + b,
{
    if a > u64::MAX - b {
        u64::MAX
    } else {
        a + b
    }
}

/// Looks a key up in the index.
fn idx_lookup(v: &Vec<(String, CommandPos)>, key: &str) -> (r: Option<CommandPos>)
    ensures
        r == ival(v@, key@),
{
    let mut i: usize = 0;
    proof {
        assert(v@.skip(0) =~= v@);
    }
    loop
        invariant
            i <= v@.len(),
            ival(v@, key@) == ival(v@.skip(i as int), key@),
        decreases v@.len() - i,
    {
        if i == v.len() {
            proof {
                assert(v@.skip(i as int) =~= Seq::<(String, CommandPos)>::empty());
            }
            return None;
        }
        let matches_here = {
            let pair = &v[i];
            matches!(str_compare(pair.0.as_str(), key), StrOrd::Eq)
        };
        proof {
            assert(v@.skip(i as int)[0] == v@[i as int]);
            assert(v@.skip(i as int).drop_first() =~= v@.skip(i + 1));
        }
        if matches_here {
            return Some(v[i].1);
        }
        i = i + 1;
    }
}

/// Finds the position where `key` sits or would be inserted: the first
/// entry whose key is not below `key`.
fn idx_position(v: &Vec<(String, CommandPos)>, key: &str) -> (p: usize)
    requires
        sorted_keys(v@),
    ensures
        p <= v@.len(),
        forall|j: int| 0 <= j < p ==> str_lt(#[trigger] v@[j].0@, key@),
        p < v@.len() ==> !str_lt(v@[p as int].0@, key@),
{
    let mut i: usize = 0;
    while i < v.len()
        invariant
            i <= v@.len(),
            forall|j: int| 0 <= j < i ==> str_lt(#[trigger] v@[j].0@, key@),
        decreases v@.len() - i,
    {
        let below = {
            let pair = &v[i];
            matches!(str_compare(pair.0.as_str(), key), StrOrd::Lt)
        };
        if !below {
            return i;
        }
        i = i + 1;
    }
    i
}

/// Inserts or replaces the entry for `key`, returning the replaced
/// position if the key was already present.
fn idx_upsert(v: &mut Vec<(String, CommandPos)>, key: &str, cp: CommandPos) -> (r: Option<
    CommandPos,
>)
    requires
        sorted_keys(old(v)@),
    ensures
        sorted_keys(final(v)@),
        r == ival(old(v)@, key@),
        forall|k: Seq<char>|
            #[trigger] ival(final(v)@, k) == if k == key@ {
                Some(cp)
            } else {
                ival(old(v)@, k)
            },
        live_total(final(v)@) == live_total(old(v)@) + cp.len - match r {
            Some(o) => o.len as int,
            None => 0,
        },
        final(v)@.len() == old(v)@.len() + match r {
            Some(_) => 0int,
            None => 1int,
        },
{
    let p = idx_position(v, key);
    let is_match = if p < v.len() {
        let pair = &v[p];
        matches!(str_compare(pair.0.as_str(), key), StrOrd::Eq)
    } else {
        false
    };
    if is_match {
        let ghost s0 = v@;
        let old_cp = v[p].1;
        let key_copy = key.to_owned();
        v[p] = (key_copy, cp);
        proof {
            let e = v@[p as int];
            assert(v@ =~= s0.update(p as int, e));
            lemma_ival_at(s0, p as int);
            assert forall|k: Seq<char>| true implies #[trigger] ival(v@, k) == if k == key@ {
                Some(cp)
            } else {
                ival(s0, k)
            } by {
                lemma_ival_update(s0, p as int, e, k);
            }
            lemma_live_update(s0, p as int, e);
            assert(sorted_keys(v@)) by {
                assert(forall|j: int|
                    0 <= j < s0.len() ==> #[trigger] v@[j].0@ == s0[j].0@);
            }
        }
        Some(old_cp)
    } else {
        let ghost s0 = v@;
        let key_copy = key.to_owned();
        v.insert(p, (key_copy, cp));
        proof {
            let e = v@[p as int];
            assert(v@ =~= s0.insert(p as int, e));
            assert(!has_key(s0, key@)) by {
                if has_key(s0, key@) {
                    let j = choose|j: int| 0 <= j < s0.len() && s0[j].0@ == key@;
                    crate::order::lemma_str_trichotomy(s0[j].0@, key@);
                    if j < p {
                        assert(str_lt(s0[j].0@, key@));
                    } else if j == p {
                        assert(!str_lt(s0[p as int].0@, key@));
                    } else {
                        assert(str_lt(s0[p as int].0@, s0[j].0@));
                        assert(!str_lt(s0[p as int].0@, key@));
                        crate::order::lemma_str_trichotomy(s0[p as int].0@, key@);
                        // s0[p].0@ == key@ or key@ < s0[p].0@; either way s0[j].0@ > key@
                        if s0[p as int].0@ == key@ {
                        } else {
                            crate::order::lemma_str_lt_transitive(key@, s0[p as int].0@, s0[j].0@);
                            crate::order::lemma_str_trichotomy(key@, s0[j].0@);
                        }
                    }
                }
            }
            lemma_ival_absent(s0, key@);
            assert forall|k: Seq<char>| true implies #[trigger] ival(v@, k) == if k == key@ {
                Some(cp)
            } else {
                ival(s0, k)
            } by {
                lemma_ival_insert(s0, p as int, e, k);
            }
            lemma_live_insert(s0, p as int, e);
            assert(sorted_keys(v@)) by {
                assert(forall|j: int| 0 <= j < p ==> #[trigger] v@[j] == s0[j]);
                assert(forall|j: int|
                    p < j < v@.len() ==> #[trigger] v@[j] == s0[j - 1]);
                assert forall|x: int, y: int| 0 <= x < y < v@.len() implies str_lt(
                    #[trigger] v@[x].0@,
                    #[trigger] v@[y].0@,
                ) by {
                    if x == p {
                        // e.0@ == key@ < s0[y-1].0@
                        assert(!str_lt(s0[p as int].0@, key@));
                        crate::order::lemma_str_trichotomy(s0[p as int].0@, key@);
                        if y - 1 == p {
                            assert(v@[y].0@ == s0[p as int].0@);
                            assert(s0[p as int].0@ != key@);
                            assert(str_lt(key@, s0[p as int].0@));
                        } else {
                            assert(str_lt(s0[p as int].0@, s0[y - 1].0@));
                            if s0[p as int].0@ == key@ {
                                assert(false);
                            }
                            assert(str_lt(key@, s0[p as int].0@));
                            crate::order::lemma_str_lt_transitive(
                                key@,
                                s0[p as int].0@,
                                s0[y - 1].0@,
                            );
                        }
                    } else if y == p {
                        assert(str_lt(s0[x].0@, key@));
                    } else if x < p && y > p {
                        assert(str_lt(s0[x].0@, key@));
                        assert(!str_lt(s0[p as int].0@, key@));
                        crate::order::lemma_str_trichotomy(s0[p as int].0@, key@);
                        if y - 1 == p {
                            if s0[p as int].0@ == key@ {
                                assert(false);
                            }
                            crate::order::lemma_str_lt_transitive(
                                s0[x].0@,
                                key@,
                                s0[p as int].0@,
                            );
                        } else {
                            assert(str_lt(s0[x].0@, s0[y - 1].0@));
                        }
                    } else {
                        assert(str_lt(s0[if x < p { x } else { x - 1 }].0@, s0[if y < p { y } else { y - 1 }].0@));
                    }
                }
            }
        }
        None
    }
}

/// Removes the entry for `key`, returning its position if it was present.
fn idx_delete(v: &mut Vec<(String, CommandPos)>, key: &str) -> (r: Option<CommandPos>)
    requires
        sorted_keys(old(v)@),
    ensures
        sorted_keys(final(v)@),
        r == ival(old(v)@, key@),
        forall|k: Seq<char>|
            #[trigger] ival(final(v)@, k) == if k == key@ {
                None
            } else {
                ival(old(v)@, k)
            },
        live_total(final(v)@) == live_total(old(v)@) - match r {
            Some(o) => o.len as int,
            None => 0,
        },
{
    let p = idx_position(v, key);
    let is_match = if p < v.len() {
        let pair = &v[p];
        matches!(str_compare(pair.0.as_str(), key), StrOrd::Eq)
    } else {
        false
    };
    if is_match {
        let ghost s0 = v@;
        let e = v.remove(p);
        let old_cp = e.1;
        proof {
            assert(v@ =~= s0.remove(p as int));
            lemma_ival_at(s0, p as int);
            assert forall|k: Seq<char>| true implies #[trigger] ival(v@, k) == if k == key@ {
                None
            } else {
                ival(s0, k)
            } by {
                lemma_ival_remove(s0, p as int, k);
            }
            lemma_live_remove(s0, p as int);
            assert(sorted_keys(v@)) by {
                assert(forall|j: int| 0 <= j < p ==> #[trigger] v@[j] == s0[j]);
                assert(forall|j: int|
                    p <= j < v@.len() ==> #[trigger] v@[j] == s0[j + 1]);
            }
        }
        Some(old_cp)
    } else {
        proof {
            assert(!has_key(v@, key@)) by {
                if has_key(v@, key@) {
                    let j = choose|j: int| 0 <= j < v@.len() && v@[j].0@ == key@;
                    crate::order::lemma_str_trichotomy(v@[j].0@, key@);
                    if j < p {
                        assert(str_lt(v@[j].0@, key@));
                    } else if j == p {
                        assert(!str_lt(v@[p as int].0@, key@));
                    } else {
                        assert(str_lt(v@[p as int].0@, v@[j].0@));
                        assert(!str_lt(v@[p as int].0@, key@));
                        crate::order::lemma_str_trichotomy(v@[p as int].0@, key@);
                        if v@[p as int].0@ == key@ {
                        } else {
                            crate::order::lemma_str_lt_transitive(key@, v@[p as int].0@, v@[j].0@);
                            crate::order::lemma_str_trichotomy(key@, v@[j].0@);
                        }
                    }
                }
            }
            lemma_ival_absent(v@, key@);
        }
        None
    }
}

/// One end of a key range.
pub enum RangeBound {
    Included(String),
    Excluded(String),
    Unbounded,
}

/// Whether `k` lies within the two bounds.
pub open spec fn in_range(start: RangeBound, end: RangeBound, k: Seq<char>) -> bool {
    let lo_ok = match start {
        RangeBound::Included(s) => crate::order::str_le(s@, k),
        RangeBound::Excluded(s) => str_lt(s@, k),
        RangeBound::Unbounded => true,
    };
    let hi_ok = match end {
        RangeBound::Included(s) => crate::order::str_le(k, s@),
        RangeBound::Excluded(s) => str_lt(k, s@),
        RangeBound::Unbounded => true,
    };
    lo_ok && hi_ok
}

/// Tests a key against both bounds.
fn bound_check(start: &RangeBound, end: &RangeBound, k: &str) -> (r: bool)
    ensures
        r == in_range(*start, *end, k@),
{
    let lo_ok = match start {
        RangeBound::Included(s) => !matches!(str_compare(s.as_str(), k), StrOrd::Gt),
        RangeBound::Excluded(s) => matches!(str_compare(s.as_str(), k), StrOrd::Lt),
        RangeBound::Unbounded => true,
    };
    let hi_ok = match end {
        RangeBound::Included(s) => !matches!(str_compare(k, s.as_str()), StrOrd::Gt),
        RangeBound::Excluded(s) => matches!(str_compare(k, s.as_str()), StrOrd::Lt),
        RangeBound::Unbounded => true,
    };
    proof {
        match start {
            RangeBound::Included(s) => {
                crate::order::lemma_str_trichotomy(s@, k@);
            },
            _ => {},
        }
        match end {
            RangeBound::Included(s) => {
                crate::order::lemma_str_trichotomy(k@, s@);
            },
            _ => {},
        }
    }
    lo_ok && hi_ok
}

/// The stale bytes one `set` of `key` leaves behind: the whole replaced
/// record, nothing when the key was absent.
pub open spec fn set_stale_growth(pre: KvStore, key: Seq<char>) -> int {
    match pre.val_of(key) {
        Some(v) => encode_record(SpecRecord::RSet { key, value: v }).len() as int,
        None => 0,
    }
}

/// The stale bytes one `remove` of `key` leaves behind: the replaced
/// record plus the remove record itself, which the next compaction also
/// drops.
pub open spec fn remove_stale_growth(pre: KvStore, key: Seq<char>) -> int {
    match pre.val_of(key) {
        Some(v) => encode_record(SpecRecord::RSet { key, value: v }).len() as int
            + encode_record(SpecRecord::RRemove { key }).len() as int,
        None => 0,
    }
}

/// The log-structured store: a folder of generation files, one active
/// writer (always the newest file), and an index from keys to byte ranges.
pub struct KvStore {
    folder: Folder,
    scopes: Vec<String>,
    active_scope: usize,
    current_gen: u64,
    index: Vec<(String, CommandPos)>,
    uncompacted: u64,
}

impl KvStore {
    /// The store's well-formedness: files ascend by generation, the newest
    /// file is the clean active writer, the index is sorted and points at
    /// whole `Set` records, and — the heart of persistence — the index
    /// reads exactly as the replay of the folder.
    pub closed spec fn inv(self) -> bool {
        let files = self.folder.files@;
        &&& sorted_gens(files)
        &&& files.len() >= 1
        &&& files.last().gen == self.current_gen
        &&& self.current_gen < u64::MAX
        &&& wf_log_from(files.last().data@, 0)
        &&& sorted_keys(self.index@)
        &&& forall|k: Seq<char>|
            (#[trigger] ival(self.index@, k)) matches Some(cp) ==> entry_ok(files, k, cp)
        &&& forall|k: Seq<char>|
            #[trigger] lookup_val(self.index@, files, k) == map_opt(replay_folder(files), k)
        &&& total_size(files) >= live_total(self.index@) + self.uncompacted
        &&& self.scopes@.len() >= 1
        &&& self.active_scope < self.scopes@.len()
    }

    /// The value the store holds for key `k`, if any.
    pub closed spec fn val_of(self, k: Seq<char>) -> Option<Seq<char>> {
        lookup_val(self.index@, self.folder.files@, k)
    }

    /// Stale bytes counted toward the next compaction.
    pub closed spec fn spec_uncompacted(self) -> u64 {
        self.uncompacted
    }

    /// The scope names the store knows.
    pub closed spec fn spec_scopes(self) -> Seq<String> {
        self.scopes@
    }

    /// Which scope the active file belongs to.
    pub closed spec fn spec_active_scope(self) -> int {
        self.active_scope as int
    }

    /// The active writer's generation: strictly above every generation
    /// the folder held when the store was opened.
    pub closed spec fn spec_current_gen(self) -> u64 {
        self.current_gen
    }

    /// Enough generation numbers remain for a compaction.
    pub closed spec fn gen_headroom(self) -> bool {
        self.current_gen <= u64::MAX - 3
    }

    /// Whether a compaction could still allocate its two generations.
    pub fn has_headroom(&self) -> (b: bool)
        ensures
            b == self.gen_headroom(),
    {
        self.current_gen <= u64::MAX - 3
    }

    /// The bytes all backing files hold together.
    pub closed spec fn spec_total_size(self) -> int {
        total_size(self.folder.files@)
    }

    /// Sets `key` to `value`: appends a `Set` record to the active log and
    /// points the index at it.
    pub fn set(&mut self, key: String, value: String) -> (r: Result<(), KvsError>)
        requires
            old(self).inv(),
        ensures
            final(self).inv(),
            r is Ok,
            final(self).val_of(key@) == Some(value@),
            forall|k: Seq<char>|
                k != key@ ==> #[trigger] final(self).val_of(k) == old(self).val_of(k),
            // The replaced record's bytes go stale, and when the stale
            // count passes the threshold (and generations allow) a
            // compaction resets it.
            ({
                let grown = sat64(
                    old(self).spec_uncompacted() + set_stale_growth(*old(self), key@),
                );
                final(self).spec_uncompacted() == (if grown > COMPACTION_THRESHOLD && old(
                    self,
                ).gen_headroom() {
                    0u64
                } else {
                    grown
                })
            }),
            final(self).spec_current_gen() <= old(self).spec_current_gen() + 2,
    {
        self.write_set(key, value);
        self.maybe_compact();
        Ok(())
    }

    /// The append half of [`KvStore::set`], without the compaction check.
    fn write_set(&mut self, key: String, value: String)
        requires
            old(self).inv(),
        ensures
            final(self).inv(),
            final(self).val_of(key@) == Some(value@),
            forall|k: Seq<char>|
                k != key@ ==> #[trigger] final(self).val_of(k) == old(self).val_of(k),
            final(self).current_gen == old(self).current_gen,
            final(self).scopes@ == old(self).scopes@,
            final(self).active_scope == old(self).active_scope,
            final(self).uncompacted >= old(self).uncompacted,
            final(self).uncompacted == sat64(
                old(self).uncompacted + set_stale_growth(*old(self), key@),
            ),
    {
        let ghost files0 = self.folder.files@;
        let ghost index0 = self.index@;
        proof {
            if ival(index0, key@) is Some {
                lemma_entry_len_is_record_len(files0, key@, ival(index0, key@)->0);
            }
        }
        let cmd = Command::set(key, value);
        let ghost r = cmd@;
        let enc = encode_command(&cmd);
        let pos = self.folder.last_size();
        self.folder.append_to_last(enc.as_slice());
        let cp = CommandPos { gen: self.current_gen, pos: pos as u64, len: enc.len() as u64 };
        let prev = match &cmd {
            Command::Put { key: kref, .. } => idx_upsert(&mut self.index, kref.as_str(), cp),
            Command::Remove { key: kref } => idx_upsert(&mut self.index, kref.as_str(), cp),
        };
        match prev {
            Some(old_cp) => {
                self.uncompacted = sat_add(self.uncompacted, old_cp.len);
            },
            None => {},
        }
        proof {
            let files1 = self.folder.files@;
            let f2 = files1.last();
            let key_v = r->RSet_key;
            let val_v = r->RSet_value;
            assert(files1 =~= files0.update(files0.len() - 1, f2)) by {
                assert(forall|j: int|
                    0 <= j < files0.len() - 1 ==> files1.drop_last()[j] == #[trigger] files1[j]);
                assert(forall|j: int|
                    0 <= j < files0.len() - 1 ==> files0.drop_last()[j] == #[trigger] files0[j]);
            }
            assert(f2.data@.subrange(0, files0.last().data@.len() as int) =~= files0.last().data@);
            lemma_files_extend(files0, f2, r, Map::empty());
            assert(sorted_gens(files1)) by {
                assert(forall|j: int|
                    0 <= j < files1.len() ==> #[trigger] files1[j].gen == files0[j].gen);
            }
            // The fresh entry parses back to the record just appended.
            lemma_bytes_of_at(files1, files1.len() - 1);
            assert(f2.data@.subrange(pos as int, pos + enc@.len()) =~= enc@);
            crate::codec::lemma_parse_encode(f2.data@, pos as int, r);
            assert(entry_ok(files1, key_v, cp));
            assert(entry_val(files1, cp) == Some(val_v));
            // Old entries survive the extension.
            assert forall|k: Seq<char>| (#[trigger] ival(self.index@, k)) is Some implies ({
                let cpk = ival(self.index@, k)->0;
                entry_ok(files1, k, cpk) && (k != key_v ==> entry_val(files1, cpk) == entry_val(
                    files0,
                    cpk,
                ))
            }) by {
                if k == key_v {
                    assert(ival(self.index@, k) == Some(cp));
                } else {
                    assert(ival(self.index@, k) == ival(index0, k));
                    let cpk = ival(index0, k)->0;
                    lemma_entry_preserved_extend(files0, f2, k, cpk);
                }
            }
            // The index reads as the new replay.
            assert(replay_folder(files1) == replay_folder(files0).insert(key_v, val_v));
            assert forall|k: Seq<char>| true implies #[trigger] lookup_val(
                self.index@,
                files1,
                k,
            ) == map_opt(replay_folder(files1), k) by {
                if k == key_v {
                    assert(ival(self.index@, k) == Some(cp));
                } else {
                    assert(ival(self.index@, k) == ival(index0, k));
                    assert(lookup_val(index0, files0, k) == map_opt(replay_folder(files0), k));
                    match ival(index0, k) {
                        Some(cpk) => {
                            lemma_entry_preserved_extend(files0, f2, k, cpk);
                        },
                        None => {},
                    }
                }
            }
            // Size accounting.
            lemma_total_update(files0, files0.len() - 1, f2);
            assert(total_size(files1) >= live_total(self.index@) + self.uncompacted);
        }
    }

    /// Reads the value for `key`.
    pub fn get(&self, key: &str) -> (r: Result<Option<String>, KvsError>)
        requires
            self.inv(),
        ensures
            r matches Ok(o) && crate::component::data_view(o) == self.val_of(key@),
    {
        let found = idx_lookup(&self.index, key);
        let cp = match found {
            Some(cp) => cp,
            None => {
                return Ok(None);
            },
        };
        proof {
            assert(entry_ok(self.folder.files@, key@, cp));
            if !has_gen(self.folder.files@, cp.gen) {
                lemma_bytes_of_absent(self.folder.files@, cp.gen);
            }
        }
        let fi = match self.folder.find(cp.gen) {
            Some(i) => i,
            None => {
                proof {
                    assert(false);
                }
                return Err(KvsError::UnexpectedCommandType);
            },
        };
        proof {
            assert(unique_gens(self.folder.files@));
            lemma_bytes_of_at(self.folder.files@, fi as int);
            crate::codec::lemma_parse_bounds(self.folder.files@[fi as int].data@, cp.pos as int);
        }
        let fsize = self.folder.file_size(fi);
        let bytes = self.folder.read(fi, cp.pos as usize, cp.len as usize);
        proof {
            let b = self.folder.files@[fi as int].data@;
            crate::codec::lemma_parse_canonical(b, cp.pos as int);
            let rec = (parse_record(b, cp.pos as int)->0).0;
            assert(bytes@ =~= b.subrange(cp.pos as int, cp.pos + cp.len));
            assert(bytes@.subrange(0, encode_record(rec).len() as int) =~= encode_record(rec));
            crate::codec::lemma_parse_encode(bytes@, 0, rec);
        }
        match parse_command(bytes.as_slice(), 0) {
            Some((Command::Put { key: _k, value }, _end)) => Ok(Some(value)),
            _ => {
                proof {
                    assert(false);
                }
                Err(KvsError::UnexpectedCommandType)
            },
        }
    }

    /// Removes `key`: appends a `Remove` record and drops the index entry.
    /// Returns `KeyNotFound` when the key is absent, leaving the store
    /// unchanged.
    pub fn remove(&mut self, key: String) -> (r: Result<(), KvsError>)
        requires
            old(self).inv(),
        ensures
            final(self).inv(),
            r is Ok <==> old(self).val_of(key@) is Some,
            r is Err ==> r == Err::<(), KvsError>(KvsError::KeyNotFound) && *final(self) == *old(
                self,
            ),
            final(self).val_of(key@) is None,
            forall|k: Seq<char>|
                k != key@ ==> #[trigger] final(self).val_of(k) == old(self).val_of(k),
            // The dead record and the remove record both count as stale,
            // and the same threshold triggers compaction.
            old(self).val_of(key@) is Some ==> ({
                let grown = sat64(
                    old(self).spec_uncompacted() + remove_stale_growth(*old(self), key@),
                );
                final(self).spec_uncompacted() == (if grown > COMPACTION_THRESHOLD && old(
                    self,
                ).gen_headroom() {
                    0u64
                } else {
                    grown
                })
            }),
            final(self).spec_current_gen() <= old(self).spec_current_gen() + 2,
    {
        let found = idx_lookup(&self.index, key.as_str());
        if found.is_none() {
            return Err(KvsError::KeyNotFound);
        }
        self.write_remove(key);
        self.maybe_compact();
        Ok(())
    }

    /// The append half of [`KvStore::remove`].
    fn write_remove(&mut self, key: String)
        requires
            old(self).inv(),
            ival(old(self).index@, key@) is Some,
        ensures
            final(self).inv(),
            final(self).val_of(key@) is None,
            forall|k: Seq<char>|
                k != key@ ==> #[trigger] final(self).val_of(k) == old(self).val_of(k),
            final(self).uncompacted >= old(self).uncompacted,
            final(self).current_gen == old(self).current_gen,
            final(self).uncompacted == sat64(
                old(self).uncompacted + remove_stale_growth(*old(self), key@),
            ),
    {
        let ghost files0 = self.folder.files@;
        let ghost index0 = self.index@;
        proof {
            lemma_entry_len_is_record_len(files0, key@, ival(index0, key@)->0);
        }
        let cmd = Command::remove(key);
        let ghost r = cmd@;
        let enc = encode_command(&cmd);
        self.folder.append_to_last(enc.as_slice());
        let reclen = enc.len() as u64;
        let prev = match &cmd {
            Command::Put { key: kref, .. } => idx_delete(&mut self.index, kref.as_str()),
            Command::Remove { key: kref } => idx_delete(&mut self.index, kref.as_str()),
        };
        match prev {
            Some(old_cp) => {
                self.uncompacted = sat_add(self.uncompacted, sat_add(old_cp.len, reclen));
            },
            None => {},
        }
        proof {
            let files1 = self.folder.files@;
            let f2 = files1.last();
            let key_v = r->RRemove_key;
            assert(files1 =~= files0.update(files0.len() - 1, f2)) by {
                assert(forall|j: int|
                    0 <= j < files0.len() - 1 ==> files1.drop_last()[j] == #[trigger] files1[j]);
                assert(forall|j: int|
                    0 <= j < files0.len() - 1 ==> files0.drop_last()[j] == #[trigger] files0[j]);
            }
            assert(f2.data@.subrange(0, files0.last().data@.len() as int) =~= files0.last().data@);
            lemma_files_extend(files0, f2, r, Map::empty());
            assert(sorted_gens(files1)) by {
                assert(forall|j: int|
                    0 <= j < files1.len() ==> #[trigger] files1[j].gen == files0[j].gen);
            }
            assert forall|k: Seq<char>| (#[trigger] ival(self.index@, k)) is Some implies ({
                let cpk = ival(self.index@, k)->0;
                entry_ok(files1, k, cpk) && entry_val(files1, cpk) == entry_val(files0, cpk)
            }) by {
                assert(ival(self.index@, k) == ival(index0, k));
                let cpk = ival(index0, k)->0;
                lemma_entry_preserved_extend(files0, f2, k, cpk);
            }
            assert(replay_folder(files1) == replay_folder(files0).remove(key_v));
            assert forall|k: Seq<char>| true implies #[trigger] lookup_val(
                self.index@,
                files1,
                k,
            ) == map_opt(replay_folder(files1), k) by {
                if k == key_v {
                    assert(ival(self.index@, k) is None);
                } else {
                    assert(ival(self.index@, k) == ival(index0, k));
                    assert(lookup_val(index0, files0, k) == map_opt(replay_folder(files0), k));
                    match ival(index0, k) {
                        Some(cpk) => {
                            lemma_entry_preserved_extend(files0, f2, k, cpk);
                        },
                        None => {},
                    }
                }
            }
            lemma_total_update(files0, files0.len() - 1, f2);
        }
    }

    /// Runs compaction when the stale-byte count passes the threshold and
    /// there is generation headroom.
    fn maybe_compact(&mut self)
        requires
            old(self).inv(),
        ensures
            final(self).inv(),
            forall|k: Seq<char>| #[trigger] final(self).val_of(k) == old(self).val_of(k),
            final(self).scopes@ == old(self).scopes@,
            final(self).active_scope == old(self).active_scope,
            final(self).uncompacted == (if old(self).uncompacted > COMPACTION_THRESHOLD && old(
                self,
            ).gen_headroom() {
                0u64
            } else {
                old(self).uncompacted
            }),
            final(self).current_gen <= old(self).current_gen + 2,
    {
        if self.uncompacted > COMPACTION_THRESHOLD && self.current_gen <= u64::MAX - 3 {
            self.compact();
        }
    }

    /// Rewrites every live record into a fresh compaction file, drops the
    /// older files, and opens a fresh active file. The contents are
    /// unchanged; the backing bytes shrink to exactly the live bytes, so
    /// they fall by at least the stale-byte count.
    #[verifier::rlimit(100)]
    pub fn compact(&mut self)
        requires
            old(self).inv(),
            old(self).gen_headroom(),
        ensures
            final(self).inv(),
            forall|k: Seq<char>| #[trigger] final(self).val_of(k) == old(self).val_of(k),
            final(self).spec_uncompacted() == 0,
            final(self).spec_total_size() + old(self).spec_uncompacted() <= old(
                self,
            ).spec_total_size(),
            final(self).spec_scopes() == old(self).spec_scopes(),
            final(self).spec_active_scope() == old(self).spec_active_scope(),
            final(self).spec_current_gen() == old(self).spec_current_gen() + 2,
    {
        let ghost files0 = self.folder.files@;
        let ghost index0 = self.index@;
        let compaction_gen = self.current_gen + 1;
        let new_active_gen = self.current_gen + 2;
        let mut comp_data: Vec<u8> = Vec::new();
        let mut new_index: Vec<(String, CommandPos)> = Vec::new();
        let mut i: usize = 0;
        while i < self.index.len()
            invariant
                *self == *old(self),
                old(self).inv(),
                files0 == old(self).folder.files@,
                index0 == old(self).index@,
                i <= index0.len(),
                new_index@.len() == i,
                forall|j: int| 0 <= j < i ==> #[trigger] new_index@[j].0@ == index0[j].0@,
                forall|j: int|
                    0 <= j < i ==> (#[trigger] new_index@[j].1.gen) == compaction_gen
                        && new_index@[j].1.len == index0[j].1.len,
                sorted_keys(new_index@),
                wf_log_from(comp_data@, 0),
                comp_data@.len() == live_total(new_index@),
                forall|j: int|
                    0 <= j < i ==> match parse_record(
                        comp_data@,
                        (#[trigger] new_index@[j].1).pos as int,
                    ) {
                        Some((rec, end)) => rec matches SpecRecord::RSet { key, value }
                            && key == new_index@[j].0@ && Some(value) == entry_val(
                            files0,
                            index0[j].1,
                        ) && end == new_index@[j].1.pos + new_index@[j].1.len,
                        None => false,
                    },
                forall|k: Seq<char>|
                    #[trigger] map_opt(replay_bytes(comp_data@, 0, Map::empty()), k)
                        == lookup_val(index0.take(i as int), files0, k),
            decreases index0.len() - i,
        {
            let ghost comp0 = comp_data@;
            let ghost nidx0 = new_index@;
            let cp = self.index[i].1;
            proof {
                lemma_ival_at(index0, i as int);
                assert(entry_ok(files0, index0[i as int].0@, cp));
                if !has_gen(files0, cp.gen) {
                    lemma_bytes_of_absent(files0, cp.gen);
                }
            }
            let fi = match self.folder.find(cp.gen) {
                Some(f) => f,
                None => {
                    proof {
                        assert(false);
                    }
                    return ;
                },
            };
            proof {
                assert(unique_gens(files0));
                lemma_bytes_of_at(files0, fi as int);
                crate::codec::lemma_parse_bounds(files0[fi as int].data@, cp.pos as int);
            }
            let fsize = self.folder.file_size(fi);
            let bytes = self.folder.read(fi, cp.pos as usize, cp.len as usize);
            let new_pos = comp_data.len();
            crate::codec::append_bytes(&mut comp_data, bytes.as_slice());
            let kstr = self.index[i].0.clone();
            let ncp = CommandPos { gen: compaction_gen, pos: new_pos as u64, len: cp.len };
            new_index.push((kstr, ncp));
            proof {
                let b = files0[fi as int].data@;
                let key_v = index0[i as int].0@;
                crate::codec::lemma_parse_canonical(b, cp.pos as int);
                let rec = (parse_record(b, cp.pos as int)->0).0;
                let val_v = rec->RSet_value;
                assert(bytes@ =~= b.subrange(cp.pos as int, cp.pos + cp.len));
                assert(bytes@ == encode_record(rec));
                assert(comp_data@ == comp0 + encode_record(rec));
                crate::log::lemma_log_extend(comp0, rec, 0, Map::empty());
                // The copied record parses at its new position.
                assert(comp_data@.subrange(new_pos as int, new_pos + encode_record(rec).len())
                    =~= encode_record(rec));
                crate::codec::lemma_parse_encode(comp_data@, new_pos as int, rec);
                // Earlier copies are unaffected by the append.
                assert(comp0 =~= comp_data@.subrange(0, comp0.len() as int));
                assert forall|j: int| 0 <= j < i implies match parse_record(
                    comp_data@,
                    (#[trigger] new_index@[j].1).pos as int,
                ) {
                    Some((rec2, end)) => rec2 matches SpecRecord::RSet { key, value }
                        && key == new_index@[j].0@ && Some(value) == entry_val(
                        files0,
                        index0[j].1,
                    ) && end == new_index@[j].1.pos + new_index@[j].1.len,
                    None => false,
                } by {
                    assert(new_index@[j] == nidx0[j]);
                    lemma_parse_stable(comp0, comp_data@, nidx0[j].1.pos as int);
                }
                assert(sorted_keys(new_index@)) by {
                    assert(forall|j: int|
                        0 <= j < i ==> #[trigger] new_index@[j].0@ == index0[j].0@);
                    assert(new_index@[i as int].0@ == index0[i as int].0@);
                }
                lemma_live_push(nidx0, new_index@[i as int]);
                // One more key becomes visible in the compacted replay.
                assert(index0.take(i + 1) =~= index0.take(i as int).push(index0[i as int]));
                assert(!has_key(index0.take(i as int), key_v)) by {
                    if has_key(index0.take(i as int), key_v) {
                        let j = choose|j: int|
                            0 <= j < i && index0.take(i as int)[j].0@ == key_v;
                        assert(index0[j].0@ == key_v);
                        assert(str_lt(index0[j].0@, index0[i as int].0@));
                        crate::order::lemma_str_trichotomy(index0[j].0@, index0[i as int].0@);
                    }
                }
                assert forall|k: Seq<char>| true implies #[trigger] map_opt(
                    replay_bytes(comp_data@, 0, Map::empty()),
                    k,
                ) == lookup_val(index0.take(i + 1), files0, k) by {
                    lemma_ival_push(index0.take(i as int), index0[i as int], k);
                    assert(map_opt(replay_bytes(comp0, 0, Map::empty()), k) == lookup_val(
                        index0.take(i as int),
                        files0,
                        k,
                    ));
                    assert(replay_bytes(comp_data@, 0, Map::empty()) == apply_rec(
                        replay_bytes(comp0, 0, Map::empty()),
                        rec,
                    ));
                    assert(Some(val_v) == entry_val(files0, cp));
                    assert(rec == (SpecRecord::RSet { key: key_v, value: val_v }));
                    if k == key_v {
                        lemma_ival_absent(index0.take(i as int), k);
                        assert(ival(index0.take(i + 1), k) == Some(index0[i as int].1));
                        assert(index0[i as int].1 == cp);
                    }
                }
            }
            i = i + 1;
        }
        let mut new_files: Vec<LogFile> = Vec::new();
        let comp_len = comp_data.len();
        new_files.push(LogFile { gen: compaction_gen, data: comp_data });
        new_files.push(LogFile { gen: new_active_gen, data: Vec::new() });
        let ghost final_comp = new_files@[0].data@;
        self.folder = Folder { files: new_files };
        self.index = new_index;
        self.current_gen = new_active_gen;
        self.uncompacted = 0;
        proof {
            let files2 = self.folder.files@;
            assert(index0.take(index0.len() as int) =~= index0);
            // The two-file folder replays to exactly the compacted map.
            assert(files2[0].data@ == final_comp);
            assert(files2.drop_first() =~= seq![files2[1]]);
            assert(parse_record(files2[1].data@, 0) is None);
            assert(replay_bytes(files2[1].data@, 0, replay_bytes(final_comp, 0, Map::empty()))
                == replay_bytes(final_comp, 0, Map::empty()));
            assert(files2.drop_first().drop_first() =~= Seq::<LogFile>::empty());
            assert(replay_files(
                files2.drop_first().drop_first(),
                replay_bytes(files2[1].data@, 0, replay_bytes(final_comp, 0, Map::empty())),
            ) == replay_bytes(final_comp, 0, Map::empty()));
            assert(replay_files(files2.drop_first(), replay_bytes(final_comp, 0, Map::empty()))
                == replay_bytes(final_comp, 0, Map::empty()));
            assert(replay_folder(files2) == replay_bytes(final_comp, 0, Map::empty()));
            // Index entries read out of the new folder what they read in the
            // old one.
            assert(bytes_of(files2, compaction_gen) == Some(final_comp));
            assert forall|k: Seq<char>| true implies #[trigger] lookup_val(
                self.index@,
                files2,
                k,
            ) == lookup_val(index0, files0, k) by {
                match ival(self.index@, k) {
                    Some(cpk) => {
                        lemma_ival_some_has_key(self.index@, k);
                        let j = choose|j: int|
                            0 <= j < self.index@.len() && self.index@[j].0@ == k;
                        lemma_ival_at(self.index@, j);
                        assert(cpk == self.index@[j].1);
                        lemma_ival_at(index0, j);
                    },
                    None => {
                        assert(!has_key(self.index@, k)) by {
                            if has_key(self.index@, k) {
                                let j = choose|j: int|
                                    0 <= j < self.index@.len() && self.index@[j].0@ == k;
                                lemma_ival_at(self.index@, j);
                            }
                        }
                        assert(!has_key(index0, k)) by {
                            if has_key(index0, k) {
                                let j = choose|j: int|
                                    0 <= j < index0.len() && index0[j].0@ == k;
                                assert(self.index@[j].0@ == k);
                            }
                        }
                        lemma_ival_absent(index0, k);
                    },
                }
            }
            // And the old index read as the old replay, giving the view.
            assert forall|k: Seq<char>| true implies #[trigger] lookup_val(
                self.index@,
                files2,
                k,
            ) == map_opt(replay_folder(files2), k) by {
                assert(map_opt(replay_bytes(final_comp, 0, Map::empty()), k) == lookup_val(
                    index0,
                    files0,
                    k,
                ));
            }
            // Entry well-formedness in the new folder.
            assert forall|k: Seq<char>| (#[trigger] ival(self.index@, k)) is Some implies ({
                let cpk = ival(self.index@, k)->0;
                entry_ok(files2, k, cpk)
            }) by {
                lemma_ival_some_has_key(self.index@, k);
                let j = choose|j: int| 0 <= j < self.index@.len() && self.index@[j].0@ == k;
                lemma_ival_at(self.index@, j);
            }
            // Size accounting: the new folder holds exactly the live bytes.
            assert(total_size(files2) == comp_len) by {
                assert(files2.drop_first().drop_first() =~= Seq::<LogFile>::empty());
                assert(total_size(files2.drop_first().drop_first()) == 0);
                assert(total_size(files2.drop_first()) == 0);
            }
            assert(live_total(index0) == live_total(self.index@)) by {
                assert forall|j: int| 0 <= j < index0.len() implies (#[trigger] index0[j].1).len
                    == self.index@[j].1.len by {
                    assert(self.index@[j].1.gen == compaction_gen);
                    assert(self.index@[j].1.len == index0[j].1.len);
                }
                lemma_live_pointwise(index0, self.index@);
            }
        }
    }

    /// Opens a store over a folder of log files: orders the generations,
    /// replays every file (stopping at a torn tail), and opens a fresh
    /// generation as the active writer. Replaying a folder a store handed
    /// back rebuilds exactly the contents it held.
    pub fn open(folder: Folder) -> (r: Result<KvStore, KvsError>)
        requires
            folder.wf(),
        ensures
            r is Err ==> r == Err::<KvStore, KvsError>(KvsError::GenerationExhausted),
            (forall|i: int|
                0 <= i < folder.files@.len() ==> (#[trigger] folder.files@[i].gen) < u64::MAX
                    - 1) ==> r is Ok,
            r matches Ok(s) ==> s.inv(),
            // Whatever order the folder listed its files in, the contents
            // are the replay of those same files in generation order.
            r is Ok ==> exists|sf: Seq<LogFile>|
                {
                    &&& #[trigger] sorted_gens(sf)
                    &&& sf.len() == folder.files@.len()
                    &&& forall|i: int| 0 <= i < sf.len() ==> folder.files@.contains(#[trigger] sf[i])
                    &&& forall|k: Seq<char>|
                        #[trigger] (r->Ok_0).val_of(k) == replay_val(sf, k)
                },
            sorted_gens(folder.files@) && r is Ok ==> {
                &&& forall|k: Seq<char>|
                    (#[trigger] (r->Ok_0).val_of(k)) == replay_val(folder.files@, k)
                &&& (r->Ok_0).spec_current_gen() == (if folder.files@.len() > 0 {
                    folder.files@.last().gen + 1
                } else {
                    1int
                })
                &&& forall|i: int|
                    0 <= i < folder.files@.len() ==> (#[trigger] folder.files@[i].gen) < (
                    r->Ok_0).spec_current_gen()
            },
    {
        let ghost input = folder.files@;
        let sfiles = sort_files(folder.files);
        let ghost gsf = sfiles@;
        if sfiles.len() > 0 {
            let last_gen = sfiles[sfiles.len() - 1].gen;
            if last_gen >= u64::MAX - 1 {
                // No room above the newest generation for a fresh writer.
                proof {
                    let j = choose|j: int|
                        0 <= j < input.len() && input[j] == gsf[gsf.len() - 1];
                    assert(input[j].gen >= u64::MAX - 1);
                }
                return Err(KvsError::GenerationExhausted);
            }
        }
        proof {
            assert forall|i: int| 0 <= i < gsf.len() implies (#[trigger] gsf[i].gen) < u64::MAX
                - 1 by {
                if i < gsf.len() - 1 {
                    assert(gsf[i].gen < gsf[gsf.len() - 1].gen);
                }
            }
        }
        let mut folder2 = Folder { files: sfiles };
        let mut index: Vec<(String, CommandPos)> = Vec::new();
        let mut uncompacted: u64 = 0;
        let ghost mut mcur: Map<Seq<char>, Seq<char>> = Map::empty();
        let mut fi: usize = 0;
        proof {
            assert(gsf.take(0) =~= Seq::<LogFile>::empty());
            assert(replay_files(gsf.take(0), Map::<Seq<char>, Seq<char>>::empty()) == Map::<Seq<char>, Seq<char>>::empty());
        }
        while fi < folder2.files.len()
            invariant
                folder2.files@ == gsf,
                unique_gens(gsf),
                sorted_gens(gsf),
                forall|i: int| 0 <= i < gsf.len() ==> (#[trigger] gsf[i].gen) < u64::MAX - 1,
                fi <= gsf.len(),
                sorted_keys(index@),
                mcur == replay_files(gsf.take(fi as int), Map::empty()),
                forall|k: Seq<char>|
                    #[trigger] lookup_val(index@, gsf, k) == map_opt(mcur, k),
                forall|k: Seq<char>|
                    (#[trigger] ival(index@, k)) is Some ==> entry_ok(
                        gsf,
                        k,
                        ival(index@, k)->0,
                    ),
                total_size(gsf.take(fi as int)) >= live_total(index@) + uncompacted,
            decreases gsf.len() - fi,
        {
            let flen = folder2.file_size(fi);
            let gen = folder2.files[fi].gen;
            let ghost fdata = gsf[fi as int].data@;
            let ghost m_prev = mcur;
            let mut pos: usize = 0;
            proof {
                lemma_bytes_of_at(gsf, fi as int);
            }
            loop
                invariant
                    folder2.files@ == gsf,
                    unique_gens(gsf),
                    sorted_gens(gsf),
                    fi < gsf.len(),
                    flen == fdata.len(),
                    pos <= flen,
                    gen == gsf[fi as int].gen,
                    fdata == gsf[fi as int].data@,
                    bytes_of(gsf, gen) == Some(fdata),
                    sorted_keys(index@),
                    replay_bytes(fdata, 0, m_prev) == replay_bytes(fdata, pos as int, mcur),
                    forall|k: Seq<char>|
                        #[trigger] lookup_val(index@, gsf, k) == map_opt(mcur, k),
                    forall|k: Seq<char>|
                        (#[trigger] ival(index@, k)) is Some ==> entry_ok(
                            gsf,
                            k,
                            ival(index@, k)->0,
                        ),
                    total_size(gsf.take(fi as int)) + pos >= live_total(index@) + uncompacted,
                ensures
                    parse_record(fdata, pos as int) is None,
                decreases flen - pos,
            {
                let parsed = {
                    let file = &folder2.files[fi];
                    parse_command(file.data.as_slice(), pos)
                };
                match parsed {
                    None => {
                        break ;
                    },
                    Some((cmd, end)) => {
                        proof {
                            crate::codec::lemma_parse_bounds(fdata, pos as int);
                        }
                        let ghost mcur0 = mcur;
                        let ghost index0 = index@;
                        let cp = CommandPos {
                            gen,
                            pos: pos as u64,
                            len: (end - pos) as u64,
                        };
                        match cmd {
                            Command::Put { key, value } => {
                                let prev = idx_upsert(&mut index, key.as_str(), cp);
                                match prev {
                                    Some(o) => {
                                        uncompacted = sat_add(uncompacted, o.len);
                                    },
                                    None => {},
                                }
                                proof {
                                    mcur = mcur.insert(key@, value@);
                                    assert(replay_bytes(fdata, pos as int, mcur0)
                                        == replay_bytes(fdata, end as int, mcur));
                                    assert(entry_ok(gsf, key@, cp));
                                    assert(entry_val(gsf, cp) == Some(value@));
                                    assert forall|k: Seq<char>| true implies
                                        #[trigger] lookup_val(index@, gsf, k) == map_opt(
                                        mcur,
                                        k,
                                    ) by {
                                        if k == key@ {
                                        } else {
                                            assert(ival(index@, k) == ival(index0, k));
                                            assert(lookup_val(index0, gsf, k) == map_opt(
                                                mcur0,
                                                k,
                                            ));
                                        }
                                    }
                                    assert forall|k: Seq<char>|
                                        (#[trigger] ival(index@, k)) is Some implies entry_ok(
                                        gsf,
                                        k,
                                        ival(index@, k)->0,
                                    ) by {
                                        if k != key@ {
                                            assert(ival(index@, k) == ival(index0, k));
                                        }
                                    }
                                }
                            },
                            Command::Remove { key } => {
                                let prev = idx_delete(&mut index, key.as_str());
                                let reclen = (end - pos) as u64;
                                match prev {
                                    Some(o) => {
                                        uncompacted = sat_add(
                                            uncompacted,
                                            sat_add(o.len, reclen),
                                        );
                                    },
                                    None => {
                                        uncompacted = sat_add(uncompacted, reclen);
                                    },
                                }
                                proof {
                                    mcur = mcur.remove(key@);
                                    assert(replay_bytes(fdata, pos as int, mcur0)
                                        == replay_bytes(fdata, end as int, mcur));
                                    assert forall|k: Seq<char>| true implies
                                        #[trigger] lookup_val(index@, gsf, k) == map_opt(
                                        mcur,
                                        k,
                                    ) by {
                                        if k == key@ {
                                        } else {
                                            assert(ival(index@, k) == ival(index0, k));
                                            assert(lookup_val(index0, gsf, k) == map_opt(
                                                mcur0,
                                                k,
                                            ));
                                        }
                                    }
                                    assert forall|k: Seq<char>|
                                        (#[trigger] ival(index@, k)) is Some implies entry_ok(
                                        gsf,
                                        k,
                                        ival(index@, k)->0,
                                    ) by {
                                        if k != key@ {
                                            assert(ival(index@, k) == ival(index0, k));
                                        }
                                    }
                                }
                            },
                        }
                        pos = end;
                    },
                }
            }
            proof {
                assert(parse_record(fdata, pos as int) is None);
                assert(replay_bytes(fdata, pos as int, mcur) == mcur);
                assert(gsf.take(fi + 1) =~= gsf.take(fi as int).push(gsf[fi as int]));
                crate::log::lemma_replay_files_snoc(
                    gsf.take(fi as int),
                    gsf[fi as int],
                    Map::empty(),
                );
                assert(replay_files(gsf.take(fi + 1), Map::empty()) == mcur);
                // Unparsed torn-tail bytes only widen the size inequality.
                lemma_total_push(gsf.take(fi as int), gsf[fi as int]);
                assert(total_size(gsf.take(fi + 1)) >= total_size(gsf.take(fi as int)) + pos);
            }
            fi = fi + 1;
        }
        // A fresh generation becomes the active writer.
        let file_cnt = folder2.file_count();
        let current_gen = if file_cnt > 0 {
            let last = folder2.files[file_cnt - 1].gen;
            last + 1
        } else {
            1u64
        };
        proof {
            assert(!has_gen(gsf, current_gen)) by {
                if has_gen(gsf, current_gen) {
                    let j = choose|j: int| 0 <= j < gsf.len() && gsf[j].gen == current_gen;
                    if j < gsf.len() - 1 {
                        assert(gsf[j].gen < gsf[gsf.len() - 1].gen);
                    }
                }
            }
        }
        folder2.create_file(current_gen);
        let ghost idx_g = index@;
        let mut scopes: Vec<String> = Vec::new();
        scopes.push(String::new());
        let store = KvStore {
            folder: folder2,
            scopes,
            active_scope: 0,
            current_gen,
            index,
            uncompacted,
        };
        proof {
            let files3 = store.folder.files@;
            assert(files3 =~= gsf.push(files3.last()));
            assert(gsf.take(gsf.len() as int) =~= gsf);
            let newf = files3.last();
            assert(sorted_gens(files3)) by {
                assert forall|a: int, b: int| 0 <= a < b < files3.len() implies files3[a].gen
                    < files3[b].gen by {
                    if b < gsf.len() {
                        assert(gsf[a].gen < gsf[b].gen);
                    } else {
                        if a < gsf.len() - 1 {
                            assert(gsf[a].gen < gsf[gsf.len() - 1].gen);
                        }
                    }
                }
            }
            crate::log::lemma_files_push_empty(gsf, newf, Map::empty());
            assert(replay_folder(files3) == mcur);
            assert(parse_record(newf.data@, 0) is None);
            assert(wf_log_from(newf.data@, 0));
            assert forall|k: Seq<char>| true implies #[trigger] lookup_val(
                store.index@,
                files3,
                k,
            ) == map_opt(replay_folder(files3), k) by {
                assert(store.index@ == idx_g);
                assert(lookup_val(idx_g, gsf, k) == map_opt(mcur, k));
                match ival(idx_g, k) {
                    Some(cpk) => {
                        assert(entry_ok(gsf, k, cpk));
                        if !has_gen(gsf, cpk.gen) {
                            lemma_bytes_of_absent(gsf, cpk.gen);
                        }
                        assert(cpk.gen != newf.gen);
                        crate::storage::lemma_bytes_of_push(gsf, newf, cpk.gen);
                        assert(entry_val(files3, cpk) == entry_val(gsf, cpk));
                    },
                    None => {},
                }
            }
            assert forall|k: Seq<char>| (#[trigger] ival(store.index@, k)) is Some implies
                entry_ok(files3, k, ival(store.index@, k)->0) by {
                let cpk = ival(store.index@, k)->0;
                assert(entry_ok(gsf, k, cpk));
                if !has_gen(gsf, cpk.gen) {
                    lemma_bytes_of_absent(gsf, cpk.gen);
                }
                crate::storage::lemma_bytes_of_push(gsf, newf, cpk.gen);
            }
            lemma_total_push(gsf, newf);
            assert(store.inv());
            assert(sorted_gens(gsf) && gsf.len() == input.len() && (forall|i: int|
                0 <= i < gsf.len() ==> input.contains(#[trigger] gsf[i])) && (forall|
                k: Seq<char>,
            | #[trigger] store.val_of(k) == replay_val(gsf, k)));
            if sorted_gens(folder.files@) {
                assert(folder2.files@.drop_last() =~= gsf);
            }
        }
        Ok(store)
    }

    /// Reads the value at index position `j`.
    fn read_entry(&self, j: usize) -> (r: Result<String, KvsError>)
        requires
            self.inv(),
            j < self.index@.len(),
        ensures
            r matches Ok(v) && Some(v@) == entry_val(self.folder.files@, self.index@[j as int].1),
    {
        let cp = self.index[j].1;
        proof {
            lemma_ival_at(self.index@, j as int);
            assert(entry_ok(self.folder.files@, self.index@[j as int].0@, cp));
            if !has_gen(self.folder.files@, cp.gen) {
                lemma_bytes_of_absent(self.folder.files@, cp.gen);
            }
        }
        let fi = match self.folder.find(cp.gen) {
            Some(i) => i,
            None => {
                proof {
                    assert(false);
                }
                return Err(KvsError::UnexpectedCommandType);
            },
        };
        proof {
            assert(unique_gens(self.folder.files@));
            lemma_bytes_of_at(self.folder.files@, fi as int);
            crate::codec::lemma_parse_bounds(self.folder.files@[fi as int].data@, cp.pos as int);
        }
        let fsize = self.folder.file_size(fi);
        let bytes = self.folder.read(fi, cp.pos as usize, cp.len as usize);
        proof {
            let b = self.folder.files@[fi as int].data@;
            crate::codec::lemma_parse_canonical(b, cp.pos as int);
            let rec = (parse_record(b, cp.pos as int)->0).0;
            assert(bytes@ =~= b.subrange(cp.pos as int, cp.pos + cp.len));
            assert(bytes@.subrange(0, encode_record(rec).len() as int) =~= encode_record(rec));
            crate::codec::lemma_parse_encode(bytes@, 0, rec);
        }
        match parse_command(bytes.as_slice(), 0) {
            Some((Command::Put { key: _k, value }, _end)) => Ok(value),
            _ => {
                proof {
                    assert(false);
                }
                Err(KvsError::UnexpectedCommandType)
            },
        }
    }

    /// Walks the whole index in ascending key order.
    pub fn get_all(&self) -> (r: Result<Vec<(String, String)>, KvsError>)
        requires
            self.inv(),
        ensures
            r matches Ok(items) && {
                &&& forall|a: int, b: int|
                    0 <= a < b < items@.len() ==> str_lt(
                        (#[trigger] items@[a]).0@,
                        (#[trigger] items@[b]).0@,
                    )
                &&& forall|a: int|
                    0 <= a < items@.len() ==> self.val_of((#[trigger] items@[a]).0@) == Some(
                        items@[a].1@,
                    )
                &&& forall|k: Seq<char>|
                    (#[trigger] self.val_of(k)) is Some ==> exists|a: int|
                        0 <= a < items@.len() && items@[a].0@ == k
            },
    {
        self.range_scan(&RangeBound::Unbounded, &RangeBound::Unbounded)
    }

    /// The keys in `[lo, hi]` per the given bounds, in ascending order,
    /// with their values: exactly those the store holds in that range.
    pub fn get_range(&self, start: &RangeBound, end: &RangeBound) -> (r: Result<
        Vec<(String, String)>,
        KvsError,
    >)
        requires
            self.inv(),
        ensures
            r matches Ok(items) && {
                &&& forall|a: int, b: int|
                    0 <= a < b < items@.len() ==> str_lt(
                        (#[trigger] items@[a]).0@,
                        (#[trigger] items@[b]).0@,
                    )
                &&& forall|a: int|
                    0 <= a < items@.len() ==> in_range(*start, *end, (#[trigger] items@[a]).0@)
                        && self.val_of(items@[a].0@) == Some(items@[a].1@)
                &&& forall|k: Seq<char>|
                    in_range(*start, *end, k) && (#[trigger] self.val_of(k)) is Some
                        ==> exists|a: int| 0 <= a < items@.len() && items@[a].0@ == k
            },
    {
        self.range_scan(start, end)
    }

    /// Shared walk behind [`KvStore::get_all`] and [`KvStore::get_range`].
    #[verifier::rlimit(60)]
    fn range_scan(&self, start: &RangeBound, end: &RangeBound) -> (r: Result<
        Vec<(String, String)>,
        KvsError,
    >)
        requires
            self.inv(),
        ensures
            r matches Ok(items) && {
                &&& forall|a: int, b: int|
                    0 <= a < b < items@.len() ==> str_lt(
                        (#[trigger] items@[a]).0@,
                        (#[trigger] items@[b]).0@,
                    )
                &&& forall|a: int|
                    0 <= a < items@.len() ==> in_range(*start, *end, (#[trigger] items@[a]).0@)
                        && self.val_of(items@[a].0@) == Some(items@[a].1@)
                &&& forall|k: Seq<char>|
                    in_range(*start, *end, k) && (#[trigger] self.val_of(k)) is Some
                        ==> exists|a: int| 0 <= a < items@.len() && items@[a].0@ == k
            },
    {
        let mut items: Vec<(String, String)> = Vec::new();
        let mut j: usize = 0;
        while j < self.index.len()
            invariant
                self.inv(),
                j <= self.index@.len(),
                forall|a: int|
                    0 <= a < items@.len() ==> exists|b: int|
                        0 <= b < j && (#[trigger] items@[a]).0@ == self.index@[b].0@,
                forall|a: int, b: int|
                    0 <= a < b < items@.len() ==> str_lt(
                        (#[trigger] items@[a]).0@,
                        (#[trigger] items@[b]).0@,
                    ),
                forall|a: int|
                    0 <= a < items@.len() ==> in_range(*start, *end, (#[trigger] items@[a]).0@)
                        && self.val_of(items@[a].0@) == Some(items@[a].1@),
                forall|b: int|
                    0 <= b < j && in_range(*start, *end, (#[trigger] self.index@[b]).0@)
                        ==> exists|a: int|
                        0 <= a < items@.len() && items@[a].0@ == self.index@[b].0@,
            decreases self.index@.len() - j,
        {
            let ghost items0 = items@;
            let key_in = {
                let pair = &self.index[j];
                bound_check(start, end, pair.0.as_str())
            };
            if key_in {
                let v = match self.read_entry(j) {
                    Ok(v) => v,
                    Err(e) => {
                        proof {
                            assert(false);
                        }
                        return Err(e);
                    },
                };
                let kcopy = self.index[j].0.clone();
                items.push((kcopy, v));
                proof {
                    lemma_ival_at(self.index@, j as int);
                    assert(items@ =~= items0.push(items@.last()));
                    assert(forall|a: int|
                        0 <= a < items0.len() ==> #[trigger] items@[a] == items0[a]);
                    assert(items@.last().0@ == self.index@[j as int].0@);
                    assert forall|a: int, b: int| 0 <= a < b < items@.len() implies str_lt(
                        (#[trigger] items@[a]).0@,
                        (#[trigger] items@[b]).0@,
                    ) by {
                        if b == items@.len() - 1 {
                            let c = choose|c: int|
                                0 <= c < j && items0[a].0@ == self.index@[c].0@;
                            assert(str_lt(self.index@[c].0@, self.index@[j as int].0@));
                        }
                    }
                    assert forall|b: int|
                        0 <= b < j + 1 && in_range(
                            *start,
                            *end,
                            (#[trigger] self.index@[b]).0@,
                        ) implies exists|a: int|
                        0 <= a < items@.len() && items@[a].0@ == self.index@[b].0@ by {
                        if b == j {
                            assert(items@[items@.len() - 1].0@ == self.index@[b].0@);
                        } else {
                            let a = choose|a: int|
                                0 <= a < items0.len() && items0[a].0@ == self.index@[b].0@;
                            assert(items@[a].0@ == self.index@[b].0@);
                        }
                    }
                }
            } else {
                proof {
                    assert forall|b: int|
                        0 <= b < j + 1 && in_range(
                            *start,
                            *end,
                            (#[trigger] self.index@[b]).0@,
                        ) implies exists|a: int|
                        0 <= a < items@.len() && items@[a].0@ == self.index@[b].0@ by {
                        if b < j {
                            let a = choose|a: int|
                                0 <= a < items@.len() && items@[a].0@ == self.index@[b].0@;
                        }
                    }
                }
            }
            j = j + 1;
        }
        proof {
            assert forall|k: Seq<char>|
                in_range(*start, *end, k) && (#[trigger] self.val_of(k)) is Some implies exists|
                a: int,
            | 0 <= a < items@.len() && items@[a].0@ == k by {
                lemma_ival_some_has_key(self.index@, k);
                let b = choose|b: int| 0 <= b < self.index@.len() && self.index@[b].0@ == k;
            }
        }
        Ok(items)
    }

    /// Whether a scope of this name was registered.
    pub closed spec fn has_scope(self, name: Seq<char>) -> bool {
        exists|i: int| 0 <= i < self.scopes@.len() && self.scopes@[i]@ == name
    }

    /// Registers an additional write scope: its records go to generation
    /// files of their own, while reads share the one index. All scopes
    /// draw from the store's single generation counter, so replay order
    /// across scopes is the order the files were opened in.
    pub fn add_substore(&mut self, sub_path: &str) -> (r: Result<(), KvsError>)
        requires
            old(self).inv(),
        ensures
            final(self).inv(),
            r is Ok,
            final(self).has_scope(sub_path@),
            forall|k: Seq<char>| #[trigger] final(self).val_of(k) == old(self).val_of(k),
            final(self).spec_current_gen() == old(self).spec_current_gen(),
    {
        self.scopes.push(sub_path.to_owned());
        proof {
            assert(self.scopes@.last()@ == sub_path@);
            assert(self.folder.files@ == old(self).folder.files@);
        }
        Ok(())
    }

    /// Resolves a scope name to its position, if registered.
    fn find_scope(&self, name: &str) -> (r: Option<usize>)
        ensures
            r matches Some(i) ==> i < self.scopes@.len() && self.scopes@[i as int]@ == name@,
            r is None ==> !self.has_scope(name@),
    {
        let mut i: usize = 0;
        while i < self.scopes.len()
            invariant
                i <= self.scopes@.len(),
                forall|j: int| 0 <= j < i ==> (#[trigger] self.scopes@[j])@ != name@,
            decreases self.scopes@.len() - i,
        {
            let matches_here = matches!(
                str_compare(self.scopes[i].as_str(), name),
                StrOrd::Eq
            );
            if matches_here {
                return Some(i);
            }
            i = i + 1;
        }
        None
    }

    /// Makes `target` the scope of the active file, rotating to a fresh
    /// generation when another scope owned it.
    fn rotate_to(&mut self, target: usize)
        requires
            old(self).inv(),
            target < old(self).spec_scopes().len(),
        ensures
            final(self).inv(),
            forall|k: Seq<char>| #[trigger] final(self).val_of(k) == old(self).val_of(k),
            final(self).spec_scopes() == old(self).spec_scopes(),
            final(self).current_gen <= old(self).current_gen + 1,
            final(self).uncompacted == old(self).uncompacted,
    {
        if self.active_scope == target {
            return ;
        }
        if self.current_gen >= u64::MAX - 1 {
            // No generation headroom: keep writing where we are.
            return ;
        }
        let ghost files0 = self.folder.files@;
        let new_gen = self.current_gen + 1;
        proof {
            assert(!has_gen(files0, new_gen)) by {
                if has_gen(files0, new_gen) {
                    let j = choose|j: int| 0 <= j < files0.len() && files0[j].gen == new_gen;
                    if j < files0.len() - 1 {
                        assert(files0[j].gen < files0[files0.len() - 1].gen);
                    }
                }
            }
        }
        self.folder.create_file(new_gen);
        self.current_gen = new_gen;
        self.active_scope = target;
        proof {
            let files1 = self.folder.files@;
            let newf = files1.last();
            assert(files1 =~= files0.push(newf));
            assert(sorted_gens(files1)) by {
                assert forall|a: int, b: int| 0 <= a < b < files1.len() implies files1[a].gen
                    < files1[b].gen by {
                    if b < files0.len() {
                        assert(files0[a].gen < files0[b].gen);
                    } else if a < files0.len() - 1 {
                        assert(files0[a].gen < files0[files0.len() - 1].gen);
                    }
                }
            }
            crate::log::lemma_files_push_empty(files0, newf, Map::empty());
            assert(replay_folder(files1) == replay_folder(files0));
            assert(parse_record(newf.data@, 0) is None);
            assert(wf_log_from(newf.data@, 0));
            assert forall|k: Seq<char>| true implies #[trigger] lookup_val(
                self.index@,
                files1,
                k,
            ) == map_opt(replay_folder(files1), k) by {
                assert(lookup_val(self.index@, files0, k) == map_opt(replay_folder(files0), k));
                match ival(self.index@, k) {
                    Some(cpk) => {
                        assert(entry_ok(files0, k, cpk));
                        if !has_gen(files0, cpk.gen) {
                            lemma_bytes_of_absent(files0, cpk.gen);
                        }
                        assert(cpk.gen != newf.gen);
                        crate::storage::lemma_bytes_of_push(files0, newf, cpk.gen);
                        assert(entry_val(files1, cpk) == entry_val(files0, cpk));
                    },
                    None => {},
                }
            }
            assert forall|k: Seq<char>| (#[trigger] ival(self.index@, k)) is Some implies
                entry_ok(files1, k, ival(self.index@, k)->0) by {
                let cpk = ival(self.index@, k)->0;
                assert(entry_ok(files0, k, cpk));
                if !has_gen(files0, cpk.gen) {
                    lemma_bytes_of_absent(files0, cpk.gen);
                }
                crate::storage::lemma_bytes_of_push(files0, newf, cpk.gen);
            }
            lemma_total_push(files0, newf);
        }
    }

    /// Sets `key` to `value` under a scope: the record lands in the
    /// scope's own generation stream, but reads see one namespace.
    pub fn set_scoped(&mut self, key: String, value: String, substore: Option<&str>) -> (r:
        Result<(), KvsError>)
        requires
            old(self).inv(),
            match substore {
                Some(name) => old(self).has_scope(name@),
                None => true,
            },
        ensures
            final(self).inv(),
            r is Ok,
            final(self).val_of(key@) == Some(value@),
            forall|k: Seq<char>|
                k != key@ ==> #[trigger] final(self).val_of(k) == old(self).val_of(k),
            final(self).spec_current_gen() <= old(self).spec_current_gen() + 3,
            // Stale bytes only grow under a write, unless a compaction
            // reset them.
            final(self).spec_uncompacted() >= old(self).spec_uncompacted()
                || final(self).spec_uncompacted() == 0,
    {
        let target = match substore {
            Some(name) => match self.find_scope(name) {
                Some(i) => i,
                None => {
                    proof {
                        assert(false);
                    }
                    0
                },
            },
            None => 0,
        };
        self.rotate_to(target);
        self.write_set(key, value);
        self.maybe_compact();
        Ok(())
    }

    /// Reads the value for `key`; scoped reads share the one index.
    pub fn get_scoped(&self, key: &str, _substore: Option<&str>) -> (r: Result<
        Option<String>,
        KvsError,
    >)
        requires
            self.inv(),
        ensures
            r matches Ok(o) && crate::component::data_view(o) == self.val_of(key@),
    {
        self.get(key)
    }

    /// Opens a transaction that batches writes; the handle owns the store
    /// until [`KvTxn::finish`] hands it back.
    pub fn txn(self) -> (t: KvTxn)
        ensures
            t.store == self,
    {
        KvTxn::new(self)
    }

    /// Hands the folder back, to be persisted by the host. Replaying it
    /// rebuilds exactly the store's current contents.
    pub fn into_folder(self) -> (f: Folder)
        requires
            self.inv(),
        ensures
            f.wf(),
            sorted_gens(f.files@),
            forall|i: int|
                0 <= i < f.files@.len() ==> (#[trigger] f.files@[i].gen)
                    <= self.spec_current_gen(),
            self.spec_current_gen() < u64::MAX,
            forall|k: Seq<char>| #[trigger] map_opt(replay_folder(f.files@), k) == self.val_of(k),
    {
        proof {
            assert(unique_gens(self.folder.files@));
            assert forall|i: int| 0 <= i < self.folder.files@.len() implies (
            #[trigger] self.folder.files@[i].gen) <= self.current_gen by {
                if i < self.folder.files@.len() - 1 {
                    assert(self.folder.files@[i].gen < self.folder.files@.last().gen);
                }
            }
        }
        self.folder
    }
}

/// A short-lived transaction over the store. It owns the store while it
/// lives and hands it back from [`KvTxn::finish`]; with the in-memory byte
/// sink every append is durable at once, so finishing has nothing left to
/// flush.
pub struct KvTxn {
    pub store: KvStore,
}

impl KvTxn {
    /// Wraps a store in a transaction handle.
    pub fn new(store: KvStore) -> (t: KvTxn)
        ensures
            t.store == store,
    {
        KvTxn { store }
    }

    /// Sets `key` to `value`.
    pub fn set(&mut self, key: String, value: String) -> (r: Result<(), KvsError>)
        requires
            old(self).store.inv(),
        ensures
            final(self).store.inv(),
            r is Ok,
            final(self).store.val_of(key@) == Some(value@),
            forall|k: Seq<char>|
                k != key@ ==> #[trigger] final(self).store.val_of(k) == old(self).store.val_of(k),
            final(self).store.spec_current_gen() <= old(self).store.spec_current_gen() + 2,
    {
        self.store.set(key, value)
    }

    /// Sets `key` to `value` under a registered scope.
    pub fn set_scoped(&mut self, key: String, value: String, substore: Option<&str>) -> (r:
        Result<(), KvsError>)
        requires
            old(self).store.inv(),
            match substore {
                Some(name) => old(self).store.has_scope(name@),
                None => true,
            },
        ensures
            final(self).store.inv(),
            r is Ok,
            final(self).store.val_of(key@) == Some(value@),
            forall|k: Seq<char>|
                k != key@ ==> #[trigger] final(self).store.val_of(k) == old(self).store.val_of(k),
            final(self).store.spec_current_gen() <= old(self).store.spec_current_gen() + 3,
    {
        self.store.set_scoped(key, value, substore)
    }

    /// Reads the value for `key`.
    pub fn get(&self, key: &str) -> (r: Result<Option<String>, KvsError>)
        requires
            self.store.inv(),
        ensures
            r matches Ok(o) && crate::component::data_view(o) == self.store.val_of(key@),
    {
        self.store.get(key)
    }

    /// Reads the value for `key`; scoped reads share the one index.
    pub fn get_scoped(&self, key: &str, substore: Option<&str>) -> (r: Result<
        Option<String>,
        KvsError,
    >)
        requires
            self.store.inv(),
        ensures
            r matches Ok(o) && crate::component::data_view(o) == self.store.val_of(key@),
    {
        self.store.get_scoped(key, substore)
    }

    /// The keys within the bounds, ascending, with their values.
    pub fn get_range(&self, start: &RangeBound, end: &RangeBound) -> (r: Result<
        Vec<(String, String)>,
        KvsError,
    >)
        requires
            self.store.inv(),
        ensures
            r matches Ok(items) && {
                &&& forall|a: int, b: int|
                    0 <= a < b < items@.len() ==> str_lt(
                        (#[trigger] items@[a]).0@,
                        (#[trigger] items@[b]).0@,
                    )
                &&& forall|a: int|
                    0 <= a < items@.len() ==> in_range(*start, *end, (#[trigger] items@[a]).0@)
                        && self.store.val_of(items@[a].0@) == Some(items@[a].1@)
                &&& forall|k: Seq<char>|
                    in_range(*start, *end, k) && (#[trigger] self.store.val_of(k)) is Some
                        ==> exists|a: int| 0 <= a < items@.len() && items@[a].0@ == k
            },
    {
        self.store.get_range(start, end)
    }

    /// Removes `key`, or reports `KeyNotFound`.
    pub fn remove(&mut self, key: String) -> (r: Result<(), KvsError>)
        requires
            old(self).store.inv(),
        ensures
            final(self).store.inv(),
            r is Ok <==> old(self).store.val_of(key@) is Some,
            r is Err ==> r == Err::<(), KvsError>(KvsError::KeyNotFound),
            final(self).store.val_of(key@) is None,
            forall|k: Seq<char>|
                k != key@ ==> #[trigger] final(self).store.val_of(k) == old(self).store.val_of(k),
            final(self).store.spec_current_gen() <= old(self).store.spec_current_gen() + 2,
    {
        self.store.remove(key)
    }

    /// Ends the transaction, handing the store back with every write
    /// already durable in its folder.
    pub fn finish(self) -> (s: KvStore)
        ensures
            s == self.store,
    {
        self.store
    }
}

/// One decimal digit as a character.
pub open spec fn digit_char(d: int) -> char {
    if d == 0 {
        '0'
    } else if d == 1 {
        '1'
    } else if d == 2 {
        '2'
    } else if d == 3 {
        '3'
    } else if d == 4 {
        '4'
    } else if d == 5 {
        '5'
    } else if d == 6 {
        '6'
    } else if d == 7 {
        '7'
    } else if d == 8 {
        '8'
    } else {
        '9'
    }
}

/// The decimal digits of `n`, most significant first.
pub open spec fn dec_digits(n: int) -> Seq<char>
    decreases n,
{
    if n < 10 {
        seq![digit_char(n)]
    } else {
        dec_digits(n / 10).push(digit_char(n % 10))
    }
}

/// One digit as a string slice.
fn digit_str(d: u64) -> (s: &'static str)
    requires
        d < 10,
    ensures
        s@ == seq![digit_char(d as int)],
{
    proof {
        reveal_strlit("0");
        reveal_strlit("1");
        reveal_strlit("2");
        reveal_strlit("3");
        reveal_strlit("4");
        reveal_strlit("5");
        reveal_strlit("6");
        reveal_strlit("7");
        reveal_strlit("8");
        reveal_strlit("9");
    }
    let s = if d == 0 {
        "0"
    } else if d == 1 {
        "1"
    } else if d == 2 {
        "2"
    } else if d == 3 {
        "3"
    } else if d == 4 {
        "4"
    } else if d == 5 {
        "5"
    } else if d == 6 {
        "6"
    } else if d == 7 {
        "7"
    } else if d == 8 {
        "8"
    } else {
        "9"
    };
    proof {
        assert(s@ =~= seq![digit_char(d as int)]);
    }
    s
}

/// Writes `n` in decimal.
pub fn u64_to_decimal(n: u64) -> (s: String)
    ensures
        s@ == dec_digits(n as int),
    decreases n,
{
    if n < 10 {
        digit_str(n).to_owned()
    } else {
        let mut s = u64_to_decimal(n / 10);
        s.append(digit_str(n % 10));
        proof {
            assert(s@ =~= dec_digits((n / 10) as int).push(digit_char((n % 10) as int)));
        }
        s
    }
}

/// The file name of a generation under a directory: the directory, a
/// separator, and the generation in decimal.
pub fn log_path(dir: &str, gen: u64) -> (p: String)
    ensures
        p@ == dir@ + "/"@ + dec_digits(gen as int),
{
    let mut p = dir.to_owned();
    p.append("/");
    let digits = u64_to_decimal(gen);
    p.append(digits.as_str());
    p
}

} // verus!
