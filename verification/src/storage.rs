//! The byte-sink: a folder of named byte files.
//!
//! The store persists into a folder holding one file per generation, each an
//! append-only byte sequence. This adapter keeps the bytes in memory; the
//! host may write a folder out and hand it back on the next open, and the
//! store proves that replaying a handed-back folder rebuilds its state.

use vstd::prelude::*;
use vstd::slice::{slice_subrange, slice_to_vec};

use crate::codec::append_bytes;

verus! {

/// One log file: its generation number and its bytes.
pub struct LogFile {
    pub gen: u64,
    pub data: Vec<u8>,
}

/// A folder of log files.
pub struct Folder {
    pub files: Vec<LogFile>,
}

/// Whether some file carries generation `g`.
pub open spec fn has_gen(s: Seq<LogFile>, g: u64) -> bool {
    exists|i: int| 0 <= i < s.len() && s[i].gen == g
}

/// No two files share a generation.
pub open spec fn unique_gens(s: Seq<LogFile>) -> bool {
    forall|i: int, j: int| 0 <= i < j < s.len() ==> s[i].gen != s[j].gen
}

/// Generations strictly ascend through the file list.
pub open spec fn sorted_gens(s: Seq<LogFile>) -> bool {
    forall|i: int, j: int| 0 <= i < j < s.len() ==> s[i].gen < s[j].gen
}

/// The bytes of the first file carrying generation `g`, if any.
pub open spec fn bytes_of(s: Seq<LogFile>, g: u64) -> Option<Seq<u8>>
    decreases s.len(),
{
    if s.len() == 0 {
        None
    } else if s[0].gen == g {
        Some(s[0].data@)
    } else {
        bytes_of(s.drop_first(), g)
    }
}

/// With unique generations, any file with generation `g` gives its bytes.
pub proof fn lemma_bytes_of_at(s: Seq<LogFile>, i: int)
    requires
        unique_gens(s),
        0 <= i < s.len(),
    ensures
        bytes_of(s, s[i].gen) == Some(s[i].data@),
    decreases s.len(),
{
    if i > 0 {
        assert(s[0].gen != s[i].gen);
        assert(forall|j: int|
            0 <= j < s.drop_first().len() ==> #[trigger] s.drop_first()[j] == s[j + 1]);
        lemma_bytes_of_at(s.drop_first(), i - 1);
    }
}

/// A generation no file carries reads as absent.
pub proof fn lemma_bytes_of_absent(s: Seq<LogFile>, g: u64)
    requires
        !has_gen(s, g),
    ensures
        bytes_of(s, g) is None,
    decreases s.len(),
{
    if s.len() > 0 {
        assert(s[0].gen != g);
        assert(forall|j: int|
            0 <= j < s.drop_first().len() ==> #[trigger] s.drop_first()[j] == s[j + 1]);
        lemma_bytes_of_absent(s.drop_first(), g);
    }
}

/// Replacing the file at `i` changes only that file's generation reading.
pub proof fn lemma_bytes_of_update(s: Seq<LogFile>, i: int, f: LogFile, g: u64)
    requires
        unique_gens(s),
        0 <= i < s.len(),
        f.gen == s[i].gen,
    ensures
        bytes_of(s.update(i, f), g) == if g == f.gen {
            Some(f.data@)
        } else {
            bytes_of(s, g)
        },
    decreases s.len(),
{
    if i == 0 {
        assert(s.update(0, f)[0] == f);
        assert(s.update(0, f).drop_first() =~= s.drop_first());
        if g != f.gen {
        } else {
        }
    } else {
        assert(s.update(i, f)[0] == s[0]);
        assert(s.update(i, f).drop_first() =~= s.drop_first().update(i - 1, f));
        assert(forall|j: int|
            0 <= j < s.drop_first().len() ==> #[trigger] s.drop_first()[j] == s[j + 1]);
        lemma_bytes_of_update(s.drop_first(), i - 1, f, g);
        if g == f.gen {
            assert(s[0].gen != s[i].gen);
        }
    }
}

impl Folder {
    /// No two files share a generation.
    pub open spec fn wf(self) -> bool {
        unique_gens(self.files@)
    }

    /// An empty folder.
    pub fn new() -> (f: Folder)
        ensures
            f.wf(),
            f.files@.len() == 0,
    {
        Folder { files: Vec::new() }
    }

    /// How many files the folder holds.
    pub fn file_count(&self) -> (n: usize)
        ensures
            n == self.files@.len(),
    {
        self.files.len()
    }

    /// Creates an empty file for a fresh generation, at the end of the list.
    pub fn create_file(&mut self, gen: u64)
        requires
            !has_gen(old(self).files@, gen),
        ensures
            final(self).files@.len() == old(self).files@.len() + 1,
            final(self).files@.last().gen == gen,
            final(self).files@.last().data@ == Seq::<u8>::empty(),
            final(self).files@.drop_last() == old(self).files@,
    {
        self.files.push(LogFile { gen, data: Vec::new() });
        proof {
            assert(self.files@.drop_last() =~= old(self).files@);
        }
    }

    /// Appends bytes to the newest file.
    pub fn append_to_last(&mut self, bytes: &[u8])
        requires
            old(self).files@.len() > 0,
        ensures
            final(self).files@.len() == old(self).files@.len(),
            final(self).files@.drop_last() == old(self).files@.drop_last(),
            final(self).files@.last().gen == old(self).files@.last().gen,
            final(self).files@.last().data@ == old(self).files@.last().data@ + bytes@,
    {
        let mut f = self.files.pop().unwrap();
        append_bytes(&mut f.data, bytes);
        self.files.push(f);
        proof {
            assert(self.files@.drop_last() =~= old(self).files@.drop_last());
        }
    }

    /// The size in bytes of the file at position `i`.
    pub fn file_size(&self, i: usize) -> (n: usize)
        requires
            i < self.files@.len(),
        ensures
            n == self.files@[i as int].data@.len(),
    {
        self.files[i].data.len()
    }

    /// The size in bytes of the newest file.
    pub fn last_size(&self) -> (n: usize)
        requires
            self.files@.len() > 0,
        ensures
            n == self.files@.last().data@.len(),
    {
        let i = self.files.len() - 1;
        self.files[i].data.len()
    }

    /// Finds the position of the file carrying generation `gen`.
    pub fn find(&self, gen: u64) -> (r: Option<usize>)
        ensures
            match r {
                Some(i) => i < self.files@.len() && self.files@[i as int].gen == gen,
                None => !has_gen(self.files@, gen),
            },
    {
        let mut i: usize = 0;
        while i < self.files.len()
            invariant
                i <= self.files@.len(),
                forall|j: int| 0 <= j < i ==> self.files@[j].gen != gen,
            decreases self.files@.len() - i,
        {
            if self.files[i].gen == gen {
                return Some(i);
            }
            i = i + 1;
        }
        None
    }

    /// Reads `len` bytes at `pos` from the file at position `i`.
    pub fn read(&self, i: usize, pos: usize, len: usize) -> (out: Vec<u8>)
        requires
            i < self.files@.len(),
            pos + len <= self.files@[i as int].data@.len(),
        ensures
            out@ == self.files@[i as int].data@.subrange(pos as int, pos + len),
    {
        let f = &self.files[i];
        let n = f.data.len();
        slice_to_vec(slice_subrange(f.data.as_slice(), pos, pos + len))
    }

    /// Removes the file carrying generation `gen`, reporting whether one
    /// was there.
    pub fn remove_file(&mut self, gen: u64) -> (r: bool)
        requires
            old(self).wf(),
        ensures
            r == has_gen(old(self).files@, gen),
            final(self).wf(),
            forall|g: u64|
                g != gen ==> bytes_of(final(self).files@, g) == bytes_of(old(self).files@, g),
            bytes_of(final(self).files@, gen) is None,
    {
        let found = self.find(gen);
        match found {
            Some(i) => {
                self.files.remove(i);
                proof {
                    let s0 = old(self).files@;
                    let s1 = self.files@;
                    assert(s1 =~= s0.subrange(0, i as int) + s0.subrange(
                        i + 1,
                        s0.len() as int,
                    ));
                    assert(forall|j: int| 0 <= j < i ==> s1[j] == s0[j]);
                    assert(forall|j: int| i <= j < s1.len() ==> s1[j] == s0[j + 1]);
                    assert(unique_gens(s1));
                    assert(!has_gen(s1, gen)) by {
                        if has_gen(s1, gen) {
                            let j = choose|j: int| 0 <= j < s1.len() && s1[j].gen == gen;
                        }
                    }
                    lemma_bytes_of_absent(s1, gen);
                    assert forall|g: u64| g != gen implies bytes_of(s1, g) == bytes_of(
                        s0,
                        g,
                    ) by {
                        lemma_bytes_of_remove(s0, i as int, g);
                    }
                }
                true
            },
            None => {
                proof {
                    lemma_bytes_of_absent(self.files@, gen);
                }
                false
            },
        }
    }
}

/// Appending a file for a fresh generation leaves other readings unchanged.
pub proof fn lemma_bytes_of_push(s: Seq<LogFile>, f: LogFile, g: u64)
    requires
        !has_gen(s, f.gen),
    ensures
        bytes_of(s.push(f), g) == if g == f.gen {
            Some(f.data@)
        } else {
            bytes_of(s, g)
        },
    decreases s.len(),
{
    if s.len() == 0 {
        assert(s.push(f)[0] == f);
        if g != f.gen {
            assert(s.push(f).drop_first() =~= Seq::<LogFile>::empty());
            assert(bytes_of(s.push(f).drop_first(), g) is None);
            assert(bytes_of(s, g) is None);
        }
    } else {
        assert(s.push(f)[0] == s[0]);
        assert(s.push(f).drop_first() =~= s.drop_first().push(f));
        assert(forall|j: int|
            0 <= j < s.drop_first().len() ==> #[trigger] s.drop_first()[j] == s[j + 1]);
        assert(!has_gen(s.drop_first(), f.gen)) by {
            if has_gen(s.drop_first(), f.gen) {
                let j = choose|j: int|
                    0 <= j < s.drop_first().len() && s.drop_first()[j].gen == f.gen;
                assert(s[j + 1].gen == f.gen);
            }
        }
        lemma_bytes_of_push(s.drop_first(), f, g);
        if g == f.gen {
            assert(s[0].gen != f.gen);
        }
    }
}

/// Removing the file at `i` changes only that file's generation reading.
proof fn lemma_bytes_of_remove(s: Seq<LogFile>, i: int, g: u64)
    requires
        unique_gens(s),
        0 <= i < s.len(),
        g != s[i].gen,
    ensures
        bytes_of(s.remove(i), g) == bytes_of(s, g),
    decreases s.len(),
{
    if i == 0 {
        assert(s.remove(0) =~= s.drop_first());
    } else {
        assert(s.remove(i)[0] == s[0]);
        assert(s.remove(i).drop_first() =~= s.drop_first().remove(i - 1));
        assert(forall|j: int|
            0 <= j < s.drop_first().len() ==> #[trigger] s.drop_first()[j] == s[j + 1]);
        lemma_bytes_of_remove(s.drop_first(), i - 1, g);
    }
}

} // verus!
