//! Version vectors: a partial-order timestamp assigning each actor a dot count.
//!
//! A clock is modelled by the function from actor names to dot counts, with
//! actors that were never incremented reading as zero. All contracts speak of
//! that function through [`VClock::dot`].

use vstd::prelude::*;

use crate::order::{str_compare, StrOrd};

verus! {

/// A single (actor, count) event, produced by [`VClock::inc`] and folded in
/// by [`VClock::apply`].
pub struct Dot {
    pub actor: String,
    pub counter: u64,
}

/// A version vector over actor names.
pub struct VClock {
    entries: Vec<(String, u64)>,
}

/// The count the entry list assigns to actor `a`: the first matching entry,
/// or zero when no entry matches.
pub open spec fn entries_dot(s: Seq<(String, u64)>, a: Seq<char>) -> u64
    decreases s.len(),
{
    if s.len() == 0 {
        0
    } else if s[0].0@ == a {
        s[0].1
    } else {
        entries_dot(s.drop_first(), a)
    }
}

/// Whether some entry is for actor `a`.
pub open spec fn has_actor(s: Seq<(String, u64)>, a: Seq<char>) -> bool {
    exists|i: int| 0 <= i < s.len() && s[i].0@ == a
}

/// Actors without an entry read as zero.
proof fn lemma_absent_actor_dot(s: Seq<(String, u64)>, a: Seq<char>)
    requires
        !has_actor(s, a),
    ensures
        entries_dot(s, a) == 0,
    decreases s.len(),
{
    if s.len() > 0 {
        assert(s[0].0@ != a);
        assert(forall|i: int|
            0 <= i < s.drop_first().len() ==> #[trigger] s.drop_first()[i] == s[i + 1]);
        lemma_absent_actor_dot(s.drop_first(), a);
    }
}

/// With unique actors, any matching entry gives the dot.
proof fn lemma_entry_dot(s: Seq<(String, u64)>, i: int)
    requires
        unique_actors(s),
        0 <= i < s.len(),
    ensures
        entries_dot(s, s[i].0@) == s[i].1,
    decreases s.len(),
{
    if i == 0 {
    } else {
        assert(s[0].0@ != s[i].0@);
        assert(forall|j: int|
            0 <= j < s.drop_first().len() ==> #[trigger] s.drop_first()[j] == s[j + 1]);
        lemma_entry_dot(s.drop_first(), i - 1);
    }
}

/// Appending an entry for a fresh actor leaves other dots unchanged.
proof fn lemma_push_dot(s: Seq<(String, u64)>, e: (String, u64), a: Seq<char>)
    ensures
        entries_dot(s.push(e), a) == if has_actor(s, a) {
            entries_dot(s, a)
        } else if e.0@ == a {
            e.1
        } else {
            0
        },
    decreases s.len(),
{
    if s.len() == 0 {
        assert(s.push(e)[0] == e);
        assert(!has_actor(s, a));
        if e.0@ == a {
            assert(entries_dot(s.push(e), a) == e.1);
        } else {
            assert(s.push(e).drop_first() =~= Seq::<(String, u64)>::empty());
            assert(entries_dot(s.push(e).drop_first(), a) == 0);
            assert(entries_dot(s.push(e), a) == 0);
        }
    } else {
        assert(s.push(e)[0] == s[0]);
        assert(s.push(e).drop_first() =~= s.drop_first().push(e));
        lemma_push_dot(s.drop_first(), e, a);
        assert(forall|i: int|
            0 <= i < s.drop_first().len() ==> #[trigger] s.drop_first()[i] == s[i + 1]);
        if s[0].0@ == a {
            assert(entries_dot(s.push(e), a) == s[0].1);
            assert(entries_dot(s, a) == s[0].1);
            assert(has_actor(s, a));
        } else {
            assert(entries_dot(s.push(e), a) == entries_dot(s.drop_first().push(e), a));
            assert(entries_dot(s, a) == entries_dot(s.drop_first(), a));
            assert(has_actor(s, a) <==> has_actor(s.drop_first(), a)) by {
                if has_actor(s, a) {
                    let i = choose|i: int| 0 <= i < s.len() && s[i].0@ == a;
                    assert(i > 0);
                    assert(s.drop_first()[i - 1].0@ == a);
                }
                if has_actor(s.drop_first(), a) {
                    let i = choose|i: int|
                        0 <= i < s.drop_first().len() && s.drop_first()[i].0@ == a;
                    assert(s[i + 1].0@ == a);
                }
            }
        }
    }
}

/// With unique actors, updating entry `i` changes only that actor's dot.
proof fn lemma_update_dot(s: Seq<(String, u64)>, i: int, e: (String, u64), a: Seq<char>)
    requires
        unique_actors(s),
        0 <= i < s.len(),
        e.0@ == s[i].0@,
    ensures
        entries_dot(s.update(i, e), a) == if a == e.0@ {
            e.1
        } else {
            entries_dot(s, a)
        },
    decreases s.len(),
{
    if i == 0 {
        assert(s.update(0, e)[0] == e);
        assert(s.update(0, e).drop_first() =~= s.drop_first());
        if a == e.0@ {
        } else {
            assert(s[0].0@ != a);
        }
    } else {
        assert(s.update(i, e)[0] == s[0]);
        assert(s.update(i, e).drop_first() =~= s.drop_first().update(i - 1, e));
        assert(forall|j: int|
            0 <= j < s.drop_first().len() ==> #[trigger] s.drop_first()[j] == s[j + 1]);
        lemma_update_dot(s.drop_first(), i - 1, e, a);
        if a == e.0@ {
            assert(s[0].0@ != s[i].0@);
        }
    }
}

/// No two entries are for the same actor.
pub open spec fn unique_actors(s: Seq<(String, u64)>) -> bool {
    forall|i: int, j: int| 0 <= i < j < s.len() ==> #[trigger] s[i].0@ != #[trigger] s[j].0@
}

impl VClock {
    /// Entry lists keep one entry per actor.
    pub closed spec fn wf(self) -> bool {
        unique_actors(self.entries@)
    }

    /// The count this clock assigns to actor `a`; zero when absent.
    pub closed spec fn dot(self, a: Seq<char>) -> u64 {
        entries_dot(self.entries@, a)
    }

    /// Pointwise order: `self` is everywhere at or below `other`.
    pub open spec fn le(self, other: VClock) -> bool {
        forall|a: Seq<char>| #[trigger] self.dot(a) <= other.dot(a)
    }

    /// The clocks assign every actor the same count.
    pub open spec fn equal(self, other: VClock) -> bool {
        forall|a: Seq<char>| #[trigger] self.dot(a) == other.dot(a)
    }

    /// The empty clock: every actor reads zero.
    pub fn new() -> (c: VClock)
        ensures
            c.wf(),
            forall|a: Seq<char>| #[trigger] c.dot(a) == 0,
    {
        VClock { entries: Vec::new() }
    }

    /// Reads the count stored for `actor`.
    pub fn get(&self, actor: &str) -> (n: u64)
        ensures
            n == self.dot(actor@),
    {
        let mut i: usize = 0;
        proof {
            assert(self.entries@.skip(0) =~= self.entries@);
        }
        loop
            invariant
                i <= self.entries.len(),
                entries_dot(self.entries@, actor@) == entries_dot(
                    self.entries@.skip(i as int),
                    actor@,
                ),
            decreases self.entries.len() - i,
        {
            if i == self.entries.len() {
                proof {
                    assert(self.entries@.skip(i as int) =~= Seq::<(String, u64)>::empty());
                }
                return 0;
            }
            let matches_here = {
                let pair = &self.entries[i];
                matches!(str_compare(pair.0.as_str(), actor), StrOrd::Eq)
            };
            if matches_here {
                proof {
                    assert(self.entries@.skip(i as int)[0] == self.entries@[i as int]);
                }
                return self.entries[i].1;
            }
            proof {
                assert(self.entries@.skip(i as int)[0] == self.entries@[i as int]);
                assert(self.entries@.skip(i as int).drop_first() =~= self.entries@.skip(
                    i + 1,
                ));
            }
            i = i + 1;
        }
    }

    /// The dot that advances `actor` by one on this clock.
    pub fn inc(&self, actor: &str) -> (d: Dot)
        requires
            self.dot(actor@) < u64::MAX,
        ensures
            d.actor@ == actor@,
            d.counter == self.dot(actor@) + 1,
    {
        let n = self.get(actor);
        Dot { actor: actor.to_owned(), counter: n + 1 }
    }

    /// Folds a dot in: the stored count for the dot's actor becomes the
    /// maximum of the existing count and the dot's count.
    pub fn apply(&mut self, d: &Dot)
        requires
            old(self).wf(),
        ensures
            final(self).wf(),
            forall|a: Seq<char>|
                #[trigger] final(self).dot(a) == if a == d.actor@ {
                    if old(self).dot(a) >= d.counter {
                        old(self).dot(a)
                    } else {
                        d.counter
                    }
                } else {
                    old(self).dot(a)
                },
    {
        let ghost s0 = self.entries@;
        let mut i: usize = 0;
        while i < self.entries.len()
            invariant
                self.entries@ == s0,
                s0 == old(self).entries@,
                unique_actors(s0),
                i <= s0.len(),
                forall|j: int| 0 <= j < i ==> s0[j].0@ != d.actor@,
            decreases s0.len() - i,
        {
            let matches_here = {
                let pair = &self.entries[i];
                matches!(str_compare(pair.0.as_str(), d.actor.as_str()), StrOrd::Eq)
            };
            if matches_here {
                if self.entries[i].1 < d.counter {
                    let actor_copy = d.actor.clone();
                    self.entries[i] = (actor_copy, d.counter);
                    proof {
                        let e = self.entries@[i as int];
                        assert(self.entries@ =~= s0.update(i as int, e));
                        lemma_entry_dot(s0, i as int);
                        assert forall|a: Seq<char>| true implies #[trigger] entries_dot(
                            self.entries@,
                            a,
                        ) == if a == d.actor@ {
                            d.counter
                        } else {
                            entries_dot(s0, a)
                        } by {
                            lemma_update_dot(s0, i as int, e, a);
                        }
                        assert(unique_actors(self.entries@)) by {
                            assert(forall|j: int|
                                0 <= j < s0.len() ==> #[trigger] self.entries@[j].0@
                                    == s0[j].0@);
                        }
                    }
                } else {
                    proof {
                        lemma_entry_dot(s0, i as int);
                        assert(s0[i as int].0@ == d.actor@);
                        assert(old(self).dot(d.actor@) == s0[i as int].1);
                        assert(old(self).dot(d.actor@) >= d.counter);
                        assert(self.entries@ == old(self).entries@);
                    }
                }
                return ;
            }
            i = i + 1;
        }
        // No entry for this actor yet: append one.
        let actor_copy = d.actor.clone();
        self.entries.push((actor_copy, d.counter));
        proof {
            assert(!has_actor(s0, d.actor@));
            lemma_absent_actor_dot(s0, d.actor@);
            assert forall|a: Seq<char>| true implies #[trigger] entries_dot(
                self.entries@,
                a,
            ) == if a == d.actor@ {
                if entries_dot(s0, a) >= d.counter {
                    entries_dot(s0, a)
                } else {
                    d.counter
                }
            } else {
                entries_dot(s0, a)
            } by {
                lemma_push_dot(s0, self.entries@.last(), a);
                if a == d.actor@ {
                    lemma_absent_actor_dot(s0, a);
                } else if !has_actor(s0, a) {
                    lemma_absent_actor_dot(s0, a);
                }
            }
            assert(unique_actors(self.entries@)) by {
                assert(forall|j: int|
                    0 <= j < s0.len() ==> #[trigger] self.entries@[j] == s0[j]);
            }
        }
    }

    /// Merges `other` in: every actor's count becomes the pointwise maximum.
    pub fn merge(&mut self, other: &VClock)
        requires
            old(self).wf(),
            other.wf(),
        ensures
            final(self).wf(),
            forall|a: Seq<char>|
                #[trigger] final(self).dot(a) == if old(self).dot(a) >= other.dot(a) {
                    old(self).dot(a)
                } else {
                    other.dot(a)
                },
    {
        let ghost c0 = *self;
        let mut i: usize = 0;
        while i < other.entries.len()
            invariant
                i <= other.entries.len(),
                c0 == *old(self),
                self.wf(),
                other.wf(),
                forall|a: Seq<char>|
                    #[trigger] self.dot(a) == if c0.dot(a) >= entries_dot(
                        other.entries@.take(i as int),
                        a,
                    ) {
                        c0.dot(a)
                    } else {
                        entries_dot(other.entries@.take(i as int), a)
                    },
            decreases other.entries.len() - i,
        {
            let ghost prev = *self;
            let d = {
                let pair = &other.entries[i];
                Dot { actor: pair.0.clone(), counter: pair.1 }
            };
            self.apply(&d);
            proof {
                let oseq = other.entries@;
                assert(oseq.take(i + 1) =~= oseq.take(i as int).push(oseq[i as int]));
                assert forall|a: Seq<char>| true implies #[trigger] self.dot(a) == if c0.dot(a)
                    >= entries_dot(oseq.take(i + 1), a) {
                    c0.dot(a)
                } else {
                    entries_dot(oseq.take(i + 1), a)
                } by {
                    lemma_push_dot(oseq.take(i as int), oseq[i as int], a);
                    if a == oseq[i as int].0@ {
                        assert(!has_actor(oseq.take(i as int), a)) by {
                            assert(forall|j: int|
                                0 <= j < i ==> #[trigger] oseq.take(i as int)[j] == oseq[j]);
                        }
                        lemma_absent_actor_dot(oseq.take(i as int), a);
                    } else if !has_actor(oseq.take(i as int), a) {
                        lemma_absent_actor_dot(oseq.take(i as int), a);
                    }
                }
            }
            i = i + 1;
        }
        proof {
            assert(other.entries@.take(other.entries@.len() as int) =~= other.entries@);
        }
    }

    /// Whether `self` is pointwise at or below `other`.
    pub fn le_exec(&self, other: &VClock) -> (r: bool)
        requires
            self.wf(),
        ensures
            r == self.le(*other),
    {
        let mut i: usize = 0;
        while i < self.entries.len()
            invariant
                self.wf(),
                i <= self.entries.len(),
                forall|j: int|
                    0 <= j < i ==> #[trigger] self.entries@[j].1 <= other.dot(
                        self.entries@[j].0@,
                    ),
            decreases self.entries.len() - i,
        {
            let here = other.get(self.entries[i].0.as_str());
            if self.entries[i].1 > here {
                proof {
                    lemma_entry_dot(self.entries@, i as int);
                    let w = self.entries@[i as int].0@;
                    assert(self.dot(w) > other.dot(w));
                }
                return false;
            }
            i = i + 1;
        }
        proof {
            assert forall|a: Seq<char>| true implies #[trigger] self.dot(a) <= other.dot(a) by {
                if has_actor(self.entries@, a) {
                    let j = choose|j: int|
                        0 <= j < self.entries@.len() && self.entries@[j].0@ == a;
                    lemma_entry_dot(self.entries@, j);
                } else {
                    lemma_absent_actor_dot(self.entries@, a);
                }
            }
        }
        true
    }

    /// Copies this clock; the copy assigns every actor the same count.
    pub fn duplicate(&self) -> (c: VClock)
        ensures
            c.wf() <==> self.wf(),
            forall|a: Seq<char>| #[trigger] c.dot(a) == self.dot(a),
    {
        let mut entries: Vec<(String, u64)> = Vec::new();
        let mut i: usize = 0;
        while i < self.entries.len()
            invariant
                i <= self.entries.len(),
                entries@ =~= self.entries@.take(i as int),
            decreases self.entries.len() - i,
        {
            let pair = &self.entries[i];
            entries.push((pair.0.clone(), pair.1));
            proof {
                assert(self.entries@.take(i + 1) =~= self.entries@.take(i as int).push(
                    self.entries@[i as int],
                ));
            }
            i = i + 1;
        }
        proof {
            assert(entries@ =~= self.entries@);
        }
        VClock { entries }
    }

    /// Compares two clocks in the partial order; `Concurrent` means no order.
    pub fn compare(&self, other: &VClock) -> (o: ClockOrder)
        requires
            self.wf(),
            other.wf(),
        ensures
            o == ClockOrder::Equal <==> self.equal(*other),
            o == ClockOrder::Less <==> self.le(*other) && !self.equal(*other),
            o == ClockOrder::Greater <==> other.le(*self) && !self.equal(*other),
            o == ClockOrder::Concurrent <==> !self.le(*other) && !other.le(*self),
    {
        let le_fwd = self.le_exec(other);
        let le_bwd = other.le_exec(self);
        proof {
            lemma_le_antisymmetric(*self, *other);
        }
        if le_fwd && le_bwd {
            ClockOrder::Equal
        } else if le_fwd {
            ClockOrder::Less
        } else if le_bwd {
            ClockOrder::Greater
        } else {
            ClockOrder::Concurrent
        }
    }
}

/// Dropping the last entry changes no other actor's reading.
pub proof fn lemma_entries_dot_drop_last(s: Seq<(String, u64)>, a: Seq<char>)
    requires
        s.len() > 0,
        s.last().0@ != a,
    ensures
        entries_dot(s, a) == entries_dot(s.drop_last(), a),
    decreases s.len(),
{
    if s.len() == 1 {
        assert(s.drop_last() =~= Seq::<(String, u64)>::empty());
        assert(s[0].0@ != a);
        assert(s.drop_first() =~= Seq::<(String, u64)>::empty());
        assert(entries_dot(s.drop_first(), a) == 0);
        assert(entries_dot(s.drop_last(), a) == 0);
    } else {
        assert(s.drop_last()[0] == s[0]);
        assert(s.drop_last().drop_first() =~= s.drop_first().drop_last());
        assert(forall|j: int|
            0 <= j < s.drop_first().len() ==> #[trigger] s.drop_first()[j] == s[j + 1]);
        assert(s.drop_first().last() == s.last());
        lemma_entries_dot_drop_last(s.drop_first(), a);
        if s[0].0@ == a {
            assert(entries_dot(s, a) == s[0].1);
            assert(entries_dot(s.drop_last(), a) == s[0].1);
        }
    }
}

/// Any matching entry of a list with unique actors gives the dot.
pub proof fn lemma_unique_entry_dot(s: Seq<(String, u64)>, i: int)
    requires
        unique_actors(s),
        0 <= i < s.len(),
    ensures
        entries_dot(s, s[i].0@) == s[i].1,
{
    lemma_entry_dot(s, i);
}

/// Actors without an entry read as zero.
pub proof fn lemma_no_entry_dot(s: Seq<(String, u64)>, a: Seq<char>)
    requires
        !has_actor(s, a),
    ensures
        entries_dot(s, a) == 0,
{
    lemma_absent_actor_dot(s, a);
}

impl VClock {
    /// The entry list, one `(actor, count)` pair per actor.
    pub closed spec fn spec_entries(self) -> Seq<(String, u64)> {
        self.entries@
    }

    /// The well-formedness and reading of the entry list.
    pub proof fn lemma_entries_characterise(self)
        ensures
            self.wf() <==> unique_actors(self.spec_entries()),
            forall|a: Seq<char>|
                #[trigger] self.dot(a) == entries_dot(self.spec_entries(), a),
    {
    }

    /// How many actors carry a dot.
    pub fn entry_count(&self) -> (n: usize)
        ensures
            n == self.spec_entries().len(),
    {
        self.entries.len()
    }

    /// Whether the entry list is well formed: no actor twice. A clock
    /// received from outside is checked before it enters a merge.
    pub fn wf_check(&self) -> (r: bool)
        ensures
            r == self.wf(),
    {
        let n = self.entries.len();
        let mut i: usize = 0;
        while i < n
            invariant
                i <= n,
                n == self.entries@.len(),
                forall|x: int, y: int|
                    0 <= x < y < i ==> (#[trigger] self.entries@[x].0)@ != (
                    #[trigger] self.entries@[y].0)@,
            decreases n - i,
        {
            let mut j: usize = 0;
            while j < i
                invariant
                    j <= i < n,
                    n == self.entries@.len(),
                    forall|x: int, y: int|
                        0 <= x < y < i ==> (#[trigger] self.entries@[x].0)@ != (
                        #[trigger] self.entries@[y].0)@,
                    forall|x: int|
                        0 <= x < j ==> (#[trigger] self.entries@[x].0)@ != self.entries@[
                            i as int
                        ].0@,
                decreases i - j,
            {
                let same = matches!(
                    str_compare(
                        self.entries[j].0.as_str(),
                        self.entries[i].0.as_str(),
                    ),
                    StrOrd::Eq
                );
                if same {
                    proof {
                        assert(self.entries@[j as int].0@ == self.entries@[i as int].0@);
                        assert(!unique_actors(self.entries@));
                    }
                    return false;
                }
                j = j + 1;
            }
            i = i + 1;
        }
        proof {
            assert(unique_actors(self.entries@));
        }
        true
    }

    /// The entry at position `i`.
    pub fn entry_at(&self, i: usize) -> (e: (String, u64))
        requires
            i < self.spec_entries().len(),
        ensures
            e.0@ == self.spec_entries()[i as int].0@,
            e.1 == self.spec_entries()[i as int].1,
    {
        let pair = &self.entries[i];
        (pair.0.clone(), pair.1)
    }
}

/// Two clocks at or below one another assign every actor the same count.
pub proof fn lemma_le_antisymmetric(x: VClock, y: VClock)
    ensures
        (x.le(y) && y.le(x)) <==> x.equal(y),
{
    if x.le(y) && y.le(x) {
        assert forall|a: Seq<char>| true implies #[trigger] x.dot(a) == y.dot(a) by {
            assert(x.dot(a) <= y.dot(a));
            assert(y.dot(a) <= x.dot(a));
        }
    }
    if x.equal(y) {
        assert forall|a: Seq<char>| true implies #[trigger] x.dot(a) <= y.dot(a) by {
            assert(x.dot(a) == y.dot(a));
        }
        assert forall|a: Seq<char>| true implies #[trigger] y.dot(a) <= x.dot(a) by {
            assert(x.dot(a) == y.dot(a));
        }
    }
}

/// Outcome of comparing two version vectors.
#[derive(Debug, Clone, Copy, PartialEq, Eq, Structural)]
pub enum ClockOrder {
    Less,
    Equal,
    Greater,
    Concurrent,
}

} // verus!
