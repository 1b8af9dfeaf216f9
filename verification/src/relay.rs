//! The signaling relay's room registry and fan-out rule.
//!
//! The relay keeps, per room, the set of connected user names. A message
//! from a user in a room goes to the named endpoint when it is one-to-one,
//! else to every other member of the same room — never to anyone outside
//! that room.

use vstd::prelude::*;

use crate::messages::{Protocol, SignalingMessage};
use crate::order::{str_compare, StrOrd};

verus! {

/// The rooms the relay serves: each holds its members' names.
pub struct RoomRegistry {
    rooms: Vec<(String, Vec<String>)>,
}

/// Whether `user` is listed under `room` in the entry list.
pub open spec fn entry_has(
    rooms: Seq<(String, Vec<String>)>,
    room: Seq<char>,
    user: Seq<char>,
) -> bool {
    exists|i: int, j: int|
        0 <= i < rooms.len() && 0 <= j < rooms[i].1@.len() && rooms[i].0@ == room && (
        #[trigger] rooms[i].1@[j])@ == user
}

/// Room names are unique and so are members within a room.
pub open spec fn registry_wf(rooms: Seq<(String, Vec<String>)>) -> bool {
    &&& forall|i: int, j: int|
        0 <= i < j < rooms.len() ==> (#[trigger] rooms[i].0)@ != (#[trigger] rooms[j].0)@
    &&& forall|i: int, a: int, b: int|
        0 <= i < rooms.len() && 0 <= a < b < rooms[i].1@.len() ==> (
        #[trigger] rooms[i].1@[a])@ != (#[trigger] rooms[i].1@[b])@
}

impl RoomRegistry {
    /// Names are unique at both levels.
    pub closed spec fn wf(self) -> bool {
        registry_wf(self.rooms@)
    }

    /// Whether `user` is currently a member of `room`.
    pub closed spec fn in_room(self, room: Seq<char>, user: Seq<char>) -> bool {
        entry_has(self.rooms@, room, user)
    }

    /// An empty registry.
    pub fn new() -> (r: RoomRegistry)
        ensures
            r.wf(),
            forall|rm: Seq<char>, u: Seq<char>| !(#[trigger] r.in_room(rm, u)),
    {
        RoomRegistry { rooms: Vec::new() }
    }

    /// The position of `room`, if present.
    fn find_room(&self, room: &str) -> (r: Option<usize>)
        requires
            self.wf(),
        ensures
            r matches Some(i) ==> i < self.rooms@.len() && self.rooms@[i as int].0@ == room@,
            r is None ==> forall|i: int|
                0 <= i < self.rooms@.len() ==> (#[trigger] self.rooms@[i].0)@ != room@,
    {
        let mut i: usize = 0;
        while i < self.rooms.len()
            invariant
                i <= self.rooms@.len(),
                forall|j: int| 0 <= j < i ==> (#[trigger] self.rooms@[j].0)@ != room@,
            decreases self.rooms@.len() - i,
        {
            if matches!(str_compare(self.rooms[i].0.as_str(), room), StrOrd::Eq) {
                return Some(i);
            }
            i = i + 1;
        }
        None
    }

    /// The position of `user` in a member list.
    fn find_member(members: &Vec<String>, user: &str) -> (r: Option<usize>)
        ensures
            r matches Some(j) ==> j < members@.len() && members@[j as int]@ == user@,
            r is None ==> forall|j: int|
                0 <= j < members@.len() ==> (#[trigger] members@[j])@ != user@,
    {
        let mut j: usize = 0;
        while j < members.len()
            invariant
                j <= members@.len(),
                forall|a: int| 0 <= a < j ==> (#[trigger] members@[a])@ != user@,
            decreases members@.len() - j,
        {
            if matches!(str_compare(members[j].as_str(), user), StrOrd::Eq) {
                return Some(j);
            }
            j = j + 1;
        }
        None
    }

    /// Adds `user` to `room`, creating the room on first join.
    pub fn join(&mut self, room: &str, user: &str)
        requires
            old(self).wf(),
        ensures
            final(self).wf(),
            forall|rm: Seq<char>, u: Seq<char>|
                #[trigger] final(self).in_room(rm, u) == (old(self).in_room(rm, u) || (rm
                    == room@ && u == user@)),
    {
        let ghost rooms0 = self.rooms@;
        match self.find_room(room) {
            Some(i) => {
                let already = Self::find_member(&self.rooms[i].1, user).is_some();
                if already {
                    proof {
                        let j = choose|j: int|
                            0 <= j < rooms0[i as int].1@.len() && rooms0[i as int].1@[j]@
                                == user@;
                        assert(old(self).in_room(room@, user@));
                        assert forall|rm: Seq<char>, u: Seq<char>| true implies
                            #[trigger] self.in_room(rm, u) == (old(self).in_room(rm, u) || (rm
                            == room@ && u == user@)) by {
                            if rm == room@ && u == user@ {
                            }
                        }
                    }
                    return ;
                }
                let ghost members0 = self.rooms@[i as int].1@;
                let user_copy = user.to_owned();
                self.rooms[i].1.push(user_copy);
                proof {
                    let rooms1 = self.rooms@;
                    assert(rooms1[i as int].1@ =~= members0.push(rooms1[i as int].1@.last()));
                    assert(rooms1[i as int].0@ == room@);
                    assert(forall|x: int|
                        0 <= x < rooms0.len() && x != i ==> #[trigger] rooms1[x] == rooms0[x]);
                    assert(forall|a: int|
                        0 <= a < members0.len() ==> #[trigger] rooms1[i as int].1@[a]
                            == members0[a]);
                    assert(registry_wf(rooms1)) by {
                        assert(forall|x: int|
                            0 <= x < rooms1.len() ==> (#[trigger] rooms1[x].0)@ == rooms0[x].0@);
                        assert forall|x: int, a: int, b: int|
                            0 <= x < rooms1.len() && 0 <= a < b < rooms1[x].1@.len() implies (
                        #[trigger] rooms1[x].1@[a])@ != (#[trigger] rooms1[x].1@[b])@ by {
                            if x == i {
                                if b == members0.len() {
                                    assert(rooms1[x].1@[a] == members0[a]);
                                    assert(rooms1[x].1@[b]@ == user@);
                                    assert(members0[a]@ != user@);
                                } else {
                                    assert(rooms1[x].1@[a] == members0[a]);
                                    assert(rooms1[x].1@[b] == members0[b]);
                                    assert(rooms0[x].1@[a] == members0[a]);
                                    assert(rooms0[x].1@[b] == members0[b]);
                                }
                            } else {
                                assert(rooms1[x] == rooms0[x]);
                            }
                        }
                    }
                    assert forall|rm: Seq<char>, u: Seq<char>| true implies
                        #[trigger] entry_has(rooms1, rm, u) == (entry_has(rooms0, rm, u) || (rm
                        == room@ && u == user@)) by {
                        if entry_has(rooms0, rm, u) {
                            let (x, a) = choose|x: int, a: int|
                                0 <= x < rooms0.len() && 0 <= a < rooms0[x].1@.len()
                                    && rooms0[x].0@ == rm && (#[trigger] rooms0[x].1@[a])@ == u;
                            assert(rooms1[x].1@[a]@ == u);
                            assert(entry_has(rooms1, rm, u));
                        }
                        if rm == room@ && u == user@ {
                            assert(rooms1[i as int].1@.last()@ == user@);
                            assert(entry_has(rooms1, rm, u));
                        }
                        if entry_has(rooms1, rm, u) {
                            let (x, a) = choose|x: int, a: int|
                                0 <= x < rooms1.len() && 0 <= a < rooms1[x].1@.len()
                                    && rooms1[x].0@ == rm && (#[trigger] rooms1[x].1@[a])@ == u;
                            if x == i && a == members0.len() {
                                assert(rm == room@ && u == user@);
                            } else {
                                assert(rooms0[x].1@[a]@ == u);
                                assert(entry_has(rooms0, rm, u));
                            }
                        }
                    }
                }
            },
            None => {
                let user_copy = user.to_owned();
                let room_copy = room.to_owned();
                let mut members: Vec<String> = Vec::new();
                members.push(user_copy);
                self.rooms.push((room_copy, members));
                proof {
                    let rooms1 = self.rooms@;
                    assert(rooms1 =~= rooms0.push(rooms1.last()));
                    assert(rooms1.last().0@ == room@);
                    assert(rooms1.last().1@.len() == 1);
                    assert(rooms1.last().1@[0]@ == user@);
                    assert(forall|x: int|
                        0 <= x < rooms0.len() ==> #[trigger] rooms1[x] == rooms0[x]);
                    assert(registry_wf(rooms1)) by {
                        assert forall|x: int, y: int| 0 <= x < y < rooms1.len() implies (
                        #[trigger] rooms1[x].0)@ != (#[trigger] rooms1[y].0)@ by {
                            if y == rooms1.len() - 1 {
                                assert(rooms1[x].0@ == rooms0[x].0@);
                                assert(rooms0[x].0@ != room@);
                            } else {
                                assert(rooms1[x] == rooms0[x]);
                                assert(rooms1[y] == rooms0[y]);
                            }
                        }
                        assert forall|x: int, a: int, b: int|
                            0 <= x < rooms1.len() && 0 <= a < b < rooms1[x].1@.len() implies (
                        #[trigger] rooms1[x].1@[a])@ != (#[trigger] rooms1[x].1@[b])@ by {
                            if x < rooms1.len() - 1 {
                                assert(rooms1[x] == rooms0[x]);
                            }
                        }
                    }
                    assert forall|rm: Seq<char>, u: Seq<char>| true implies
                        #[trigger] entry_has(rooms1, rm, u) == (entry_has(rooms0, rm, u) || (rm
                        == room@ && u == user@)) by {
                        if entry_has(rooms0, rm, u) {
                            let (x, a) = choose|x: int, a: int|
                                0 <= x < rooms0.len() && 0 <= a < rooms0[x].1@.len()
                                    && rooms0[x].0@ == rm && (#[trigger] rooms0[x].1@[a])@ == u;
                            assert(rooms1[x].1@[a]@ == u);
                        }
                        if rm == room@ && u == user@ {
                            assert((#[trigger] rooms1[rooms1.len() - 1].1@[0])@ == u);
                        }
                        if entry_has(rooms1, rm, u) {
                            let (x, a) = choose|x: int, a: int|
                                0 <= x < rooms1.len() && 0 <= a < rooms1[x].1@.len()
                                    && rooms1[x].0@ == rm && (#[trigger] rooms1[x].1@[a])@ == u;
                            if x == rooms1.len() - 1 {
                                assert(rm == room@ && u == user@);
                            } else {
                                assert(entry_has(rooms0, rm, u));
                            }
                        }
                    }
                }
            },
        }
    }

    /// Removes `user` from `room`; a room left empty is deleted.
    pub fn leave(&mut self, room: &str, user: &str)
        requires
            old(self).wf(),
        ensures
            final(self).wf(),
            forall|rm: Seq<char>, u: Seq<char>|
                #[trigger] final(self).in_room(rm, u) == (old(self).in_room(rm, u) && !(rm
                    == room@ && u == user@)),
    {
        let ghost rooms0 = self.rooms@;
        let i = match self.find_room(room) {
            Some(i) => i,
            None => {
                proof {
                    assert forall|rm: Seq<char>, u: Seq<char>| true implies
                        #[trigger] self.in_room(rm, u) == (old(self).in_room(rm, u) && !(rm
                        == room@ && u == user@)) by {
                        if entry_has(rooms0, rm, u) && rm == room@ && u == user@ {
                            let (x, a) = choose|x: int, a: int|
                                0 <= x < rooms0.len() && 0 <= a < rooms0[x].1@.len()
                                    && rooms0[x].0@ == rm && (#[trigger] rooms0[x].1@[a])@ == u;
                        }
                    }
                }
                return ;
            },
        };
        let j = match Self::find_member(&self.rooms[i].1, user) {
            Some(j) => j,
            None => {
                proof {
                    assert forall|rm: Seq<char>, u: Seq<char>| true implies
                        #[trigger] self.in_room(rm, u) == (old(self).in_room(rm, u) && !(rm
                        == room@ && u == user@)) by {
                        if entry_has(rooms0, rm, u) && rm == room@ && u == user@ {
                            let (x, a) = choose|x: int, a: int|
                                0 <= x < rooms0.len() && 0 <= a < rooms0[x].1@.len()
                                    && rooms0[x].0@ == rm && (#[trigger] rooms0[x].1@[a])@ == u;
                            assert(x == i);
                        }
                    }
                }
                return ;
            },
        };
        let ghost members0 = self.rooms@[i as int].1@;
        self.rooms[i].1.remove(j);
        let emptied = self.rooms[i].1.is_empty();
        let ghost rooms_mid = self.rooms@;
        if emptied {
            self.rooms.remove(i);
        }
        proof {
            assert(rooms_mid[i as int].1@ =~= members0.remove(j as int));
            assert(forall|x: int|
                0 <= x < rooms0.len() && x != i ==> #[trigger] rooms_mid[x] == rooms0[x]);
            assert(forall|a: int|
                0 <= a < j ==> #[trigger] rooms_mid[i as int].1@[a] == members0[a]);
            assert(forall|a: int|
                j <= a < rooms_mid[i as int].1@.len() ==> #[trigger] rooms_mid[i as int].1@[a]
                    == members0[a + 1]);
            if emptied {
                assert(self.rooms@ =~= rooms_mid.remove(i as int));
                assert(forall|x: int|
                    0 <= x < i ==> #[trigger] self.rooms@[x] == rooms_mid[x]);
                assert(forall|x: int|
                    i <= x < self.rooms@.len() ==> #[trigger] self.rooms@[x] == rooms_mid[x
                        + 1]);
            }
            let rooms1 = self.rooms@;
            assert(registry_wf(rooms1)) by {
                assert(registry_wf(rooms_mid)) by {
                    assert(forall|x: int|
                        0 <= x < rooms_mid.len() ==> (#[trigger] rooms_mid[x].0)@
                            == rooms0[x].0@);
                    assert forall|x: int, a: int, b: int|
                        0 <= x < rooms_mid.len() && 0 <= a < b < rooms_mid[x].1@.len() implies (
                    #[trigger] rooms_mid[x].1@[a])@ != (#[trigger] rooms_mid[x].1@[b])@ by {
                        if x == i {
                            let a0: int = if a < j {
                                a
                            } else {
                                a + 1
                            };
                            let b0: int = if b < j {
                                b
                            } else {
                                b + 1
                            };
                            assert(rooms_mid[x].1@[a] == members0[a0]);
                            assert(rooms_mid[x].1@[b] == members0[b0]);
                            assert(rooms0[x].1@[a0] == members0[a0]);
                            assert(rooms0[x].1@[b0] == members0[b0]);
                        } else {
                            assert(rooms_mid[x] == rooms0[x]);
                        }
                    }
                }
                if emptied {
                    assert forall|x: int, y: int| 0 <= x < y < rooms1.len() implies (
                    #[trigger] rooms1[x].0)@ != (#[trigger] rooms1[y].0)@ by {
                        let x0: int = if x < i {
                            x
                        } else {
                            x + 1
                        };
                        let y0: int = if y < i {
                            y
                        } else {
                            y + 1
                        };
                        assert(rooms1[x] == rooms_mid[x0]);
                        assert(rooms1[y] == rooms_mid[y0]);
                    }
                    assert forall|x: int, a: int, b: int|
                        0 <= x < rooms1.len() && 0 <= a < b < rooms1[x].1@.len() implies (
                    #[trigger] rooms1[x].1@[a])@ != (#[trigger] rooms1[x].1@[b])@ by {
                        let x0: int = if x < i {
                            x
                        } else {
                            x + 1
                        };
                        assert(rooms1[x] == rooms_mid[x0]);
                        assert(rooms_mid[x0].1@[a]@ != rooms_mid[x0].1@[b]@);
                    }
                }
            }
            assert forall|rm: Seq<char>, u: Seq<char>| true implies #[trigger] entry_has(
                rooms1,
                rm,
                u,
            ) == (entry_has(rooms0, rm, u) && !(rm == room@ && u == user@)) by {
                if entry_has(rooms1, rm, u) {
                    let (x, a) = choose|x: int, a: int|
                        0 <= x < rooms1.len() && 0 <= a < rooms1[x].1@.len() && rooms1[x].0@
                            == rm && (#[trigger] rooms1[x].1@[a])@ == u;
                    let x0: int = if emptied {
                        if x < i {
                            x
                        } else {
                            x + 1
                        }
                    } else {
                        x
                    };
                    assert(rooms_mid[x0] == rooms1[x]);
                    if x0 == i {
                        let a0: int = if a < j {
                            a
                        } else {
                            a + 1
                        };
                        assert(rooms0[x0].1@[a0]@ == u);
                        assert(entry_has(rooms0, rm, u));
                        assert(a0 != j);
                        assert(members0[j as int]@ == user@);
                        assert(!(rm == room@ && u == user@));
                    } else {
                        assert(rooms0[x0].1@[a]@ == u);
                        assert(entry_has(rooms0, rm, u));
                        assert(rooms0[x0].0@ != room@);
                    }
                }
                if entry_has(rooms0, rm, u) && !(rm == room@ && u == user@) {
                    let (x, a) = choose|x: int, a: int|
                        0 <= x < rooms0.len() && 0 <= a < rooms0[x].1@.len() && rooms0[x].0@
                            == rm && (#[trigger] rooms0[x].1@[a])@ == u;
                    if x == i {
                        assert(rm == room@);
                        assert(a != j);
                        let a1: int = if a < j {
                            a
                        } else {
                            a - 1
                        };
                        assert(rooms_mid[i as int].1@[a1]@ == u);
                        assert(rooms_mid[i as int].1@.len() > 0);
                        assert(!emptied);
                        assert(rooms1[x].1@[a1]@ == u);
                        assert(entry_has(rooms1, rm, u));
                    } else {
                        let x1: int = if emptied {
                            if x < i {
                                x
                            } else {
                                x - 1
                            }
                        } else {
                            x
                        };
                        assert(rooms1[x1] == rooms0[x]);
                        assert(entry_has(rooms1, rm, u));
                    }
                }
            }
        }
    }

    /// Who receives a message sent by `sender` in `room`: the named
    /// endpoint alone when one-to-one, else every other member of that
    /// room — all of them, and never anyone outside it. A one-to-one
    /// message naming its own sender as endpoint is dropped rather than
    /// echoed back.
    pub fn route(&self, room: &str, sender: &str, msg: &SignalingMessage) -> (out: Vec<String>)
        requires
            self.wf(),
        ensures
            forall|a: int|
                0 <= a < out@.len() ==> self.in_room(room@, (#[trigger] out@[a])@),
            forall|a: int| 0 <= a < out@.len() ==> (#[trigger] out@[a])@ != sender@,
            msg.protocol != Protocol::OneToOne ==> forall|u: Seq<char>|
                #[trigger] self.in_room(room@, u) && u != sender@ ==> exists|a: int|
                    0 <= a < out@.len() && out@[a]@ == u,
            msg.protocol == Protocol::OneToOne ==> forall|a: int|
                0 <= a < out@.len() ==> match msg.endpoint {
                    Some(e) => (#[trigger] out@[a])@ == e@,
                    None => false,
                },
            // A present endpoint other than the sender is delivered to.
            msg.protocol == Protocol::OneToOne && (msg.endpoint matches Some(e)
                && self.in_room(room@, e@) && e@ != sender@) ==> exists|a: int|
                0 <= a < out@.len() && out@[a]@ == (msg.endpoint->0)@,
    {
        let mut out: Vec<String> = Vec::new();
        let i = match self.find_room(room) {
            Some(i) => i,
            None => {
                proof {
                    assert forall|u: Seq<char>| !(#[trigger] self.in_room(room@, u)) by {
                        if entry_has(self.rooms@, room@, u) {
                            let (x, a) = choose|x: int, a: int|
                                0 <= x < self.rooms@.len() && 0 <= a < self.rooms@[x].1@.len()
                                    && self.rooms@[x].0@ == room@ && (
                                #[trigger] self.rooms@[x].1@[a])@ == u;
                        }
                    }
                }
                return out;
            },
        };
        let members = &self.rooms[i].1;
        match msg.protocol {
            Protocol::OneToOne => {
                match &msg.endpoint {
                    Some(e) => {
                        if e.as_str().unicode_len() == sender.unicode_len()
                            && matches!(str_compare(e.as_str(), sender), StrOrd::Eq) {
                            return out;
                        }
                        match Self::find_member(members, e.as_str()) {
                            Some(j) => {
                                out.push(members[j].clone());
                                proof {
                                    assert(out@[0]@ == e@);
                                    assert(self.rooms@[i as int].1@[j as int]@ == e@);
                                    assert(self.in_room(room@, e@));
                                    assert(e@ != sender@);
                                }
                            },
                            None => {},
                        }
                    },
                    None => {},
                }
            },
            _ => {
                let mut j: usize = 0;
                while j < members.len()
                    invariant
                        j <= members@.len(),
                        self.wf(),
                        i < self.rooms@.len(),
                        self.rooms@[i as int].0@ == room@,
                        members == &self.rooms[i as int].1,
                        forall|a: int|
                            0 <= a < out@.len() ==> self.in_room(
                                room@,
                                (#[trigger] out@[a])@,
                            ),
                        forall|a: int| 0 <= a < out@.len() ==> (#[trigger] out@[a])@ != sender@,
                        forall|b: int|
                            0 <= b < j && (#[trigger] members@[b])@ != sender@ ==> exists|
                            a: int,
                        | 0 <= a < out@.len() && out@[a]@ == members@[b]@,
                    decreases members@.len() - j,
                {
                    let ghost out0 = out@;
                    let is_sender = matches!(
                        str_compare(members[j].as_str(), sender),
                        StrOrd::Eq
                    );
                    if !is_sender {
                        out.push(members[j].clone());
                        proof {
                            assert(out@ =~= out0.push(out@.last()));
                            assert(forall|a: int|
                                0 <= a < out0.len() ==> #[trigger] out@[a] == out0[a]);
                            assert(out@.last()@ == members@[j as int]@);
                            assert(self.in_room(room@, members@[j as int]@)) by {
                                assert((#[trigger] self.rooms@[i as int].1@[j as int])@
                                    == members@[j as int]@);
                            }
                            assert forall|b: int|
                                0 <= b < j + 1 && (#[trigger] members@[b])@ != sender@ implies
                                exists|a: int|
                                0 <= a < out@.len() && out@[a]@ == members@[b]@ by {
                                if b == j {
                                    assert(out@[out@.len() - 1]@ == members@[b]@);
                                } else {
                                    let a = choose|a: int|
                                        0 <= a < out0.len() && out0[a]@ == members@[b]@;
                                    assert(out@[a]@ == members@[b]@);
                                }
                            }
                        }
                    } else {
                        proof {
                            assert forall|b: int|
                                0 <= b < j + 1 && (#[trigger] members@[b])@ != sender@ implies
                                exists|a: int|
                                0 <= a < out@.len() && out@[a]@ == members@[b]@ by {
                                if b < j {
                                    let a = choose|a: int|
                                        0 <= a < out@.len() && out@[a]@ == members@[b]@;
                                }
                            }
                        }
                    }
                    j = j + 1;
                }
                proof {
                    assert forall|u: Seq<char>|
                        #[trigger] self.in_room(room@, u) && u != sender@ implies exists|a: int|
                        0 <= a < out@.len() && out@[a]@ == u by {
                        let (x, b) = choose|x: int, b: int|
                            0 <= x < self.rooms@.len() && 0 <= b < self.rooms@[x].1@.len()
                                && self.rooms@[x].0@ == room@ && (
                            #[trigger] self.rooms@[x].1@[b])@ == u;
                        assert(x == i);
                        assert(members@[b]@ == u);
                    }
                }
            },
        }
        out
    }
}

} // verus!
