use vstd::prelude::*;

use crate::packet::Position;

verus! {

/// A remote player: a unique name and where it stands.
#[derive(Debug)]
pub struct Player {
    pub name: Vec<u8>,
    pub pos: Position,
}

/// The players the server has announced, at most one per name.
#[derive(Debug)]
pub struct Players {
    pub list: Vec<Player>,
}

/// Whether two byte strings are equal.
pub fn bytes_eq(a: &Vec<u8>, b: &Vec<u8>) -> (r: bool)
    ensures
        r == (a@ == b@),
{
    if a.len() != b.len() {
        return false;
    }
    let mut i: usize = 0;
    while i < a.len()
        invariant
            a@.len() == b@.len(),
            i <= a@.len(),
            forall|j: int| 0 <= j < i ==> a@[j] == b@[j],
        decreases a@.len() - i,
    {
        if a[i] != b[i] {
            return false;
        }
        i += 1;
    }
    assert(a@ =~= b@);
    true
}

/// A join of `name` at `pos` took `before` to `after`: the player now stands
/// at `pos`, whether or not it was present; nobody else changed.
pub open spec fn joined(before: Players, after: Players, name: Seq<u8>, pos: Position) -> bool {
    &&& after.wf()
    &&& forall|n: Seq<u8>| #[trigger] after.pos_of(n) == if n == name {
        Some(pos)
    } else {
        before.pos_of(n)
    }
}

/// A move of `name` to `pos` took `before` to `after`: a present player now
/// stands at `pos`; an absent one stays absent; nobody else changed.
pub open spec fn moved(before: Players, after: Players, name: Seq<u8>, pos: Position) -> bool {
    &&& after.wf()
    &&& forall|n: Seq<u8>| #[trigger] after.pos_of(n) == if n == name && before.pos_of(n) is Some {
        Some(pos)
    } else {
        before.pos_of(n)
    }
}

/// A leave of `name` took `before` to `after`: the player is gone; nobody
/// else changed.
pub open spec fn left(before: Players, after: Players, name: Seq<u8>) -> bool {
    &&& after.wf()
    &&& forall|n: Seq<u8>| #[trigger] after.pos_of(n) == if n == name {
        None
    } else {
        before.pos_of(n)
    }
}

impl Players {
    /// Names are unique.
    pub open spec fn wf(&self) -> bool {
        forall|i: int, j: int|
            0 <= i < j < self.list@.len() ==> #[trigger] self.list@[i].name@ != #[trigger] self.list@[j].name@
    }

    /// Whether a player of that name is present.
    pub open spec fn has(&self, name: Seq<u8>) -> bool {
        exists|i: int| 0 <= i < self.list@.len() && #[trigger] self.list@[i].name@ == name
    }

    /// The position of the player of that name, if present.
    pub open spec fn pos_of(&self, name: Seq<u8>) -> Option<Position> {
        if self.has(name) {
            Some(self.list@[choose|i: int| 0 <= i < self.list@.len() && #[trigger] self.list@[i].name@ == name].pos)
        } else {
            None
        }
    }

    proof fn lemma_pos_at(&self, k: int)
        requires
            self.wf(),
            0 <= k < self.list@.len(),
        ensures
            self.pos_of(self.list@[k].name@) == Some(self.list@[k].pos),
    {
        let n = self.list@[k].name@;
        assert(self.has(n));
        let i = choose|i: int| 0 <= i < self.list@.len() && #[trigger] self.list@[i].name@ == n;
        if i < k {
            assert(self.list@[i].name@ != self.list@[k].name@);
        } else if k < i {
            assert(self.list@[k].name@ != self.list@[i].name@);
        }
    }

    /// No player yet.
    pub fn new() -> (r: Players)
        ensures
            r.wf(),
            forall|n: Seq<u8>| #[trigger] r.pos_of(n) is None,
    {
        Players { list: Vec::new() }
    }

    /// Index of the player of that name.
    fn find(&self, name: &Vec<u8>) -> (r: Option<usize>)
        requires
            self.wf(),
        ensures
            match r {
                Some(i) => i < self.list@.len() && self.list@[i as int].name@ == name@,
                None => !self.has(name@),
            },
    {
        let mut i: usize = 0;
        while i < self.list.len()
            invariant
                i <= self.list@.len(),
                forall|j: int| 0 <= j < i ==> #[trigger] self.list@[j].name@ != name@,
            decreases self.list@.len() - i,
        {
            if bytes_eq(&self.list[i].name, name) {
                return Some(i);
            }
            i += 1;
        }
        None
    }

    /// Places the player at `pos`: moves it if present, else adds it.
    pub fn join(&mut self, name: Vec<u8>, pos: Position)
        requires
            old(self).wf(),
        ensures
            joined(*old(self), *final(self), name@, pos),
    {
        let ghost before = *self;
        let ghost nm = name@;
        match self.find(&name) {
            Some(i) => {
                self.list[i].pos = pos;
                proof {
                    assert forall|j: int| 0 <= j < self.list@.len() implies #[trigger] self.list@[j].name@ == before.list@[j].name@ by {}
                    assert(self.wf());
                    assert forall|n: Seq<u8>| #[trigger] self.pos_of(n) == if n == nm { Some(pos) } else { before.pos_of(n) } by {
                        self.lemma_pos_at(i as int);
                        if before.has(n) {
                            let k = choose|k: int| 0 <= k < before.list@.len() && #[trigger] before.list@[k].name@ == n;
                            before.lemma_pos_at(k);
                            assert(self.list@[k].name@ == n);
                            self.lemma_pos_at(k);
                        }
                        if self.has(n) {
                            let k = choose|k: int| 0 <= k < self.list@.len() && #[trigger] self.list@[k].name@ == n;
                            assert(before.list@[k].name@ == n);
                        }
                    }
                }
            },
            None => {
                self.list.push(Player { name, pos });
                proof {
                    let len = before.list@.len() as int;
                    assert forall|j: int| 0 <= j < len implies #[trigger] self.list@[j] == before.list@[j] by {}
                    assert forall|i: int, j: int| 0 <= i < j < self.list@.len() implies #[trigger] self.list@[i].name@ != #[trigger] self.list@[j].name@ by {
                        if j == len {
                            assert(before.list@[i].name@ != nm);
                        }
                    }
                    assert(self.wf());
                    assert forall|n: Seq<u8>| #[trigger] self.pos_of(n) == if n == nm { Some(pos) } else { before.pos_of(n) } by {
                        self.lemma_pos_at(len);
                        if before.has(n) {
                            let k = choose|k: int| 0 <= k < before.list@.len() && #[trigger] before.list@[k].name@ == n;
                            before.lemma_pos_at(k);
                            assert(self.list@[k].name@ == n);
                            self.lemma_pos_at(k);
                        }
                        if self.has(n) && n != nm {
                            let k = choose|k: int| 0 <= k < self.list@.len() && #[trigger] self.list@[k].name@ == n;
                            assert(k < len);
                            assert(before.list@[k].name@ == n);
                        }
                    }
                }
            },
        }
    }

    /// Moves the player of that name to `pos`; does nothing if absent.
    pub fn move_user(&mut self, name: &Vec<u8>, pos: Position)
        requires
            old(self).wf(),
        ensures
            moved(*old(self), *final(self), name@, pos),
    {
        let ghost before = *self;
        match self.find(name) {
            Some(i) => {
                self.list[i].pos = pos;
                proof {
                    before.lemma_pos_at(i as int);
                    assert forall|j: int| 0 <= j < self.list@.len() implies #[trigger] self.list@[j].name@ == before.list@[j].name@ by {}
                    assert(self.wf());
                    assert forall|n: Seq<u8>| #[trigger] self.pos_of(n) == if n == name@ && before.pos_of(n) is Some { Some(pos) } else { before.pos_of(n) } by {
                        self.lemma_pos_at(i as int);
                        if before.has(n) {
                            let k = choose|k: int| 0 <= k < before.list@.len() && #[trigger] before.list@[k].name@ == n;
                            before.lemma_pos_at(k);
                            assert(self.list@[k].name@ == n);
                            self.lemma_pos_at(k);
                        }
                        if self.has(n) {
                            let k = choose|k: int| 0 <= k < self.list@.len() && #[trigger] self.list@[k].name@ == n;
                            assert(before.list@[k].name@ == n);
                        }
                    }
                }
            },
            None => {},
        }
    }

    /// Removes the player of that name, if present.
    pub fn leave(&mut self, name: &Vec<u8>)
        requires
            old(self).wf(),
        ensures
            left(*old(self), *final(self), name@),
    {
        let ghost before = *self;
        match self.find(name) {
            Some(i) => {
                self.list.remove(i);
                proof {
                    assert forall|j: int| 0 <= j < self.list@.len() implies #[trigger] self.list@[j] == before.list@[if j < i { j } else { j + 1 }] by {}
                    assert forall|a: int, b: int| 0 <= a < b < self.list@.len() implies #[trigger] self.list@[a].name@ != #[trigger] self.list@[b].name@ by {
                        let a2 = if a < i { a } else { a + 1 };
                        let b2 = if b < i { b } else { b + 1 };
                        assert(self.list@[a] == before.list@[a2]);
                        assert(self.list@[b] == before.list@[b2]);
                        assert(before.list@[a2].name@ != before.list@[b2].name@);
                    }
                    assert(self.wf());
                    assert forall|n: Seq<u8>| #[trigger] self.pos_of(n) == if n == name@ { None } else { before.pos_of(n) } by {
                        if self.has(n) {
                            let k = choose|k: int| 0 <= k < self.list@.len() && #[trigger] self.list@[k].name@ == n;
                            let k2 = if k < i { k } else { k + 1 };
                            assert(self.list@[k] == before.list@[k2]);
                            if k2 != i {
                                assert(before.list@[k2].name@ != before.list@[i as int].name@ || k2 == i);
                            }
                            self.lemma_pos_at(k);
                            before.lemma_pos_at(k2);
                        }
                        if before.has(n) && n != name@ {
                            let k = choose|k: int| 0 <= k < before.list@.len() && #[trigger] before.list@[k].name@ == n;
                            assert(k != i);
                            let k1 = if k < i { k } else { k - 1 };
                            assert(self.list@[k1] == before.list@[k]);
                            assert(self.list@[k1].name@ == n);
                        }
                    }
                }
            },
            None => {},
        }
    }
}

/// Out-of-order events: a move for a player not yet joined changes nothing,
/// and a later join places the player where the join says.
pub proof fn lemma_move_before_join(
    p0: Players,
    p1: Players,
    p2: Players,
    name: Seq<u8>,
    stale: Position,
    pos: Position,
)
    requires
        p0.pos_of(name) is None,
        moved(p0, p1, name, stale),
        joined(p1, p2, name, pos),
    ensures
        forall|n: Seq<u8>| #[trigger] p1.pos_of(n) == p0.pos_of(n),
        p2.pos_of(name) == Some(pos),
{
    assert(p2.pos_of(name) == p2.pos_of(name));
}

} // verus!
