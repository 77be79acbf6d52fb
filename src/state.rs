//! The status flags shared by the host and the capture loop, and the
//! self-copy suppressor: a bounded memory of hashes that this application put
//! on the clipboard itself.
use vstd::prelude::*;

verus! {

/// How many self-copy hashes are remembered; older ones are forgotten.
pub const SELF_COPY_CAPACITY: usize = 32;

/// The remembered hashes after `h` is marked: appended, and the oldest dropped
/// once there are more than the capacity.
pub open spec fn after_mark(q: Seq<Seq<char>>, h: Seq<char>) -> Seq<Seq<char>> {
    let p = q.push(h);
    if p.len() > SELF_COPY_CAPACITY {
        p.drop_first()
    } else {
        p
    }
}

/// `i` is the first position of `h` in `q`.
pub open spec fn first_at(q: Seq<Seq<char>>, h: Seq<char>, i: int) -> bool {
    0 <= i < q.len() && q[i] == h && forall|j: int| 0 <= j < i ==> #[trigger] q[j] != h
}

/// The remembered hashes after `h` is consumed: its first occurrence removed.
pub open spec fn after_consume(q: Seq<Seq<char>>, h: Seq<char>) -> Seq<Seq<char>> {
    if q.contains(h) {
        q.remove(choose|i: int| first_at(q, h, i))
    } else {
        q
    }
}

pub struct StatusView {
    pub listening: bool,
    pub offline: bool,
    pub self_copies: Seq<Seq<char>>,
}

/// Whether the capture loop listens, whether the assistant is offline, and
/// the pending self-copies.
pub struct AppStatus {
    listening: bool,
    offline: bool,
    self_copies: Vec<String>,
}

impl View for AppStatus {
    type V = StatusView;

    closed spec fn view(&self) -> StatusView {
        StatusView {
            listening: self.listening,
            offline: self.offline,
            self_copies: self.self_copies@.map_values(|s: String| s@),
        }
    }
}

impl Default for AppStatus {
    fn default() -> (r: Self)
        ensures
            r@.listening,
            !r@.offline,
            r@.self_copies.len() == 0,
    {
        let r = AppStatus { listening: true, offline: false, self_copies: Vec::new() };
        assert(r@.self_copies =~= Seq::<Seq<char>>::empty());
        r
    }
}

impl AppStatus {
    pub open spec fn wf(&self) -> bool {
        self@.self_copies.len() <= SELF_COPY_CAPACITY
    }

    pub fn listening(&self) -> (r: bool)
        ensures
            r == self@.listening,
    {
        self.listening
    }

    pub fn offline(&self) -> (r: bool)
        ensures
            r == self@.offline,
    {
        self.offline
    }

    pub fn set_listening(&mut self, value: bool)
        ensures
            final(self)@ == (StatusView { listening: value, ..old(self)@ }),
    {
        self.listening = value;
    }

    pub fn set_offline(&mut self, value: bool)
        ensures
            final(self)@ == (StatusView { offline: value, ..old(self)@ }),
    {
        self.offline = value;
    }

    /// Flips listening; returns the new value.
    pub fn toggle_listening(&mut self) -> (r: bool)
        ensures
            r == !old(self)@.listening,
            final(self)@ == (StatusView { listening: r, ..old(self)@ }),
    {
        self.listening = !self.listening;
        self.listening
    }

    /// Flips offline; returns the new value.
    pub fn toggle_offline(&mut self) -> (r: bool)
        ensures
            r == !old(self)@.offline,
            final(self)@ == (StatusView { offline: r, ..old(self)@ }),
    {
        self.offline = !self.offline;
        self.offline
    }

    /// Remembers that this application itself put `hash` on the clipboard.
    pub fn mark_self_copy(&mut self, hash: String)
        requires
            old(self).wf(),
        ensures
            final(self).wf(),
            final(self)@ == (StatusView {
                self_copies: after_mark(old(self)@.self_copies, hash@),
                ..old(self)@
            }),
    {
        let ghost q = self@.self_copies;
        let ghost h = hash@;
        self.self_copies.push(hash);
        assert(self@.self_copies =~= q.push(h));
        if self.self_copies.len() > SELF_COPY_CAPACITY {
            self.self_copies.remove(0);
            assert(self@.self_copies =~= q.push(h).drop_first());
        }
    }

    /// Forgets the first pending self-copy of `hash`; returns whether there
    /// was one, that is whether the capture of `hash` is this application's
    /// own echo.
    pub fn consume_self_copy(&mut self, hash: &str) -> (r: bool)
        requires
            old(self).wf(),
        ensures
            final(self).wf(),
            r == old(self)@.self_copies.contains(hash@),
            final(self)@ == (StatusView {
                self_copies: after_consume(old(self)@.self_copies, hash@),
                ..old(self)@
            }),
    {
        let ghost q = self@.self_copies;
        let target = hash.to_owned();
        let mut i: usize = 0;
        while i < self.self_copies.len() && self.self_copies[i] != target
            invariant
                self@.self_copies == q,
                target@ == hash@,
                i <= q.len(),
                forall|j: int| 0 <= j < i ==> #[trigger] q[j] != hash@,
            decreases q.len() - i,
        {
            i = i + 1;
        }
        if i < self.self_copies.len() {
            proof {
                assert(q[i as int] == hash@);
                assert(first_at(q, hash@, i as int));
                assert(q.contains(hash@));
                assert forall|k: int| first_at(q, hash@, k) implies k == i by {}
            }
            self.self_copies.remove(i);
            assert(self@.self_copies =~= q.remove(i as int));
            true
        } else {
            proof {
                if q.contains(hash@) {
                    let k = choose|k: int| 0 <= k < q.len() && q[k] == hash@;
                    assert(q[k] != hash@);
                }
            }
            false
        }
    }
}

} // verus!
