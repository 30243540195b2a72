//! Handles for the sockets a script has open.
//!
//! A closed slot is used again, but a handle carries the generation its slot
//! was at, so that one held past its close names nothing.
use crate::num;
use crate::text;
use crate::value;
use crate::value::Error;
use vstd::prelude::*;

verus! {

/// How many sockets may be open at once, and how often a slot is used.
pub const SOCKET_SLOTS: u64 = 0x400_0000;

/// One slot: how often it was closed, and whether it is open.
#[derive(Clone, Copy, Debug, PartialEq, Eq, Structural)]
pub struct Slot {
    pub generation: u64,
    pub open: bool,
}

pub struct Sockets {
    slots: Vec<Slot>,
    free: Vec<usize>,
}

#[verifier::ext_equal]
pub struct SocketsView {
    pub slots: Seq<Slot>,
    pub free: Seq<usize>,
}

impl View for Sockets {
    type V = SocketsView;

    closed spec fn view(&self) -> SocketsView {
        SocketsView { slots: self.slots@, free: self.free@ }
    }
}

/// What the table of sockets keeps: a slot to be used again is there, closed,
/// not spent, and listed once.
pub open spec fn sockets_wf(s: SocketsView) -> bool {
    &&& s.slots.len() <= SOCKET_SLOTS
    &&& forall|i: int|
        0 <= i < s.slots.len() ==> (#[trigger] s.slots[i]).generation <= SOCKET_SLOTS && (
        s.slots[i].open ==> s.slots[i].generation < SOCKET_SLOTS)
    &&& forall|k: int|
        0 <= k < s.free.len() ==> (#[trigger] s.free[k]) < s.slots.len() && !s.slots[s.free[k] as int].open
            && s.slots[s.free[k] as int].generation < SOCKET_SLOTS
    &&& forall|a: int, b: int|
        0 <= a < s.free.len() && 0 <= b < s.free.len() && a != b ==> #[trigger] s.free[a]
            != #[trigger] s.free[b]
}

/// The handle of a slot at a generation. It is never zero.
pub open spec fn handle_of(i: int, generation: u64) -> int {
    generation * SOCKET_SLOTS + i + 1
}

/// The slot a handle names, if it is open.
pub open spec fn slot_of(s: SocketsView, h: u64) -> Option<usize> {
    if h == 0 {
        None
    } else {
        let i = (h - 1) % (SOCKET_SLOTS as int);
        let g = (h - 1) / (SOCKET_SLOTS as int);
        if i < s.slots.len() && s.slots[i].generation == g && s.slots[i].open {
            Some(i as usize)
        } else {
            None
        }
    }
}

/// A handle comes apart into the slot and the generation it was made of.
pub proof fn lemma_handle(i: int, generation: u64)
    requires
        0 <= i < SOCKET_SLOTS,
    ensures
        (handle_of(i, generation) - 1) % (SOCKET_SLOTS as int) == i,
        (handle_of(i, generation) - 1) / (SOCKET_SLOTS as int) == generation,
{
    let h = handle_of(i, generation) - 1;
    assert(h == generation * 0x400_0000 + i);
}

impl Sockets {
    pub fn new() -> (r: Sockets)
        ensures
            sockets_wf(r@),
            r@.slots.len() == 0,
            r@.free.len() == 0,
    {
        Sockets { slots: Vec::new(), free: Vec::new() }
    }

    /// Open a socket: the slot it is kept in, and its handle.
    pub fn insert(&mut self) -> (r: Result<(usize, u64), Error>)
        requires
            sockets_wf(old(self)@),
        ensures
            sockets_wf(final(self)@),
            match r {
                Ok((i, h)) => {
                    &&& h == handle_of(i as int, final(self)@.slots[i as int].generation)
                    &&& slot_of(final(self)@, h) == Some(i)
                    &&& if old(self)@.free.len() > 0 {
                        &&& i == old(self)@.free.last()
                        &&& final(self)@.free == old(self)@.free.drop_last()
                        &&& final(self)@.slots == old(self)@.slots.update(
                            i as int,
                            (Slot { open: true, ..old(self)@.slots[i as int] }),
                        )
                    } else {
                        &&& i == old(self)@.slots.len()
                        &&& final(self)@.free == old(self)@.free
                        &&& final(self)@.slots == old(self)@.slots.push(
                            (Slot { generation: 0, open: true }),
                        )
                    }
                },
                Err(e) => {
                    &&& old(self)@.free.len() == 0
                    &&& old(self)@.slots.len() >= SOCKET_SLOTS
                    &&& final(self)@ == old(self)@
                    &&& value::plain_error(e, "net: too many sockets open at once"@)
                },
            },
    {
        let ghost was = self@;
        let i: usize = match self.free.pop() {
            Some(i) => {
                assert(was.free[was.free.len() - 1] == i);
                let s: Slot = self.slots[i];
                self.slots.set(i, Slot { open: true, ..s });
                i
            },
            None => {
                if self.slots.len() as u64 >= SOCKET_SLOTS {
                    assert(self@ =~= was);
                    return value::err(text::owned("net: too many sockets open at once"));
                }
                self.slots.push(Slot { generation: 0, open: true });
                self.slots.len() - 1
            },
        };
        let g: u64 = self.slots[i].generation;
        assert(g < SOCKET_SLOTS);
        let h: u64 = g * SOCKET_SLOTS + i as u64 + 1;
        proof {
            lemma_handle(i as int, g);
            assert(self@.slots[i as int].open);
        }
        Ok((i, h))
    }

    /// The slot of an open socket. A handle is a whole number.
    pub fn at(&self, bits: u64) -> (r: Option<usize>)
        requires
            sockets_wf(self@),
        ensures
            r == (match num::index_of(bits) {
                Some(h) => slot_of(self@, h),
                None => None,
            }),
    {
        match num::num_index(bits) {
            Some(h) => self.slot(h),
            None => None,
        }
    }

    fn slot(&self, h: u64) -> (r: Option<usize>)
        requires
            sockets_wf(self@),
        ensures
            r == slot_of(self@, h),
    {
        if h == 0 {
            return None;
        }
        let i: u64 = (h - 1) % SOCKET_SLOTS;
        let g: u64 = (h - 1) / SOCKET_SLOTS;
        if i < self.slots.len() as u64 && self.slots[i as usize].generation == g
            && self.slots[i as usize].open {
            Some(i as usize)
        } else {
            None
        }
    }

    /// Close a socket: the slot it was in, if it was open. A slot that is
    /// spent is not used again.
    pub fn close(&mut self, bits: u64) -> (r: Option<usize>)
        requires
            sockets_wf(old(self)@),
        ensures
            sockets_wf(final(self)@),
            r == slot_of(old(self)@, num::truncated(bits)),
            match r {
                Some(i) => {
                    let g = (old(self)@.slots[i as int].generation + 1) as u64;
                    &&& final(self)@.slots == old(self)@.slots.update(
                        i as int,
                        (Slot { generation: g, open: false }),
                    )
                    &&& final(self)@.free == if g < SOCKET_SLOTS {
                        old(self)@.free.push(i)
                    } else {
                        old(self)@.free
                    }
                },
                None => final(self)@ == old(self)@,
            },
    {
        let h: u64 = num::num_truncated(bits);
        let ghost was = self@;
        match self.slot(h) {
            Some(i) => {
                let g: u64 = self.slots[i].generation + 1;
                assert(forall|k: int| 0 <= k < was.free.len() ==> #[trigger] was.free[k] != i);
                self.slots.set(i, Slot { generation: g, open: false });
                if g < SOCKET_SLOTS {
                    self.free.push(i);
                }
                assert(sockets_wf(self@)) by {
                    assert forall|k: int| 0 <= k < self@.free.len() implies (#[trigger] self@.free[k])
                        < self@.slots.len() && !self@.slots[self@.free[k] as int].open
                        && self@.slots[self@.free[k] as int].generation < SOCKET_SLOTS by {
                        if k < was.free.len() {
                            assert(self@.free[k] == was.free[k]);
                        }
                    }
                    assert forall|a: int, b: int|
                        0 <= a < self@.free.len() && 0 <= b < self@.free.len() && a != b implies #[trigger] self@.free[a]
                        != #[trigger] self@.free[b] by {
                        if a < was.free.len() {
                            assert(self@.free[a] == was.free[a]);
                        }
                        if b < was.free.len() {
                            assert(self@.free[b] == was.free[b]);
                        }
                    }
                }
                Some(i)
            },
            None => None,
        }
    }
}

/// What can happen to the sockets: each slot stays or moves on, and none goes
/// back.
pub open spec fn later(a: SocketsView, b: SocketsView) -> bool {
    &&& a.slots.len() <= b.slots.len()
    &&& forall|i: int|
        0 <= i < a.slots.len() ==> a.slots[i].generation <= (#[trigger] b.slots[i]).generation
}

/// A handle that was closed never names a socket again, whatever is opened
/// and closed after it.
pub proof fn lemma_closed_for_good(before: SocketsView, closed: SocketsView, after: SocketsView, h: u64)
    requires
        sockets_wf(before),
        slot_of(before, h) matches Some(i) && closed.slots.len() == before.slots.len()
            && closed.slots[i as int].generation == before.slots[i as int].generation + 1,
        later(closed, after),
    ensures
        slot_of(after, h) is None,
{
    let i = slot_of(before, h)->Some_0 as int;
    assert(after.slots[i].generation >= closed.slots[i].generation);
}

} // verus!
