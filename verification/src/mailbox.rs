use vstd::prelude::*;
use crate::payload::{Message, MessageView};

verus! {

/// A parked receiver: the tag it waits for and the rendezvous slot that will
/// receive the message (or the close notice) meant for it.
#[derive(Clone, Copy, Debug, PartialEq, Eq, Structural)]
pub struct Waiter {
    pub tag: u64,
    pub slot: u64,
}

/// Per-endpoint rendezvous point: messages delivered but not yet claimed, and
/// receivers awaiting a matching tag. Both lists are kept in FIFO order.
pub struct Mailbox {
    pub pending: Vec<Message>,
    pub waiters: Vec<Waiter>,
}

/// The mathematical content of a `Mailbox`.
#[verifier::ext_equal]
pub struct MailboxView {
    pub pending: Seq<MessageView>,
    pub waiters: Seq<Waiter>,
}

impl View for Mailbox {
    type V = MailboxView;

    open spec fn view(&self) -> MailboxView {
        MailboxView {
            pending: self.pending@.map_values(|m: Message| m@),
            waiters: self.waiters@,
        }
    }
}

/// Some pending message carries `tag`.
pub open spec fn has_msg(p: Seq<MessageView>, tag: u64) -> bool {
    exists|i: int| 0 <= i < p.len() && p[i].tag == tag
}

/// Index of the first pending message carrying `tag` (meaningful only when
/// `has_msg` holds).
pub open spec fn first_msg_idx(p: Seq<MessageView>, tag: u64) -> int
    decreases p.len(),
{
    if p.len() == 0 {
        0
    } else if p[0].tag == tag {
        0
    } else {
        1 + first_msg_idx(p.skip(1), tag)
    }
}

/// No two waiters share a rendezvous slot.
pub open spec fn waiter_slots_distinct(w: Seq<Waiter>) -> bool {
    forall|i: int, j: int|
        0 <= i < j < w.len() ==> #[trigger] w[i].slot != #[trigger] w[j].slot
}

/// Some waiter awaits `tag`.
pub open spec fn has_waiter(w: Seq<Waiter>, tag: u64) -> bool {
    exists|i: int| 0 <= i < w.len() && w[i].tag == tag
}

/// Index of the first waiter awaiting `tag` (meaningful only when
/// `has_waiter` holds).
pub open spec fn first_waiter_idx(w: Seq<Waiter>, tag: u64) -> int
    decreases w.len(),
{
    if w.len() == 0 {
        0
    } else if w[0].tag == tag {
        0
    } else {
        1 + first_waiter_idx(w.skip(1), tag)
    }
}

/// `first_msg_idx` is the first matching index: in range, matching, and
/// nothing before it matches.
pub proof fn lemma_first_msg_idx(p: Seq<MessageView>, tag: u64)
    requires
        has_msg(p, tag),
    ensures
        0 <= first_msg_idx(p, tag) < p.len(),
        p[first_msg_idx(p, tag)].tag == tag,
        forall|j: int| 0 <= j < first_msg_idx(p, tag) ==> p[j].tag != tag,
    decreases p.len(),
{
    if p.len() == 0 {
    } else if p[0].tag == tag {
    } else {
        assert(has_msg(p.skip(1), tag)) by {
            let i = choose|i: int| 0 <= i < p.len() && p[i].tag == tag;
            assert(p.skip(1)[i - 1].tag == tag);
        }
        lemma_first_msg_idx(p.skip(1), tag);
        let k = first_msg_idx(p.skip(1), tag);
        assert(p[1 + k].tag == p.skip(1)[k].tag);
        assert forall|j: int| 0 <= j < 1 + k implies p[j].tag != tag by {
            if j > 0 {
                assert(p[j] == p.skip(1)[j - 1]);
            }
        }
    }
}

/// `first_waiter_idx` is the first matching index.
pub proof fn lemma_first_waiter_idx(w: Seq<Waiter>, tag: u64)
    requires
        has_waiter(w, tag),
    ensures
        0 <= first_waiter_idx(w, tag) < w.len(),
        w[first_waiter_idx(w, tag)].tag == tag,
        forall|j: int| 0 <= j < first_waiter_idx(w, tag) ==> w[j].tag != tag,
    decreases w.len(),
{
    if w.len() == 0 {
    } else if w[0].tag == tag {
    } else {
        assert(has_waiter(w.skip(1), tag)) by {
            let i = choose|i: int| 0 <= i < w.len() && w[i].tag == tag;
            assert(w.skip(1)[i - 1].tag == tag);
        }
        lemma_first_waiter_idx(w.skip(1), tag);
        let k = first_waiter_idx(w.skip(1), tag);
        assert(w[1 + k].tag == w.skip(1)[k].tag);
        assert forall|j: int| 0 <= j < 1 + k implies w[j].tag != tag by {
            if j > 0 {
                assert(w[j] == w.skip(1)[j - 1]);
            }
        }
    }
}

impl Mailbox {
    /// An empty mailbox.
    pub fn new() -> (m: Mailbox)
        ensures
            m@.pending =~= Seq::<MessageView>::empty(),
            m@.waiters =~= Seq::<Waiter>::empty(),
    {
        Mailbox { pending: Vec::new(), waiters: Vec::new() }
    }

    /// Removes and returns the first pending message carrying `tag`; `None`
    /// (and no change) when none is pending.
    pub fn take_first_pending(&mut self, tag: u64) -> (r: Option<Message>)
        ensures
            has_msg(old(self)@.pending, tag) ==> {
                let k = first_msg_idx(old(self)@.pending, tag);
                &&& r matches Some(m) && m@ == old(self)@.pending[k]
                &&& final(self)@.pending =~= old(self)@.pending.remove(k)
            },
            !has_msg(old(self)@.pending, tag) ==> r is None && final(self)@.pending
                =~= old(self)@.pending,
            final(self)@.waiters == old(self)@.waiters,
            r matches Some(m) ==> m@.tag == tag,
    {
        let n = self.pending.len();
        let mut i: usize = 0;
        while i < n
            invariant
                i <= n,
                n == self.pending.len(),
                *self == *old(self),
                forall|j: int| 0 <= j < i ==> self@.pending[j].tag != tag,
            decreases n - i,
        {
            if self.pending[i].tag == tag {
                proof {
                    assert(self@.pending[i as int].tag == tag);
                    lemma_first_msg_idx(self@.pending, tag);
                    assert(first_msg_idx(self@.pending, tag) == i as int) by {
                        let k = first_msg_idx(self@.pending, tag);
                        if k < i as int {
                            assert(self@.pending[k].tag != tag);
                        }
                    }
                }
                let m = self.pending.remove(i);
                proof {
                    assert(final(self)@.pending =~= old(self)@.pending.remove(i as int));
                }
                return Some(m);
            }
            i += 1;
        }
        proof {
            assert(!has_msg(self@.pending, tag));
        }
        None
    }

    /// Removes and returns the first waiter awaiting `tag`; `None` (and no
    /// change) when none waits.
    pub fn take_first_waiter(&mut self, tag: u64) -> (r: Option<Waiter>)
        ensures
            has_waiter(old(self)@.waiters, tag) ==> {
                let k = first_waiter_idx(old(self)@.waiters, tag);
                &&& r matches Some(w) && w == old(self)@.waiters[k]
                &&& final(self)@.waiters =~= old(self)@.waiters.remove(k)
            },
            !has_waiter(old(self)@.waiters, tag) ==> r is None && final(self)@.waiters
                =~= old(self)@.waiters,
            final(self)@.pending == old(self)@.pending,
            r matches Some(w) ==> w.tag == tag,
    {
        let n = self.waiters.len();
        let mut i: usize = 0;
        while i < n
            invariant
                i <= n,
                n == self.waiters.len(),
                *self == *old(self),
                forall|j: int| 0 <= j < i ==> self@.waiters[j].tag != tag,
            decreases n - i,
        {
            if self.waiters[i].tag == tag {
                proof {
                    lemma_first_waiter_idx(self@.waiters, tag);
                    let k = first_waiter_idx(self@.waiters, tag);
                    if k < i as int {
                        assert(self@.waiters[k].tag != tag);
                    }
                }
                let w = self.waiters.remove(i);
                return Some(w);
            }
            i += 1;
        }
        None
    }

    /// Removes the (single, by the network's invariant) waiter bound to
    /// rendezvous slot `slot`.
    pub fn remove_waiter_of_slot(&mut self, slot: u64) -> (r: Option<Waiter>)
        requires
            waiter_slots_distinct(old(self)@.waiters),
        ensures
            final(self)@.pending == old(self)@.pending,
            (exists|i: int| 0 <= i < old(self)@.waiters.len() && old(self)@.waiters[i].slot
                == slot) ==> {
                let k = choose|k: int|
                    0 <= k < old(self)@.waiters.len() && old(self)@.waiters[k].slot == slot;
                &&& r matches Some(w) && w == old(self)@.waiters[k]
                &&& final(self)@.waiters =~= old(self)@.waiters.remove(k)
            },
            !(exists|i: int| 0 <= i < old(self)@.waiters.len() && old(self)@.waiters[i].slot
                == slot) ==> r is None && final(self)@.waiters =~= old(self)@.waiters,
    {
        let n = self.waiters.len();
        let mut i: usize = 0;
        while i < n
            invariant
                i <= n,
                n == self.waiters.len(),
                *self == *old(self),
                forall|j: int| 0 <= j < i ==> self@.waiters[j].slot != slot,
            decreases n - i,
        {
            if self.waiters[i].slot == slot {
                proof {
                    let ws = old(self)@.waiters;
                    assert(ws[i as int].slot == slot);
                    assert(exists|k: int| 0 <= k < ws.len() && ws[k].slot == slot);
                    let k = choose|k: int| 0 <= k < ws.len() && ws[k].slot == slot;
                    assert(0 <= k < ws.len() && ws[k].slot == slot);
                    if k < i as int {
                        assert(ws[k].slot != ws[i as int].slot);
                        assert(false);
                    } else if k > i as int {
                        assert(ws[i as int].slot != ws[k].slot);
                        assert(false);
                    }
                    assert(k == i as int);
                }
                let w = self.waiters.remove(i);
                return Some(w);
            }
            i += 1;
        }
        None
    }

    /// Appends a delivered-but-unclaimed message.
    pub fn push_pending(&mut self, msg: Message)
        ensures
            final(self)@.pending =~= old(self)@.pending.push(msg@),
            final(self)@.waiters == old(self)@.waiters,
    {
        self.pending.push(msg);
        proof {
            assert(final(self)@.pending =~= old(self)@.pending.push(msg@));
        }
    }

    /// Parks a receiver.
    pub fn push_waiter(&mut self, w: Waiter)
        ensures
            final(self)@.pending == old(self)@.pending,
            final(self)@.waiters =~= old(self)@.waiters.push(w),
    {
        self.waiters.push(w);
    }

    /// Whether a pending message carries `tag` (the non-consuming readiness
    /// check behind `recv_ready`).
    pub fn has_pending(&self, tag: u64) -> (r: bool)
        ensures
            r == has_msg(self@.pending, tag),
    {
        let n = self.pending.len();
        let mut i: usize = 0;
        while i < n
            invariant
                i <= n,
                n == self.pending.len(),
                forall|j: int| 0 <= j < i ==> self@.pending[j].tag != tag,
            decreases n - i,
        {
            if self.pending[i].tag == tag {
                proof {
                    assert(self@.pending[i as int].tag == tag);
                }
                return true;
            }
            i += 1;
        }
        false
    }
}

} // verus!
