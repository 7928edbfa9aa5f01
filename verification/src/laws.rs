use vstd::prelude::*;
use crate::mailbox::{first_msg_idx, first_waiter_idx, has_msg, has_waiter, lemma_first_msg_idx,
    lemma_first_waiter_idx, Waiter};
use crate::net::{delivered, NetSim, SlotStateView};
use crate::payload::MessageView;
use crate::addr::SockAddr;

verus! {

/// Round trip: a message delivered into a mailbox holding no earlier message
/// of its tag is exactly what the next receive of that tag claims — same
/// tag, same origin, same bytes. (`NetSim::deliver` parks the message by
/// pushing it onto `pending`; `NetSim::recv` and `NetSim::recv_sync` claim
/// `pending[first_msg_idx(pending, tag)]`.)
pub proof fn lemma_round_trip(p: Seq<MessageView>, msg: MessageView)
    requires
        !has_msg(p, msg.tag),
    ensures
        has_msg(p.push(msg), msg.tag),
        first_msg_idx(p.push(msg), msg.tag) == p.len(),
        p.push(msg)[first_msg_idx(p.push(msg), msg.tag)] == msg,
{
    let q = p.push(msg);
    assert(q[p.len() as int] == msg);
    assert(has_msg(q, msg.tag));
    lemma_first_msg_idx(q, msg.tag);
    let k = first_msg_idx(q, msg.tag);
    if k < p.len() {
        assert(q[k] == p[k]);
        assert(has_msg(p, msg.tag));
    }
}

/// Receives demultiplex by tag: with two pending messages of distinct tags,
/// the receive of each tag claims its own message, whichever of the two was
/// delivered first. (Latency is drawn per send, so two sends may arrive in
/// either order; this law says the order does not matter to tag-filtered
/// receives.)
pub proof fn lemma_reorder_on_tag(m1: MessageView, m2: MessageView)
    requires
        m1.tag != m2.tag,
    ensures
        seq![m1, m2][first_msg_idx(seq![m1, m2], m1.tag)] == m1,
        seq![m1, m2][first_msg_idx(seq![m1, m2], m2.tag)] == m2,
        seq![m2, m1][first_msg_idx(seq![m2, m1], m1.tag)] == m1,
        seq![m2, m1][first_msg_idx(seq![m2, m1], m2.tag)] == m2,
{
    let a = seq![m1, m2];
    let b = seq![m2, m1];
    assert(first_msg_idx(a, m1.tag) == 0);
    assert(first_msg_idx(b, m2.tag) == 0);
    assert(a.skip(1) =~= seq![m2]);
    assert(b.skip(1) =~= seq![m1]);
    assert(first_msg_idx(a.skip(1), m2.tag) == 0);
    assert(first_msg_idx(a, m2.tag) == 1);
    assert(first_msg_idx(b.skip(1), m1.tag) == 0);
    assert(first_msg_idx(b, m1.tag) == 1);
}

/// Cancel and retry: once the only waiter for a tag is gone (its receiver
/// was dropped), no waiter for that tag remains, so `NetSim::deliver` parks
/// the next message of that tag in the pending queue — where
/// `lemma_round_trip` says a re-issued receive claims it. No message is
/// consumed by the cancelled receive.
pub proof fn lemma_cancel_retry(ws: Seq<Waiter>, k: int, tag: u64)
    requires
        0 <= k < ws.len(),
        ws[k].tag == tag,
        forall|j: int| 0 <= j < ws.len() && j != k ==> ws[j].tag != tag,
    ensures
        !has_waiter(ws.remove(k), tag),
{
    if has_waiter(ws.remove(k), tag) {
        let j = choose|j: int| 0 <= j < ws.remove(k).len() && ws.remove(k)[j].tag == tag;
        let j0 = if j < k {
            j
        } else {
            j + 1
        };
        assert(ws.remove(k)[j] == ws[j0]);
        assert(ws[j0].tag != tag);
    }
}

/// Exactly-once landing: an admitted send's delivery either hands its
/// message to the first waiter of its tag (fulfilling that waiter's slot and
/// leaving the pending queue alone) or parks it as the last pending message
/// (changing no slot) — never both, never more than once.
pub proof fn lemma_delivered_once(pre: NetSim, post: NetSim, dst: SockAddr, msg: MessageView)
    requires
        pre.wf(),
        pre.bound(dst),
        delivered(pre, post, dst, msg),
    ensures
        has_waiter(pre.mbox(dst).waiters, msg.tag) ==> {
            let w = pre.mbox(dst).waiters[first_waiter_idx(pre.mbox(dst).waiters, msg.tag)];
            &&& post.mbox(dst).pending == pre.mbox(dst).pending
            &&& post.slot(w.slot).state == SlotStateView::Fulfilled(msg)
            &&& forall|id: u64|
                id != w.slot && #[trigger] pre.has_slot(id) ==> post.slot(id) == pre.slot(id)
        },
        !has_waiter(pre.mbox(dst).waiters, msg.tag) ==> {
            &&& post.mbox(dst).pending =~= pre.mbox(dst).pending.push(msg)
            &&& post.mbox(dst).waiters == pre.mbox(dst).waiters
            &&& post.slots_map() == pre.slots_map()
        },
{
    if has_waiter(pre.mbox(dst).waiters, msg.tag) {
        lemma_first_waiter_idx(pre.mbox(dst).waiters, msg.tag);
        let w = pre.mbox(dst).waiters[first_waiter_idx(pre.mbox(dst).waiters, msg.tag)];
        assert(pre.has_slot(w.slot)) by {
            assert(pre.bound(dst) && 0 <= first_waiter_idx(pre.mbox(dst).waiters, msg.tag)
                < pre.mbox(dst).waiters.len());
        }
        assert(post.mbox(dst) == post.by_addr()[dst].mailbox);
        assert(post.slot(w.slot) == post.slots_map()[w.slot]);
    } else {
        assert(post.mbox(dst) == post.by_addr()[dst].mailbox);
    }
}

} // verus!
