//! The room's global guarantees, stated and proved over the spec-level
//! transitions: every member sees broadcasts in one total order (each queue
//! truncated only by its own bound), membership after join and leave is
//! consistent, and a session that chats before joining registers nothing.
use vstd::prelude::*;
use crate::codec::decode_msg;
use crate::protocol::MessageView;
use crate::protocol::UserView;
use crate::room::broadcast_spec;
use crate::room::contains_handle;
use crate::room::fanout;
use crate::room::join_spec;
use crate::room::leave_spec;
use crate::room::name_of;
use crate::room::names_of;
use crate::room::push_bounded;
use crate::room::remove_member;
use crate::room::tag_sender;
use crate::room::take_last;
use crate::room::MemberView;
use crate::room::RoomView;
use crate::room::LOG_CAP;
use crate::session::step_spec;
use crate::session::SessionState;

verus! {

/// A whole run of broadcasts, in the order the room's critical section
/// serializes them.
pub open spec fn apply_broadcasts(r: RoomView, ops: Seq<(MessageView, u64)>) -> RoomView
    decreases ops.len(),
{
    if ops.len() == 0 {
        r
    } else {
        apply_broadcasts(broadcast_spec(r, ops[0].0, ops[0].1), ops.drop_first())
    }
}

/// The one global sequence those broadcasts fan out: each message stamped
/// with its sender's name.
pub open spec fn tagged_seq(members: Seq<MemberView>, ops: Seq<(MessageView, u64)>) -> Seq<
    MessageView,
> {
    ops.map_values(|op: (MessageView, u64)| tag_sender(op.0, name_of(members, op.1)))
}

/// The sender-name lookup reads only handles and identities, not queues.
proof fn lemma_name_of_congruent(ms1: Seq<MemberView>, ms2: Seq<MemberView>, h: u64)
    requires
        ms1.len() == ms2.len(),
        forall|j: int|
            0 <= j < ms1.len() ==> (#[trigger] ms1[j]).handle == ms2[j].handle && ms1[j].user
                == ms2[j].user,
    ensures
        name_of(ms1, h) == name_of(ms2, h),
    decreases ms1.len(),
{
    if ms1.len() > 0 {
        assert(ms1[0].handle == ms2[0].handle);
        lemma_name_of_congruent(ms1.drop_first(), ms2.drop_first(), h);
    }
}

/// Truncating to the newest `cap` entries absorbs earlier truncation.
proof fn lemma_take_last_absorb(a: Seq<MessageView>, b: Seq<MessageView>, cap: nat)
    ensures
        take_last(take_last(a, cap) + b, cap) == take_last(a + b, cap),
{
    let t = take_last(a, cap);
    if a.len() <= cap {
    } else {
        assert(t =~= a.skip(a.len() - cap));
        assert(t.len() == cap);
        if b.len() == 0 {
            assert(t + b =~= t);
            assert(a + b =~= a);
            assert(take_last(a + b, cap) =~= t);
        } else {
            assert((t + b).skip((t + b).len() - cap) =~= (a + b).skip((a + b).len() - cap));
        }
    }
}

/// Total order of broadcast, and backpressure isolation. For any run of
/// broadcasts whose senders are all members, every member's queue ends as
/// the newest `queue_cap` entries of its old queue followed by one and the
/// same global message sequence. Members that keep up therefore see every
/// message in the same order; a saturated member loses only its own oldest
/// entries, and no member's backlog changes what any other member receives.
pub proof fn lemma_broadcast_total_order(r: RoomView, ops: Seq<(MessageView, u64)>)
    requires
        r.wf(),
        forall|k: int| 0 <= k < ops.len() ==> contains_handle(r.members, (#[trigger] ops[k]).1),
    ensures
        ({
            let r2 = apply_broadcasts(r, ops);
            &&& r2.wf()
            &&& r2.members.len() == r.members.len()
            &&& r2.next_handle == r.next_handle
            &&& r2.queue_cap == r.queue_cap
            &&& forall|i: int|
                0 <= i < r.members.len() ==> (#[trigger] r2.members[i]).handle
                    == r.members[i].handle && r2.members[i].user == r.members[i].user
            &&& forall|i: int|
                0 <= i < r.members.len() ==> (#[trigger] r2.members[i]).outbound == take_last(
                    r.members[i].outbound + tagged_seq(r.members, ops),
                    r.queue_cap,
                )
            &&& r2.log == take_last(r.log + tagged_seq(r.members, ops), LOG_CAP as nat)
        }),
    decreases ops.len(),
{
    let r2 = apply_broadcasts(r, ops);
    if ops.len() == 0 {
        assert(tagged_seq(r.members, ops) =~= Seq::<MessageView>::empty());
        assert forall|i: int| 0 <= i < r.members.len() implies (#[trigger] r2.members[i]).outbound
            == take_last(r.members[i].outbound + tagged_seq(r.members, ops), r.queue_cap) by {
            assert(r.members[i].outbound + tagged_seq(r.members, ops) =~= r.members[i].outbound);
            assert(r.members[i].outbound.len() <= r.queue_cap);
        }
        assert(r.log + tagged_seq(r.members, ops) =~= r.log);
    } else {
        let op0 = ops[0];
        let ops1 = ops.drop_first();
        let t0 = tag_sender(op0.0, name_of(r.members, op0.1));
        let r1 = broadcast_spec(r, op0.0, op0.1);
        assert(contains_handle(r.members, op0.1));
        assert(r1.members == fanout(r.members, t0, r.queue_cap));
        assert(r1.wf()) by {
            assert(forall|i: int|
                0 <= i < r1.members.len() ==> (#[trigger] r1.members[i]).handle
                    == r.members[i].handle);
            assert(forall|i: int|
                0 <= i < r1.members.len() ==> (#[trigger] r1.members[i]).outbound.len()
                    <= r.queue_cap);
        }
        assert(forall|k: int|
            0 <= k < ops1.len() ==> contains_handle(r1.members, (#[trigger] ops1[k]).1)) by {
            assert(forall|k: int|
                0 <= k < ops1.len() ==> ops1[k] == ops[k + 1]);
            assert forall|k: int| 0 <= k < ops1.len() implies contains_handle(
                r1.members,
                (#[trigger] ops1[k]).1,
            ) by {
                assert(contains_handle(r.members, ops[k + 1].1));
                let w = choose|w: int|
                    0 <= w < r.members.len() && r.members[w].handle == ops[k + 1].1;
                assert(r1.members[w].handle == ops[k + 1].1);
            }
        }
        lemma_broadcast_total_order(r1, ops1);
        let ts1r1 = tagged_seq(r1.members, ops1);
        let ts1 = tagged_seq(r.members, ops1);
        assert(ts1r1 =~= ts1) by {
            assert forall|k: int| 0 <= k < ops1.len() implies ts1r1[k] == ts1[k] by {
                lemma_name_of_congruent(r1.members, r.members, ops1[k].1);
            }
        }
        let ts = tagged_seq(r.members, ops);
        assert(ts.drop_first() =~= ts1) by {
            assert(forall|k: int| 0 <= k < ops1.len() ==> ops1[k] == ops[k + 1]);
        }
        assert(ts[0] == t0);
        assert forall|i: int| 0 <= i < r.members.len() implies (#[trigger] r2.members[i]).outbound
            == take_last(r.members[i].outbound + ts, r.queue_cap) by {
            let q = r.members[i].outbound;
            assert(r1.members[i].outbound == push_bounded(q, t0, r.queue_cap));
            assert(r2.members[i].outbound == take_last(
                r1.members[i].outbound + ts1r1,
                r.queue_cap,
            ));
            lemma_take_last_absorb(q.push(t0), ts1, r.queue_cap);
            assert(q.push(t0) + ts1 =~= q + ts) by {
                assert(ts =~= seq![t0] + ts1);
            }
        }
        assert(r1.log == push_bounded(r.log, t0, LOG_CAP as nat));
        assert(r2.log == take_last(r1.log + ts1r1, LOG_CAP as nat));
        lemma_take_last_absorb(r.log.push(t0), ts1, LOG_CAP as nat);
        assert(r.log.push(t0) + ts1 =~= r.log + ts) by {
            assert(ts =~= seq![t0] + ts1);
        }
    }
}

/// Membership consistency. Joining adds the new name once, at the end of the
/// member list; leaving with the handle that join returned restores exactly
/// the old name list — and the newcomer's name, if it was not a member's
/// name before, appears nowhere afterwards.
pub proof fn lemma_membership_consistency(r: RoomView, u: UserView)
    requires
        r.wf(),
        r.next_handle < u64::MAX,
    ensures
        ({
            let r1 = join_spec(r, u);
            let h = r.next_handle;
            &&& names_of(r1.members) == names_of(r.members).push(u.name)
            &&& names_of(r1.members).contains(u.name)
            &&& !names_of(r.members).contains(u.name) ==> forall|j: int|
                0 <= j < names_of(r1.members).len() - 1 ==> names_of(r1.members)[j] != u.name
            &&& names_of(leave_spec(r1, h).members) == names_of(r.members)
        }),
{
    let h = r.next_handle;
    let newm = MemberView { handle: h, user: u, outbound: Seq::empty() };
    let with_new = r.members.push(newm);
    let upd = MessageView::UserListUpdate { names: names_of(with_new) };
    let r1 = join_spec(r, u);
    assert(r1.members == fanout(with_new, upd, r.queue_cap));
    assert(names_of(r1.members) =~= names_of(r.members).push(u.name));
    assert(names_of(r1.members)[names_of(r1.members).len() - 1] == u.name);
    if !names_of(r.members).contains(u.name) {
        assert forall|j: int| 0 <= j < names_of(r1.members).len() - 1 implies names_of(
            r1.members,
        )[j] != u.name by {
            assert(names_of(r.members)[j] == names_of(r1.members)[j]);
        }
    }
    // The fresh handle is present exactly at the last index, so leave removes
    // the newcomer and only the newcomer.
    assert(contains_handle(r1.members, h)) by {
        assert(r1.members[r.members.len() as int].handle == h);
    }
    let rest = remove_member(r1.members, h);
    let fm = fanout(r.members, upd, r.queue_cap);
    assert(r1.members =~= fm.push(fanout(with_new, upd, r.queue_cap)[r.members.len() as int]));
    let newf = fanout(with_new, upd, r.queue_cap)[r.members.len() as int];
    assert(newf.handle == h);
    assert(forall|j: int| 0 <= j < fm.len() ==> (#[trigger] fm[j]).handle == r.members[j].handle);
    assert(forall|j: int| 0 <= j < fm.len() ==> (#[trigger] fm[j]).handle != h);
    assert(rest == fm) by {
        reveal(Seq::filter);
        assert(fm.push(newf).drop_last() =~= fm);
        assert(remove_member(fm.push(newf), h) == remove_member(fm, h));
        lemma_filter_keep_all(fm, h);
    }
    assert(names_of(leave_spec(r1, h).members) =~= names_of(rest));
    assert(names_of(rest) =~= names_of(r.members));
}

/// A removal that matches nobody keeps every member.
proof fn lemma_filter_keep_all(ms: Seq<MemberView>, h: u64)
    requires
        forall|j: int| 0 <= j < ms.len() ==> (#[trigger] ms[j]).handle != h,
    ensures
        remove_member(ms, h) == ms,
    decreases ms.len(),
{
    reveal(Seq::filter);
    if ms.len() == 0 {
        assert(remove_member(ms, h) =~= ms);
    } else {
        lemma_filter_keep_all(ms.drop_last(), h);
        assert(ms.last().handle != h);
        assert(remove_member(ms, h) == remove_member(ms.drop_last(), h).push(ms.last()));
        assert(ms.drop_last().push(ms.last()) =~= ms);
    }
}

/// Join-first enforcement. A session still awaiting its join that sends
/// anything but a join frame — a chat in particular — is closed, and the
/// room, its member list included, is exactly as before: nothing was
/// registered.
pub proof fn lemma_join_first_enforced(r: RoomView, frame: Seq<char>)
    requires
        !(decode_msg(frame) is Join),
    ensures
        step_spec(r, SessionState::AwaitingJoin, frame).0 == r,
        step_spec(r, SessionState::AwaitingJoin, frame).1 == SessionState::Closed,
        names_of(step_spec(r, SessionState::AwaitingJoin, frame).0.members) == names_of(
            r.members,
        ),
{
}

} // verus!