//! The room: the single source of truth for membership and in-order fan-out.
//! All mutation goes through `join`, `leave` and `broadcast`; each member owns
//! a bounded outbound queue that drops its oldest entry on overflow, so a slow
//! consumer never stalls fan-out to anyone else.
use vstd::prelude::*;
use crate::protocol::MessageView;
use crate::protocol::ProtocolMessage;
use crate::protocol::UserInfo;
use crate::protocol::UserView;

verus! {

/// Capacity of the room's bounded message log; the oldest entry is evicted
/// beyond this.
pub const LOG_CAP: usize = 1000;

/// One registered member: its handle, its identity, and its outbound queue.
pub struct Member {
    pub handle: u64,
    pub user: UserInfo,
    pub outbound: Vec<ProtocolMessage>,
}

/// Mathematical view of a member.
#[verifier::ext_equal]
pub struct MemberView {
    pub handle: u64,
    pub user: UserView,
    pub outbound: Seq<MessageView>,
}

impl View for Member {
    type V = MemberView;

    open spec fn view(&self) -> MemberView {
        MemberView { handle: self.handle, user: self.user@, outbound: qviews(self.outbound@) }
    }
}

pub open spec fn mviews(ms: Seq<Member>) -> Seq<MemberView> {
    ms.map_values(|m: Member| m@)
}

pub open spec fn qviews(qs: Seq<ProtocolMessage>) -> Seq<MessageView> {
    qs.map_values(|m: ProtocolMessage| m@)
}

/// The room's shared state.
pub struct Room {
    members: Vec<Member>,
    next_handle: u64,
    log: Vec<ProtocolMessage>,
    queue_cap: usize,
}

/// Mathematical view of the room.
#[verifier::ext_equal]
pub struct RoomView {
    pub members: Seq<MemberView>,
    pub next_handle: u64,
    pub log: Seq<MessageView>,
    pub queue_cap: nat,
}

impl View for Room {
    type V = RoomView;

    closed spec fn view(&self) -> RoomView {
        RoomView {
            members: mviews(self.members@),
            next_handle: self.next_handle,
            log: qviews(self.log@),
            queue_cap: self.queue_cap as nat,
        }
    }
}

// ---------------------------------------------------------------------------
// Spec-level transitions.
// ---------------------------------------------------------------------------
/// The newest `cap` entries of a sequence.
pub open spec fn take_last(q: Seq<MessageView>, cap: nat) -> Seq<MessageView> {
    if q.len() <= cap {
        q
    } else {
        q.skip(q.len() - cap)
    }
}

/// Append under the bound: on overflow the oldest entry is dropped.
pub open spec fn push_bounded(q: Seq<MessageView>, m: MessageView, cap: nat) -> Seq<MessageView> {
    take_last(q.push(m), cap)
}

/// Enqueue a copy of `m` onto every member's outbound queue.
pub open spec fn fanout(members: Seq<MemberView>, m: MessageView, cap: nat) -> Seq<MemberView> {
    members.map_values(
        |mem: MemberView| MemberView {
            handle: mem.handle,
            user: mem.user,
            outbound: push_bounded(mem.outbound, m, cap),
        },
    )
}

/// The member names, in insertion order.
pub open spec fn names_of(members: Seq<MemberView>) -> Seq<Seq<char>> {
    members.map_values(|mem: MemberView| mem.user.name)
}

pub open spec fn contains_handle(members: Seq<MemberView>, h: u64) -> bool {
    exists|i: int| 0 <= i < members.len() && members[i].handle == h
}

/// The name registered under handle `h` (the first match).
pub open spec fn name_of(members: Seq<MemberView>, h: u64) -> Seq<char>
    decreases members.len(),
{
    if members.len() == 0 {
        Seq::empty()
    } else if members[0].handle == h {
        members[0].user.name
    } else {
        name_of(members.drop_first(), h)
    }
}

/// All members except the one registered under `h`.
pub open spec fn remove_member(members: Seq<MemberView>, h: u64) -> Seq<MemberView> {
    members.filter(|mem: MemberView| mem.handle != h)
}

/// A chat message is stamped with its sender's name before fan-out; other
/// messages pass unchanged.
pub open spec fn tag_sender(m: MessageView, name: Seq<char>) -> MessageView {
    match m {
        MessageView::Chat { text, from } => MessageView::Chat { text, from: Some(name) },
        _ => m,
    }
}

/// `join`: register a new member under a fresh handle, then announce the new
/// member list to everyone, the newcomer included.
pub open spec fn join_spec(r: RoomView, u: UserView) -> RoomView {
    let with_new = r.members.push(
        MemberView { handle: r.next_handle, user: u, outbound: Seq::empty() },
    );
    RoomView {
        members: fanout(
            with_new,
            MessageView::UserListUpdate { names: names_of(with_new) },
            r.queue_cap,
        ),
        next_handle: (r.next_handle + 1) as u64,
        log: r.log,
        queue_cap: r.queue_cap,
    }
}

/// `leave`: remove the member registered under `h` and announce the new
/// member list to the rest; removing an absent handle changes nothing.
pub open spec fn leave_spec(r: RoomView, h: u64) -> RoomView {
    if contains_handle(r.members, h) {
        let rest = remove_member(r.members, h);
        RoomView {
            members: fanout(
                rest,
                MessageView::UserListUpdate { names: names_of(rest) },
                r.queue_cap,
            ),
            next_handle: r.next_handle,
            log: r.log,
            queue_cap: r.queue_cap,
        }
    } else {
        r
    }
}

/// `broadcast`: stamp the message with the sender's name, append it to the
/// bounded log, and enqueue a copy for every member, the sender included. A
/// sender that is no longer registered broadcasts nothing.
pub open spec fn broadcast_spec(r: RoomView, m: MessageView, from: u64) -> RoomView {
    if contains_handle(r.members, from) {
        let t = tag_sender(m, name_of(r.members, from));
        RoomView {
            members: fanout(r.members, t, r.queue_cap),
            next_handle: r.next_handle,
            log: push_bounded(r.log, t, LOG_CAP as nat),
            queue_cap: r.queue_cap,
        }
    } else {
        r
    }
}

impl RoomView {
    /// Well-formedness: handles are unique and below the next fresh handle,
    /// every queue respects the bound, the log respects its own.
    pub open spec fn wf(self) -> bool {
        &&& self.queue_cap >= 1
        &&& forall|i: int, j: int|
            0 <= i < j < self.members.len() ==> self.members[i].handle != self.members[j].handle
        &&& forall|i: int|
            0 <= i < self.members.len() ==> (#[trigger] self.members[i]).handle
                < self.next_handle
        &&& forall|i: int|
            0 <= i < self.members.len() ==> (#[trigger] self.members[i]).outbound.len()
                <= self.queue_cap
        &&& self.log.len() <= LOG_CAP as nat
    }
}

/// The name registered at a found index is the name the lookup gives.
pub proof fn lemma_name_of_at(members: Seq<MemberView>, h: u64, i: int)
    requires
        0 <= i < members.len(),
        members[i].handle == h,
        forall|j: int| 0 <= j < i ==> members[j].handle != h,
    ensures
        name_of(members, h) == members[i].user.name,
    decreases i,
{
    if i == 0 {
    } else {
        assert(members[0].handle != h);
        lemma_name_of_at(members.drop_first(), h, i - 1);
        assert(members.drop_first()[i - 1] == members[i]);
    }
}

// ---------------------------------------------------------------------------
// Executable operations.
// ---------------------------------------------------------------------------
/// Append under the bound, dropping the oldest entry on overflow.
fn enqueue_bounded(q: &mut Vec<ProtocolMessage>, m: ProtocolMessage, cap: usize)
    requires
        old(q)@.len() <= cap,
        cap >= 1,
    ensures
        qviews(final(q)@) == push_bounded(qviews(old(q)@), m@, cap as nat),
        final(q)@.len() <= cap,
{
    let ghost before = qviews(q@);
    if q.len() == cap {
        q.remove(0);
        proof {
            assert(qviews(q@) =~= before.drop_first());
        }
    }
    let ghost mid = qviews(q@);
    q.push(m);
    proof {
        assert(qviews(q@) =~= mid.push(m@));
        assert(qviews(q@) =~= push_bounded(before, m@, cap as nat));
    }
}

impl Room {
    /// A fresh, empty room whose member queues hold at most `queue_cap`
    /// messages each.
    pub fn new(queue_cap: usize) -> (r: Room)
        requires
            queue_cap >= 1,
        ensures
            r@.wf(),
            r@.members == Seq::<MemberView>::empty(),
            r@.next_handle == 0,
            r@.log == Seq::<MessageView>::empty(),
            r@.queue_cap == queue_cap as nat,
    {
        let r = Room { members: Vec::new(), next_handle: 0, log: Vec::new(), queue_cap };
        proof {
            assert(mviews(r.members@) =~= Seq::<MemberView>::empty());
            assert(qviews(r.log@) =~= Seq::<MessageView>::empty());
        }
        r
    }

    /// The index of the member registered under `h`, if any.
    fn find_handle(&self, h: u64) -> (r: Option<usize>)
        ensures
            match r {
                Some(i) => i < self@.members.len() && self@.members[i as int].handle == h
                    && forall|j: int| 0 <= j < i ==> self@.members[j].handle != h,
                None => !contains_handle(self@.members, h),
            },
    {
        let mut i: usize = 0;
        while i < self.members.len()
            invariant
                i <= self@.members.len(),
                self@.members.len() == self.members@.len(),
                forall|j: int| 0 <= j < i ==> self@.members[j].handle != h,
            decreases self.members@.len() - i,
        {
            if self.members[i].handle == h {
                return Some(i);
            }
            i = i + 1;
        }
        None
    }

    /// The current member names, in insertion order.
    pub fn member_names(&self) -> (r: Vec<String>)
        ensures
            r@.map_values(|s: String| s@) == names_of(self@.members),
    {
        let mut r: Vec<String> = Vec::new();
        let mut i: usize = 0;
        while i < self.members.len()
            invariant
                i <= self.members@.len(),
                r@.len() == i,
                forall|j: int| 0 <= j < i ==> r@[j]@ == mviews(self.members@)[j].user.name,
            decreases self.members@.len() - i,
        {
            r.push(self.members[i].user.name.clone());
            i = i + 1;
        }
        proof {
            assert(r@.map_values(|s: String| s@) =~= names_of(mviews(self.members@)));
        }
        r
    }

    /// Whether another member can still be assigned a fresh handle.
    pub fn can_accept(&self) -> (r: bool)
        ensures
            r == (self@.next_handle < u64::MAX),
    {
        self.next_handle < u64::MAX
    }

    /// How many members are registered.
    pub fn member_count(&self) -> (n: usize)
        ensures
            n == self@.members.len(),
    {
        self.members.len()
    }

    /// How many broadcasts the bounded log currently holds.
    pub fn log_len(&self) -> (n: usize)
        ensures
            n == self@.log.len(),
    {
        self.log.len()
    }

    /// Enqueue a copy of `m` onto every member's queue.
    fn fanout_exec(&mut self, m: &ProtocolMessage)
        requires
            old(self)@.wf(),
        ensures
            final(self)@.members == fanout(old(self)@.members, m@, old(self)@.queue_cap),
            final(self)@.next_handle == old(self)@.next_handle,
            final(self)@.log == old(self)@.log,
            final(self)@.queue_cap == old(self)@.queue_cap,
            final(self)@.wf(),
    {
        let ghost om = mviews(old(self).members@);
        let ghost target = fanout(om, m@, old(self)@.queue_cap);
        proof {
            assert(om == old(self)@.members);
            assert(forall|j: int|
                0 <= j < om.len() ==> (#[trigger] om[j]).outbound.len()
                    <= old(self)@.queue_cap);
        }
        let n = self.members.len();
        let mut i: usize = 0;
        while i < n
            invariant
                i <= n,
                n == self.members@.len(),
                om.len() == n,
                self.queue_cap == old(self).queue_cap,
                self.queue_cap >= 1,
                self.next_handle == old(self).next_handle,
                self.log@ == old(self).log@,
                target == fanout(om, m@, self.queue_cap as nat),
                forall|j: int| 0 <= j < n ==> om[j].outbound.len() <= self.queue_cap,
                forall|j: int| i <= j < n ==> mviews(self.members@)[j] == om[j],
                forall|j: int| 0 <= j < i ==> mviews(self.members@)[j] == target[j],
            decreases n - i,
        {
            let mut mem = self.members.remove(i);
            proof {
                assert(mem@ == om[i as int]);
            }
            enqueue_bounded(&mut mem.outbound, m.duplicate(), self.queue_cap);
            proof {
                assert(mem@ =~= target[i as int]);
            }
            self.members.insert(i, mem);
            proof {
                assert(forall|j: int|
                    0 <= j < n && j != i ==> mviews(self.members@)[j] == mviews(
                        self.members@.remove(i as int).insert(i as int, mem),
                    )[j]);
            }
            i = i + 1;
        }
        proof {
            assert(mviews(self.members@) =~= target);
        }
    }

    /// Register a new member and announce the new member list to everyone,
    /// the newcomer included. Returns the fresh handle.
    pub fn join(&mut self, user: UserInfo) -> (h: u64)
        requires
            old(self)@.wf(),
            old(self)@.next_handle < u64::MAX,
        ensures
            h == old(self)@.next_handle,
            final(self)@ == join_spec(old(self)@, user@),
            final(self)@.wf(),
    {
        let ghost r0 = self@;
        let ghost uv = user@;
        let h = self.next_handle;
        self.next_handle = h + 1;
        self.members.push(Member { handle: h, user, outbound: Vec::new() });
        proof {
            let newm = MemberView { handle: h, user: uv, outbound: Seq::empty() };
            assert(qviews(Seq::<ProtocolMessage>::empty()) =~= Seq::<MessageView>::empty());
            assert(mviews(self.members@) =~= r0.members.push(newm));
            assert(self@.wf());
        }
        let names = self.member_names();
        let upd = ProtocolMessage::UserListUpdate { names };
        self.fanout_exec(&upd);
        proof {
            assert(self@ =~= join_spec(r0, uv));
        }
        h
    }

    /// Deregister the member under `h`, if any, and announce the new member
    /// list to the rest. Removing an absent handle is a no-op; a second
    /// `leave` with the same handle therefore changes nothing.
    pub fn leave(&mut self, h: u64)
        requires
            old(self)@.wf(),
        ensures
            final(self)@ == leave_spec(old(self)@, h),
            final(self)@.wf(),
    {
        let ghost r0 = self@;
        let ghost om = r0.members;
        if self.find_handle(h).is_none() {
            return ;
        }
        let mut kept: Vec<Member> = Vec::new();
        let ghost mut k: int = 0;
        proof {
            assert(om.skip(0) =~= om);
            assert(om.take(0) =~= Seq::<MemberView>::empty());
            assert(remove_member(om.take(0), h) =~= Seq::<MemberView>::empty()) by {
                reveal(Seq::filter);
            }
            assert(mviews(kept@) =~= Seq::<MemberView>::empty());
        }
        while self.members.len() > 0
            invariant
                0 <= k <= om.len(),
                self.members@.len() == om.len() - k,
                mviews(self.members@) == om.skip(k),
                mviews(kept@) == remove_member(om.take(k), h),
                self.next_handle == old(self).next_handle,
                self.log@ == old(self).log@,
                self.queue_cap == old(self).queue_cap,
                om == r0.members,
                r0 == old(self)@,
            decreases self.members@.len(),
        {
            let ghost before = self.members@;
            let mem = self.members.remove(0);
            proof {
                assert(mem@ == om.skip(k)[0]);
                assert(om.skip(k)[0] == om[k]);
                assert(self.members@ == before.remove(0));
                assert forall|j: int| 0 <= j < self.members@.len() implies mviews(
                    self.members@,
                )[j] == om.skip(k + 1)[j] by {
                    assert(before.remove(0)[j] == before[j + 1]);
                    assert(mviews(before)[j + 1] == before[j + 1]@);
                    assert(mviews(self.members@)[j] == self.members@[j]@);
                }
                assert(mviews(self.members@) =~= om.skip(k + 1));
            }
            let ghost kept0 = mviews(kept@);
            if mem.handle != h {
                kept.push(mem);
                proof {
                    assert(mviews(kept@) =~= kept0.push(om[k]));
                }
            }
            proof {
                reveal(Seq::filter);
                assert(om.take(k + 1).drop_last() =~= om.take(k));
                assert(om.take(k + 1).last() == om[k]);
                assert(remove_member(om.take(k + 1), h) == if om[k].handle != h {
                    remove_member(om.take(k), h).push(om[k])
                } else {
                    remove_member(om.take(k), h)
                });
                k = k + 1;
            }
        }
        proof {
            assert(om.take(om.len() as int) =~= om);
            assert(mviews(kept@) == remove_member(om, h));
        }
        self.members = kept;
        proof {
            lemma_remove_member_sources(om, h);
            lemma_remove_member_unique(om, h);
            assert(self@.wf());
        }
        let names = self.member_names();
        let upd = ProtocolMessage::UserListUpdate { names };
        self.fanout_exec(&upd);
        proof {
            assert(self@ =~= leave_spec(r0, h));
        }
    }

    /// Stamp a message with its sender's name, append it to the bounded log,
    /// and enqueue a copy for every member, the sender included. A sender
    /// that is no longer registered broadcasts nothing.
    pub fn broadcast(&mut self, msg: ProtocolMessage, from: u64)
        requires
            old(self)@.wf(),
        ensures
            final(self)@ == broadcast_spec(old(self)@, msg@, from),
            final(self)@.wf(),
    {
        let ghost r0 = self@;
        match self.find_handle(from) {
            Option::None => {},
            Option::Some(i) => {
                let name = self.members[i].user.name.clone();
                proof {
                    lemma_name_of_at(r0.members, from, i as int);
                }
                let tagged = tag_exec(msg, name);
                let ghost log0 = qviews(self.log@);
                if self.log.len() == LOG_CAP {
                    self.log.remove(0);
                    proof {
                        assert(qviews(self.log@) =~= log0.drop_first());
                    }
                }
                let ghost mid = qviews(self.log@);
                self.log.push(tagged.duplicate());
                proof {
                    assert(qviews(self.log@) =~= mid.push(tagged@));
                    assert(qviews(self.log@) =~= push_bounded(log0, tagged@, LOG_CAP as nat));
                }
                self.fanout_exec(&tagged);
                proof {
                    assert(self@ =~= broadcast_spec(r0, msg@, from));
                }
            },
        }
    }

    /// Remove and return the oldest message queued for the member under `h`:
    /// the writer side of the session drains its queue through this, in FIFO
    /// order. An absent handle, or an empty queue, gives nothing.
    pub fn pop_outbound(&mut self, h: u64) -> (r: Option<ProtocolMessage>)
        requires
            old(self)@.wf(),
        ensures
            final(self)@.next_handle == old(self)@.next_handle,
            final(self)@.queue_cap == old(self)@.queue_cap,
            final(self)@.log == old(self)@.log,
            !contains_handle(old(self)@.members, h) ==> final(self)@ == old(self)@ && r is None,
            forall|i: int|
                0 <= i < old(self)@.members.len() && old(self)@.members[i].handle == h ==> {
                    let q = (#[trigger] old(self)@.members[i]).outbound;
                    &&& (q.len() == 0 ==> final(self)@ == old(self)@ && r is None)
                    &&& (q.len() > 0 ==> r is Some && r->0@ == q[0] && final(self)@.members
                        == old(self)@.members.update(
                        i,
                        MemberView {
                            handle: old(self)@.members[i].handle,
                            user: old(self)@.members[i].user,
                            outbound: q.drop_first(),
                        },
                    ))
                },
            final(self)@.wf(),
    {
        let ghost r0 = self@;
        match self.find_handle(h) {
            Option::None => Option::None,
            Option::Some(i) => {
                proof {
                    assert(forall|j: int|
                        0 <= j < r0.members.len() && r0.members[j].handle == h ==> j == i);
                }
                if self.members[i].outbound.len() == 0 {
                    return Option::None;
                }
                let mut mem = self.members.remove(i);
                let ghost q0 = qviews(mem.outbound@);
                let msg = mem.outbound.remove(0);
                proof {
                    assert(qviews(mem.outbound@) =~= q0.drop_first());
                    assert(msg@ == q0[0]);
                }
                self.members.insert(i, mem);
                proof {
                    assert(mviews(self.members@) =~= r0.members.update(
                        i as int,
                        MemberView {
                            handle: r0.members[i as int].handle,
                            user: r0.members[i as int].user,
                            outbound: r0.members[i as int].outbound.drop_first(),
                        },
                    ));
                }
                Option::Some(msg)
            },
        }
    }
}

/// Stamp a chat message with the given sender name; other messages pass
/// unchanged.
fn tag_exec(msg: ProtocolMessage, name: String) -> (r: ProtocolMessage)
    ensures
        r@ == tag_sender(msg@, name@),
{
    match msg {
        ProtocolMessage::Chat { text, from: _ } => ProtocolMessage::Chat {
            text,
            from: Option::Some(name),
        },
        other => other,
    }
}

/// Every member kept by a removal is one of the original members.
pub proof fn lemma_remove_member_sources(members: Seq<MemberView>, h: u64)
    ensures
        forall|j: int|
            0 <= j < remove_member(members, h).len() ==> exists|i: int|
                0 <= i < members.len() && #[trigger] remove_member(members, h)[j] == members[i],
    decreases members.len(),
{
    reveal(Seq::filter);
    if members.len() == 0 {
    } else {
        let t = members.drop_last();
        lemma_remove_member_sources(t, h);
        assert forall|j: int| 0 <= j < remove_member(members, h).len() implies exists|i: int|
            0 <= i < members.len() && #[trigger] remove_member(members, h)[j] == members[i] by {
            if j < remove_member(t, h).len() {
                assert(remove_member(members, h)[j] == remove_member(t, h)[j]);
                let i = choose|i: int| 0 <= i < t.len() && remove_member(t, h)[j] == t[i];
                assert(members[i] == t[i]);
                assert(remove_member(members, h)[j] == members[i]);
            } else {
                assert(remove_member(members, h)[j] == members.last());
                assert(remove_member(members, h)[j] == members[members.len() - 1]);
            }
        }
    }
}

/// Removal keeps handles pairwise distinct.
pub proof fn lemma_remove_member_unique(members: Seq<MemberView>, h: u64)
    requires
        forall|i: int, j: int|
            0 <= i < j < members.len() ==> members[i].handle != members[j].handle,
    ensures
        forall|i: int, j: int|
            0 <= i < j < remove_member(members, h).len() ==> remove_member(members, h)[i].handle
                != remove_member(members, h)[j].handle,
    decreases members.len(),
{
    reveal(Seq::filter);
    if members.len() == 0 {
    } else {
        let t = members.drop_last();
        lemma_remove_member_unique(t, h);
        lemma_remove_member_sources(t, h);
        assert forall|i: int, j: int|
            0 <= i < j < remove_member(members, h).len() implies remove_member(
            members,
            h,
        )[i].handle != remove_member(members, h)[j].handle by {
            if j < remove_member(t, h).len() {
                assert(remove_member(members, h)[i] == remove_member(t, h)[i]);
                assert(remove_member(members, h)[j] == remove_member(t, h)[j]);
            } else {
                assert(remove_member(members, h)[j] == members.last());
                assert(remove_member(members, h)[i] == remove_member(t, h)[i]);
                let ii = choose|ii: int|
                    0 <= ii < t.len() && remove_member(t, h)[i] == t[ii];
                assert(t[ii] == members[ii]);
                assert(members[ii].handle != members[members.len() - 1].handle);
            }
        }
    }
}

} // verus!
