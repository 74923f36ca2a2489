//! Process groups and sessions for job control.
use vstd::prelude::*;

verus! {

/// Process ID type
pub type Pid = usize;

/// Process group ID type (same as Pid)
pub type Pgid = usize;

/// Session ID type (same as Pid)
pub type Sid = usize;

/// Device ID type for a controlling terminal
pub type DeviceId = usize;

/// Maximum processes per group
pub const MAX_PROCESSES_PER_GROUP: usize = 64;

/// Maximum process groups per session
pub const MAX_PROCESS_GROUPS_PER_SESSION: usize = 32;

/// A fixed array whose first `count` slots are filled and the rest empty,
/// with no value twice among the filled slots.
pub open spec fn packed_slots(slots: Seq<Option<usize>>, count: usize, cap: usize) -> bool {
    &&& slots.len() == cap
    &&& count <= cap
    &&& forall|i: int| 0 <= i < count ==> (#[trigger] slots[i]) is Some
    &&& forall|i: int| count <= i < cap ==> (#[trigger] slots[i]) is None
    &&& forall|i: int, j: int|
        0 <= i < j < count ==> (#[trigger] slots[i]) != (#[trigger] slots[j])
}

/// Adding `pid` to a group with members `m`: whether it is (or already
/// was) a member, and the members after; a new member joins at the end
/// while the group has room.
pub open spec fn added(m: Seq<usize>, pid: usize) -> (bool, Seq<usize>) {
    let r = m.contains(pid) || m.len() < MAX_PROCESSES_PER_GROUP;
    (r, if !m.contains(pid) && r { m.push(pid) } else { m })
}

/// Removing `pid` from a group with members `m`: whether it was a member,
/// and the members after, the others in their order.
pub open spec fn removed(m: Seq<usize>, pid: usize) -> (bool, Seq<usize>) {
    let r = m.contains(pid);
    (r, if r { m.remove(m.index_of(pid)) } else { m })
}

/// The values held in the first `count` slots, in order.
pub open spec fn slot_values(slots: Seq<Option<usize>>, count: usize) -> Seq<usize> {
    Seq::new(count as nat, |i: int| slots[i].unwrap())
}

/// Find `v` among the first `count` slots.
fn find_slot(slots: &Vec<Option<usize>>, count: usize, v: usize) -> (r: Option<usize>)
    requires
        count <= slots@.len(),
        forall|i: int| 0 <= i < count ==> (#[trigger] slots@[i]) is Some,
    ensures
        match r {
            Some(i) => i < count && slots@[i as int] == Some(v)
                && forall|j: int| 0 <= j < i ==> slots@[j] != Some(v),
            None => !slot_values(slots@, count).contains(v),
        },
{
    let mut i: usize = 0;
    while i < count
        invariant
            i <= count,
            count <= slots@.len(),
            forall|j: int| 0 <= j < i ==> slots@[j] != Some(v),
            forall|j: int| 0 <= j < count ==> (#[trigger] slots@[j]) is Some,
        decreases count - i,
    {
        if slots[i] == Some(v) {
            return Some(i);
        }
        i = i + 1;
    }
    proof {
        if slot_values(slots@, count).contains(v) {
            let k = choose|k: int| 0 <= k < count && slot_values(slots@, count)[k] == v;
            assert(slots@[k] == Some(v));
        }
    }
    None
}

/// Remove the slot at `idx` by shifting the later ones down.
fn remove_slot(slots: &mut Vec<Option<usize>>, count: usize, idx: usize, Ghost(cap): Ghost<usize>)
    requires
        packed_slots(old(slots)@, count, cap),
        idx < count,
    ensures
        packed_slots(final(slots)@, (count - 1) as usize, cap),
        slot_values(final(slots)@, (count - 1) as usize)
            == slot_values(old(slots)@, count).remove(idx as int),
{
    let ghost old_slots = slots@;
    let mut j: usize = idx;
    while j + 1 < count
        invariant
            idx <= j < count,
            count <= cap,
            slots@.len() == cap,
            old_slots.len() == cap,
            forall|k: int| 0 <= k < idx ==> slots@[k] == old_slots[k],
            forall|k: int| idx <= k < j ==> slots@[k] == old_slots[k + 1],
            forall|k: int| j <= k < cap ==> slots@[k] == old_slots[k],
        decreases count - j,
    {
        let next = slots[j + 1];
        slots.set(j, next);
        j = j + 1;
    }
    let ghost before_clear = slots@;
    assert(j == count - 1);
    slots.set(count - 1, None);
    assert(slots@ == before_clear.update(count - 1, None));
    proof {
        let new_vals = slot_values(slots@, (count - 1) as usize);
        let expect = slot_values(old_slots, count).remove(idx as int);
        assert(new_vals =~= expect);
        assert forall|i: int| 0 <= i < count - 1 implies (#[trigger] slots@[i]) is Some by {
            assert(slots@[i] == before_clear[i]);
            if i >= idx {
                assert(before_clear[i] == old_slots[i + 1]);
                assert(old_slots[i + 1] is Some);
            } else {
                assert(old_slots[i] is Some);
            }
        }
        assert forall|i: int| count - 1 <= i < cap implies (#[trigger] slots@[i]) is None by {
            if i >= count {
                assert(old_slots[i] is None);
            }
        }
        assert forall|a: int, b: int| 0 <= a < b < count - 1 implies
            (#[trigger] slots@[a]) != (#[trigger] slots@[b]) by {
            let oa = if a < idx { a } else { a + 1 };
            let ob = if b < idx { b } else { b + 1 };
            assert(old_slots[oa] != old_slots[ob]);
        }
    }
}

/// Append `v` in the first empty slot.
fn push_slot(slots: &mut Vec<Option<usize>>, count: usize, v: usize, Ghost(cap): Ghost<usize>)
    requires
        packed_slots(old(slots)@, count, cap),
        count < cap,
        !slot_values(old(slots)@, count).contains(v),
    ensures
        packed_slots(final(slots)@, (count + 1) as usize, cap),
        slot_values(final(slots)@, (count + 1) as usize) == slot_values(old(slots)@, count).push(v),
{
    let ghost old_slots = slots@;
    slots.set(count, Some(v));
    proof {
        assert(slot_values(slots@, (count + 1) as usize) =~= slot_values(old_slots, count).push(v));
        assert forall|a: int, b: int| 0 <= a < b < count + 1 implies
            (#[trigger] slots@[a]) != (#[trigger] slots@[b]) by {
            if b == count {
                assert(slot_values(old_slots, count)[a] == old_slots[a].unwrap());
            }
        }
    }
}

/// A collection of related processes that can be signalled together.
#[derive(Debug, Clone)]
pub struct ProcessGroup {
    /// Process group ID (usually the PID of the group leader)
    pub pgid: Pgid,
    /// Process IDs in this group; the first `process_count` slots are used
    pub processes: Vec<Option<Pid>>,
    /// Number of processes in this group
    pub process_count: usize,
    /// Session this group belongs to
    pub session: Sid,
}

impl ProcessGroup {
    /// The slots hold exactly `process_count` distinct processes at the front.
    pub open spec fn wf(&self) -> bool {
        packed_slots(self.processes@, self.process_count, MAX_PROCESSES_PER_GROUP)
    }

    /// The members, in the order in which they joined.
    pub open spec fn members(&self) -> Seq<Pid> {
        slot_values(self.processes@, self.process_count)
    }

    /// Create an empty process group.
    pub fn new(pgid: Pgid, session: Sid) -> (r: Self)
        ensures
            r.wf(),
            r.pgid == pgid,
            r.session == session,
            r.members() == Seq::<Pid>::empty(),
    {
        let mut processes: Vec<Option<Pid>> = Vec::new();
        let mut i: usize = 0;
        while i < MAX_PROCESSES_PER_GROUP
            invariant
                i <= MAX_PROCESSES_PER_GROUP,
                processes@.len() == i,
                forall|j: int| 0 <= j < i ==> (#[trigger] processes@[j]) is None,
            decreases MAX_PROCESSES_PER_GROUP - i,
        {
            processes.push(None);
            i = i + 1;
        }
        let r = ProcessGroup { pgid, processes, process_count: 0, session };
        assert(r.members() =~= Seq::<Pid>::empty());
        r
    }

    /// Add a process; true when it is a member afterwards (false: the group is full).
    pub fn add_process(&mut self, pid: Pid) -> (r: bool)
        requires
            old(self).wf(),
        ensures
            final(self).wf(),
            final(self).pgid == old(self).pgid,
            final(self).session == old(self).session,
            (r, final(self).members()) == added(old(self).members(), pid),
    {
        match find_slot(&self.processes, self.process_count, pid) {
            Some(_) => {
                proof {
                    let i = choose|i: int| 0 <= i < self.process_count && self.processes@[i] == Some(pid);
                    assert(self.members()[i] == pid);
                }
                true
            },
            None => {
                if self.process_count < MAX_PROCESSES_PER_GROUP {
                    push_slot(&mut self.processes, self.process_count, pid, Ghost(MAX_PROCESSES_PER_GROUP));
                    self.process_count = self.process_count + 1;
                    true
                } else {
                    false
                }
            },
        }
    }

    /// Remove a process; true when it was a member.
    pub fn remove_process(&mut self, pid: Pid) -> (r: bool)
        requires
            old(self).wf(),
        ensures
            final(self).wf(),
            final(self).pgid == old(self).pgid,
            final(self).session == old(self).session,
            (r, final(self).members()) == removed(old(self).members(), pid),
            !final(self).members().contains(pid),
    {
        match find_slot(&self.processes, self.process_count, pid) {
            Some(idx) => {
                let ghost old_members = self.members();
                proof {
                    assert(old_members[idx as int] == pid);
                    assert(old_members.contains(pid));
                    assert forall|j: int| 0 <= j < old_members.len() && old_members[j] == pid implies j == idx by {
                        assert(self.processes@[j] == Some(pid));
                    }
                    assert(old_members.index_of(pid) == idx);
                }
                remove_slot(&mut self.processes, self.process_count, idx, Ghost(MAX_PROCESSES_PER_GROUP));
                self.process_count = self.process_count - 1;
                proof {
                    if self.members().contains(pid) {
                        let k = choose|k: int| 0 <= k < self.members().len() && self.members()[k] == pid;
                        let ok = if k < idx { k } else { k + 1 };
                        assert(old_members[ok] == pid);
                    }
                }
                true
            },
            None => false,
        }
    }

    /// Whether the group has no members.
    pub fn is_empty(&self) -> (r: bool)
        requires
            self.wf(),
        ensures
            r == (self.members().len() == 0),
    {
        self.process_count == 0
    }

    /// Number of members.
    pub fn len(&self) -> (r: usize)
        requires
            self.wf(),
        ensures
            r == self.members().len(),
    {
        self.process_count
    }

    /// The members in order.
    pub fn iter(&self) -> (r: Vec<Pid>)
        requires
            self.wf(),
        ensures
            r@ == self.members(),
    {
        let mut out: Vec<Pid> = Vec::new();
        let mut i: usize = 0;
        while i < self.process_count
            invariant
                self.wf(),
                i <= self.process_count,
                out@ == self.members().subrange(0, i as int),
            decreases self.process_count - i,
        {
            match self.processes[i] {
                Some(p) => out.push(p),
                None => {},
            }
            proof {
                assert(out@ =~= self.members().subrange(0, i + 1));
            }
            i = i + 1;
        }
        assert(out@ =~= self.members());
        out
    }
}

/// A collection of process groups sharing a controlling terminal.
#[derive(Debug, Clone)]
pub struct Session {
    /// Session ID (usually the PID of the session leader)
    pub sid: Sid,
    /// Controlling terminal (if any)
    pub controlling_tty: Option<DeviceId>,
    /// Foreground process group (if any)
    pub foreground_pgid: Option<Pgid>,
    /// Process group IDs in this session; the first `group_count` slots are used
    pub process_groups: Vec<Option<Pgid>>,
    /// Number of process groups
    pub group_count: usize,
}

impl Session {
    /// The slots hold exactly `group_count` distinct groups at the front.
    pub open spec fn wf(&self) -> bool {
        packed_slots(self.process_groups@, self.group_count, MAX_PROCESS_GROUPS_PER_SESSION)
    }

    /// The groups, in the order in which they joined.
    pub open spec fn groups(&self) -> Seq<Pgid> {
        slot_values(self.process_groups@, self.group_count)
    }

    /// Create a new session with no groups and no terminal.
    pub fn new(sid: Sid) -> (r: Self)
        ensures
            r.wf(),
            r.sid == sid,
            r.controlling_tty is None,
            r.foreground_pgid is None,
            r.groups() == Seq::<Pgid>::empty(),
    {
        let mut groups: Vec<Option<Pgid>> = Vec::new();
        let mut i: usize = 0;
        while i < MAX_PROCESS_GROUPS_PER_SESSION
            invariant
                i <= MAX_PROCESS_GROUPS_PER_SESSION,
                groups@.len() == i,
                forall|j: int| 0 <= j < i ==> (#[trigger] groups@[j]) is None,
            decreases MAX_PROCESS_GROUPS_PER_SESSION - i,
        {
            groups.push(None);
            i = i + 1;
        }
        let r = Session { sid, controlling_tty: None, foreground_pgid: None, process_groups: groups, group_count: 0 };
        assert(r.groups() =~= Seq::<Pgid>::empty());
        r
    }

    /// Add a process group; true when it is in the session afterwards (false: full).
    pub fn add_process_group(&mut self, pgid: Pgid) -> (r: bool)
        requires
            old(self).wf(),
        ensures
            final(self).wf(),
            final(self).sid == old(self).sid,
            final(self).controlling_tty == old(self).controlling_tty,
            final(self).foreground_pgid == old(self).foreground_pgid,
            r == (old(self).groups().contains(pgid)
                || old(self).group_count < MAX_PROCESS_GROUPS_PER_SESSION),
            final(self).groups() == (if !old(self).groups().contains(pgid) && r {
                old(self).groups().push(pgid)
            } else {
                old(self).groups()
            }),
    {
        match find_slot(&self.process_groups, self.group_count, pgid) {
            Some(_) => {
                proof {
                    let i = choose|i: int| 0 <= i < self.group_count && self.process_groups@[i] == Some(pgid);
                    assert(self.groups()[i] == pgid);
                }
                true
            },
            None => {
                if self.group_count < MAX_PROCESS_GROUPS_PER_SESSION {
                    push_slot(&mut self.process_groups, self.group_count, pgid, Ghost(MAX_PROCESS_GROUPS_PER_SESSION));
                    self.group_count = self.group_count + 1;
                    true
                } else {
                    false
                }
            },
        }
    }

    /// Remove a process group; true when it was in the session.
    pub fn remove_process_group(&mut self, pgid: Pgid) -> (r: bool)
        requires
            old(self).wf(),
        ensures
            final(self).wf(),
            final(self).sid == old(self).sid,
            final(self).controlling_tty == old(self).controlling_tty,
            final(self).foreground_pgid == old(self).foreground_pgid,
            r == old(self).groups().contains(pgid),
            !final(self).groups().contains(pgid),
            final(self).groups() == (if r {
                old(self).groups().remove(old(self).groups().index_of(pgid))
            } else {
                old(self).groups()
            }),
    {
        match find_slot(&self.process_groups, self.group_count, pgid) {
            Some(idx) => {
                let ghost old_groups = self.groups();
                proof {
                    assert(old_groups[idx as int] == pgid);
                    assert(old_groups.contains(pgid));
                    assert forall|j: int| 0 <= j < old_groups.len() && old_groups[j] == pgid implies j == idx by {
                        assert(self.process_groups@[j] == Some(pgid));
                    }
                    assert(old_groups.index_of(pgid) == idx);
                }
                remove_slot(&mut self.process_groups, self.group_count, idx, Ghost(MAX_PROCESS_GROUPS_PER_SESSION));
                self.group_count = self.group_count - 1;
                proof {
                    if self.groups().contains(pgid) {
                        let k = choose|k: int| 0 <= k < self.groups().len() && self.groups()[k] == pgid;
                        let ok = if k < idx { k } else { k + 1 };
                        assert(old_groups[ok] == pgid);
                    }
                }
                true
            },
            None => false,
        }
    }

    /// Set the controlling terminal.
    pub fn set_controlling_tty(&mut self, tty: DeviceId)
        ensures
            final(self).controlling_tty == Some(tty),
            final(self).foreground_pgid == old(self).foreground_pgid,
            final(self).sid == old(self).sid,
            final(self).process_groups == old(self).process_groups,
            final(self).group_count == old(self).group_count,
    {
        self.controlling_tty = Some(tty);
    }

    /// Clear the controlling terminal and the foreground group.
    pub fn clear_controlling_tty(&mut self)
        ensures
            final(self).controlling_tty is None,
            final(self).foreground_pgid is None,
            final(self).sid == old(self).sid,
            final(self).process_groups == old(self).process_groups,
            final(self).group_count == old(self).group_count,
    {
        self.controlling_tty = None;
        self.foreground_pgid = None;
    }

    /// Set the foreground process group.
    pub fn set_foreground_pgid(&mut self, pgid: Pgid)
        ensures
            final(self).foreground_pgid == Some(pgid),
            final(self).controlling_tty == old(self).controlling_tty,
            final(self).sid == old(self).sid,
            final(self).process_groups == old(self).process_groups,
            final(self).group_count == old(self).group_count,
    {
        self.foreground_pgid = Some(pgid);
    }

    /// Whether `pgid` is the foreground group.
    pub fn is_foreground(&self, pgid: Pgid) -> (r: bool)
        ensures
            r == (self.foreground_pgid == Some(pgid)),
    {
        match self.foreground_pgid {
            Some(p) => p == pgid,
            None => false,
        }
    }

    /// Whether the session has a controlling terminal.
    pub fn has_controlling_tty(&self) -> (r: bool)
        ensures
            r == (self.controlling_tty is Some),
    {
        self.controlling_tty.is_some()
    }
}


/// A process that is not a member, added twice and then removed, leaves
/// the members as they were: both adds succeed (the group has room, and
/// the second finds it already there), the remove succeeds, and a second
/// remove fails and changes nothing.
pub proof fn lemma_add_twice_then_remove(members: Seq<Pid>, pid: Pid)
    requires
        !members.contains(pid),
        members.len() < MAX_PROCESSES_PER_GROUP,
    ensures
        ({
            let (r1, m1) = added(members, pid);
            let (r2, m2) = added(m1, pid);
            let (r3, m3) = removed(m2, pid);
            let (r4, m4) = removed(m3, pid);
            &&& r1 && r2 && r3 && !r4
            &&& m2 == m1
            &&& m3 == members
            &&& m4 == members
        }),
{
    let added_m = members.push(pid);
    assert(added_m[members.len() as int] == pid);
    assert(added_m.contains(pid));
    let i = added_m.index_of(pid);
    if i < members.len() {
        assert(members[i] == pid);
        assert(members.contains(pid));
    }
    assert(added_m.remove(i) =~= members);
}

} // verus!
