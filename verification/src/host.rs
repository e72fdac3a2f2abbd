use vstd::prelude::*;
use crate::digits::str_eq;
use crate::metainfo::{record_wf, Metainfo, MetainfoView, Status, view_opt_string};

verus! {

/// One container's control group as the engine believes it: the id it
/// belongs to, and the attached process while one lives.  A group can
/// only be destroyed once no member process is left.
pub struct CGroupNode {
    pub id: String,
    pub member: Option<u32>,
}

/// One container's mounted overlay workspace: its id and the volume
/// specification it was mounted with.
pub struct WorkspaceNode {
    pub id: String,
    pub volume: Option<String>,
}

/// The engine's view of the host: the state store's records, the
/// mounted workspaces, and the control groups.  Every lifecycle
/// transition is a verified function on this state; the executable
/// shell mirrors each transition onto the disk and the kernel with the
/// plan the transition hands back.
pub struct HostState {
    pub records: Vec<Metainfo>,
    pub workspaces: Vec<WorkspaceNode>,
    pub cgroups: Vec<CGroupNode>,
}

pub open spec fn recs(st: HostState) -> Seq<MetainfoView> {
    st.records@.map_values(|m: Metainfo| m@)
}

pub open spec fn cgs(st: HostState) -> Seq<(Seq<char>, Option<u32>)> {
    st.cgroups@.map_values(|n: CGroupNode| (n.id@, n.member))
}

pub open spec fn wss(st: HostState) -> Seq<(Seq<char>, Option<Seq<char>>)> {
    st.workspaces@.map_values(|n: WorkspaceNode| (n.id@, view_opt_string(n.volume)))
}

pub open spec fn rec_has(s: Seq<MetainfoView>, id: Seq<char>) -> bool {
    exists|k: int| 0 <= k < s.len() && (#[trigger] s[k]).id == id
}

pub open spec fn cg_has(s: Seq<(Seq<char>, Option<u32>)>, id: Seq<char>) -> bool {
    exists|k: int| 0 <= k < s.len() && (#[trigger] s[k]).0 == id
}

pub open spec fn ws_has(s: Seq<(Seq<char>, Option<Seq<char>>)>, id: Seq<char>) -> bool {
    exists|k: int| 0 <= k < s.len() && (#[trigger] s[k]).0 == id
}

/// Creating a control group is idempotent: the group directory is made
/// when absent and reused when present.
pub open spec fn cg_create(s: Seq<(Seq<char>, Option<u32>)>, id: Seq<char>) -> Seq<
    (Seq<char>, Option<u32>),
> {
    if cg_has(s, id) {
        s
    } else {
        s.push((id, None))
    }
}

/// Destroying a control group removes every node of its id; the other
/// groups keep their order.
pub open spec fn cg_destroy(s: Seq<(Seq<char>, Option<u32>)>, id: Seq<char>) -> Seq<
    (Seq<char>, Option<u32>),
>
    decreases s.len(),
{
    if s.len() == 0 {
        Seq::empty()
    } else if s.last().0 == id {
        cg_destroy(s.drop_last(), id)
    } else {
        cg_destroy(s.drop_last(), id).push(s.last())
    }
}

pub open spec fn ws_remove(s: Seq<(Seq<char>, Option<Seq<char>>)>, id: Seq<char>) -> Seq<
    (Seq<char>, Option<Seq<char>>),
>
    decreases s.len(),
{
    if s.len() == 0 {
        Seq::empty()
    } else if s.last().0 == id {
        ws_remove(s.drop_last(), id)
    } else {
        ws_remove(s.drop_last(), id).push(s.last())
    }
}

/// The engine never keeps two records, two workspaces or two control
/// groups for one id, and every record couples its pid to its status.
pub open spec fn host_wf(st: HostState) -> bool {
    &&& forall|k1: int, k2: int|
        0 <= k1 < k2 < recs(st).len() ==> (#[trigger] recs(st)[k1]).id != (
        #[trigger] recs(st)[k2]).id
    &&& forall|k: int| 0 <= k < recs(st).len() ==> record_wf(#[trigger] recs(st)[k])
    &&& forall|k1: int, k2: int|
        0 <= k1 < k2 < cgs(st).len() ==> (#[trigger] cgs(st)[k1]).0 != (#[trigger] cgs(st)[k2]).0
    &&& forall|k1: int, k2: int|
        0 <= k1 < k2 < wss(st).len() ==> (#[trigger] wss(st)[k1]).0 != (#[trigger] wss(st)[k2]).0
}

impl HostState {
    /// An engine state with nothing recorded, mounted or limited.
    pub fn new() -> (r: HostState)
        ensures
            recs(r) =~= Seq::<MetainfoView>::empty(),
            cgs(r) =~= Seq::<(Seq<char>, Option<u32>)>::empty(),
            wss(r) =~= Seq::<(Seq<char>, Option<Seq<char>>)>::empty(),
            host_wf(r),
    {
        let r = HostState { records: Vec::new(), workspaces: Vec::new(), cgroups: Vec::new() };
        proof {
            assert(recs(r) =~= Seq::<MetainfoView>::empty());
            assert(cgs(r) =~= Seq::<(Seq<char>, Option<u32>)>::empty());
            assert(wss(r) =~= Seq::<(Seq<char>, Option<Seq<char>>)>::empty());
        }
        r
    }

    /// The index of the record for `container_id`, if one exists.
    pub fn find_record(&self, container_id: &str) -> (r: Option<usize>)
        ensures
            match r {
                Some(k) => k < recs(*self).len() && recs(*self)[k as int].id == container_id@,
                None => !rec_has(recs(*self), container_id@),
            },
    {
        let mut k: usize = 0;
        while k < self.records.len()
            invariant
                k <= self.records@.len(),
                forall|j: int| 0 <= j < k ==> (#[trigger] recs(*self)[j]).id != container_id@,
            decreases self.records@.len() - k,
        {
            if str_eq(self.records[k].id.as_str(), container_id) {
                proof {
                    assert(recs(*self)[k as int].id == self.records@[k as int].id@);
                }
                return Some(k);
            }
            proof {
                assert(recs(*self)[k as int].id == self.records@[k as int].id@);
            }
            k = k + 1;
        }
        None
    }

    /// Does the state store hold a record for this id?
    pub fn metainfo_exists(&self, container_id: &str) -> (r: bool)
        ensures
            r == rec_has(recs(*self), container_id@),
    {
        match self.find_record(container_id) {
            Some(_) => true,
            None => false,
        }
    }

    fn find_cgroup(&self, container_id: &str) -> (r: Option<usize>)
        ensures
            match r {
                Some(k) => k < cgs(*self).len() && cgs(*self)[k as int].0 == container_id@,
                None => !cg_has(cgs(*self), container_id@),
            },
    {
        let mut k: usize = 0;
        while k < self.cgroups.len()
            invariant
                k <= self.cgroups@.len(),
                forall|j: int| 0 <= j < k ==> (#[trigger] cgs(*self)[j]).0 != container_id@,
            decreases self.cgroups@.len() - k,
        {
            if str_eq(self.cgroups[k].id.as_str(), container_id) {
                proof {
                    assert(cgs(*self)[k as int].0 == self.cgroups@[k as int].id@);
                }
                return Some(k);
            }
            proof {
                assert(cgs(*self)[k as int].0 == self.cgroups@[k as int].id@);
            }
            k = k + 1;
        }
        None
    }

    /// Bring the control group for this id into being; reusing an
    /// existing one leaves the state as it was.
    pub fn create_cgroup(&mut self, container_id: &str)
        ensures
            cgs(*final(self)) == cg_create(cgs(*old(self)), container_id@),
            final(self).records == old(self).records,
            final(self).workspaces == old(self).workspaces,
    {
        match self.find_cgroup(container_id) {
            Some(_) => (),
            None => {
                self.cgroups.push(
                    CGroupNode { id: String::from_str(container_id), member: None },
                );
                proof {
                    assert(cgs(*self) =~= cgs(*old(self)).push((container_id@, None)));
                }
            },
        }
    }

    /// Attach a process to this id's control group.
    pub fn attach_process(&mut self, container_id: &str, pid: u32)
        requires
            cg_has(cgs(*old(self)), container_id@),
        ensures
            exists|k: int|
                0 <= k < cgs(*old(self)).len() && (#[trigger] cgs(*old(self))[k]).0
                    == container_id@ && cgs(*final(self)) == cgs(*old(self)).update(
                    k,
                    (container_id@, Some(pid)),
                ),
            final(self).records == old(self).records,
            final(self).workspaces == old(self).workspaces,
    {
        match self.find_cgroup(container_id) {
            Some(k) => {
                let mut node = self.cgroups.remove(k);
                node.member = Some(pid);
                let ghost nid = node.id@;
                self.cgroups.insert(k, node);
                proof {
                    assert(nid == container_id@) by {
                        assert(cgs(*old(self))[k as int].0 == old(self).cgroups@[k as int].id@);
                    }
                    assert(cgs(*self) =~= cgs(*old(self)).update(
                        k as int,
                        (container_id@, Some(pid)),
                    ));
                }
            },
            None => {
                proof {
                    assert(false);
                }
            },
        }
    }

    /// A process of this id's control group has gone: the group is
    /// emptied (a dead process leaves its group by itself; a stopped
    /// container's process was killed).
    pub fn clear_member(&mut self, container_id: &str)
        ensures
            cg_has(cgs(*old(self)), container_id@) ==> exists|k: int|
                0 <= k < cgs(*old(self)).len() && (#[trigger] cgs(*old(self))[k]).0
                    == container_id@ && cgs(*final(self)) == cgs(*old(self)).update(
                    k,
                    (container_id@, None),
                ),
            !cg_has(cgs(*old(self)), container_id@) ==> cgs(*final(self)) == cgs(*old(self)),
            final(self).records == old(self).records,
            final(self).workspaces == old(self).workspaces,
    {
        match self.find_cgroup(container_id) {
            Some(k) => {
                let mut node = self.cgroups.remove(k);
                node.member = None;
                let ghost nid = node.id@;
                self.cgroups.insert(k, node);
                proof {
                    assert(nid == container_id@) by {
                        assert(cgs(*old(self))[k as int].0 == old(self).cgroups@[k as int].id@);
                    }
                    assert(cgs(*self) =~= cgs(*old(self)).update(k as int, (container_id@, None)));
                }
            },
            None => {
                proof {
                    assert(cgs(*self) =~= cgs(*old(self)));
                }
            },
        }
    }

    /// Destroy this id's control group.  The group must hold no member
    /// process any more, or the removal would fail.
    pub fn destroy_cgroup(&mut self, container_id: &str)
        requires
            forall|k: int|
                0 <= k < cgs(*old(self)).len() && (#[trigger] cgs(*old(self))[k]).0
                    == container_id@ ==> cgs(*old(self))[k].1 is None,
        ensures
            cgs(*final(self)) == cg_destroy(cgs(*old(self)), container_id@),
            final(self).records == old(self).records,
            final(self).workspaces == old(self).workspaces,
    {
        let ghost target = container_id@;
        let mut kept: Vec<CGroupNode> = Vec::new();
        let mut k: usize = 0;
        while k < self.cgroups.len()
            invariant
                target == container_id@,
                k <= self.cgroups@.len(),
                self.records == old(self).records,
                self.workspaces == old(self).workspaces,
                self.cgroups == old(self).cgroups,
                kept@.map_values(|n: CGroupNode| (n.id@, n.member)) == cg_destroy(
                    cgs(*old(self)).subrange(0, k as int),
                    target,
                ),
            decreases self.cgroups@.len() - k,
        {
            let ghost prefix = cgs(*old(self)).subrange(0, k as int);
            let ghost prefix1 = cgs(*old(self)).subrange(0, k + 1);
            let node = CGroupNode {
                id: self.cgroups[k].id.clone(),
                member: self.cgroups[k].member,
            };
            let ghost nodev = (node.id@, node.member);
            proof {
                assert(prefix1.drop_last() =~= prefix);
                assert(prefix1.last() == cgs(*old(self))[k as int]);
                assert(cgs(*old(self))[k as int] == (
                    old(self).cgroups@[k as int].id@,
                    old(self).cgroups@[k as int].member,
                ));
                assert(nodev == cgs(*old(self))[k as int]);
            }
            if !str_eq(node.id.as_str(), container_id) {
                kept.push(node);
                proof {
                    assert(kept@.map_values(|n: CGroupNode| (n.id@, n.member)) =~= cg_destroy(
                        prefix,
                        target,
                    ).push(nodev));
                    assert(cg_destroy(prefix1, target) == cg_destroy(prefix, target).push(nodev));
                }
            } else {
                proof {
                    assert(cg_destroy(prefix1, target) == cg_destroy(prefix, target));
                }
            }
            k = k + 1;
        }
        self.cgroups = kept;
        proof {
            assert(cgs(*old(self)).subrange(0, cgs(*old(self)).len() as int) =~= cgs(*old(self)));
        }
    }

    fn find_workspace(&self, container_id: &str) -> (r: Option<usize>)
        ensures
            match r {
                Some(k) => k < wss(*self).len() && wss(*self)[k as int].0 == container_id@,
                None => !ws_has(wss(*self), container_id@),
            },
    {
        let mut k: usize = 0;
        while k < self.workspaces.len()
            invariant
                k <= self.workspaces@.len(),
                forall|j: int| 0 <= j < k ==> (#[trigger] wss(*self)[j]).0 != container_id@,
            decreases self.workspaces@.len() - k,
        {
            if str_eq(self.workspaces[k].id.as_str(), container_id) {
                proof {
                    assert(wss(*self)[k as int].0 == self.workspaces@[k as int].id@);
                }
                return Some(k);
            }
            proof {
                assert(wss(*self)[k as int].0 == self.workspaces@[k as int].id@);
            }
            k = k + 1;
        }
        None
    }

    /// Record that this id's workspace stands mounted with the given
    /// volume; an already mounted workspace is left as it is.
    pub fn add_workspace(&mut self, container_id: &str, volume: Option<String>)
        ensures
            ws_has(wss(*old(self)), container_id@) ==> wss(*final(self)) == wss(*old(self)),
            !ws_has(wss(*old(self)), container_id@) ==> wss(*final(self)) == wss(*old(self)).push(
                (container_id@, view_opt_string(volume)),
            ),
            final(self).records == old(self).records,
            final(self).cgroups == old(self).cgroups,
    {
        match self.find_workspace(container_id) {
            Some(_) => (),
            None => {
                self.workspaces.push(
                    WorkspaceNode { id: String::from_str(container_id), volume },
                );
                proof {
                    assert(wss(*self) =~= wss(*old(self)).push(
                        (container_id@, view_opt_string(final(self).workspaces@.last().volume)),
                    ));
                }
            },
        }
    }

    /// The workspace of this id is gone from the mount table.
    pub fn remove_workspace(&mut self, container_id: &str)
        ensures
            wss(*final(self)) == ws_remove(wss(*old(self)), container_id@),
            final(self).records == old(self).records,
            final(self).cgroups == old(self).cgroups,
    {
        let ghost target = container_id@;
        let mut kept: Vec<WorkspaceNode> = Vec::new();
        let mut k: usize = 0;
        while k < self.workspaces.len()
            invariant
                target == container_id@,
                k <= self.workspaces@.len(),
                self.records == old(self).records,
                self.cgroups == old(self).cgroups,
                self.workspaces == old(self).workspaces,
                kept@.map_values(|n: WorkspaceNode| (n.id@, view_opt_string(n.volume)))
                    == ws_remove(wss(*old(self)).subrange(0, k as int), target),
            decreases self.workspaces@.len() - k,
        {
            let ghost prefix = wss(*old(self)).subrange(0, k as int);
            let ghost prefix1 = wss(*old(self)).subrange(0, k + 1);
            let node = WorkspaceNode {
                id: self.workspaces[k].id.clone(),
                volume: crate::host::clone_volume(&self.workspaces[k].volume),
            };
            let ghost nodev = (node.id@, view_opt_string(node.volume));
            proof {
                assert(prefix1.drop_last() =~= prefix);
                assert(prefix1.last() == wss(*old(self))[k as int]);
                assert(wss(*old(self))[k as int] == (
                    old(self).workspaces@[k as int].id@,
                    view_opt_string(old(self).workspaces@[k as int].volume),
                ));
                assert(nodev == wss(*old(self))[k as int]);
            }
            if !str_eq(node.id.as_str(), container_id) {
                kept.push(node);
                proof {
                    assert(kept@.map_values(|n: WorkspaceNode| (n.id@, view_opt_string(n.volume)))
                        =~= ws_remove(prefix, target).push(nodev));
                    assert(ws_remove(prefix1, target) == ws_remove(prefix, target).push(nodev));
                }
            } else {
                proof {
                    assert(ws_remove(prefix1, target) == ws_remove(prefix, target));
                }
            }
            k = k + 1;
        }
        self.workspaces = kept;
        proof {
            assert(wss(*old(self)).subrange(0, wss(*old(self)).len() as int) =~= wss(*old(self)));
        }
    }
}

/// The record of a container that has just been (re)started under `pid`.
pub open spec fn running_rec(m: MetainfoView, pid: u32) -> MetainfoView {
    MetainfoView { pid: Some(pid), status: Status::Running, ..m }
}

/// The record of a container whose process is gone.
pub open spec fn exited_rec(m: MetainfoView) -> MetainfoView {
    MetainfoView { pid: None, status: Status::Exited, ..m }
}

impl HostState {
    /// Write the record at `k` back as Running under `pid`.
    pub fn set_running(&mut self, k: usize, pid: u32)
        requires
            k < old(self).records@.len(),
        ensures
            recs(*final(self)) == recs(*old(self)).update(
                k as int,
                running_rec(recs(*old(self))[k as int], pid),
            ),
            final(self).cgroups == old(self).cgroups,
            final(self).workspaces == old(self).workspaces,
    {
        let mut m = self.records.remove(k);
        crate::metainfo::record_running(&mut m, pid);
        self.records.insert(k, m);
        proof {
            assert(recs(*self) =~= recs(*old(self)).update(
                k as int,
                running_rec(recs(*old(self))[k as int], pid),
            ));
        }
    }

    /// Write the record at `k` back as Exited with its pid cleared.
    pub fn set_exited(&mut self, k: usize)
        requires
            k < old(self).records@.len(),
        ensures
            recs(*final(self)) == recs(*old(self)).update(
                k as int,
                exited_rec(recs(*old(self))[k as int]),
            ),
            final(self).cgroups == old(self).cgroups,
            final(self).workspaces == old(self).workspaces,
    {
        let mut m = self.records.remove(k);
        crate::metainfo::record_exit(&mut m);
        self.records.insert(k, m);
        proof {
            assert(recs(*self) =~= recs(*old(self)).update(
                k as int,
                exited_rec(recs(*old(self))[k as int]),
            ));
        }
    }

    /// Put a fresh record into the store.
    pub fn push_record(&mut self, m: Metainfo)
        ensures
            recs(*final(self)) == recs(*old(self)).push(m@),
            final(self).cgroups == old(self).cgroups,
            final(self).workspaces == old(self).workspaces,
    {
        let ghost mv = m@;
        self.records.push(m);
        proof {
            assert(recs(*self) =~= recs(*old(self)).push(mv));
        }
    }

    /// Take the record at `k` out of the store.
    pub fn remove_record(&mut self, k: usize) -> (r: Metainfo)
        requires
            k < old(self).records@.len(),
        ensures
            r@ == recs(*old(self))[k as int],
            recs(*final(self)) == recs(*old(self)).remove(k as int),
            final(self).cgroups == old(self).cgroups,
            final(self).workspaces == old(self).workspaces,
    {
        let r = self.records.remove(k);
        proof {
            assert(recs(*self) =~= recs(*old(self)).remove(k as int));
        }
        r
    }
}

pub(crate) fn clone_volume(o: &Option<String>) -> (r: Option<String>)
    ensures
        view_opt_string(r) == view_opt_string(*o),
{
    match o {
        Some(s) => Some(s.clone()),
        None => None,
    }
}

/// Removing a group keeps the remaining ids distinct.
pub proof fn lemma_cg_destroy_distinct(s: Seq<(Seq<char>, Option<u32>)>, id: Seq<char>)
    requires
        forall|k1: int, k2: int|
            0 <= k1 < k2 < s.len() ==> (#[trigger] s[k1]).0 != (#[trigger] s[k2]).0,
    ensures
        forall|k1: int, k2: int|
            0 <= k1 < k2 < cg_destroy(s, id).len() ==> (#[trigger] cg_destroy(s, id)[k1]).0 != (
            #[trigger] cg_destroy(s, id)[k2]).0,
        forall|j: int|
            0 <= j < cg_destroy(s, id).len() ==> exists|i: int|
                0 <= i < s.len() && (#[trigger] cg_destroy(s, id)[j]).0 == (#[trigger] s[i]).0,
    decreases s.len(),
{
    if s.len() > 0 {
        let dl = s.drop_last();
        assert(forall|k: int| 0 <= k < dl.len() ==> (#[trigger] dl[k]) == s[k]);
        lemma_cg_destroy_distinct(dl, id);
        let d = cg_destroy(s, id);
        let dd = cg_destroy(dl, id);
        if s.last().0 == id {
            assert(d == dd);
            assert forall|j: int| 0 <= j < d.len() implies exists|i: int|
                0 <= i < s.len() && (#[trigger] d[j]).0 == (#[trigger] s[i]).0 by {
                let i0 = choose|i: int| 0 <= i < dl.len() && (#[trigger] dd[j]).0 == (
                #[trigger] dl[i]).0;
                assert(d[j].0 == s[i0].0);
            }
        } else {
            assert(d == dd.push(s.last()));
            assert forall|j: int| 0 <= j < d.len() implies exists|i: int|
                0 <= i < s.len() && (#[trigger] d[j]).0 == (#[trigger] s[i]).0 by {
                if j < dd.len() {
                    let i0 = choose|i: int| 0 <= i < dl.len() && (#[trigger] dd[j]).0 == (
                    #[trigger] dl[i]).0;
                    assert(d[j].0 == s[i0].0);
                } else {
                    assert(d[j].0 == s[s.len() - 1].0);
                }
            }
            assert forall|k1: int, k2: int| 0 <= k1 < k2 < d.len() implies (
            #[trigger] d[k1]).0 != (#[trigger] d[k2]).0 by {
                if k2 == d.len() - 1 {
                    let i0 = choose|i: int| 0 <= i < dl.len() && (#[trigger] dd[k1]).0 == (
                    #[trigger] dl[i]).0;
                    assert(d[k2].0 == s[s.len() - 1].0);
                    assert(d[k1].0 == s[i0].0);
                    assert(s[i0].0 != s[s.len() - 1].0);
                }
            }
        }
    }
}

/// Removing a workspace keeps the remaining ids distinct.
pub proof fn lemma_ws_remove_distinct(s: Seq<(Seq<char>, Option<Seq<char>>)>, id: Seq<char>)
    requires
        forall|k1: int, k2: int|
            0 <= k1 < k2 < s.len() ==> (#[trigger] s[k1]).0 != (#[trigger] s[k2]).0,
    ensures
        forall|k1: int, k2: int|
            0 <= k1 < k2 < ws_remove(s, id).len() ==> (#[trigger] ws_remove(s, id)[k1]).0 != (
            #[trigger] ws_remove(s, id)[k2]).0,
        forall|j: int|
            0 <= j < ws_remove(s, id).len() ==> exists|i: int|
                0 <= i < s.len() && (#[trigger] ws_remove(s, id)[j]).0 == (#[trigger] s[i]).0,
    decreases s.len(),
{
    if s.len() > 0 {
        let dl = s.drop_last();
        assert(forall|k: int| 0 <= k < dl.len() ==> (#[trigger] dl[k]) == s[k]);
        lemma_ws_remove_distinct(dl, id);
        let d = ws_remove(s, id);
        let dd = ws_remove(dl, id);
        if s.last().0 == id {
            assert(d == dd);
            assert forall|j: int| 0 <= j < d.len() implies exists|i: int|
                0 <= i < s.len() && (#[trigger] d[j]).0 == (#[trigger] s[i]).0 by {
                let i0 = choose|i: int| 0 <= i < dl.len() && (#[trigger] dd[j]).0 == (
                #[trigger] dl[i]).0;
                assert(d[j].0 == s[i0].0);
            }
        } else {
            assert(d == dd.push(s.last()));
            assert forall|j: int| 0 <= j < d.len() implies exists|i: int|
                0 <= i < s.len() && (#[trigger] d[j]).0 == (#[trigger] s[i]).0 by {
                if j < dd.len() {
                    let i0 = choose|i: int| 0 <= i < dl.len() && (#[trigger] dd[j]).0 == (
                    #[trigger] dl[i]).0;
                    assert(d[j].0 == s[i0].0);
                } else {
                    assert(d[j].0 == s[s.len() - 1].0);
                }
            }
            assert forall|k1: int, k2: int| 0 <= k1 < k2 < d.len() implies (
            #[trigger] d[k1]).0 != (#[trigger] d[k2]).0 by {
                if k2 == d.len() - 1 {
                    let i0 = choose|i: int| 0 <= i < dl.len() && (#[trigger] dd[k1]).0 == (
                    #[trigger] dl[i]).0;
                    assert(d[k2].0 == s[s.len() - 1].0);
                    assert(d[k1].0 == s[i0].0);
                    assert(s[i0].0 != s[s.len() - 1].0);
                }
            }
        }
    }
}

/// Emptying a group of its member does not change what its destruction
/// leaves behind.
pub proof fn lemma_cg_destroy_update(
    s: Seq<(Seq<char>, Option<u32>)>,
    id: Seq<char>,
    k0: int,
    x: Option<u32>,
)
    requires
        0 <= k0 < s.len(),
        s[k0].0 == id,
    ensures
        cg_destroy(s.update(k0, (id, x)), id) == cg_destroy(s, id),
    decreases s.len(),
{
    let s2 = s.update(k0, (id, x));
    if k0 == s.len() - 1 {
        assert(s2.last() == (id, x));
        assert(s.last().0 == id);
        assert(s2.drop_last() =~= s.drop_last());
    } else {
        assert(s2.last() == s.last());
        assert(s2.drop_last() =~= s.drop_last().update(k0, (id, x)));
        lemma_cg_destroy_update(s.drop_last(), id, k0, x);
    }
}

/// Idempotent teardown of a resource group: creating a fresh group,
/// destroying it and creating it again leaves exactly the state of the
/// first creation — the first cycle leaves no residue behind.
pub proof fn lemma_cgroup_teardown_idempotent(s: Seq<(Seq<char>, Option<u32>)>, id: Seq<char>)
    requires
        !cg_has(s, id),
    ensures
        cg_destroy(cg_create(s, id), id) == s,
        cg_create(cg_destroy(cg_create(s, id), id), id) == cg_create(s, id),
{
    let created = cg_create(s, id);
    assert(created == s.push((id, None::<u32>)));
    assert(created.drop_last() =~= s);
    assert(created.last() == (id, None::<u32>));
    lemma_destroy_absent_kept(s, id);
    assert(cg_destroy(created, id) == s);
}

/// Destroying an id that no group carries keeps the whole list.
proof fn lemma_destroy_absent_kept(s: Seq<(Seq<char>, Option<u32>)>, id: Seq<char>)
    requires
        !cg_has(s, id),
    ensures
        cg_destroy(s, id) == s,
    decreases s.len(),
{
    if s.len() > 0 {
        assert(!cg_has(s.drop_last(), id)) by {
            assert(forall|k: int|
                0 <= k < s.drop_last().len() ==> (#[trigger] s.drop_last()[k]) == s[k]);
        }
        lemma_destroy_absent_kept(s.drop_last(), id);
        assert(s.last().0 != id) by {
            assert(s[s.len() - 1].0 == s.last().0);
        }
        assert(cg_destroy(s, id) =~= s);
    }
}

} // verus!
