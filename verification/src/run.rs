use vstd::prelude::*;
use crate::FileWrite;
use crate::cgroupsv2::manager::{cpu_writes, mem_config_ok, mem_writes, CGroupManager, ResourceConfig};
use crate::digits::{all_digits, spec_dec};
use crate::host::{
    cg_create, cg_has, cgs, host_wf, rec_has, recs, running_rec, ws_has, wss, HostState,
};
use crate::metainfo::{
    gen_id, init_metainfo, record_wf, Metainfo, MetainfoView, RunCommand, RunCommandView, Status,
    view_opt_string,
};
use crate::paths::{cgroup_dir_spec, cgroup_procs_path_spec};

verus! {

/// The one-shot argument block handed to the isolated process at spawn
/// time: container identity, the program to exec, and the detach flag.
/// It is written once by the parent and read once by the entry point.
pub struct RunArg {
    pub container_id: String,
    pub command: String,
    pub args: Vec<String>,
    pub detach: bool,
}

impl RunArg {
    pub fn new(container_id: &str, command: &str, args: Vec<String>, detach: bool) -> (r: Self)
        ensures
            r.container_id@ == container_id@,
            r.command@ == command@,
            r.args@ == args@,
            r.detach == detach,
    {
        RunArg {
            container_id: String::from_str(container_id),
            command: String::from_str(command),
            args,
            detach,
        }
    }
}

/// How a lifecycle transition can refuse to act.
#[derive(PartialEq, Eq, Structural, Clone, Copy, Debug)]
pub enum EngineError {
    /// The memory limit string has no recognized unit suffix.
    InvalidMemoryLimit,
    /// stop was asked of a container that is not running.
    NotRunning,
    /// rm was asked of a container that is still running.
    StillRunning,
    /// No record exists for this id.
    NoSuchContainer,
    /// The stored volume specification has no colon, so its mount
    /// point cannot be named.
    InvalidVolumeSpec,
}

/// The control-group work the shell performs after the isolated process
/// was spawned: create the group directory, write the limit files, then
/// attach the new pid.
pub struct CgroupPlan {
    pub dir: String,
    pub limit_writes: Vec<FileWrite>,
    pub attach: FileWrite,
}

/// The plan carries exactly the writes of the configured limits and the
/// attachment of `pid`.
pub open spec fn cgroup_plan_spec(
    p: CgroupPlan,
    id: Seq<char>,
    cpu: Option<u32>,
    mem: Option<Seq<char>>,
    pid: u32,
) -> bool {
    &&& p.dir@ == cgroup_dir_spec(id)
    &&& p.limit_writes@.map_values(|w: FileWrite| w@) == cpu_writes(id, cpu) + mem_writes(id, mem)
    &&& p.attach@.path == cgroup_procs_path_spec(id)
    &&& p.attach@.contents == spec_dec(pid as nat)
}

/// What a successful run transition did to the host: the record for the
/// id is Running under the new pid (created fresh when absent, its
/// command kept when present), the workspace stands mounted with the
/// command's volume, the control group exists with the pid attached,
/// and the plan holds exactly the configured writes.
pub open spec fn run_container_post(
    pre: HostState,
    post: HostState,
    cmd: RunCommandView,
    id: Seq<char>,
    pid: u32,
    plan: CgroupPlan,
    wait: bool,
) -> bool {
    &&& mem_config_ok(cmd.mem)
    &&& if rec_has(recs(pre), id) {
        exists|k: int|
            0 <= k < recs(pre).len() && (#[trigger] recs(pre)[k]).id == id && recs(post) == recs(
                pre,
            ).update(k, running_rec(recs(pre)[k], pid))
    } else {
        recs(post) == recs(pre).push(
            MetainfoView { pid: Some(pid), id: id, command: cmd, status: Status::Running },
        )
    }
    &&& if ws_has(wss(pre), id) {
        wss(post) == wss(pre)
    } else {
        wss(post) == wss(pre).push((id, cmd.volume))
    }
    &&& exists|k: int|
        0 <= k < cg_create(cgs(pre), id).len() && (#[trigger] cg_create(cgs(pre), id)[k]).0 == id
            && cgs(post) == cg_create(cgs(pre), id).update(k, (id, Some(pid)))
    &&& cgroup_plan_spec(plan, id, cmd.cpu, cmd.mem, pid)
    &&& wait == !cmd.detach
}

/// Register a spawned container: its workspace is up, `pid` is its
/// isolated process, its record is written as Running, and the control
/// group must now be created, configured and given the pid — exactly as
/// the returned plan says.  The caller waits for the process when the
/// command was not detached.
pub fn run_container(st: &mut HostState, command: RunCommand, container_id: String, pid: u32) -> (r:
    Result<(CgroupPlan, bool), EngineError>)
    requires
        host_wf(*old(st)),
    ensures
        host_wf(*final(st)),
        match r {
            Ok(pw) => run_container_post(
                *old(st),
                *final(st),
                command@,
                container_id@,
                pid,
                pw.0,
                pw.1,
            ),
            Err(e) => {
                &&& *final(st) == *old(st)
                &&& e == EngineError::InvalidMemoryLimit
                &&& !mem_config_ok(command@.mem)
            },
        },
{
    let detach = command.detach;
    let manager = CGroupManager::new(container_id.clone());
    let rc = ResourceConfig {
        cpu: command.cpu,
        memory: crate::host::clone_volume(&command.mem),
    };
    let limit_writes = match manager.set(rc) {
        Ok(ws) => ws,
        Err(_) => {
            return Err(EngineError::InvalidMemoryLimit);
        },
    };
    let volume = crate::host::clone_volume(&command.volume);
    st.add_workspace(container_id.as_str(), volume);
    let ghost st1 = *st;
    match st.find_record(container_id.as_str()) {
        Some(k) => {
            let ghost pre_rec = recs(*st)[k as int];
            st.set_running(k, pid);
            proof {
                assert(recs(*st)[k as int] == running_rec(pre_rec, pid));
            }
        },
        None => {
            let rec = init_metainfo(container_id.as_str(), pid, command);
            st.push_record(rec);
        },
    }
    let ghost st2 = *st;
    st.create_cgroup(container_id.as_str());
    proof {
        if !cg_has(cgs(st2), container_id@) {
            assert(cgs(*st).last() == (container_id@, None::<u32>));
            assert(cg_has(cgs(*st), container_id@));
        }
    }
    let ghost st3 = *st;
    st.attach_process(container_id.as_str(), pid);
    let plan = CgroupPlan {
        dir: manager.create_cgroup(),
        limit_writes,
        attach: manager.add_process(pid),
    };
    proof {
        assert(st2.cgroups == old(st).cgroups);
        assert(cgs(st2) == cgs(*old(st)));
        assert(cgs(st3) == cg_create(cgs(*old(st)), container_id@));
        let j = choose|j: int|
            0 <= j < cgs(st3).len() && (#[trigger] cgs(st3)[j]).0 == container_id@ && cgs(*st)
                == cgs(st3).update(j, (container_id@, Some(pid)));
        assert(0 <= j < cg_create(cgs(*old(st)), container_id@).len() && cg_create(
            cgs(*old(st)),
            container_id@,
        )[j].0 == container_id@ && cgs(*st) == cg_create(cgs(*old(st)), container_id@).update(
            j,
            (container_id@, Some(pid)),
        ));
        lemma_run_wf(*old(st), st1, st2, *st, container_id@, pid);
    }
    Ok((plan, !detach))
}

/// The run transition preserves the host invariant.
proof fn lemma_run_wf(
    pre: HostState,
    st1: HostState,
    st2: HostState,
    post: HostState,
    id: Seq<char>,
    pid: u32,
)
    requires
        host_wf(pre),
        // workspace step
        ws_has(wss(pre), id) ==> wss(st1) == wss(pre),
        !ws_has(wss(pre), id) ==> wss(st1).len() == wss(pre).len() + 1 && wss(st1) == wss(
            pre,
        ).push(wss(st1).last()) && wss(st1).last().0 == id,
        recs(st1) == recs(pre),
        cgs(st1) == cgs(pre),
        // record step
        (exists|k: int|
            0 <= k < recs(st1).len() && (#[trigger] recs(st1)[k]).id == id && recs(st2) == recs(
                st1,
            ).update(k, running_rec(recs(st1)[k], pid))) || (!rec_has(recs(st1), id) && recs(st2)
            == recs(st1).push(
            MetainfoView {
                pid: Some(pid),
                id: id,
                command: recs(st2).last().command,
                status: Status::Running,
            },
        )),
        wss(st2) == wss(st1),
        cgs(st2) == cgs(st1),
        // cgroup steps
        exists|k: int|
            0 <= k < cg_create(cgs(st2), id).len() && (#[trigger] cg_create(cgs(st2), id)[k]).0
                == id && cgs(post) == cg_create(cgs(st2), id).update(k, (id, Some(pid))),
        recs(post) == recs(st2),
        wss(post) == wss(st2),
    ensures
        host_wf(post),
{
    assert forall|k1: int, k2: int| 0 <= k1 < k2 < wss(post).len() implies (
    #[trigger] wss(post)[k1]).0 != (#[trigger] wss(post)[k2]).0 by {
        if !ws_has(wss(pre), id) {
            if k2 < wss(pre).len() {
                assert(wss(post)[k1] == wss(pre)[k1] && wss(post)[k2] == wss(pre)[k2]);
            } else {
                assert(wss(post)[k1] == wss(pre)[k1]);
                assert(wss(post)[k2].0 == id);
                assert(!ws_has(wss(pre), id));
            }
        }
    }
    assert forall|k1: int, k2: int| 0 <= k1 < k2 < recs(post).len() implies (
    #[trigger] recs(post)[k1]).id != (#[trigger] recs(post)[k2]).id by {
        if rec_has(recs(st1), id) {
        } else {
            if k2 < recs(pre).len() {
            } else {
                assert(recs(post)[k1] == recs(pre)[k1]);
                assert(recs(post)[k2].id == id);
            }
        }
    }
    assert forall|k: int| 0 <= k < recs(post).len() implies record_wf(
        #[trigger] recs(post)[k],
    ) by {
        if rec_has(recs(st1), id) {
        } else {
            if k < recs(pre).len() {
                assert(recs(post)[k] == recs(pre)[k]);
            }
        }
    }
    let created = cg_create(cgs(st2), id);
    assert forall|k1: int, k2: int| 0 <= k1 < k2 < created.len() implies (
    #[trigger] created[k1]).0 != (#[trigger] created[k2]).0 by {
        if !cg_has(cgs(pre), id) {
            if k2 < cgs(pre).len() {
            } else {
                assert(created[k1] == cgs(pre)[k1]);
                assert(created[k2].0 == id);
            }
        }
    }
    assert forall|k1: int, k2: int| 0 <= k1 < k2 < cgs(post).len() implies (
    #[trigger] cgs(post)[k1]).0 != (#[trigger] cgs(post)[k2]).0 by {
        let j = choose|j: int|
            0 <= j < created.len() && (#[trigger] created[j]).0 == id && cgs(post)
                == created.update(j, (id, Some(pid)));
        assert(cgs(post)[k1] == if k1 == j {
            (id, Some(pid))
        } else {
            created[k1]
        });
        assert(cgs(post)[k2] == if k2 == j {
            (id, Some(pid))
        } else {
            created[k2]
        });
    }
}

/// What a foreground run does once its child has exited: read the
/// memory-event counters, remove `cgroup_dir`, and perform the
/// teardown, in that order.
pub struct ExitPlan {
    pub memory_events: String,
    pub cgroup_dir: String,
    pub teardown: crate::overlayfs::TeardownPlan,
}

/// The isolated process of a foreground container has exited: its
/// workspace and control group go away and its record turns Exited.
pub fn container_exited(st: &mut HostState, container_id: &str) -> (r: Result<
    ExitPlan,
    EngineError,
>)
    requires
        host_wf(*old(st)),
    ensures
        host_wf(*final(st)),
        match r {
            Ok(p) => {
                &&& exists|k: int|
                    {
                        &&& 0 <= k < recs(*old(st)).len()
                        &&& (#[trigger] recs(*old(st))[k]).id == container_id@
                        &&& crate::stop::teardown_post(*old(st), *final(st), container_id@, k)
                        &&& crate::stop::teardown_plan_spec(
                            p.teardown,
                            container_id@,
                            recs(*old(st))[k].command.volume,
                        )
                    }
                &&& p.memory_events@ == crate::paths::memory_events_path_spec(container_id@)
                &&& p.cgroup_dir@ == cgroup_dir_spec(container_id@)
            },
            Err(EngineError::NoSuchContainer) => *final(st) == *old(st) && !rec_has(
                recs(*old(st)),
                container_id@,
            ),
            Err(EngineError::InvalidVolumeSpec) => *final(st) == *old(st) && exists|k: int|
                0 <= k < recs(*old(st)).len() && (#[trigger] recs(*old(st))[k]).id == container_id@
                    && crate::stop::volume_unparseable(recs(*old(st))[k].command.volume),
            Err(_) => false,
        },
{
    let k = match st.find_record(container_id) {
        Some(k) => k,
        None => {
            return Err(EngineError::NoSuchContainer);
        },
    };
    let teardown = match crate::stop::teardown_container(st, container_id, k) {
        Ok(p) => p,
        Err(e) => {
            return Err(e);
        },
    };
    Ok(
        ExitPlan {
            memory_events: crate::paths::memory_events_path(container_id),
            cgroup_dir: crate::paths::cgroup_dir(container_id),
            teardown,
        },
    )
}

/// Start a brand-new container: a fresh ten-digit id is generated and
/// the container registered under it.
pub fn run(st: &mut HostState, command: RunCommand, pid: u32) -> (r: Result<
    (String, CgroupPlan, bool),
    EngineError,
>)
    requires
        host_wf(*old(st)),
    ensures
        host_wf(*final(st)),
        match r {
            Ok(icw) => {
                &&& icw.0@.len() == 10
                &&& all_digits(icw.0@)
                &&& run_container_post(
                    *old(st),
                    *final(st),
                    command@,
                    icw.0@,
                    pid,
                    icw.1,
                    icw.2,
                )
            },
            Err(e) => {
                &&& *final(st) == *old(st)
                &&& e == EngineError::InvalidMemoryLimit
                &&& !mem_config_ok(command@.mem)
            },
        },
{
    let container_id = gen_id();
    let id_copy = container_id.clone();
    match run_container(st, command, container_id, pid) {
        Ok((plan, wait)) => Ok((id_copy, plan, wait)),
        Err(e) => Err(e),
    }
}

} // verus!
