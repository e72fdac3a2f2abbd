use vstd::prelude::*;
use crate::host::{
    cg_destroy, cg_has, cgs, exited_rec, host_wf, recs, ws_remove, wss, HostState,
    lemma_cg_destroy_distinct, lemma_cg_destroy_update, lemma_ws_remove_distinct,
};
use crate::metainfo::{get_pid, get_volume, is_running, record_wf, Status};
use crate::overlayfs::{delete_workspace, first_colon, TeardownPlan};
use crate::paths::{
    cgroup_dir, cgroup_dir_spec, merged_dir_spec, upper_dir_spec, volume_mount_point_spec,
    work_dir_spec,
};
use crate::run::EngineError;

verus! {

/// Stopping a running container: send the termination signal to `pid`,
/// wait `grace_secs`, force-kill if the process still answers a
/// liveness probe, then perform the teardown and remove `cgroup_dir`.
#[derive(Debug)]
pub struct StopPlan {
    pub pid: u32,
    pub grace_secs: u32,
    pub teardown: TeardownPlan,
    pub cgroup_dir: String,
}

/// What a completed teardown did to the host: the record at `k` turned
/// Exited with its pid cleared, and the id's workspace and control
/// group are gone.
pub open spec fn teardown_post(pre: HostState, post: HostState, id: Seq<char>, k: int) -> bool {
    &&& recs(post) == recs(pre).update(k, exited_rec(recs(pre)[k]))
    &&& wss(post) == ws_remove(wss(pre), id)
    &&& cgs(post) == cg_destroy(cgs(pre), id)
}

/// The teardown plan unmounts the volume named by the stored
/// specification first, then the merged view, then removes the
/// writable directories and last the whole per-container overlay
/// directory, lower layer included.
pub open spec fn teardown_plan_spec(p: TeardownPlan, id: Seq<char>, volume: Option<Seq<char>>) -> bool {
    &&& match volume {
        None => p.volume_unmount is None,
        Some(v) => p.volume_unmount is Some && first_colon(v) < v.len()
            && p.volume_unmount->Some_0@ == volume_mount_point_spec(
            id,
            v.subrange(first_colon(v) + 1, v.len() as int),
        ),
    }
    &&& p.merged_unmount@ == merged_dir_spec(id)
    &&& p.remove_dirs@.len() == 4
    &&& p.remove_dirs@[0]@ == upper_dir_spec(id)
    &&& p.remove_dirs@[1]@ == work_dir_spec(id)
    &&& p.remove_dirs@[2]@ == merged_dir_spec(id)
    &&& p.remove_dirs@[3]@ == crate::paths::overlay_root_spec(id)
}

/// A stored volume specification without a colon cannot be unmounted.
pub open spec fn volume_unparseable(volume: Option<Seq<char>>) -> bool {
    match volume {
        None => false,
        Some(v) => first_colon(v) >= v.len(),
    }
}

/// Tear the container of record `k` down: plan the workspace teardown
/// from the stored volume, drop the workspace and the control group,
/// and mark the record Exited.
pub(crate) fn teardown_container(st: &mut HostState, container_id: &str, k: usize) -> (r: Result<
    TeardownPlan,
    EngineError,
>)
    requires
        host_wf(*old(st)),
        k < recs(*old(st)).len(),
        recs(*old(st))[k as int].id == container_id@,
    ensures
        host_wf(*final(st)),
        match r {
            Ok(p) => teardown_post(*old(st), *final(st), container_id@, k as int)
                && teardown_plan_spec(
                p,
                container_id@,
                recs(*old(st))[k as int].command.volume,
            ),
            Err(e) => {
                &&& *final(st) == *old(st)
                &&& e == EngineError::InvalidVolumeSpec
                &&& volume_unparseable(recs(*old(st))[k as int].command.volume)
            },
        },
{
    proof {
        assert(recs(*st)[k as int] == st.records@[k as int]@);
    }
    let volume = get_volume(&st.records[k]);
    let plan_r = match &volume {
        None => delete_workspace(container_id, None),
        Some(v) => delete_workspace(container_id, Some(v.as_str())),
    };
    let plan = match plan_r {
        Ok(p) => p,
        Err(_) => {
            return Err(EngineError::InvalidVolumeSpec);
        },
    };
    let ghost pre = *st;
    st.clear_member(container_id);
    let ghost st1 = *st;
    proof {
        if cg_has(cgs(pre), container_id@) {
            let k0 = choose|k0: int|
                0 <= k0 < cgs(pre).len() && (#[trigger] cgs(pre)[k0]).0 == container_id@ && cgs(
                    st1,
                ) == cgs(pre).update(k0, (container_id@, None::<u32>));
            assert forall|j: int|
                0 <= j < cgs(st1).len() && (#[trigger] cgs(st1)[j]).0 == container_id@ implies cgs(
                st1,
            )[j].1 is None by {
                if j != k0 {
                    assert(cgs(st1)[j] == cgs(pre)[j]);
                }
            }
        }
    }
    st.destroy_cgroup(container_id);
    proof {
        if cg_has(cgs(pre), container_id@) {
            let k0 = choose|k0: int|
                0 <= k0 < cgs(pre).len() && (#[trigger] cgs(pre)[k0]).0 == container_id@ && cgs(
                    st1,
                ) == cgs(pre).update(k0, (container_id@, None::<u32>));
            lemma_cg_destroy_update(cgs(pre), container_id@, k0, None);
        }
        assert(cgs(*st) == cg_destroy(cgs(pre), container_id@));
    }
    st.remove_workspace(container_id);
    st.set_exited(k);
    proof {
        lemma_cg_destroy_distinct(cgs(pre), container_id@);
        lemma_ws_remove_distinct(wss(pre), container_id@);
        assert forall|k1: int, k2: int| 0 <= k1 < k2 < recs(*st).len() implies (
        #[trigger] recs(*st)[k1]).id != (#[trigger] recs(*st)[k2]).id by {
            assert(recs(*st)[k1].id == recs(pre)[k1].id);
            assert(recs(*st)[k2].id == recs(pre)[k2].id);
        }
        assert forall|j: int| 0 <= j < recs(*st).len() implies record_wf(
            #[trigger] recs(*st)[j],
        ) by {
            if j != k {
                assert(recs(*st)[j] == recs(pre)[j]);
            }
        }
        assert(teardown_plan_spec(plan, container_id@, recs(*old(st))[k as int].command.volume));
    }
    Ok(plan)
}

/// Stop a running container: the recorded pid gets the termination
/// signal, a fixed five-second grace period, and a forced kill if it
/// still lives; then the workspace and the control group are torn down
/// and the record turns Exited with its pid cleared.  A container that
/// is not running is refused, untouched.
pub fn stop(st: &mut HostState, container_id: &str) -> (r: Result<StopPlan, EngineError>)
    requires
        host_wf(*old(st)),
    ensures
        host_wf(*final(st)),
        match r {
            Ok(p) => {
                &&& exists|k: int|
                    {
                        &&& 0 <= k < recs(*old(st)).len()
                        &&& (#[trigger] recs(*old(st))[k]).id == container_id@
                        &&& recs(*old(st))[k].status == Status::Running
                        &&& recs(*old(st))[k].pid == Some(p.pid)
                        &&& teardown_post(*old(st), *final(st), container_id@, k)
                        &&& teardown_plan_spec(
                            p.teardown,
                            container_id@,
                            recs(*old(st))[k].command.volume,
                        )
                    }
                &&& p.grace_secs == 5
                &&& p.cgroup_dir@ == cgroup_dir_spec(container_id@)
            },
            Err(EngineError::NoSuchContainer) => *final(st) == *old(st) && !crate::host::rec_has(
                recs(*old(st)),
                container_id@,
            ),
            Err(EngineError::NotRunning) => *final(st) == *old(st) && exists|k: int|
                0 <= k < recs(*old(st)).len() && (#[trigger] recs(*old(st))[k]).id == container_id@
                    && recs(*old(st))[k].status != Status::Running,
            Err(EngineError::InvalidVolumeSpec) => *final(st) == *old(st) && exists|k: int|
                0 <= k < recs(*old(st)).len() && (#[trigger] recs(*old(st))[k]).id == container_id@
                    && recs(*old(st))[k].status == Status::Running && volume_unparseable(
                    recs(*old(st))[k].command.volume,
                ),
            Err(_) => false,
        },
{
    let k = match st.find_record(container_id) {
        Some(k) => k,
        None => {
            return Err(EngineError::NoSuchContainer);
        },
    };
    proof {
        assert(recs(*st)[k as int] == st.records@[k as int]@);
    }
    if !is_running(&st.records[k]) {
        return Err(EngineError::NotRunning);
    }
    proof {
        assert(record_wf(recs(*st)[k as int]));
    }
    let pid = get_pid(&st.records[k]);
    let teardown = match teardown_container(st, container_id, k) {
        Ok(p) => p,
        Err(e) => {
            return Err(e);
        },
    };
    Ok(StopPlan { pid, grace_secs: 5, teardown, cgroup_dir: cgroup_dir(container_id) })
}

} // verus!
