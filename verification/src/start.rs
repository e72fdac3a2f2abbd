use vstd::prelude::*;
use crate::host::{host_wf, rec_has, recs, HostState};
use crate::metainfo::{get_command, is_running, Status};
use crate::run::{run_container, run_container_post, CgroupPlan, EngineError};

verus! {

/// Start a stopped container again under a freshly spawned pid: the
/// persisted command is re-run under the same id, so the record returns
/// to Running with the new pid.  A container already running is left
/// untouched and `Ok(None)` says so.
pub fn start(st: &mut HostState, container_id: &str, pid: u32) -> (r: Result<
    Option<(CgroupPlan, bool)>,
    EngineError,
>)
    requires
        host_wf(*old(st)),
    ensures
        host_wf(*final(st)),
        match r {
            Ok(Some(pw)) => exists|k: int|
                {
                    &&& 0 <= k < recs(*old(st)).len()
                    &&& (#[trigger] recs(*old(st))[k]).id == container_id@
                    &&& recs(*old(st))[k].status != Status::Running
                    &&& run_container_post(
                        *old(st),
                        *final(st),
                        recs(*old(st))[k].command,
                        container_id@,
                        pid,
                        pw.0,
                        pw.1,
                    )
                },
            Ok(None) => *final(st) == *old(st) && exists|k: int|
                0 <= k < recs(*old(st)).len() && (#[trigger] recs(*old(st))[k]).id == container_id@
                    && recs(*old(st))[k].status == Status::Running,
            Err(EngineError::NoSuchContainer) => *final(st) == *old(st) && !rec_has(
                recs(*old(st)),
                container_id@,
            ),
            Err(EngineError::InvalidMemoryLimit) => *final(st) == *old(st) && exists|k: int|
                {
                    &&& 0 <= k < recs(*old(st)).len()
                    &&& (#[trigger] recs(*old(st))[k]).id == container_id@
                    &&& recs(*old(st))[k].status != Status::Running
                    &&& !crate::cgroupsv2::manager::mem_config_ok(
                        recs(*old(st))[k].command.mem,
                    )
                },
            Err(_) => false,
        },
{
    let k = match st.find_record(container_id) {
        Some(k) => k,
        None => {
            return Err(EngineError::NoSuchContainer);
        },
    };
    proof {
        assert(recs(*st)[k as int] == st.records@[k as int]@);
    }
    if is_running(&st.records[k]) {
        return Ok(None);
    }
    let command = get_command(&st.records[k]);
    match run_container(st, command, String::from_str(container_id), pid) {
        Ok((plan, wait)) => Ok(Some((plan, wait))),
        Err(e) => Err(e),
    }
}

} // verus!
