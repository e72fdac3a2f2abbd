use vstd::prelude::*;
use crate::host::{host_wf, rec_has, recs, HostState};
use crate::metainfo::{is_running, record_wf, Status};
use crate::paths::{metainfo_dir, metainfo_dir_spec, overlay_root, overlay_root_spec};
use crate::run::EngineError;

verus! {

/// Removing a container deletes what is left on disk: the whole
/// per-container overlay directory and the metainfo directory.
#[derive(Debug)]
pub struct RmPlan {
    pub overlay_root: String,
    pub metainfo_dir: String,
}

/// Remove an exited container: its record leaves the store and the plan
/// names the two directories to delete.  A running container is
/// refused, untouched.
pub fn rm(st: &mut HostState, container_id: &str) -> (r: Result<RmPlan, EngineError>)
    requires
        host_wf(*old(st)),
    ensures
        host_wf(*final(st)),
        match r {
            Ok(p) => {
                &&& exists|k: int|
                    0 <= k < recs(*old(st)).len() && (#[trigger] recs(*old(st))[k]).id
                        == container_id@ && recs(*old(st))[k].status != Status::Running && recs(
                        *final(st),
                    ) == recs(*old(st)).remove(k)
                &&& final(st).workspaces == old(st).workspaces
                &&& final(st).cgroups == old(st).cgroups
                &&& p.overlay_root@ == overlay_root_spec(container_id@)
                &&& p.metainfo_dir@ == metainfo_dir_spec(container_id@)
            },
            Err(EngineError::NoSuchContainer) => *final(st) == *old(st) && !rec_has(
                recs(*old(st)),
                container_id@,
            ),
            Err(EngineError::StillRunning) => *final(st) == *old(st) && exists|k: int|
                0 <= k < recs(*old(st)).len() && (#[trigger] recs(*old(st))[k]).id == container_id@
                    && recs(*old(st))[k].status == Status::Running,
            Err(_) => false,
        },
{
    let k = match st.find_record(container_id) {
        Some(k) => k,
        None => {
            return Err(EngineError::NoSuchContainer);
        },
    };
    proof {
        assert(recs(*st)[k as int] == st.records@[k as int]@);
    }
    if is_running(&st.records[k]) {
        return Err(EngineError::StillRunning);
    }
    let _gone = st.remove_record(k);
    proof {
        assert forall|k1: int, k2: int| 0 <= k1 < k2 < recs(*st).len() implies (
        #[trigger] recs(*st)[k1]).id != (#[trigger] recs(*st)[k2]).id by {
            let pre = recs(*old(st));
            assert(recs(*st)[k1] == if k1 < k {
                pre[k1]
            } else {
                pre[k1 + 1]
            });
            assert(recs(*st)[k2] == if k2 < k {
                pre[k2]
            } else {
                pre[k2 + 1]
            });
        }
        assert forall|j: int| 0 <= j < recs(*st).len() implies record_wf(
            #[trigger] recs(*st)[j],
        ) by {
            let pre = recs(*old(st));
            assert(recs(*st)[j] == if j < k {
                pre[j]
            } else {
                pre[j + 1]
            });
        }
        assert(crate::host::cgs(*st) == crate::host::cgs(*old(st)));
        assert(crate::host::wss(*st) == crate::host::wss(*old(st)));
    }
    Ok(RmPlan { overlay_root: overlay_root(container_id), metainfo_dir: metainfo_dir(container_id) })
}

} // verus!
