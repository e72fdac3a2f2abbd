use vstd::prelude::*;
use crate::FileWrite;
use crate::FileWriteView;
use crate::cgroupsv2::cpu::{cpu_quota_spec, CGroupCPU};
use crate::cgroupsv2::memory::{mem_size_spec, CGroupMemory};
use crate::digits::spec_dec;
use crate::metainfo::view_opt_string;
use crate::paths::{
    cgroup_dir, cgroup_dir_spec, cgroup_procs_path, cgroup_procs_path_spec, cpu_max_path_spec,
    memory_events_path, memory_events_path_spec, memory_max_path_spec,
};

verus! {

/// Configuring a resource limit can fail in exactly one way: the memory
/// size string has no recognized unit suffix or does not denote a byte
/// count that fits in a u64.
#[derive(PartialEq, Eq, Structural, Clone, Copy, Debug)]
pub enum LimitError {
    InvalidMemoryLimit,
}

/// A resource controller plans the write for its limit file, or plans
/// none when its limit is not configured.
pub trait CGroupIf {
    fn set(&self, path: &String, resource_config: &ResourceConfig) -> Result<
        Option<FileWrite>,
        LimitError,
    >;
}

/// The optional CPU and memory limits of one container.
pub struct ResourceConfig {
    pub cpu: Option<u32>,
    pub memory: Option<String>,
}

/// Plans every control-group step for one container: the group
/// directory, the limit files of the closed controller set {CPU,
/// Memory}, and the process-membership file.
pub struct CGroupManager {
    path: String,
    cpu: CGroupCPU,
    memory: CGroupMemory,
}

/// The limit-file writes a configured CPU limit calls for.
pub open spec fn cpu_writes(id: Seq<char>, cpu: Option<u32>) -> Seq<FileWriteView> {
    match cpu {
        None => Seq::empty(),
        Some(c) => seq![
            FileWriteView { path: cpu_max_path_spec(id), contents: cpu_quota_spec(c) },
        ],
    }
}

/// The limit-file writes a configured memory limit calls for.
pub open spec fn mem_writes(id: Seq<char>, mem: Option<Seq<char>>) -> Seq<FileWriteView> {
    match mem {
        None => Seq::empty(),
        Some(m) => seq![
            FileWriteView {
                path: memory_max_path_spec(id),
                contents: spec_dec(mem_size_spec(m)->Some_0 as nat),
            },
        ],
    }
}

/// A memory limit is acceptable when absent or parseable.
pub open spec fn mem_config_ok(mem: Option<Seq<char>>) -> bool {
    match mem {
        None => true,
        Some(m) => mem_size_spec(m) is Some,
    }
}

impl CGroupManager {
    /// The container id this manager's control group belongs to.
    pub closed spec fn id(&self) -> Seq<char> {
        self.path@
    }

    pub fn new(path: String) -> (r: Self)
        ensures
            r.id() == path@,
    {
        CGroupManager { path, cpu: CGroupCPU::new(), memory: CGroupMemory::new() }
    }

    /// The directory whose creation brings the control group into being.
    pub fn create_cgroup(&self) -> (r: String)
        ensures
            r@ == cgroup_dir_spec(self.id()),
    {
        cgroup_dir(self.path.as_str())
    }

    /// The directory whose removal destroys the control group; removal
    /// succeeds only once no member process is left.
    pub fn destroy_cgroup(&self) -> (r: String)
        ensures
            r@ == cgroup_dir_spec(self.id()),
    {
        cgroup_dir(self.path.as_str())
    }

    /// The planned write that attaches `pid` to the control group.
    pub fn add_process(&self, pid: u32) -> (r: FileWrite)
        ensures
            r@.path == cgroup_procs_path_spec(self.id()),
            r@.contents == spec_dec(pid as nat),
    {
        FileWrite {
            path: cgroup_procs_path(self.path.as_str()),
            contents: crate::digits::u32_to_string(pid),
        }
    }

    /// The limit-file writes for the given configuration: the CPU write
    /// first, then the memory write, each only when configured.
    pub fn set(&self, resource_config: ResourceConfig) -> (r: Result<Vec<FileWrite>, LimitError>)
        ensures
            match r {
                Ok(ws) => {
                    &&& mem_config_ok(view_opt_string(resource_config.memory))
                    &&& ws@.map_values(|w: FileWrite| w@) == cpu_writes(
                        self.id(),
                        resource_config.cpu,
                    ) + mem_writes(self.id(), view_opt_string(resource_config.memory))
                },
                Err(e) => {
                    &&& !mem_config_ok(view_opt_string(resource_config.memory))
                    &&& e == LimitError::InvalidMemoryLimit
                },
            },
    {
        let mut ws: Vec<FileWrite> = Vec::new();
        match self.cpu.set(&self.path, &resource_config) {
            Ok(Some(w)) => ws.push(w),
            Ok(None) => (),
            Err(e) => {
                return Err(e);
            },
        }
        match self.memory.set(&self.path, &resource_config) {
            Ok(Some(w)) => ws.push(w),
            Ok(None) => (),
            Err(e) => {
                return Err(e);
            },
        }
        proof {
            assert(ws@.map_values(|w: FileWrite| w@) =~= cpu_writes(
                self.id(),
                resource_config.cpu,
            ) + mem_writes(self.id(), view_opt_string(resource_config.memory)));
        }
        Ok(ws)
    }

    /// The memory-event counters file read for diagnostics before the
    /// group is destroyed.
    pub fn check_cgroup_memory_events(&self) -> (r: String)
        ensures
            r@ == memory_events_path_spec(self.id()),
    {
        memory_events_path(self.path.as_str())
    }
}

} // verus!
