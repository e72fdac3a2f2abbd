use vstd::prelude::*;
use crate::FileWrite;
use crate::cgroupsv2::manager::{CGroupIf, LimitError, ResourceConfig};
use crate::digits::{spec_dec, u64_to_string};
use crate::paths::{cpu_max_path, cpu_max_path_spec};

verus! {

/// The CPU controller: a configured value of `cpu` units becomes the
/// quota line `"<cpu*1000> 100000"` — a scaled fraction of the fixed
/// 100 ms period, written to the per-container CPU limit file.
pub struct CGroupCPU {}

/// Content of the CPU limit file for `cpu` configured units.
pub open spec fn cpu_quota_spec(cpu: u32) -> Seq<char> {
    spec_dec((cpu as nat) * 1000) + " 100000"@
}

impl CGroupCPU {
    pub fn new() -> Self {
        CGroupCPU {  }
    }

    /// The planned write of the quota line to the CPU limit file of
    /// container `id`.
    pub fn cpu_limit_write(id: &str, cpu: u32) -> (r: FileWrite)
        ensures
            r@.path == cpu_max_path_spec(id@),
            r@.contents == cpu_quota_spec(cpu),
    {
        let mut contents = u64_to_string((cpu as u64) * 1000);
        contents.append(" 100000");
        FileWrite { path: cpu_max_path(id), contents }
    }
}

impl CGroupIf for CGroupCPU {
    /// An absent CPU limit plans no write; a present one plans the quota
    /// line write and cannot fail.
    fn set(&self, path: &String, resource_config: &ResourceConfig) -> (r: Result<
        Option<FileWrite>,
        LimitError,
    >)
        ensures
            match resource_config.cpu {
                None => r == Ok::<Option<FileWrite>, LimitError>(None),
                Some(c) => match r {
                    Ok(Some(w)) => w@.path == cpu_max_path_spec(path@) && w@.contents
                        == cpu_quota_spec(c),
                    _ => false,
                },
            },
    {
        match resource_config.cpu {
            None => Ok(None),
            Some(c) => Ok(Some(CGroupCPU::cpu_limit_write(path.as_str(), c))),
        }
    }
}

} // verus!
