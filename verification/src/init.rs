use vstd::prelude::*;
use crate::run::RunArg;
use crate::paths::{log_path, log_path_spec, merged_dir, merged_dir_spec, old_root_spec, old_root_dir};

verus! {

/// The root-switch sequence for one container, planned.  The executable
/// shell performs it in this strict order: make the root mount private
/// and recursive; bind-mount `new_root` onto itself; ensure `put_old`
/// exists; pivot the root to `new_root` with `put_old` as the staging
/// directory; change directory to `/`; detach-unmount and remove
/// `detach_old_root`; mount a fresh proc filesystem at `/proc` and a
/// fresh device filesystem at `/dev`.  Any failure is fatal.
pub struct MountPlan {
    pub new_root: String,
    pub put_old: String,
    pub detach_old_root: String,
}

/// The paths of the root switch: the merged overlay view becomes the
/// root, staged over `merged/.old_root`, which is detached as
/// `/.old_root` once the switch has happened.
pub fn setup_mount(container_id: &str) -> (r: MountPlan)
    ensures
        r.new_root@ == merged_dir_spec(container_id@),
        r.put_old@ == old_root_spec(container_id@),
        r.detach_old_root@ == "/.old_root"@,
{
    MountPlan {
        new_root: merged_dir(container_id),
        put_old: old_root_dir(container_id),
        detach_old_root: String::from_str("/.old_root"),
    }
}

/// The per-container log file that a detached container's standard
/// output and error are redirected to, in append mode, created if
/// absent.
pub fn setup_log(container_id: &str) -> (r: String)
    ensures
        r@ == log_path_spec(container_id@),
{
    log_path(container_id)
}

/// Everything the isolated process does before it becomes the user
/// program, planned in order: the optional log redirection first, then
/// the root switch, then the exec of `argv` (the command followed by its
/// arguments).
pub struct InitPlan {
    pub log_redirect: Option<String>,
    pub mount: MountPlan,
    pub argv: Vec<String>,
}

pub fn init_process(arg: &RunArg) -> (r: InitPlan)
    ensures
        arg.detach ==> r.log_redirect is Some && r.log_redirect->Some_0@ == log_path_spec(
            arg.container_id@,
        ),
        !arg.detach ==> r.log_redirect is None,
        r.mount.new_root@ == merged_dir_spec(arg.container_id@),
        r.mount.put_old@ == old_root_spec(arg.container_id@),
        r.mount.detach_old_root@ == "/.old_root"@,
        r.argv@.len() == 1 + arg.args@.len(),
        r.argv@[0]@ == arg.command@,
        forall|k: int| 0 <= k < arg.args@.len() ==> r.argv@[k + 1]@ == arg.args@[k]@,
{
    let log_redirect = if arg.detach {
        Some(setup_log(arg.container_id.as_str()))
    } else {
        None
    };
    let mount = setup_mount(arg.container_id.as_str());
    let mut argv: Vec<String> = Vec::new();
    argv.push(arg.command.clone());
    let mut k: usize = 0;
    while k < arg.args.len()
        invariant
            k <= arg.args@.len(),
            argv@.len() == 1 + k,
            argv@[0]@ == arg.command@,
            forall|j: int| 0 <= j < k ==> argv@[j + 1]@ == arg.args@[j]@,
        decreases arg.args.len() - k,
    {
        argv.push(arg.args[k].clone());
        k = k + 1;
    }
    InitPlan { log_redirect, mount, argv }
}

} // verus!
