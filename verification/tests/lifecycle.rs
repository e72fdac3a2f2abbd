use mydocker::cgroupsv2::cpu::CGroupCPU;
use mydocker::cgroupsv2::manager::{CGroupManager, LimitError, ResourceConfig};
use mydocker::cgroupsv2::memory::{parse_mem_size, CGroupMemory};
use mydocker::host::HostState;
use mydocker::init::{init_process, setup_log, setup_mount};
use mydocker::metainfo::{get_pid, is_running, RunCommand, Status};
use mydocker::overlayfs::{delete_workspace, new_workspace, parse_volume};
use mydocker::prune::prune;
use mydocker::rm::rm;
use mydocker::run::{run, run_container, EngineError, RunArg};
use mydocker::start::start;
use mydocker::stop::stop;

fn spec_of(image: &str, command: &str, args: Vec<String>, detach: bool) -> RunCommand {
    RunCommand {
        cpu: None,
        mem: None,
        volume: None,
        detach,
        net: None,
        image: image.to_string(),
        command: command.to_string(),
        args,
    }
}

#[test]
fn memory_size_parser() {
    assert_eq!(parse_mem_size("10G"), Some(10 * 1024 * 1024 * 1024));
    assert_eq!(parse_mem_size("10m"), Some(10 * 1024 * 1024));
    assert_eq!(parse_mem_size("20k"), Some(20 * 1024));
    assert_eq!(parse_mem_size("1g"), Some(1024 * 1024 * 1024));
    assert_eq!(parse_mem_size("3M"), Some(3 * 1024 * 1024));
    assert_eq!(parse_mem_size("5K"), Some(5 * 1024));
    assert_eq!(parse_mem_size("10"), None);
    assert_eq!(parse_mem_size("G"), None);
    assert_eq!(parse_mem_size(""), None);
    assert_eq!(parse_mem_size("1.5G"), None);
    assert_eq!(parse_mem_size("10x"), None);
    // number reading takes a leading plus sign, one at most
    assert_eq!(parse_mem_size("+10m"), Some(10 * 1024 * 1024));
    assert_eq!(parse_mem_size("+m"), None);
    assert_eq!(parse_mem_size("++10m"), None);
    // trailing unit letters collapse, as the limit writer always accepted
    assert_eq!(parse_mem_size("10GG"), Some(10 * 1024 * 1024 * 1024));
    assert_eq!(parse_mem_size("99999999999999999999k"), None);
}

#[test]
fn cpu_quota_formula() {
    let w = CGroupCPU::cpu_limit_write("42", 1);
    assert_eq!(w.path, "/sys/fs/cgroup/42/cpu.max");
    assert_eq!(w.contents, "1000 100000");
    let w = CGroupCPU::cpu_limit_write("42", 50);
    assert_eq!(w.contents, "50000 100000");
}

#[test]
fn memory_limit_write() {
    let w = CGroupMemory::memory_limit_write("42", "100m").expect("valid size");
    assert_eq!(w.path, "/sys/fs/cgroup/42/memory.max");
    assert_eq!(w.contents, "104857600");
    assert_eq!(
        CGroupMemory::memory_limit_write("42", "wat").unwrap_err(),
        LimitError::InvalidMemoryLimit
    );
}

#[test]
fn manager_plans_configured_writes() {
    let mgr = CGroupManager::new("7".to_string());
    assert_eq!(mgr.create_cgroup(), "/sys/fs/cgroup/7");
    assert_eq!(mgr.destroy_cgroup(), "/sys/fs/cgroup/7");
    assert_eq!(mgr.check_cgroup_memory_events(), "/sys/fs/cgroup/7/memory.events.local");
    let attach = mgr.add_process(321);
    assert_eq!(attach.path, "/sys/fs/cgroup/7/cgroup.procs");
    assert_eq!(attach.contents, "321");
    let ws = mgr
        .set(ResourceConfig { cpu: Some(2), memory: Some("1g".to_string()) })
        .expect("valid limits");
    assert_eq!(ws.len(), 2);
    assert_eq!(ws[0].path, "/sys/fs/cgroup/7/cpu.max");
    assert_eq!(ws[0].contents, "2000 100000");
    assert_eq!(ws[1].path, "/sys/fs/cgroup/7/memory.max");
    assert_eq!(ws[1].contents, "1073741824");
    let none = mgr.set(ResourceConfig { cpu: None, memory: None }).expect("nothing configured");
    assert!(none.is_empty());
    assert!(mgr.set(ResourceConfig { cpu: None, memory: Some("bad".to_string()) }).is_err());
}

#[test]
fn volume_splitting() {
    assert_eq!(parse_volume("/data:/mnt"), Some(("/data".to_string(), "/mnt".to_string())));
    assert_eq!(parse_volume("a:b:c"), Some(("a".to_string(), "b:c".to_string())));
    assert_eq!(parse_volume(":x"), Some(("".to_string(), "x".to_string())));
    assert_eq!(parse_volume("nocolon"), None);
}

#[test]
fn workspace_plans() {
    let plan = new_workspace("7", "busybox", Some("/data:/mnt")).expect("valid volume");
    assert_eq!(plan.image_tar, "/root/.mydocker/image/busybox.tar");
    assert_eq!(plan.lower, "/root/.mydocker/overlay2/7/busybox");
    assert_eq!(plan.upper, "/root/.mydocker/overlay2/7/upper");
    assert_eq!(plan.work, "/root/.mydocker/overlay2/7/work");
    assert_eq!(plan.merged, "/root/.mydocker/overlay2/7/merged");
    assert_eq!(
        plan.mount_options,
        "lowerdir=/root/.mydocker/overlay2/7/busybox,upperdir=/root/.mydocker/overlay2/7/upper,workdir=/root/.mydocker/overlay2/7/work"
    );
    let vm = plan.volume.expect("volume planned");
    assert_eq!(vm.host_path, "/data");
    assert_eq!(vm.mount_point, "/root/.mydocker/overlay2/7/merged/mnt");

    assert!(new_workspace("7", "busybox", Some("nocolon")).is_err());

    let down = delete_workspace("7", Some("/data:/mnt")).expect("valid volume");
    assert_eq!(down.volume_unmount, Some("/root/.mydocker/overlay2/7/merged/mnt".to_string()));
    assert_eq!(down.merged_unmount, "/root/.mydocker/overlay2/7/merged");
    assert_eq!(
        down.remove_dirs,
        vec![
            "/root/.mydocker/overlay2/7/upper".to_string(),
            "/root/.mydocker/overlay2/7/work".to_string(),
            "/root/.mydocker/overlay2/7/merged".to_string(),
            "/root/.mydocker/overlay2/7".to_string(),
        ]
    );
    let bare = delete_workspace("7", None).expect("no volume");
    assert_eq!(bare.volume_unmount, None);
}

#[test]
fn init_plan_orders_the_root_switch() {
    let mount = setup_mount("7");
    assert_eq!(mount.new_root, "/root/.mydocker/overlay2/7/merged");
    assert_eq!(mount.put_old, "/root/.mydocker/overlay2/7/merged/.old_root");
    assert_eq!(mount.detach_old_root, "/.old_root");
    assert_eq!(setup_log("7"), "/root/.mydocker/containers/7/container.log");

    let arg = RunArg::new("7", "sleep", vec!["100".to_string()], true);
    let plan = init_process(&arg);
    assert_eq!(plan.log_redirect, Some("/root/.mydocker/containers/7/container.log".to_string()));
    assert_eq!(plan.mount.new_root, "/root/.mydocker/overlay2/7/merged");
    assert_eq!(plan.argv, vec!["sleep".to_string(), "100".to_string()]);

    let fg = RunArg::new("7", "sh", vec![], false);
    assert_eq!(init_process(&fg).log_redirect, None);
}

#[test]
fn cgroup_create_destroy_create_is_clean() {
    let mut st = HostState::new();
    st.create_cgroup("7");
    assert_eq!(st.cgroups.len(), 1);
    st.destroy_cgroup("7");
    assert_eq!(st.cgroups.len(), 0);
    st.create_cgroup("7");
    assert_eq!(st.cgroups.len(), 1);
    assert_eq!(st.cgroups[0].id, "7");
    assert_eq!(st.cgroups[0].member, None);
}

#[test]
fn lifecycle_run_stop_rm() {
    let mut st = HostState::new();
    let cmd = spec_of("busybox", "sleep", vec!["100".to_string()], true);
    let (id, plan, wait) = run(&mut st, cmd, 42).expect("run succeeds");
    assert_eq!(id.len(), 10);
    assert!(!wait, "a detached run does not wait");
    assert_eq!(plan.dir, format!("/sys/fs/cgroup/{}", id));
    assert_eq!(plan.attach.contents, "42");
    assert!(plan.limit_writes.is_empty());

    assert!(st.metainfo_exists(&id));
    assert!(!st.metainfo_exists("0000000000"));
    let k = st.find_record(&id).expect("record written");
    assert!(is_running(&st.records[k]));
    assert_eq!(get_pid(&st.records[k]), 42);
    assert_eq!(st.workspaces.len(), 1);
    assert_eq!(st.cgroups.len(), 1);
    assert_eq!(st.cgroups[0].member, Some(42));

    // rm while Running is rejected and changes nothing
    assert_eq!(rm(&mut st, &id).unwrap_err(), EngineError::StillRunning);
    assert!(is_running(&st.records[st.find_record(&id).unwrap()]));

    let stop_plan = stop(&mut st, &id).expect("stop a running container");
    assert_eq!(stop_plan.pid, 42);
    assert_eq!(stop_plan.grace_secs, 5);
    assert_eq!(stop_plan.cgroup_dir, format!("/sys/fs/cgroup/{}", id));
    let k = st.find_record(&id).expect("record kept");
    assert!(!is_running(&st.records[k]));
    assert!(st.records[k].pid.is_none());
    assert_eq!(st.workspaces.len(), 0);
    assert_eq!(st.cgroups.len(), 0);

    // stopping again is a state conflict
    assert_eq!(stop(&mut st, &id).unwrap_err(), EngineError::NotRunning);

    let rm_plan = rm(&mut st, &id).expect("rm an exited container");
    assert_eq!(rm_plan.overlay_root, format!("/root/.mydocker/overlay2/{}", id));
    assert_eq!(rm_plan.metainfo_dir, format!("/root/.mydocker/containers/{}/", id));
    assert!(st.records.is_empty());
    assert_eq!(rm(&mut st, &id).unwrap_err(), EngineError::NoSuchContainer);
    assert_eq!(stop(&mut st, &id).unwrap_err(), EngineError::NoSuchContainer);
}

#[test]
fn start_after_stop_gets_a_new_pid() {
    let mut st = HostState::new();
    let cmd = spec_of("busybox", "sleep", vec!["100".to_string()], true);
    let (id, _, _) = run(&mut st, cmd, 42).expect("run succeeds");
    stop(&mut st, &id).expect("stop succeeds");

    let started = start(&mut st, &id, 77).expect("start succeeds");
    assert!(started.is_some());
    let k = st.find_record(&id).expect("record kept");
    assert!(is_running(&st.records[k]));
    let new_pid = get_pid(&st.records[k]);
    assert_eq!(new_pid, 77);
    assert_ne!(new_pid, 42);
    // the persisted command was reused
    assert_eq!(st.records[k].command.image, "busybox");

    // starting a running container is a message, not a change
    assert!(start(&mut st, &id, 99).expect("no-op").is_none());
    assert_eq!(get_pid(&st.records[st.find_record(&id).unwrap()]), 77);
}

#[test]
fn run_with_bad_memory_limit_changes_nothing() {
    let mut st = HostState::new();
    let mut cmd = spec_of("busybox", "sh", vec![], false);
    cmd.mem = Some("notasize".to_string());
    match run_container(&mut st, cmd, "1111111111".to_string(), 5) {
        Err(EngineError::InvalidMemoryLimit) => (),
        other => panic!("expected the memory limit error, got {:?}", other.is_ok()),
    }
    assert!(st.records.is_empty());
    assert!(st.workspaces.is_empty());
    assert!(st.cgroups.is_empty());
}

#[test]
fn stop_refuses_an_unusable_stored_volume() {
    let mut st = HostState::new();
    let mut cmd = spec_of("busybox", "sh", vec![], true);
    cmd.volume = Some("nocolon".to_string());
    // a record can carry such a volume only if it was written around
    // the engine; stop then refuses rather than unmounting blindly
    st.records.push(mydocker::metainfo::init_metainfo("2222222222", 9, cmd));
    match stop(&mut st, "2222222222") {
        Err(EngineError::InvalidVolumeSpec) => (),
        _ => panic!("expected the volume error"),
    }
    assert!(is_running(&st.records[0]), "a refused stop changes nothing");
}

#[test]
fn prune_removes_exactly_the_exited() {
    let mut st = HostState::new();
    let mk = |img: &str| spec_of(img, "sleep", vec!["9".to_string()], true);
    let (id_a, _, _) = run(&mut st, mk("a"), 1).expect("run a");
    let (id_b, _, _) = run(&mut st, mk("b"), 2).expect("run b");
    let (id_c, _, _) = run(&mut st, mk("c"), 3).expect("run c");
    stop(&mut st, &id_a).expect("stop a");
    stop(&mut st, &id_c).expect("stop c");

    let removed = prune(&mut st);
    let removed_ids: Vec<String> = removed.iter().map(|it| it.id.clone()).collect();
    assert_eq!(removed_ids, vec![id_a.clone(), id_c.clone()]);
    for it in &removed {
        assert_eq!(it.overlay_root, format!("/root/.mydocker/overlay2/{}", it.id));
        assert_eq!(it.metainfo_dir, format!("/root/.mydocker/containers/{}/", it.id));
    }
    assert_eq!(st.records.len(), 1);
    assert_eq!(st.records[0].id, id_b);
    assert!(is_running(&st.records[0]));

    // pruning again removes nothing
    assert!(prune(&mut st).is_empty());
    assert_eq!(st.records.len(), 1);
}
