use mydocker::digits::{str_eq, u32_to_string, u64_to_string};
use mydocker::json::{from_json, store_round_trip, to_json};
use mydocker::metainfo::{
    gen_id, get_command, get_pid, get_volume, init_metainfo, is_running, record_exit,
    record_running, Metainfo, RunCommand, Status,
};
use mydocker::paths::{
    cgroup_dir, cgroup_procs_path, config_path, cpu_max_path, image_tar_path, log_path,
    memory_events_path, memory_max_path, merged_dir, metainfo_dir, old_root_dir, overlay_root,
    upper_dir, volume_mount_point, work_dir,
};

fn sample_command() -> RunCommand {
    RunCommand {
        cpu: Some(2),
        mem: Some("100m".to_string()),
        volume: Some("/data:/mnt".to_string()),
        detach: true,
        net: None,
        image: "busybox".to_string(),
        command: "sleep".to_string(),
        args: vec!["100".to_string(), "x".to_string()],
    }
}

#[test]
fn decimal_rendering() {
    assert_eq!(u64_to_string(0), "0");
    assert_eq!(u64_to_string(7), "7");
    assert_eq!(u64_to_string(1000), "1000");
    assert_eq!(u64_to_string(18446744073709551615), "18446744073709551615");
    assert_eq!(u32_to_string(4294967295), "4294967295");
}

#[test]
fn text_equality() {
    assert!(str_eq("abc", "abc"));
    assert!(!str_eq("abc", "abd"));
    assert!(!str_eq("abc", "abcd"));
    assert!(str_eq("", ""));
}

#[test]
fn generated_ids_are_ten_digits() {
    for _ in 0..50 {
        let id = gen_id();
        assert_eq!(id.len(), 10);
        assert!(id.chars().all(|c| c.is_ascii_digit()));
    }
}

#[test]
fn generated_ids_are_unique() {
    let mut ids = Vec::new();
    for _ in 0..50 {
        ids.push(gen_id());
    }
    for i in 0..ids.len() {
        for j in 0..i {
            assert_ne!(ids[i], ids[j]);
        }
    }
}

#[test]
fn paths_use_the_same_id() {
    let id = "0123456789";
    assert_eq!(metainfo_dir(id), "/root/.mydocker/containers/0123456789/");
    assert_eq!(config_path(id), "/root/.mydocker/containers/0123456789/config.json");
    assert_eq!(log_path(id), "/root/.mydocker/containers/0123456789/container.log");
    assert_eq!(overlay_root(id), "/root/.mydocker/overlay2/0123456789");
    assert_eq!(upper_dir(id), "/root/.mydocker/overlay2/0123456789/upper");
    assert_eq!(work_dir(id), "/root/.mydocker/overlay2/0123456789/work");
    assert_eq!(merged_dir(id), "/root/.mydocker/overlay2/0123456789/merged");
    assert_eq!(old_root_dir(id), "/root/.mydocker/overlay2/0123456789/merged/.old_root");
    assert_eq!(volume_mount_point(id, "/mnt"), "/root/.mydocker/overlay2/0123456789/merged/mnt");
    assert_eq!(image_tar_path("busybox"), "/root/.mydocker/image/busybox.tar");
    assert_eq!(cgroup_dir(id), "/sys/fs/cgroup/0123456789");
    assert_eq!(cpu_max_path(id), "/sys/fs/cgroup/0123456789/cpu.max");
    assert_eq!(memory_max_path(id), "/sys/fs/cgroup/0123456789/memory.max");
    assert_eq!(cgroup_procs_path(id), "/sys/fs/cgroup/0123456789/cgroup.procs");
    assert_eq!(memory_events_path(id), "/sys/fs/cgroup/0123456789/memory.events.local");
}

#[test]
fn record_transitions() {
    let mut m = init_metainfo("0123456789", 42, sample_command());
    assert!(is_running(&m));
    assert_eq!(get_pid(&m), 42);
    record_exit(&mut m);
    assert!(!is_running(&m));
    assert!(m.pid.is_none());
    record_running(&mut m, 77);
    assert!(is_running(&m));
    assert_eq!(get_pid(&m), 77);
    assert_eq!(get_volume(&m), Some("/data:/mnt".to_string()));
    let cmd = get_command(&m);
    assert_eq!(cmd.image, "busybox");
    assert_eq!(cmd.args, vec!["100".to_string(), "x".to_string()]);
}

#[test]
fn config_document_text_is_exact() {
    let m = init_metainfo("0123456789", 1234, sample_command());
    let text = to_json(&m);
    let expected = "{\"pid\":1234,\"id\":\"0123456789\",\"command\":{\"cpu\":2,\"mem\":\"100m\",\"volume\":\"/data:/mnt\",\"detach\":true,\"net\":null,\"image\":\"busybox\",\"command\":\"sleep\",\"args\":[\"100\",\"x\"]},\"status\":\"running\"}";
    assert_eq!(text, expected);
}

#[test]
fn round_trip_running_record() {
    let m = init_metainfo("0123456789", 1234, sample_command());
    let back = store_round_trip(&m);
    assert_eq!(back.id, m.id);
    assert_eq!(back.pid, Some(1234));
    assert_eq!(back.status, Status::Running);
    assert_eq!(back.command.cpu, Some(2));
    assert_eq!(back.command.mem, Some("100m".to_string()));
    assert_eq!(back.command.volume, Some("/data:/mnt".to_string()));
    assert!(back.command.detach);
    assert_eq!(back.command.net, None);
    assert_eq!(back.command.image, "busybox");
    assert_eq!(back.command.command, "sleep");
    assert_eq!(back.command.args, vec!["100".to_string(), "x".to_string()]);
}

#[test]
fn round_trip_exited_record() {
    let mut m = init_metainfo("42", 9, sample_command());
    record_exit(&mut m);
    let text = to_json(&m);
    let back = from_json(&text).expect("the store's own text reads back");
    assert_eq!(back.pid, None);
    assert_eq!(back.status, Status::Exited);
    assert_eq!(back.id, "42");
}

#[test]
fn round_trip_empty_args_and_nulls() {
    let m = Metainfo {
        pid: Some(1),
        id: "7".to_string(),
        command: RunCommand {
            cpu: None,
            mem: None,
            volume: None,
            detach: false,
            net: Some("bridge0".to_string()),
            image: "alpine".to_string(),
            command: "sh".to_string(),
            args: vec![],
        },
        status: Status::Running,
    };
    let text = to_json(&m);
    assert!(text.contains("\"cpu\":null"));
    assert!(text.contains("\"args\":[]"));
    let back = from_json(&text).expect("reads back");
    assert_eq!(back.command.net, Some("bridge0".to_string()));
    assert_eq!(back.command.args, Vec::<String>::new());
}

#[test]
fn strings_travel_escaped() {
    let m = Metainfo {
        pid: Some(3),
        id: "9".to_string(),
        command: RunCommand {
            cpu: None,
            mem: None,
            volume: None,
            detach: false,
            net: None,
            image: "a\"b\\c".to_string(),
            command: "sh".to_string(),
            args: vec!["echo \"hi\"".to_string(), "line\nbreak\tand\u{1b}esc".to_string()],
        },
        status: Status::Running,
    };
    let text = to_json(&m);
    assert!(text.contains("\"image\":\"a\\\"b\\\\c\""));
    assert!(text.contains("\\n"));
    assert!(text.contains("\\t"));
    assert!(text.contains("\\u001b"));
    let back = from_json(&text).expect("escaped text reads back");
    assert_eq!(back.command.image, "a\"b\\c");
    assert_eq!(back.command.args[0], "echo \"hi\"");
    assert_eq!(back.command.args[1], "line\nbreak\tand\u{1b}esc");
}

#[test]
fn control_characters_round_trip() {
    let mut wild = String::new();
    for code in 0u32..32u32 {
        wild.push(char::from_u32(code).unwrap());
    }
    let m = Metainfo {
        pid: None,
        id: "8".to_string(),
        command: RunCommand {
            cpu: None,
            mem: None,
            volume: None,
            detach: true,
            net: None,
            image: wild.clone(),
            command: "sh".to_string(),
            args: vec![],
        },
        status: Status::Exited,
    };
    let back = store_round_trip(&m);
    assert_eq!(back.command.image, wild);
}

#[test]
fn reader_rejects_malformed_documents() {
    assert!(from_json("").is_none());
    assert!(from_json("{}").is_none());
    assert!(from_json("{\"pid\":null}").is_none());
    // a non-canonical number is not the store's own writing
    assert!(
        from_json(
            "{\"pid\":007,\"id\":\"1\",\"command\":{\"cpu\":null,\"mem\":null,\
             \"volume\":null,\"detach\":false,\"net\":null,\"image\":\"a\",\
             \"command\":\"b\",\"args\":[]},\"status\":\"running\"}"
        )
        .is_none()
    );
    // a raw control character or an unknown escape is not the store's
    // own writing either
    let m = init_metainfo("1", 2, sample_command());
    let good = to_json(&m);
    assert!(from_json(&good.replace("busybox", "busy\tbox")).is_none());
    assert!(from_json(&good.replace("busybox", "busy\\xbox")).is_none());
    assert!(from_json(&good.replace("busybox", "busy\\u0041box")).is_none());
    // trailing text after the document is refused
    let mut text = good;
    text.push(' ');
    assert!(from_json(&text).is_none());
}
