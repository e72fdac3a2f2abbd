use vstd::prelude::*;

verus! {

/// Every on-disk location the engine touches is derived from one of three
/// fixed roots and the container id (or image name).  Each builder states
/// the exact character sequence it produces, so that the same id is
/// provably used for the metainfo record, the overlay workspace and the
/// control group of one container.
pub open spec fn metainfo_base() -> Seq<char> {
    "/root/.mydocker/containers/"@
}

pub open spec fn image_base() -> Seq<char> {
    "/root/.mydocker/image/"@
}

pub open spec fn rootfs_base() -> Seq<char> {
    "/root/.mydocker/overlay2/"@
}

pub open spec fn cgroup_base() -> Seq<char> {
    "/sys/fs/cgroup/"@
}

pub open spec fn metainfo_dir_spec(id: Seq<char>) -> Seq<char> {
    metainfo_base() + id + "/"@
}

pub open spec fn config_path_spec(id: Seq<char>) -> Seq<char> {
    metainfo_base() + id + "/config.json"@
}

pub open spec fn log_path_spec(id: Seq<char>) -> Seq<char> {
    metainfo_base() + id + "/container.log"@
}

pub open spec fn overlay_root_spec(id: Seq<char>) -> Seq<char> {
    rootfs_base() + id
}

pub open spec fn lower_dir_spec(id: Seq<char>, image: Seq<char>) -> Seq<char> {
    rootfs_base() + id + "/"@ + image
}

pub open spec fn upper_dir_spec(id: Seq<char>) -> Seq<char> {
    rootfs_base() + id + "/upper"@
}

pub open spec fn work_dir_spec(id: Seq<char>) -> Seq<char> {
    rootfs_base() + id + "/work"@
}

pub open spec fn merged_dir_spec(id: Seq<char>) -> Seq<char> {
    rootfs_base() + id + "/merged"@
}

pub open spec fn old_root_spec(id: Seq<char>) -> Seq<char> {
    rootfs_base() + id + "/merged/.old_root"@
}

pub open spec fn volume_mount_point_spec(id: Seq<char>, container_path: Seq<char>) -> Seq<char> {
    rootfs_base() + id + "/merged"@ + container_path
}

pub open spec fn image_tar_spec(image: Seq<char>) -> Seq<char> {
    image_base() + image + ".tar"@
}

pub open spec fn cgroup_dir_spec(id: Seq<char>) -> Seq<char> {
    cgroup_base() + id
}

pub open spec fn cpu_max_path_spec(id: Seq<char>) -> Seq<char> {
    cgroup_base() + id + "/cpu.max"@
}

pub open spec fn memory_max_path_spec(id: Seq<char>) -> Seq<char> {
    cgroup_base() + id + "/memory.max"@
}

pub open spec fn cgroup_procs_path_spec(id: Seq<char>) -> Seq<char> {
    cgroup_base() + id + "/cgroup.procs"@
}

pub open spec fn memory_events_path_spec(id: Seq<char>) -> Seq<char> {
    cgroup_base() + id + "/memory.events.local"@
}

fn path2(a: &'static str, b: &str) -> (r: String)
    ensures
        r@ == a@ + b@,
{
    let mut s = String::from_str(a);
    s.append(b);
    s
}

fn path3(a: &'static str, b: &str, c: &'static str) -> (r: String)
    ensures
        r@ == a@ + b@ + c@,
{
    let mut s = String::from_str(a);
    s.append(b);
    s.append(c);
    s
}

pub fn metainfo_dir(id: &str) -> (r: String)
    ensures
        r@ == metainfo_dir_spec(id@),
{
    path3("/root/.mydocker/containers/", id, "/")
}

pub fn config_path(id: &str) -> (r: String)
    ensures
        r@ == config_path_spec(id@),
{
    path3("/root/.mydocker/containers/", id, "/config.json")
}

pub fn log_path(id: &str) -> (r: String)
    ensures
        r@ == log_path_spec(id@),
{
    path3("/root/.mydocker/containers/", id, "/container.log")
}

pub fn overlay_root(id: &str) -> (r: String)
    ensures
        r@ == overlay_root_spec(id@),
{
    path2("/root/.mydocker/overlay2/", id)
}

pub fn lower_dir(id: &str, image: &str) -> (r: String)
    ensures
        r@ == lower_dir_spec(id@, image@),
{
    let mut s = path3("/root/.mydocker/overlay2/", id, "/");
    s.append(image);
    s
}

pub fn upper_dir(id: &str) -> (r: String)
    ensures
        r@ == upper_dir_spec(id@),
{
    path3("/root/.mydocker/overlay2/", id, "/upper")
}

pub fn work_dir(id: &str) -> (r: String)
    ensures
        r@ == work_dir_spec(id@),
{
    path3("/root/.mydocker/overlay2/", id, "/work")
}

pub fn merged_dir(id: &str) -> (r: String)
    ensures
        r@ == merged_dir_spec(id@),
{
    path3("/root/.mydocker/overlay2/", id, "/merged")
}

pub fn old_root_dir(id: &str) -> (r: String)
    ensures
        r@ == old_root_spec(id@),
{
    path3("/root/.mydocker/overlay2/", id, "/merged/.old_root")
}

pub fn volume_mount_point(id: &str, container_path: &str) -> (r: String)
    ensures
        r@ == volume_mount_point_spec(id@, container_path@),
{
    let mut s = path3("/root/.mydocker/overlay2/", id, "/merged");
    s.append(container_path);
    s
}

pub fn image_tar_path(image: &str) -> (r: String)
    ensures
        r@ == image_tar_spec(image@),
{
    path3("/root/.mydocker/image/", image, ".tar")
}

pub fn cgroup_dir(id: &str) -> (r: String)
    ensures
        r@ == cgroup_dir_spec(id@),
{
    path2("/sys/fs/cgroup/", id)
}

pub fn cpu_max_path(id: &str) -> (r: String)
    ensures
        r@ == cpu_max_path_spec(id@),
{
    path3("/sys/fs/cgroup/", id, "/cpu.max")
}

pub fn memory_max_path(id: &str) -> (r: String)
    ensures
        r@ == memory_max_path_spec(id@),
{
    path3("/sys/fs/cgroup/", id, "/memory.max")
}

pub fn cgroup_procs_path(id: &str) -> (r: String)
    ensures
        r@ == cgroup_procs_path_spec(id@),
{
    path3("/sys/fs/cgroup/", id, "/cgroup.procs")
}

pub fn memory_events_path(id: &str) -> (r: String)
    ensures
        r@ == memory_events_path_spec(id@),
{
    path3("/sys/fs/cgroup/", id, "/memory.events.local")
}

proof fn lemma_embed_injective(a: Seq<char>, id1: Seq<char>, id2: Seq<char>, s: Seq<char>)
    requires
        id1.len() == id2.len(),
        a + id1 + s == a + id2 + s,
    ensures
        id1 == id2,
{
    assert forall|i: int| 0 <= i < id1.len() implies id1[i] == id2[i] by {
        assert((a + id1 + s)[a.len() + i] == id1[i]);
        assert((a + id2 + s)[a.len() + i] == id2[i]);
    }
    assert(id1 =~= id2);
}

/// One container id names one metainfo record, one overlay workspace and
/// one control group: each of the three paths embeds the id itself, and
/// two ids of equal length share a path only if they are the same id.
pub proof fn lemma_paths_consistent(id1: Seq<char>, id2: Seq<char>)
    requires
        id1.len() == id2.len(),
    ensures
        (config_path_spec(id1) == config_path_spec(id2)) <==> id1 == id2,
        (overlay_root_spec(id1) == overlay_root_spec(id2)) <==> id1 == id2,
        (cgroup_dir_spec(id1) == cgroup_dir_spec(id2)) <==> id1 == id2,
        config_path_spec(id1).subrange(
            metainfo_base().len() as int,
            metainfo_base().len() + id1.len() as int,
        ) == id1,
        overlay_root_spec(id1).subrange(
            rootfs_base().len() as int,
            rootfs_base().len() + id1.len() as int,
        ) == id1,
        cgroup_dir_spec(id1).subrange(
            cgroup_base().len() as int,
            cgroup_base().len() + id1.len() as int,
        ) == id1,
{
    if config_path_spec(id1) == config_path_spec(id2) {
        lemma_embed_injective(metainfo_base(), id1, id2, "/config.json"@);
    }
    if overlay_root_spec(id1) == overlay_root_spec(id2) {
        assert(rootfs_base() + id1 + Seq::<char>::empty() =~= overlay_root_spec(id1));
        assert(rootfs_base() + id2 + Seq::<char>::empty() =~= overlay_root_spec(id2));
        lemma_embed_injective(rootfs_base(), id1, id2, Seq::<char>::empty());
    }
    if cgroup_dir_spec(id1) == cgroup_dir_spec(id2) {
        assert(cgroup_base() + id1 + Seq::<char>::empty() =~= cgroup_dir_spec(id1));
        assert(cgroup_base() + id2 + Seq::<char>::empty() =~= cgroup_dir_spec(id2));
        lemma_embed_injective(cgroup_base(), id1, id2, Seq::<char>::empty());
    }
    assert(config_path_spec(id1).subrange(
        metainfo_base().len() as int,
        metainfo_base().len() + id1.len() as int,
    ) =~= id1);
    assert(overlay_root_spec(id1).subrange(
        rootfs_base().len() as int,
        rootfs_base().len() + id1.len() as int,
    ) =~= id1);
    assert(cgroup_dir_spec(id1).subrange(
        cgroup_base().len() as int,
        cgroup_base().len() + id1.len() as int,
    ) =~= id1);
}

} // verus!
