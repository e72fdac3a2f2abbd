use vstd::prelude::*;
use crate::paths::{
    image_tar_path, image_tar_spec, lower_dir, lower_dir_spec, merged_dir, merged_dir_spec,
    overlay_root, overlay_root_spec, upper_dir, upper_dir_spec, volume_mount_point,
    volume_mount_point_spec, work_dir, work_dir_spec,
};

verus! {

/// The per-container layered filesystem, planned: which archive must
/// exist, which directories to create, the union mount, and the optional
/// volume bind mount.  The executable shell performs the steps in the
/// order the fields are laid out; in particular the volume bind mount
/// comes strictly after the union mount, since its target only exists
/// inside the mounted union view.
pub struct WorkspacePlan {
    pub image_tar: String,
    pub lower: String,
    pub upper: String,
    pub work: String,
    pub merged: String,
    pub mount_options: String,
    pub volume: Option<VolumeMount>,
}

/// One bind mount of an existing host directory onto a directory inside
/// the merged view.
pub struct VolumeMount {
    pub host_path: String,
    pub mount_point: String,
}

/// Tearing a workspace down, planned: unmount the volume first (if one
/// was configured), then unmount the merged view, then remove the
/// directories in the order given — the writable layers, and last the
/// whole per-container overlay directory, lower layer included.
#[derive(Debug)]
pub struct TeardownPlan {
    pub volume_unmount: Option<String>,
    pub merged_unmount: String,
    pub remove_dirs: Vec<String>,
}

/// A volume specification must be `hostPath:containerPath`.
#[derive(PartialEq, Eq, Structural, Clone, Copy, Debug)]
pub enum StorageError {
    InvalidVolumeFormat,
}

/// Position of the first colon of `v`, or `v.len()` and beyond where
/// none stands.
pub open spec fn first_colon(v: Seq<char>) -> int
    decreases v.len(),
{
    if v.len() == 0 {
        0
    } else if v[0] == ':' {
        0
    } else {
        1 + first_colon(v.drop_first())
    }
}

pub proof fn lemma_first_colon_at(v: Seq<char>, k: int)
    requires
        0 <= k < v.len(),
        v[k] == ':',
        forall|j: int| 0 <= j < k ==> v[j] != ':',
    ensures
        first_colon(v) == k,
    decreases v.len(),
{
    if k > 0 {
        let d = v.drop_first();
        assert(forall|j: int| 0 <= j < d.len() ==> d[j] == v[j + 1]);
        lemma_first_colon_at(d, k - 1);
    }
}

pub proof fn lemma_no_colon(v: Seq<char>)
    requires
        forall|j: int| 0 <= j < v.len() ==> v[j] != ':',
    ensures
        first_colon(v) >= v.len(),
    decreases v.len(),
{
    if v.len() > 0 {
        let d = v.drop_first();
        assert(forall|j: int| 0 <= j < d.len() ==> d[j] == v[j + 1]);
        lemma_no_colon(d);
    }
}

/// Split a volume specification on its first colon.
pub fn parse_volume(volume: &str) -> (r: Option<(String, String)>)
    ensures
        match r {
            Some(hc) => {
                let k = first_colon(volume@);
                &&& 0 <= k < volume@.len()
                &&& volume@[k] == ':'
                &&& hc.0@ == volume@.subrange(0, k)
                &&& hc.1@ == volume@.subrange(k + 1, volume@.len() as int)
            },
            None => first_colon(volume@) >= volume@.len(),
        },
{
    let n = volume.unicode_len();
    let mut k: usize = 0;
    let mut found = false;
    while k < n && !found
        invariant
            k <= n,
            n == volume@.len(),
            found ==> k < n && volume@[k as int] == ':',
            forall|j: int| 0 <= j < k ==> volume@[j] != ':',
        decreases n - k + (if found {
            0int
        } else {
            1int
        }),
    {
        if volume.get_char(k) == ':' {
            found = true;
        } else {
            k = k + 1;
        }
    }
    if !found {
        proof {
            lemma_no_colon(volume@);
        }
        return None;
    }
    proof {
        lemma_first_colon_at(volume@, k as int);
    }
    let host = String::from_str(volume.substring_char(0, k));
    let cont = String::from_str(volume.substring_char(k + 1, n));
    Some((host, cont))
}

/// The image archive that backs the lower layer, and the lower layer
/// directory it is extracted into when absent.
fn create_lower(container_id: &str, image: &str) -> (r: (String, String))
    ensures
        r.0@ == image_tar_spec(image@),
        r.1@ == lower_dir_spec(container_id@, image@),
{
    (image_tar_path(image), lower_dir(container_id, image))
}

/// The writable directories of a workspace: upper, work and merged, in
/// that order, each created when absent.
pub fn create_others(container_id: &str) -> (r: Vec<String>)
    ensures
        r@.len() == 3,
        r@[0]@ == upper_dir_spec(container_id@),
        r@[1]@ == work_dir_spec(container_id@),
        r@[2]@ == merged_dir_spec(container_id@),
{
    let mut dirs: Vec<String> = Vec::new();
    dirs.push(upper_dir(container_id));
    dirs.push(work_dir(container_id));
    dirs.push(merged_dir(container_id));
    dirs
}

/// The option string of the union mount.
pub open spec fn mount_options_spec(id: Seq<char>, image: Seq<char>) -> Seq<char> {
    "lowerdir="@ + lower_dir_spec(id, image) + ",upperdir="@ + upper_dir_spec(id) + ",workdir="@
        + work_dir_spec(id)
}

/// The union mount at merged: its option string and its target.
fn mount_overlayfs(container_id: &str, image: &str) -> (r: (String, String))
    ensures
        r.0@ == mount_options_spec(container_id@, image@),
        r.1@ == merged_dir_spec(container_id@),
{
    let mut options = String::from_str("lowerdir=");
    let lower = lower_dir(container_id, image);
    options.append(lower.as_str());
    options.append(",upperdir=");
    let upper = upper_dir(container_id);
    options.append(upper.as_str());
    options.append(",workdir=");
    let work = work_dir(container_id);
    options.append(work.as_str());
    (options, merged_dir(container_id))
}

/// Plan the per-container workspace: verify the image archive, create
/// the lower layer from it when absent, create upper/work/merged, mount
/// the union view, and bind-mount the volume last.
pub fn new_workspace(container_id: &str, image: &str, volumn: Option<&str>) -> (r: Result<
    WorkspacePlan,
    StorageError,
>)
    ensures
        match r {
            Ok(p) => {
                &&& p.image_tar@ == image_tar_spec(image@)
                &&& p.lower@ == lower_dir_spec(container_id@, image@)
                &&& p.upper@ == upper_dir_spec(container_id@)
                &&& p.work@ == work_dir_spec(container_id@)
                &&& p.merged@ == merged_dir_spec(container_id@)
                &&& p.mount_options@ == mount_options_spec(container_id@, image@)
                &&& match volumn {
                    None => p.volume is None,
                    Some(v) => match p.volume {
                        Some(vm) => {
                            let k = first_colon(v@);
                            &&& 0 <= k < v@.len()
                            &&& vm.host_path@ == v@.subrange(0, k)
                            &&& vm.mount_point@ == volume_mount_point_spec(
                                container_id@,
                                v@.subrange(k + 1, v@.len() as int),
                            )
                        },
                        None => false,
                    },
                }
            },
            Err(e) => {
                &&& e == StorageError::InvalidVolumeFormat
                &&& volumn is Some
                &&& first_colon(volumn->Some_0@) >= volumn->Some_0@.len()
            },
        },
{
    let (image_tar, lower) = create_lower(container_id, image);
    let dirs = create_others(container_id);
    let (mount_options, merged) = mount_overlayfs(container_id, image);
    let volume = match volumn {
        None => None,
        Some(v) => match parse_volume(v) {
            None => {
                return Err(StorageError::InvalidVolumeFormat);
            },
            Some((host, cont)) => Some(
                VolumeMount {
                    host_path: host,
                    mount_point: volume_mount_point(container_id, cont.as_str()),
                },
            ),
        },
    };
    let upper = upper_dir(container_id);
    let work = work_dir(container_id);
    Ok(WorkspacePlan { image_tar, lower, upper, work, merged, mount_options, volume })
}

/// Plan the inverse order: the volume unmount first, then the merged
/// unmount, then removal of upper, work, merged and the whole
/// per-container overlay directory with its lower layer.
pub fn delete_workspace(container_id: &str, volumn: Option<&str>) -> (r: Result<
    TeardownPlan,
    StorageError,
>)
    ensures
        match r {
            Ok(p) => {
                &&& match volumn {
                    None => p.volume_unmount is None,
                    Some(v) => match p.volume_unmount {
                        Some(mp) => first_colon(v@) < v@.len() && mp@
                            == volume_mount_point_spec(
                            container_id@,
                            v@.subrange(first_colon(v@) + 1, v@.len() as int),
                        ),
                        None => false,
                    },
                }
                &&& p.merged_unmount@ == merged_dir_spec(container_id@)
                &&& p.remove_dirs@.len() == 4
                &&& p.remove_dirs@[0]@ == upper_dir_spec(container_id@)
                &&& p.remove_dirs@[1]@ == work_dir_spec(container_id@)
                &&& p.remove_dirs@[2]@ == merged_dir_spec(container_id@)
                &&& p.remove_dirs@[3]@ == overlay_root_spec(container_id@)
            },
            Err(e) => {
                &&& e == StorageError::InvalidVolumeFormat
                &&& volumn is Some
                &&& first_colon(volumn->Some_0@) >= volumn->Some_0@.len()
            },
        },
{
    let volume_unmount = match volumn {
        None => None,
        Some(v) => match parse_volume(v) {
            None => {
                return Err(StorageError::InvalidVolumeFormat);
            },
            Some((_host, cont)) => {
                let mp = volume_mount_point(container_id, cont.as_str());
                Some(mp)
            },
        },
    };
    let mut remove_dirs = create_others(container_id);
    remove_dirs.push(overlay_root(container_id));
    Ok(
        TeardownPlan {
            volume_unmount,
            merged_unmount: merged_dir(container_id),
            remove_dirs,
        },
    )
}

} // verus!
