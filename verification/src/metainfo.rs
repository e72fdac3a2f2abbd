use vstd::prelude::*;
use crate::digits::{all_digits, digit_char, digit_to_str, is_digit};

verus! {

/// A container is either believed to have a live isolated process
/// (`Running`) or is known to have none (`Exited`).
#[derive(PartialEq, Eq, Structural, Clone, Copy, Debug)]
pub enum Status {
    Running,
    Exited,
}

/// The command specification a container was created with: image
/// reference, entry command, arguments, and the optional volume, resource
/// limits, network and detach settings.
pub struct RunCommand {
    pub cpu: Option<u32>,
    pub mem: Option<String>,
    pub volume: Option<String>,
    pub detach: bool,
    pub net: Option<String>,
    pub image: String,
    pub command: String,
    pub args: Vec<String>,
}

/// The durable per-container record: identity, optional pid, command
/// specification and status.  One such record is kept per container id.
pub struct Metainfo {
    pub pid: Option<u32>,
    pub id: String,
    pub command: RunCommand,
    pub status: Status,
}

pub struct RunCommandView {
    pub cpu: Option<u32>,
    pub mem: Option<Seq<char>>,
    pub volume: Option<Seq<char>>,
    pub detach: bool,
    pub net: Option<Seq<char>>,
    pub image: Seq<char>,
    pub command: Seq<char>,
    pub args: Seq<Seq<char>>,
}

pub struct MetainfoView {
    pub pid: Option<u32>,
    pub id: Seq<char>,
    pub command: RunCommandView,
    pub status: Status,
}

pub open spec fn view_opt_string(o: Option<String>) -> Option<Seq<char>> {
    match o {
        Some(s) => Some(s@),
        None => None,
    }
}

impl View for RunCommand {
    type V = RunCommandView;

    open spec fn view(&self) -> RunCommandView {
        RunCommandView {
            cpu: self.cpu,
            mem: view_opt_string(self.mem),
            volume: view_opt_string(self.volume),
            detach: self.detach,
            net: view_opt_string(self.net),
            image: self.image@,
            command: self.command@,
            args: self.args@.map_values(|s: String| s@),
        }
    }
}

impl View for Metainfo {
    type V = MetainfoView;

    open spec fn view(&self) -> MetainfoView {
        MetainfoView {
            pid: self.pid,
            id: self.id@,
            command: self.command@,
            status: self.status,
        }
    }
}

/// A record is well formed when a pid is present exactly while the
/// container counts as running.
pub open spec fn record_wf(m: MetainfoView) -> bool {
    m.status == Status::Running <==> m.pid is Some
}

fn clone_opt_string(o: &Option<String>) -> (r: Option<String>)
    ensures
        view_opt_string(r) == view_opt_string(*o),
{
    match o {
        Some(s) => Some(s.clone()),
        None => None,
    }
}

fn clone_string_vec(v: &Vec<String>) -> (r: Vec<String>)
    ensures
        r@.map_values(|s: String| s@) == v@.map_values(|s: String| s@),
{
    let mut r: Vec<String> = Vec::new();
    let mut i: usize = 0;
    while i < v.len()
        invariant
            i <= v.len(),
            r@.len() == i,
            forall|k: int| 0 <= k < i ==> r@[k]@ == v@[k]@,
        decreases v.len() - i,
    {
        r.push(v[i].clone());
        i = i + 1;
    }
    proof {
        assert(r@.map_values(|s: String| s@) =~= v@.map_values(|s: String| s@));
    }
    r
}

impl Clone for RunCommand {
    /// A copy with the very same specification, field by field.
    fn clone(&self) -> (r: Self)
        ensures
            r@ == self@,
    {
        let r = RunCommand {
            cpu: self.cpu,
            mem: clone_opt_string(&self.mem),
            volume: clone_opt_string(&self.volume),
            detach: self.detach,
            net: clone_opt_string(&self.net),
            image: self.image.clone(),
            command: self.command.clone(),
            args: clone_string_vec(&self.args),
        };
        r
    }
}

impl Clone for Metainfo {
    fn clone(&self) -> (r: Self)
        ensures
            r@ == self@,
    {
        Metainfo {
            pid: self.pid,
            id: self.id.clone(),
            command: self.command.clone(),
            status: self.status,
        }
    }
}

/// The fresh record written when a container is first run: status
/// Running, the given pid, and the given command specification.
pub fn init_metainfo(container_id: &str, pid: u32, command: RunCommand) -> (m: Metainfo)
    ensures
        m@.id == container_id@,
        m@.pid == Some(pid),
        m@.command == command@,
        m@.status == Status::Running,
        record_wf(m@),
{
    Metainfo { pid: Some(pid), id: String::from_str(container_id), command, status: Status::Running }
}

/// Mark the container exited: status Exited, pid cleared, identity and
/// command untouched.
pub fn record_exit(m: &mut Metainfo)
    ensures
        final(m)@.status == Status::Exited,
        final(m)@.pid is None,
        final(m)@.id == old(m)@.id,
        final(m)@.command == old(m)@.command,
        record_wf(final(m)@),
{
    m.status = Status::Exited;
    m.pid = None;
}

/// Mark the container running under the given pid; identity and command
/// untouched.
pub fn record_running(m: &mut Metainfo, pid: u32)
    ensures
        final(m)@.status == Status::Running,
        final(m)@.pid == Some(pid),
        final(m)@.id == old(m)@.id,
        final(m)@.command == old(m)@.command,
        record_wf(final(m)@),
{
    m.status = Status::Running;
    m.pid = Some(pid);
}

/// The recorded pid; only meaningful while a process is believed running.
pub fn get_pid(m: &Metainfo) -> (r: u32)
    requires
        m@.pid is Some,
    ensures
        m@.pid == Some(r),
{
    match m.pid {
        Some(p) => p,
        None => unreached(),
    }
}

pub fn is_running(m: &Metainfo) -> (r: bool)
    ensures
        r == (m@.status == Status::Running),
{
    m.status == Status::Running
}

pub fn get_volume(m: &Metainfo) -> (r: Option<String>)
    ensures
        view_opt_string(r) == m@.command.volume,
{
    clone_opt_string(&m.command.volume)
}

pub fn get_command(m: &Metainfo) -> (r: RunCommand)
    ensures
        r@ == m@.command,
{
    m.command.clone()
}

/// Relies on rand::random: a fresh pseudo-random draw; nothing is assumed
/// about its value.
#[verifier::external_body]
fn random_u32() -> u32 {
    rand::random::<u32>()
}

/// A freshly generated container id: ten decimal digits.
pub fn gen_id() -> (r: String)
    ensures
        r@.len() == 10,
        all_digits(r@),
{
    let mut id = String::new();
    let mut k: usize = 0;
    while k < 10
        invariant
            k <= 10,
            id@.len() == k,
            all_digits(id@),
        decreases 10 - k,
    {
        let d = (random_u32() % 10) as u64;
        let ghost prev = id@;
        id.append(digit_to_str(d));
        proof {
            assert(is_digit(digit_char(d as int)));
            assert forall|i: int| 0 <= i < id@.len() implies is_digit(#[trigger] id@[i]) by {
                if i < prev.len() {
                    assert(id@[i] == prev[i]);
                } else {
                    assert(id@[i] == digit_char(d as int));
                }
            }
        }
        k = k + 1;
    }
    id
}

} // verus!
