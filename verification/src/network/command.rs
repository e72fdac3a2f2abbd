use vstd::prelude::*;
use crate::digits::str_eq;
use crate::network::ipam::{bit_set, bm_set, entry_full, entry_usable, ip_val, ipam_view, is_subnet_text, register_network_subnet, sn_size, Ipam, SubNet};
use crate::network::network::{network_names, register_network, Network, Networks};
use crate::network::veth::Endpoint;

verus! {

/// Creating or joining a network can fail on a bad subnet text, an
/// unknown driver, or an address that cannot be had — the network is
/// unknown or its pool is exhausted.
#[derive(PartialEq, Eq, Structural, Clone, Copy, Debug)]
pub enum NetworkError {
    InvalidSubnet,
    UnknownDriver,
    PoolExhausted,
}

/// Create a network: the subnet text is parsed, the subnet registered
/// with the address manager under the network's name, and the network
/// itself recorded under the bridge driver — the one driver of the
/// closed set.  The bridge device itself is brought up by the
/// executable shell.
pub fn create_network(nets: &mut Networks, ipam: &mut Ipam, driver: &str, subnet: &str, name: &str) -> (r:
    Result<Network, NetworkError>)
    requires
        crate::network::ipam::ipam_wf(*old(ipam)),
        crate::network::network::networks_wf(*old(nets)),
    ensures
        crate::network::ipam::ipam_wf(*final(ipam)),
        crate::network::network::networks_wf(*final(nets)),
        match r {
            Ok(n) => {
                &&& driver@ == "bridge"@
                &&& n.name_view() == name@
                &&& n.driver_view() == "bridge"@
                &&& is_subnet_text(subnet@)
                &&& exists|k: int|
                    0 <= k < crate::network::network::networks_view(*final(nets)).len() && (
                    #[trigger] crate::network::network::networks_view(*final(nets))[k]).0
                        == name@
                &&& exists|k: int|
                    0 <= k < crate::network::ipam::ipam_view(*final(ipam)).len() && (
                    #[trigger] crate::network::ipam::ipam_view(*final(ipam))[k]).0 == name@
            },
            Err(NetworkError::UnknownDriver) => *final(nets) == *old(nets) && *final(ipam)
                == *old(ipam) && driver@ != "bridge"@,
            Err(NetworkError::InvalidSubnet) => *final(nets) == *old(nets) && *final(ipam)
                == *old(ipam) && driver@ == "bridge"@ && !is_subnet_text(subnet@),
            Err(_) => false,
        },
{
    if !str_eq(driver, "bridge") {
        return Err(NetworkError::UnknownDriver);
    }
    let sn = match SubNet::from_str(subnet) {
        Some(sn) => sn,
        None => {
            return Err(NetworkError::InvalidSubnet);
        },
    };
    register_network_subnet(ipam, name, sn);
    proof {
        let prev = crate::network::ipam::ipam_view(*old(ipam));
        let post = crate::network::ipam::ipam_view(*ipam);
        if exists|k: int| 0 <= k < prev.len() && (#[trigger] prev[k]).0 == name@ {
            let k0 = choose|k: int| 0 <= k < prev.len() && (#[trigger] prev[k]).0 == name@
                && post == prev.update(k, (name@, sn.ip@, sn.mask, sn.bitmap@));
            assert(post[k0].0 == name@);
        } else {
            assert(post.last().0 == name@);
        }
    }
    let network = Network::new(name, "bridge");
    let reg = Network::new(name, "bridge");
    register_network(nets, reg);
    proof {
        let prev = crate::network::network::networks_view(*old(nets));
        let post = crate::network::network::networks_view(*nets);
        if exists|k: int| 0 <= k < prev.len() && (#[trigger] prev[k]).0 == name@ {
            let k0 = choose|k: int| 0 <= k < prev.len() && (#[trigger] prev[k]).0 == name@
                && post == prev.update(k, (name@, "bridge"@));
            assert(post[k0].0 == name@);
        } else {
            assert(post.last().0 == name@);
        }
    }
    Ok(network)
}

/// The names of the created networks, for display.
pub fn list_network(nets: &Networks) -> (r: Vec<String>)
    ensures
        r@.map_values(|s: String| s@) == network_names(*nets),
{
    let mut names: Vec<String> = Vec::new();
    let mut k: usize = 0;
    while k < nets.entries.len()
        invariant
            k <= nets.entries@.len(),
            names@.len() == k,
            forall|j: int| 0 <= j < k ==> names@[j]@ == network_names(*nets)[j],
        decreases nets.entries@.len() - k,
    {
        names.push(String::from_str(nets.entries[k].get_name()));
        proof {
            assert(network_names(*nets)[k as int] == nets.entries@[k as int].name_view());
        }
        k = k + 1;
    }
    proof {
        assert(names@.map_values(|s: String| s@) =~= network_names(*nets));
    }
    names
}

/// Join a running container to a created network: an address is
/// allocated from the network's pool and the interface pair is named
/// from the first five characters of the container id — `veth<head>`
/// outside, `veth<head>peer` inside.  No address can be had only when
/// the network is unknown, its entry unusable, or its pool exhausted;
/// the table is then left untouched.  The executable shell wires the
/// pair up and moves the peer into the container's namespaces.
pub fn connect(ipam: &mut Ipam, network_name: &str, container_id: &str) -> (r: Result<
    Endpoint,
    NetworkError,
>)
    requires
        container_id@.len() >= 5,
        crate::network::ipam::ipam_wf(*old(ipam)),
    ensures
        crate::network::ipam::ipam_wf(*final(ipam)),
        match r {
            Ok(ep) => {
                &&& ep.id@ == container_id@
                &&& ep.network_name@ == network_name@
                &&& ep.peer_name is Some
                &&& ep.peer_name->Some_0@ == "veth"@ + container_id@.subrange(0, 5) + "peer"@
                &&& exists|k: int, i: int|
                    {
                        &&& 0 <= k < ipam_view(*old(ipam)).len()
                        &&& (#[trigger] ipam_view(*old(ipam))[k]).0 == network_name@
                        &&& ep.ip.1 == ipam_view(*old(ipam))[k].2
                        &&& 0 <= i < sn_size(ipam_view(*old(ipam))[k].2)
                        &&& !(#[trigger] bit_set(ipam_view(*old(ipam))[k].3, i))
                        &&& (forall|j: int|
                            0 <= j < i ==> bit_set(ipam_view(*old(ipam))[k].3, j))
                        &&& ip_val(ep.ip.0@) == ip_val(ipam_view(*old(ipam))[k].1) + i
                        &&& ipam_view(*final(ipam)) == ipam_view(*old(ipam)).update(
                            k,
                            (
                                ipam_view(*old(ipam))[k].0,
                                ipam_view(*old(ipam))[k].1,
                                ipam_view(*old(ipam))[k].2,
                                bm_set(ipam_view(*old(ipam))[k].3, i),
                            ),
                        )
                    }
            },
            Err(NetworkError::PoolExhausted) => ipam_view(*final(ipam)) == ipam_view(*old(ipam))
                && ((forall|k: int|
                0 <= k < ipam_view(*old(ipam)).len() ==> (#[trigger] ipam_view(*old(ipam))[k]).0
                    != network_name@) || exists|k: int|
                0 <= k < ipam_view(*old(ipam)).len() && (#[trigger] ipam_view(*old(ipam))[k]).0
                    == network_name@ && (!entry_usable(ipam_view(*old(ipam))[k]) || entry_full(
                    ipam_view(*old(ipam))[k],
                ))),
            Err(_) => false,
        },
{
    let ip = match crate::network::ipam::allocate_ip(ipam, network_name) {
        Some(ip) => ip,
        None => {
            return Err(NetworkError::PoolExhausted);
        },
    };
    let head = container_id.substring_char(0, 5);
    let mut peer = String::from_str("veth");
    peer.append(head);
    peer.append("peer");
    Ok(
        Endpoint {
            id: String::from_str(container_id),
            network_name: String::from_str(network_name),
            ip,
            peer_name: Some(peer),
        },
    )
}

/// The host-side interface name of the pair: `veth` and the first five
/// characters of the container id.
pub fn veth_name(container_id: &str) -> (r: String)
    requires
        container_id@.len() >= 5,
    ensures
        r@ == "veth"@ + container_id@.subrange(0, 5),
{
    let head = container_id.substring_char(0, 5);
    let mut name = String::from_str("veth");
    name.append(head);
    name
}

} // verus!
