use vstd::prelude::*;
use crate::digits::str_eq;

verus! {

/// A created network: its name and the driver it was created with.
#[derive(Debug)]
pub struct Network {
    name: String,
    driver: String,
}

impl Network {
    pub fn new(name: &str, driver: &str) -> (r: Self)
        ensures
            r.name_view() == name@,
            r.driver_view() == driver@,
    {
        Network { name: String::from_str(name), driver: String::from_str(driver) }
    }

    pub closed spec fn name_view(&self) -> Seq<char> {
        self.name@
    }

    pub closed spec fn driver_view(&self) -> Seq<char> {
        self.driver@
    }

    pub fn get_name(&self) -> (r: &str)
        ensures
            r@ == self.name_view(),
    {
        self.name.as_str()
    }
}

/// The created networks, one entry per name; the durable copy of this
/// table lives in the network configuration file.
pub struct Networks {
    pub entries: Vec<Network>,
}

pub open spec fn network_names(t: Networks) -> Seq<Seq<char>> {
    t.entries@.map_values(|n: Network| n.name_view())
}

/// The table's contents as plain values: name and driver.
pub open spec fn networks_view(t: Networks) -> Seq<(Seq<char>, Seq<char>)> {
    t.entries@.map_values(|n: Network| (n.name_view(), n.driver_view()))
}

/// One entry per network name.
pub open spec fn networks_wf(t: Networks) -> bool {
    forall|k1: int, k2: int|
        0 <= k1 < k2 < networks_view(t).len() ==> (#[trigger] networks_view(t)[k1]).0 != (
        #[trigger] networks_view(t)[k2]).0
}

impl Networks {
    pub fn new() -> (r: Networks)
        ensures
            network_names(r) =~= Seq::<Seq<char>>::empty(),
            networks_view(r) =~= Seq::<(Seq<char>, Seq<char>)>::empty(),
            networks_wf(r),
    {
        let r = Networks { entries: Vec::new() };
        proof {
            assert(network_names(r) =~= Seq::<Seq<char>>::empty());
            assert(networks_view(r) =~= Seq::<(Seq<char>, Seq<char>)>::empty());
        }
        r
    }

    pub fn find(&self, name: &str) -> (r: Option<usize>)
        ensures
            match r {
                Some(k) => k < self.entries@.len() && self.entries@[k as int].name_view()
                    == name@,
                None => forall|k: int|
                    0 <= k < self.entries@.len() ==> (#[trigger] self.entries@[k]).name_view()
                        != name@,
            },
    {
        let mut k: usize = 0;
        while k < self.entries.len()
            invariant
                k <= self.entries@.len(),
                forall|j: int|
                    0 <= j < k ==> (#[trigger] self.entries@[j]).name_view() != name@,
            decreases self.entries@.len() - k,
        {
            if str_eq(self.entries[k].get_name(), name) {
                return Some(k);
            }
            k = k + 1;
        }
        None
    }
}

/// Put a created network into the table: an earlier one of the same
/// name is replaced in place, any other name gets a fresh entry at the
/// end; no other entry moves or changes.
pub fn register_network(t: &mut Networks, network: Network)
    requires
        networks_wf(*old(t)),
    ensures
        networks_wf(*final(t)),
        ({
            let pre = networks_view(*old(t));
            let post = networks_view(*final(t));
            let entry = (network.name_view(), network.driver_view());
            if exists|k: int| 0 <= k < pre.len() && (#[trigger] pre[k]).0 == network.name_view() {
                exists|k: int|
                    0 <= k < pre.len() && (#[trigger] pre[k]).0 == network.name_view() && post
                        == pre.update(k, entry)
            } else {
                post == pre.push(entry)
            }
        }),
{
    let ghost pre = networks_view(*t);
    let ghost entry = (network.name_view(), network.driver_view());
    match t.find(network.get_name()) {
        Some(k) => {
            proof {
                assert(pre[k as int].0 == network.name_view()) by {
                    assert(pre[k as int] == (
                        old(t).entries@[k as int].name_view(),
                        old(t).entries@[k as int].driver_view(),
                    ));
                }
            }
            let _earlier = t.entries.remove(k);
            t.entries.insert(k, network);
            proof {
                assert(networks_view(*t) =~= pre.update(k as int, entry));
                assert forall|k1: int, k2: int|
                    0 <= k1 < k2 < networks_view(*t).len() implies (
                #[trigger] networks_view(*t)[k1]).0 != (#[trigger] networks_view(*t)[k2]).0 by {
                    assert(networks_view(*t)[k1].0 == pre[k1].0);
                    assert(networks_view(*t)[k2].0 == pre[k2].0);
                }
            }
        },
        None => {
            let ghost nv = network.name_view();
            t.entries.push(network);
            proof {
                assert(networks_view(*t) =~= pre.push(entry));
                assert forall|k1: int, k2: int|
                    0 <= k1 < k2 < networks_view(*t).len() implies (
                #[trigger] networks_view(*t)[k1]).0 != (#[trigger] networks_view(*t)[k2]).0 by {
                    if k2 == pre.len() {
                        assert(networks_view(*t)[k1].0 == pre[k1].0);
                        assert(networks_view(*t)[k2].0 == nv);
                    } else {
                        assert(networks_view(*t)[k1].0 == pre[k1].0);
                        assert(networks_view(*t)[k2].0 == pre[k2].0);
                    }
                }
            }
        },
    }
}

} // verus!
