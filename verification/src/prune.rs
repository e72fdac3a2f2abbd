use vstd::prelude::*;
use crate::host::{host_wf, recs, HostState};
use crate::metainfo::{is_running, record_wf, Metainfo, MetainfoView, Status};
use crate::paths::{metainfo_dir, metainfo_dir_spec, overlay_root, overlay_root_spec};

verus! {

/// One exited container that prune removes: its id and the two
/// directories to delete.
pub struct PruneItem {
    pub id: String,
    pub overlay_root: String,
    pub metainfo_dir: String,
}

/// The records prune keeps: exactly those still Running, in order.
pub open spec fn prune_keep(s: Seq<MetainfoView>) -> Seq<MetainfoView>
    decreases s.len(),
{
    if s.len() == 0 {
        Seq::empty()
    } else if s.last().status == Status::Running {
        prune_keep(s.drop_last()).push(s.last())
    } else {
        prune_keep(s.drop_last())
    }
}

/// The ids prune removes: exactly those of the Exited records, in order.
pub open spec fn prune_removed(s: Seq<MetainfoView>) -> Seq<Seq<char>>
    decreases s.len(),
{
    if s.len() == 0 {
        Seq::empty()
    } else if s.last().status == Status::Running {
        prune_removed(s.drop_last())
    } else {
        prune_removed(s.drop_last()).push(s.last().id)
    }
}

/// Remove every Exited container and leave every Running one untouched:
/// the store keeps exactly the Running records, and the returned items
/// name exactly the Exited containers' ids and their two directories.
pub fn prune(st: &mut HostState) -> (r: Vec<PruneItem>)
    requires
        host_wf(*old(st)),
    ensures
        host_wf(*final(st)),
        recs(*final(st)) == prune_keep(recs(*old(st))),
        r@.map_values(|it: PruneItem| it.id@) == prune_removed(recs(*old(st))),
        forall|j: int|
            0 <= j < r@.len() ==> (#[trigger] r@[j]).overlay_root@ == overlay_root_spec(r@[j].id@)
                && r@[j].metainfo_dir@ == metainfo_dir_spec(r@[j].id@),
        final(st).workspaces == old(st).workspaces,
        final(st).cgroups == old(st).cgroups,
{
    let mut kept: Vec<Metainfo> = Vec::new();
    let mut removed: Vec<PruneItem> = Vec::new();
    let mut k: usize = 0;
    while k < st.records.len()
        invariant
            k <= st.records@.len(),
            st.records == old(st).records,
            st.workspaces == old(st).workspaces,
            st.cgroups == old(st).cgroups,
            kept@.map_values(|m: Metainfo| m@) == prune_keep(
                recs(*old(st)).subrange(0, k as int),
            ),
            removed@.map_values(|it: PruneItem| it.id@) == prune_removed(
                recs(*old(st)).subrange(0, k as int),
            ),
            forall|j: int|
                0 <= j < removed@.len() ==> (#[trigger] removed@[j]).overlay_root@
                    == overlay_root_spec(removed@[j].id@) && removed@[j].metainfo_dir@
                    == metainfo_dir_spec(removed@[j].id@),
        decreases st.records@.len() - k,
    {
        let ghost prefix = recs(*old(st)).subrange(0, k as int);
        let ghost prefix1 = recs(*old(st)).subrange(0, k + 1);
        proof {
            assert(prefix1.drop_last() =~= prefix);
            assert(prefix1.last() == recs(*old(st))[k as int]);
            assert(recs(*old(st))[k as int] == old(st).records@[k as int]@);
        }
        let rec = st.records[k].clone();
        if is_running(&rec) {
            let ghost recv = rec@;
            kept.push(rec);
            proof {
                assert(kept@.map_values(|m: Metainfo| m@) =~= prune_keep(prefix).push(recv));
            }
        } else {
            let id = rec.id.clone();
            let item = PruneItem {
                overlay_root: overlay_root(id.as_str()),
                metainfo_dir: metainfo_dir(id.as_str()),
                id,
            };
            let ghost itemv = item.id@;
            removed.push(item);
            proof {
                assert(itemv == recs(*old(st))[k as int].id);
                assert(removed@.map_values(|it: PruneItem| it.id@) =~= prune_removed(
                    prefix,
                ).push(itemv));
            }
        }
        k = k + 1;
    }
    st.records = kept;
    proof {
        assert(recs(*old(st)).subrange(0, recs(*old(st)).len() as int) =~= recs(*old(st)));
        lemma_prune_keep_wf(recs(*old(st)));
        assert(crate::host::cgs(*st) == crate::host::cgs(*old(st)));
        assert(crate::host::wss(*st) == crate::host::wss(*old(st)));
    }
    removed
}

/// Prune partitions the store: every record is either kept or removed,
/// the kept ones are exactly the Running ones (in order, untouched),
/// and the removed ids are exactly those of the Exited records.
pub proof fn lemma_prune_partitions(s: Seq<MetainfoView>)
    ensures
        prune_keep(s).len() + prune_removed(s).len() == s.len(),
        forall|j: int|
            0 <= j < prune_keep(s).len() ==> (#[trigger] prune_keep(s)[j]).status
                == Status::Running,
    decreases s.len(),
{
    if s.len() > 0 {
        lemma_prune_partitions(s.drop_last());
        if s.last().status == Status::Running {
            assert(forall|j: int|
                0 <= j < prune_keep(s).len() - 1 ==> #[trigger] prune_keep(s)[j] == prune_keep(
                    s.drop_last(),
                )[j]);
        }
    }
}

/// The kept records stay distinct and well formed.
proof fn lemma_prune_keep_wf(s: Seq<MetainfoView>)
    requires
        forall|k1: int, k2: int|
            0 <= k1 < k2 < s.len() ==> (#[trigger] s[k1]).id != (#[trigger] s[k2]).id,
        forall|k: int| 0 <= k < s.len() ==> record_wf(#[trigger] s[k]),
    ensures
        forall|k1: int, k2: int|
            0 <= k1 < k2 < prune_keep(s).len() ==> (#[trigger] prune_keep(s)[k1]).id != (
            #[trigger] prune_keep(s)[k2]).id,
        forall|k: int| 0 <= k < prune_keep(s).len() ==> record_wf(#[trigger] prune_keep(s)[k]),
        forall|j: int|
            0 <= j < prune_keep(s).len() ==> exists|i: int|
                0 <= i < s.len() && (#[trigger] prune_keep(s)[j]) == s[i],
    decreases s.len(),
{
    if s.len() > 0 {
        let dl = s.drop_last();
        assert(forall|k: int| 0 <= k < dl.len() ==> (#[trigger] dl[k]) == s[k]);
        lemma_prune_keep_wf(dl);
        let p = prune_keep(s);
        let pd = prune_keep(dl);
        if s.last().status == Status::Running {
            assert(p == pd.push(s.last()));
            assert forall|j: int| 0 <= j < p.len() implies exists|i: int|
                0 <= i < s.len() && (#[trigger] p[j]) == s[i] by {
                if j < pd.len() {
                    let i0 = choose|i: int| 0 <= i < dl.len() && (#[trigger] pd[j]) == dl[i];
                    assert(p[j] == s[i0]);
                } else {
                    assert(p[j] == s[s.len() - 1]);
                }
            }
            assert forall|k1: int, k2: int| 0 <= k1 < k2 < p.len() implies (
            #[trigger] p[k1]).id != (#[trigger] p[k2]).id by {
                if k2 == p.len() - 1 {
                    let i0 = choose|i: int| 0 <= i < dl.len() && (#[trigger] pd[k1]) == dl[i];
                    assert(p[k1] == s[i0]);
                    assert(p[k2] == s[s.len() - 1]);
                    assert(s[i0].id != s[s.len() - 1].id);
                }
            }
        } else {
            assert(p == pd);
            assert forall|j: int| 0 <= j < p.len() implies exists|i: int|
                0 <= i < s.len() && (#[trigger] p[j]) == s[i] by {
                let i0 = choose|i: int| 0 <= i < dl.len() && (#[trigger] pd[j]) == dl[i];
                assert(p[j] == s[i0]);
            }
        }
    }
}

} // verus!
