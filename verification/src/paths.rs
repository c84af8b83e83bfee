//! Where the broker keeps its files under a data directory.

use crate::text::{decimal, decimal_string};
use vstd::prelude::*;

verus! {

/// `name` under directory `dir`, as a path join writes it: a separator goes
/// between them unless `dir` is empty or already ends with one.
pub open spec fn joined(dir: Seq<char>, name: Seq<char>) -> Seq<char> {
    if dir.len() == 0 || dir.last() == '/' {
        dir + name
    } else {
        dir + seq!['/'] + name
    }
}

/// `prefix`, then the decimal forms of `ids` each after an `_` (the first after
/// nothing), then `.dat`.
pub open spec fn numbered_name(prefix: Seq<char>, ids: Seq<u16>) -> Seq<char> {
    prefix + ids_text(ids) + ".dat"@
}

/// The decimal forms of `ids`, joined by `_`.
pub open spec fn ids_text(ids: Seq<u16>) -> Seq<char>
    decreases ids.len(),
{
    if ids.len() == 0 {
        Seq::empty()
    } else if ids.len() == 1 {
        decimal(ids[0] as nat)
    } else {
        ids_text(ids.drop_last()) + seq!['_'] + decimal(ids.last() as nat)
    }
}

fn join(dir: &str, name: &str) -> (p: String)
    ensures
        p@ == joined(dir@, name@),
{
    let mut p = dir.to_string();
    let n = dir.unicode_len();
    if n > 0 && dir.get_char(n - 1) != '/' {
        p.append("/");
        proof {
            reveal_strlit("/");
        }
    }
    p.append(name);
    proof {
        if n > 0 {
            assert(dir@.last() == dir@[n - 1]);
        }
    }
    p
}

fn name_of(prefix: &str, ids: &[u16]) -> (s: String)
    ensures
        s@ == numbered_name(prefix@, ids@),
{
    let mut s = prefix.to_string();
    let mut i: usize = 0;
    while i < ids.len()
        invariant
            i <= ids@.len(),
            s@ == prefix@ + ids_text(ids@.subrange(0, i as int)),
        decreases ids@.len() - i,
    {
        if i > 0 {
            s.append("_");
            proof {
                reveal_strlit("_");
            }
        }
        let d = decimal_string(ids[i] as u64);
        s.append(d.as_str());
        proof {
            let next = ids@.subrange(0, i + 1);
            assert(next.drop_last() =~= ids@.subrange(0, i as int));
            assert(next.last() == ids@[i as int]);
            if i == 0 {
                assert(ids_text(ids@.subrange(0, 0)) =~= Seq::<char>::empty());
            }
        }
        i = i + 1;
        assert(s@ =~= prefix@ + ids_text(ids@.subrange(0, i as int)));
    }
    assert(ids@.subrange(0, i as int) =~= ids@);
    s.append(".dat");
    assert(s@ =~= numbered_name(prefix@, ids@));
    s
}

fn path_of(dir: &str, prefix: &str, ids: &[u16]) -> (p: String)
    ensures
        p@ == joined(dir@, numbered_name(prefix@, ids@)),
{
    let name = name_of(prefix, ids);
    join(dir, name.as_str())
}

/// The broker's topic list.
pub fn broker_metadata_path(data_dir: &str) -> (p: String)
    ensures
        p@ == joined(data_dir@, "broker_metadata.dat"@),
{
    join(data_dir, "broker_metadata.dat")
}

/// The persisted cluster state.
pub fn cluster_state_path(data_dir: &str) -> (p: String)
    ensures
        p@ == joined(data_dir@, "cluster_state.dat"@),
{
    join(data_dir, "cluster_state.dat")
}

/// A topic's group list.
pub fn topic_metadata_path(data_dir: &str, topic_id: u16) -> (p: String)
    ensures
        p@ == joined(data_dir@, numbered_name("topic_metadata_"@, seq![topic_id])),
{
    let ids: [u16; 1] = [topic_id];
    assert(ids@ =~= seq![topic_id]);
    path_of(data_dir, "topic_metadata_", ids.as_slice())
}

/// A topic's settings (partition count and retention).
pub fn topic_config_path(data_dir: &str, topic_id: u16) -> (p: String)
    ensures
        p@ == joined(data_dir@, numbered_name("topic_config_"@, seq![topic_id])),
{
    let ids: [u16; 1] = [topic_id];
    assert(ids@ =~= seq![topic_id]);
    path_of(data_dir, "topic_config_", ids.as_slice())
}

/// A topic's rings: its staging ring and its groups' partitions.
pub fn topic_state_path(data_dir: &str, topic_id: u16) -> (p: String)
    ensures
        p@ == joined(data_dir@, numbered_name("topic_state_"@, seq![topic_id])),
{
    let ids: [u16; 1] = [topic_id];
    assert(ids@ =~= seq![topic_id]);
    path_of(data_dir, "topic_state_", ids.as_slice())
}

/// A group's partition count.
pub fn cgroup_metadata_path(data_dir: &str, topic_id: u16, group_id: u16) -> (p: String)
    ensures
        p@ == joined(data_dir@, numbered_name("cgroup_metadata_"@, seq![topic_id, group_id])),
{
    let ids: [u16; 2] = [topic_id, group_id];
    assert(ids@ =~= seq![topic_id, group_id]);
    path_of(data_dir, "cgroup_metadata_", ids.as_slice())
}

/// A group's committed offset for a partition.
pub fn offset_metadata_path(data_dir: &str, group_id: u16, topic_id: u16, partition_id: u16) -> (p: String)
    ensures
        p@ == joined(data_dir@, numbered_name("offset_metadata_"@, seq![group_id, topic_id, partition_id])),
{
    let ids: [u16; 3] = [group_id, topic_id, partition_id];
    assert(ids@ =~= seq![group_id, topic_id, partition_id]);
    path_of(data_dir, "offset_metadata_", ids.as_slice())
}

/// A queue's head and tail.
pub fn partition_metadata_path(data_dir: &str, topic_id: u16, group_id: u16, partition_id: u16) -> (p: String)
    ensures
        p@ == joined(data_dir@, numbered_name("partition_metadata_"@, seq![topic_id, group_id, partition_id])),
{
    let ids: [u16; 3] = [topic_id, group_id, partition_id];
    assert(ids@ =~= seq![topic_id, group_id, partition_id]);
    path_of(data_dir, "partition_metadata_", ids.as_slice())
}

/// A queue's message slots.
pub fn under_arr_path(data_dir: &str, topic_id: u16, group_id: u16, partition_id: u16) -> (p: String)
    ensures
        p@ == joined(data_dir@, numbered_name("underArr_"@, seq![topic_id, group_id, partition_id])),
{
    let ids: [u16; 3] = [topic_id, group_id, partition_id];
    assert(ids@ =~= seq![topic_id, group_id, partition_id]);
    path_of(data_dir, "underArr_", ids.as_slice())
}

/// A queue's slot sizes.
pub fn under_size_path(data_dir: &str, topic_id: u16, group_id: u16, partition_id: u16) -> (p: String)
    ensures
        p@ == joined(data_dir@, numbered_name("underSize_"@, seq![topic_id, group_id, partition_id])),
{
    let ids: [u16; 3] = [topic_id, group_id, partition_id];
    assert(ids@ =~= seq![topic_id, group_id, partition_id]);
    path_of(data_dir, "underSize_", ids.as_slice())
}

/// A partition log's records.
pub fn log_data_path(data_dir: &str, topic_id: u16, partition_id: u16) -> (p: String)
    ensures
        p@ == joined(data_dir@, numbered_name("log_data_"@, seq![topic_id, partition_id])),
{
    let ids: [u16; 2] = [topic_id, partition_id];
    assert(ids@ =~= seq![topic_id, partition_id]);
    path_of(data_dir, "log_data_", ids.as_slice())
}

/// A partition log's offsets.
pub fn log_meta_path(data_dir: &str, topic_id: u16, partition_id: u16) -> (p: String)
    ensures
        p@ == joined(data_dir@, numbered_name("log_meta_"@, seq![topic_id, partition_id])),
{
    let ids: [u16; 2] = [topic_id, partition_id];
    assert(ids@ =~= seq![topic_id, partition_id]);
    path_of(data_dir, "log_meta_", ids.as_slice())
}


/// Where a stress run keeps its ledger by default: `dmq-stress-<run>.seq` in
/// the temporary directory `temp_dir`.
pub fn default_ledger_path(temp_dir: &str, run_id: &str) -> (p: String)
    ensures
        p@ == joined(temp_dir@, "dmq-stress-"@ + run_id@ + ".seq"@),
{
    let mut name = "dmq-stress-".to_string();
    name.append(run_id);
    name.append(".seq");
    join(temp_dir, name.as_str())
}

} // verus!
