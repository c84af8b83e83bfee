use custom_dmq::paths::{
    broker_metadata_path, cgroup_metadata_path, cluster_state_path, default_ledger_path, log_data_path, log_meta_path,
    offset_metadata_path, partition_metadata_path, topic_metadata_path, under_arr_path, under_size_path,
};

#[test]
fn metadata_files_are_named_by_ids() {
    assert_eq!(broker_metadata_path("data"), "data/broker_metadata.dat");
    assert_eq!(topic_metadata_path("data", 3), "data/topic_metadata_3.dat");
    assert_eq!(cgroup_metadata_path("data", 3, 12), "data/cgroup_metadata_3_12.dat");
    assert_eq!(offset_metadata_path("data", 7, 1, 0), "data/offset_metadata_7_1_0.dat");
    assert_eq!(cluster_state_path("/var/dmq/"), "/var/dmq/cluster_state.dat");
}

#[test]
fn queue_and_log_files_are_named_by_ids() {
    assert_eq!(partition_metadata_path("d", 1, 65535, 65535), "d/partition_metadata_1_65535_65535.dat");
    assert_eq!(under_arr_path("d", 1, 2, 3), "d/underArr_1_2_3.dat");
    assert_eq!(under_size_path("d", 1, 2, 3), "d/underSize_1_2_3.dat");
    assert_eq!(log_data_path("d", 4, 0), "d/log_data_4_0.dat");
    assert_eq!(log_meta_path("", 4, 0), "log_meta_4_0.dat");
}

#[test]
fn ledger_goes_to_the_temporary_directory() {
    assert_eq!(default_ledger_path("/tmp", "run-1"), "/tmp/dmq-stress-run-1.seq");
}
