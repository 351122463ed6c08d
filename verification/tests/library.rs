use pertisk::access::{
    bearer_token, error_message, error_status, net_status, query_token, request_token,
    required_role, storage_message, storage_status,
};
use pertisk::urls::peer_url_upgrade;
use pertisk::addrs::{parse_if_inet6, parse_inet6_hex, usable_ipv4};
use pertisk::api::Role;
use pertisk::config::{tls_bind, DaemonConfig};
use pertisk::host::{
    event_mail, forget_host_args, mail_recipients, prefer_disk_recreate, ssh_args, test_mail,
    ControlError, DaemonError, GuestSshTarget,
};
use pertisk::hostnet::{
    command_result, default_uplink, delete_bridge, delete_tap, ensure_bridge, ensure_ipv4_egress,
    interface_path, ip_result, iptables_rule_args, overlaps_in_addrs, provision_nic, OnFailure,
};
use pertisk::ids::{NodeId, VmId, VolumeId};
use pertisk::backup::{
    backup_file_name, backup_name, backup_notes, backup_size, backup_volume_ids,
    check_backup_sources, BackupVolume,
};
use pertisk::cluster::{Cluster, ClusterMemberStatus, NodeRecord};
use pertisk::urls::HostAddrs;
use pertisk::access::{bootstrap_admin, check_new_user};
use pertisk::config::home_dir;
use pertisk::host::{boot_plan, disk_boot_dir_name, installer_choice, iso_boot_dir_name, with_kernel_boot, BootPlan};
use pertisk::disk_boot::{shim_root_partition, shim_search_order, PartProbe};
use pertisk::cluster::{configured_self_record, state_text_present, PersistedCluster};
use pertisk::host::check_iso_without_kernel;
use pertisk::vm_edit::{clone_grow_at, clone_retry_full, clone_sources};
use pertisk::types::DriverKind;
use pertisk::updates::{apt_run_outcome, refresh, upgrade};
use pertisk::vm_edit::{
    attach_iso, attach_volume, clone_spec, detach_iso, detach_volume, name_taken, update_vm,
    clone_cidata_iso_name, clone_grow, clone_hostname, clone_linked, clone_network,
    nonblank_text, plan_start, record_after_create, record_after_failure, record_after_start,
    migrate_source, plan_restart, record_after_stop, require_running, CloneSettings, RestartStep,
    StartStep, UpdateVmRequest,
};
use pertisk::recovery::{autostart_due, autostart_order, ha_restart_target};
use pertisk::host::SmtpTls;
use pertisk::notify::{
    check_node_name, node_offline_events, node_offline_mail, notify_settings_view,
    split_recipient_lines, update_notify, vm_event_mail, NotifyConfig, NotifyUpdate,
};
use pertisk::placement::{place_replicas, unschedulable_detail, NodeLoad};
use pertisk::inventory::{
    disk_stat_targets, vm_disk_bytes, DiskStat, node_loads, pick_node, pick_node_define, require_not_template, running_local_guest_count,
    check_start_capacity, iso_users, next_numeric_vm_id, require_quorum, require_stopped,
    require_volume_idle, start_memory_budget_mib, unique_volume_name, volume_affinity,
    volume_is_backing, volume_users,
};
use pertisk::ipam::{parse_cidr, Ipv4Net, NetError};
use pertisk::json::{json_bytes_look_valid, trim_ascii};
use pertisk::procfs::{
    cpu_counters, cpu_counters_fit_in, df_available_mib, df_usage, host_traffic, mem_total_mib,
    meminfo_usage, proc_cpu_ticks, proc_stat_sliceable_in, taps_traffic, vm_rss_bytes,
};
use pertisk::shell::parse_resize;
use pertisk::storage::{QemuImg, StorageError};
use pertisk::updates::{cap_log, log_cut_fits, resolv_needs_fallback};
use pertisk::types::{DiskSpec, TypesError, VmRecord, VmSpec, VmState, VolumeFormat, VolumeRecord};

fn strs(v: &[&str]) -> Vec<String> {
    v.iter().map(|s| s.to_string()).collect()
}

// ---------------------------------------------------------------------------
// Host network commands
// ---------------------------------------------------------------------------

#[test]
fn ensure_bridge_adds_address_and_brings_up() {
    let cmds = ensure_bridge("br0", Some("10.88.0.1"), 24).unwrap();
    assert_eq!(cmds.len(), 3);
    assert_eq!(cmds[0].program, "ip");
    assert_eq!(cmds[0].args, strs(&["link", "add", "name", "br0", "type", "bridge"]));
    assert_eq!(cmds[0].on_failure, OnFailure::AllowExisting);
    assert_eq!(cmds[1].args, strs(&["addr", "add", "10.88.0.1/24", "dev", "br0"]));
    assert_eq!(cmds[1].on_failure, OnFailure::AllowExisting);
    assert_eq!(cmds[2].args, strs(&["link", "set", "dev", "br0", "up"]));
    assert_eq!(cmds[2].on_failure, OnFailure::Fail);
    let plain = ensure_bridge("br1", None, 24).unwrap();
    assert_eq!(plain.len(), 2);
}

#[test]
fn unsafe_interface_names_are_refused() {
    match ensure_bridge("br0; rm -rf /", None, 24) {
        Err(NetError::Invalid(m)) => assert_eq!(m, "unsafe interface name 'br0; rm -rf /'"),
        _ => panic!("expected Invalid"),
    }
    assert!(delete_bridge("").is_err());
    assert!(delete_tap("a-very-long-interface-name").is_err());
    match provision_nic("bad name", "tap0", None, 24, false) {
        Err(NetError::Invalid(m)) => assert_eq!(m, "unsafe interface name 'bad name'"),
        _ => panic!("expected the bridge name to be refused first"),
    }
    match provision_nic("br0", "bad/tap", None, 24, false) {
        Err(NetError::Invalid(m)) => assert_eq!(m, "unsafe interface name 'bad/tap'"),
        _ => panic!("expected the TAP name to be refused"),
    }
}

#[test]
fn provision_nic_recreates_tap_and_isolates() {
    let cmds = provision_nic("br0", "p1a2b3c4d0", None, 24, true).unwrap();
    assert_eq!(cmds.len(), 5);
    assert_eq!(cmds[0].args, strs(&["link", "delete", "dev", "p1a2b3c4d0"]));
    assert_eq!(cmds[1].args, strs(&["tuntap", "add", "dev", "p1a2b3c4d0", "mode", "tap"]));
    assert_eq!(cmds[2].args, strs(&["link", "set", "dev", "p1a2b3c4d0", "master", "br0"]));
    assert_eq!(cmds[3].args, strs(&["link", "set", "dev", "p1a2b3c4d0", "up"]));
    assert_eq!(cmds[4].program, "bridge");
    assert_eq!(cmds[4].on_failure, OnFailure::Ignore);
    assert_eq!(provision_nic("br0", "tap0", None, 24, false).unwrap().len(), 4);
    let del = delete_bridge("br0").unwrap();
    assert_eq!(del[0].args, strs(&["link", "delete", "dev", "br0", "type", "bridge"]));
}

#[test]
fn ip_failures_that_mean_done() {
    let args = strs(&["link", "add", "name", "br0", "type", "bridge"]);
    assert!(ip_result(&args, true, "", false).is_ok());
    assert!(ip_result(&args, false, "RTNETLINK answers: File exists\n", true).is_ok());
    assert!(ip_result(&args, false, "Cannot find device \"tap0\"", true).is_ok());
    match ip_result(&args, false, "  RTNETLINK answers: File exists \n", false) {
        Err(NetError::Host(m)) => assert_eq!(
            m,
            "ip link add name br0 type bridge failed: RTNETLINK answers: File exists"
        ),
        _ => panic!("expected Host"),
    }
    match ip_result(&args, false, "Operation not permitted", true) {
        Err(NetError::Host(m)) => {
            assert_eq!(m, "ip link add name br0 type bridge failed: Operation not permitted")
        }
        _ => panic!("expected Host"),
    }
    match command_result("sysctl", &strs(&["-w", "x=1"]), false, " denied\n") {
        Err(NetError::Host(m)) => assert_eq!(m, "sysctl -w x=1 failed: denied"),
        _ => panic!("expected Host"),
    }
}

#[test]
fn default_route_uplink() {
    let route = "default via 192.168.1.1 dev enp3s0 proto dhcp src 192.168.1.20 metric 100\n";
    assert_eq!(default_uplink(route).unwrap(), "enp3s0");
    match default_uplink("default via 192.168.1.1\n") {
        Err(NetError::Host(m)) => assert_eq!(m, "no IPv4 default-route interface found"),
        _ => panic!("expected Host"),
    }
    assert!(default_uplink("default via 10.0.0.1 dev").is_err());
    assert!(default_uplink("default dev bad/name").is_err());
}

#[test]
fn egress_rules_masquerade_the_network() {
    let net = parse_cidr("10.88.0.0/24").unwrap();
    let plan = ensure_ipv4_egress("vmbr1", net, "default via 192.168.1.1 dev eth0\n").unwrap();
    assert_eq!(plan.forward.program, "sysctl");
    assert_eq!(plan.forward.args, strs(&["-w", "net.ipv4.ip_forward=1"]));
    assert_eq!(plan.rules.len(), 3);
    assert_eq!(
        plan.rules[0],
        strs(&["-t", "nat", "POSTROUTING", "-s", "10.88.0.0/24", "-o", "eth0", "-j", "MASQUERADE"])
    );
    assert_eq!(plan.rules[1], strs(&["FORWARD", "-i", "vmbr1", "-o", "eth0", "-j", "ACCEPT"]));
    assert_eq!(plan.rules[2][1], "-i");
    assert_eq!(plan.rules[2][2], "eth0");
    assert!(ensure_ipv4_egress("bad name", net, "default dev eth0").is_err());
    assert!(ensure_ipv4_egress("vmbr1", net, "").is_err());
}

#[test]
fn iptables_check_and_append_keep_the_table() {
    let (check, add) = iptables_rule_args(&strs(&["-t", "nat", "POSTROUTING", "-j", "MASQUERADE"]));
    assert_eq!(check, strs(&["-t", "nat", "-C", "POSTROUTING", "-j", "MASQUERADE"]));
    assert_eq!(add, strs(&["-t", "nat", "-A", "POSTROUTING", "-j", "MASQUERADE"]));
    let (check, add) = iptables_rule_args(&strs(&["FORWARD", "-j", "ACCEPT"]));
    assert_eq!(check, strs(&["-C", "FORWARD", "-j", "ACCEPT"]));
    assert_eq!(add, strs(&["-A", "FORWARD", "-j", "ACCEPT"]));
}

#[test]
fn existing_addresses_overlap() {
    let text = "\
1: lo    inet 127.0.0.1/8 scope host lo\\       valid_lft forever preferred_lft forever
2: eth0    inet 192.168.1.20/24 brd 192.168.1.255 scope global eth0
3: vmbr1    inet 10.88.0.1/24 scope global vmbr1
";
    let lan = parse_cidr("192.168.1.0/24").unwrap();
    let guests = parse_cidr("10.88.0.0/16").unwrap();
    let other = parse_cidr("172.16.0.0/16").unwrap();
    assert!(overlaps_in_addrs(text, lan, None));
    assert!(overlaps_in_addrs(text, guests, None));
    assert!(!overlaps_in_addrs(text, guests, Some("vmbr1")));
    assert!(!overlaps_in_addrs(text, other, None));
}

#[test]
fn interface_paths() {
    assert_eq!(interface_path("eth0").unwrap(), "/sys/class/net/eth0");
    assert!(interface_path("../etc").is_none());
}

// ---------------------------------------------------------------------------
// Identifiers, JSON and shell messages
// ---------------------------------------------------------------------------

#[test]
fn id_text_is_hyphenated_lower_hex() {
    let id = VmId(0x0123_4567_89ab_cdef_0011_2233_4455_6677);
    assert_eq!(id.to_string(), "01234567-89ab-cdef-0011-223344556677");
    let parsed: VmId = "01234567-89AB-CDEF-0011-223344556677".parse().unwrap();
    assert_eq!(parsed, id);
    match "not-a-uuid".parse::<VmId>() {
        Err(TypesError::InvalidVmId(s)) => assert_eq!(s, "not-a-uuid"),
        _ => panic!("expected InvalidVmId"),
    }
    let vol = VolumeId::new();
    assert_eq!(VolumeId::parse(&vol.to_string()).unwrap(), vol);
    match VolumeId::parse("") {
        Err(TypesError::InvalidVolumeId(s)) => assert_eq!(s, ""),
        _ => panic!("expected InvalidVolumeId"),
    }
}

#[test]
fn fresh_ids_differ() {
    assert_ne!(NodeId::new(), NodeId::new());
    assert_ne!(VmId::new(), VmId::new());
}

#[test]
fn qemu_info_virtual_size() {
    assert_eq!(
        QemuImg::virtual_size(br#"{"virtual-size": 10737418240, "filename": "a.qcow2"}"#),
        Some(10737418240)
    );
    assert_eq!(QemuImg::virtual_size(b"{\"format\": \"raw\"}"), None);
    assert_eq!(QemuImg::virtual_size(b"not json"), None);
    let q = QemuImg::new(Some("/usr/bin/qemu-img".into()), None);
    let inv = q.inspect("/var/lib/a.qcow2").unwrap();
    assert_eq!(inv.program, "/usr/bin/qemu-img");
    assert_eq!(inv.args, strs(&["info", "--output=json", "/var/lib/a.qcow2"]));
    assert!(QemuImg::new(None, None).inspect("/x").is_none());
}

#[test]
fn resize_messages() {
    assert_eq!(parse_resize("  {\"type\":\"resize\",\"cols\":80,\"rows\":24}\n"), Some((80, 24)));
    assert_eq!(parse_resize("{\"type\":\"resize\",\"cols\":0,\"rows\":24}"), None);
    assert_eq!(parse_resize("{\"type\":\"input\",\"cols\":80,\"rows\":24}"), None);
    assert_eq!(parse_resize("{\"type\":\"resize\",\"cols\":65616,\"rows\":24}"), Some((80, 24)));
}

#[test]
fn state_file_shape() {
    assert!(json_bytes_look_valid(b"  {\"a\":1}\n"));
    assert!(json_bytes_look_valid(b"\n[]"));
    assert!(!json_bytes_look_valid(b"\0\0\0\0"));
    assert!(!json_bytes_look_valid(b" \t\r\n"));
    assert_eq!(trim_ascii(b"  ab \n"), (2, 4));
    assert_eq!(trim_ascii(b"   "), (3, 3));
}

// ---------------------------------------------------------------------------
// Inventory decisions
// ---------------------------------------------------------------------------

fn disk(path: &str, cdrom: bool, volume: Option<VolumeId>, iso: Option<&str>) -> DiskSpec {
    DiskSpec {
        path: path.into(),
        readonly: cdrom,
        cdrom,
        volume_id: volume,
        iso_name: iso.map(|s| s.to_string()),
    }
}

fn vm(id: u128, state: VmState, disks: Vec<DiskSpec>) -> VmRecord {
    VmRecord {
        id: VmId(id),
        spec: VmSpec {
            name: format!("vm{id}"),
            vcpus: 1,
            memory_mib: 512,
            kernel: None,
            cmdline: None,
            initramfs: None,
            disks,
            nets: vec![],
            serial_log: None,
            ha: false,
            autostart: false,
            autostart_delay: 0,
            autostart_order: 0,
        },
        state,
        console_socket: None,
        graphics_socket: None,
        node_id: None,
        template: false,
        pid: None,
        api_socket: None,
        serial_log: None,
        last_error: None,
    }
}

#[test]
fn numeric_ids_fill_the_lowest_gap() {
    assert_eq!(next_numeric_vm_id(&vec![]), Some(100));
    assert_eq!(next_numeric_vm_id(&vec![100]), Some(101));
    assert_eq!(next_numeric_vm_id(&vec![101, 100, 103]), Some(102));
    assert_eq!(next_numeric_vm_id(&vec![5, 7]), Some(100));
}

#[test]
fn volume_names_get_a_free_suffix() {
    assert_eq!(unique_volume_name("disk", &strs(&["other"])), "disk");
    assert_eq!(unique_volume_name("disk", &strs(&["disk"])), "disk-2");
    assert_eq!(unique_volume_name("disk", &strs(&["disk", "disk-2", "disk-3"])), "disk-4");
}

#[test]
fn start_capacity_checks_disk_then_memory() {
    match check_start_capacity(Some(512), Some(16_384), &vec![], 1024) {
        Err(DaemonError::Capacity(m)) => assert_eq!(
            m,
            "only 512 MiB free on storage (need ≥ 1024 MiB); free disk or expand the appliance volume"
        ),
        _ => panic!("expected Capacity"),
    }
    assert!(check_start_capacity(None, None, &vec![4096], 1024).is_ok());
    assert!(check_start_capacity(Some(4096), Some(16_384), &vec![4096, 4096], 1024).is_ok());
    match check_start_capacity(Some(4096), Some(4096), &vec![2048], 2048) {
        Err(DaemonError::Capacity(m)) => assert_eq!(
            m,
            "guest needs 2048 MiB; already running 2048 MiB of guests on a 4096 MiB host (3892 MiB available after 204 MiB host reserve)"
        ),
        _ => panic!("expected Capacity"),
    }
}

#[test]
fn start_budget_subtracts_running_guests() {
    assert_eq!(start_memory_budget_mib(None, &vec![512]), None);
    assert_eq!(start_memory_budget_mib(Some(16_384), &vec![]), Some(16_384 - 819));
    assert_eq!(start_memory_budget_mib(Some(16_384), &vec![1024, 512]), Some(16_384 - 819 - 1536));
    assert_eq!(start_memory_budget_mib(Some(1024), &vec![4096]), Some(0));
}

#[test]
fn affinity_is_the_common_replica_holders() {
    let a = NodeId(1);
    let b = NodeId(2);
    let c = NodeId(3);
    assert!(volume_affinity(&vec![]).is_empty());
    assert_eq!(volume_affinity(&vec![vec![a, b, c]]), vec![a, b, c]);
    assert_eq!(volume_affinity(&vec![vec![a, b, c], vec![c, b], vec![b, c, a]]), vec![b, c]);
    assert!(volume_affinity(&vec![vec![a], vec![b]]).is_empty());
}

#[test]
fn quorum_then_fencing() {
    assert!(matches!(require_quorum(false, true), Err(DaemonError::NoQuorum)));
    assert!(matches!(require_quorum(true, true), Err(DaemonError::Fenced)));
    assert!(require_quorum(true, false).is_ok());
}

#[test]
fn users_of_volumes_and_isos() {
    let v1 = VolumeId(11);
    let v2 = VolumeId(12);
    let vms = vec![
        vm(1, VmState::Stopped, vec![disk("/a", false, Some(v1), None)]),
        vm(2, VmState::Running, vec![disk("/iso/x.iso", true, None, Some("x.iso"))]),
        vm(3, VmState::Running, vec![disk("/a", false, Some(v1), None), disk("/b", false, Some(v2), None)]),
    ];
    assert_eq!(volume_users(&vms, v1), vec![VmId(1), VmId(3)]);
    assert_eq!(volume_users(&vms, VolumeId(99)), Vec::<VmId>::new());
    assert_eq!(iso_users(&vms, "x.iso"), vec![VmId(2)]);
    match require_volume_idle(&vms, v2) {
        Err(DaemonError::MustBeStopped(id, op)) => {
            assert_eq!(id, VmId(3));
            assert_eq!(op, "change disk");
        }
        _ => panic!("expected MustBeStopped"),
    }
    let idle = vec![vm(1, VmState::Stopped, vec![disk("/a", false, Some(v1), None)])];
    assert!(require_volume_idle(&idle, v1).is_ok());
    assert!(require_stopped(&vms[0], "resize").is_ok());
    match require_stopped(&vms[1], "resize") {
        Err(DaemonError::MustBeStopped(id, op)) => {
            assert_eq!(id, VmId(2));
            assert_eq!(op, "resize");
        }
        _ => panic!("expected MustBeStopped"),
    }
}

#[test]
fn backing_volumes() {
    let base = VolumeId(1);
    let vols = vec![VolumeRecord {
        id: VolumeId(2),
        name: "clone".into(),
        format: VolumeFormat::Qcow2,
        size_bytes: 1 << 30,
        path: "/v/clone.qcow2".into(),
        backing_id: Some(base),
        snapshots: vec![],
    }];
    assert!(volume_is_backing(&vols, base));
    assert!(!volume_is_backing(&vols, VolumeId(2)));
}

#[test]
fn recreate_only_with_installer_and_installed_disk() {
    let disks = vec![
        disk("/v/root.qcow2", false, None, None),
        disk("/iso/debian.iso", true, None, Some("debian.iso")),
    ];
    assert!(prefer_disk_recreate(&disks, true));
    assert!(!prefer_disk_recreate(&disks, false));
    let seed_only = vec![disk("/v/root.qcow2", false, None, None), disk("/iso/seed.iso", true, None, Some("vm-cidata.iso"))];
    assert!(!prefer_disk_recreate(&seed_only, true));
}

// ---------------------------------------------------------------------------
// API access and status codes
// ---------------------------------------------------------------------------

#[test]
fn route_roles() {
    assert_eq!(required_role("POST", "/v1/session/password"), Role::Viewer);
    assert_eq!(required_role("GET", "/v1/users"), Role::Admin);
    assert_eq!(required_role("DELETE", "/v1/users/x"), Role::Admin);
    assert_eq!(required_role("GET", "/v1/vms"), Role::Viewer);
    assert_eq!(required_role("POST", "/v1/vms"), Role::Operator);
}

#[test]
fn tokens_from_header_or_query() {
    assert_eq!(bearer_token(Some("Bearer  abc ")).as_deref(), Some("abc"));
    assert_eq!(bearer_token(Some("Bearer   ")), None);
    assert_eq!(bearer_token(Some("Basic abc")), None);
    assert_eq!(bearer_token(None), None);
    assert_eq!(query_token(Some("a=1&token=xyz&token=no")).as_deref(), Some("xyz"));
    assert_eq!(query_token(Some("token=&token=t2")).as_deref(), Some("t2"));
    assert_eq!(query_token(Some("tok=1")), None);
    assert_eq!(request_token(Some("Bearer h"), Some("token=q")).as_deref(), Some("h"));
    assert_eq!(request_token(None, Some("token=q")).as_deref(), Some("q"));
}

#[test]
fn error_statuses() {
    assert_eq!(error_status(&DaemonError::NotFound(VmId(1))), 404);
    assert_eq!(error_status(&DaemonError::MustBeStopped(VmId(1), "x".into())), 409);
    assert_eq!(error_status(&DaemonError::Control(ControlError::BadCredentials)), 401);
    assert_eq!(error_status(&DaemonError::Control(ControlError::Forbidden)), 403);
    assert_eq!(error_status(&DaemonError::Capacity("x".into())), 503);
    assert_eq!(error_status(&DaemonError::Peer("x".into())), 502);
    assert_eq!(error_status(&DaemonError::IdTaken(VmId(1))), 500);
    assert_eq!(error_status(&DaemonError::Net(NetError::PoolExhausted("x".into()))), 409);
    assert_eq!(error_status(&DaemonError::Storage(StorageError::QemuImgRequired)), 400);
    assert_eq!(storage_status(&StorageError::IsoNotFound("a".into())), 404);
    assert_eq!(net_status(&NetError::Host("a".into())), 400);
}

// ---------------------------------------------------------------------------
// Kernel files and tool output
// ---------------------------------------------------------------------------

const MEMINFO: &str = "\
MemTotal:       16314512 kB
MemFree:         1019476 kB
MemAvailable:   10248360 kB
Buffers:          381880 kB
";

#[test]
fn meminfo_usage_and_total() {
    assert_eq!(
        meminfo_usage(MEMINFO),
        Some(((16314512 - 10248360) * 1024, 16314512 * 1024))
    );
    assert_eq!(meminfo_usage("MemFree: 10 kB\n"), None);
    assert_eq!(meminfo_usage("MemTotal: 10 kB\n\nMemAvailable: 5 kB\n"), None);
    assert_eq!(mem_total_mib(MEMINFO), Some(16314512 / 1024));
    assert_eq!(mem_total_mib("MemFree: 1 kB\n"), None);
    assert_eq!(vm_rss_bytes("Name:\tqemu\nVmRSS:\t  2048 kB\n"), Some(2048 * 1024));
    assert_eq!(vm_rss_bytes("VmRSS:\n"), None);
}

#[test]
fn df_columns() {
    let df = "\
Filesystem     1024-blocks     Used Available Capacity Mounted on
/dev/sda1        102400000 51200000  46080000      53% /var/lib/pertisk
";
    assert_eq!(df_usage(df), Some((51200000 * 1024, 102400000 * 1024)));
    assert_eq!(df_available_mib(df), Some(46080000 / 1024));
    assert_eq!(df_usage("Filesystem\n"), None);
    assert_eq!(df_usage("h\n/dev/x 0 0 0 0% /\n"), Some((0, 1)));
}

const NET_DEV: &str = "\
Inter-|   Receive                                                |  Transmit
 face |bytes    packets errs drop fifo frame compressed multicast|bytes    packets errs drop fifo colls carrier compressed
    lo: 1000 10 0 0 0 0 0 0 1000 10 0 0 0 0 0 0
  eth0: 5000 50 0 0 0 0 0 0 7000 70 0 0 0 0 0 0
  wlan0: 100 1 0 0 0 0 0 0 200 2 0 0 0 0 0 0
p1a2b3c4d0: 300 3 0 0 0 0 0 0 400 4 0 0 0 0 0 0
  tap9: 1 1 0 0 0 0 0 0 1 1 0 0 0 0 0 0
  p123: 50 1 0 0 0 0 0 0 60 1 0 0 0 0 0 0
";

#[test]
fn net_dev_counters() {
    // `p` followed by digits only is a guest link; hex TAP names still count.
    assert_eq!(host_traffic(NET_DEV), (5400, 7600));
    let with_bridge = format!("{NET_DEV}   br0: 9 1 0 0 0 0 0 0 8 1 0 0 0 0 0 0\n");
    assert_eq!(host_traffic(&with_bridge), (9, 8));
    assert_eq!(taps_traffic(NET_DEV, &strs(&["p1a2b3c4d0", "tap9"])), (301, 401));
    assert_eq!(taps_traffic(NET_DEV, &vec![]), (0, 0));
}

#[test]
fn inet6_rows() {
    let text = "\
20010db8000000000000000000000001 02 40 00 80     eth0
fe800000000000000000000000000001 02 40 20 80     eth0
00000000000000000000000000000001 01 80 10 80       lo
";
    let ips = parse_if_inet6(text);
    assert_eq!(ips.len(), 3);
    assert_eq!(ips[0], vec![0x20, 0x01, 0x0d, 0xb8, 0, 0, 0, 0, 0, 0, 0, 0, 0, 0, 0, 1]);
    assert_eq!(ips[2], vec![0; 15].into_iter().chain([1u8]).collect::<Vec<u8>>());
    assert_eq!(parse_inet6_hex("FE800000000000000000000000000001").unwrap()[0], 0xfe);
    assert!(parse_inet6_hex("fe80::1").is_none());
    assert!(parse_inet6_hex("g0000000000000000000000000000000").is_none());
}

#[test]
fn displayable_ipv4() {
    assert!(usable_ipv4([10, 0, 0, 5]));
    assert!(!usable_ipv4([127, 0, 0, 1]));
    assert!(!usable_ipv4([169, 254, 1, 1]));
    assert!(!usable_ipv4([224, 0, 0, 1]));
    assert!(!usable_ipv4([255, 255, 255, 255]));
    assert!(!usable_ipv4([0, 0, 0, 0]));
}

// ---------------------------------------------------------------------------
// Host helpers
// ---------------------------------------------------------------------------

#[test]
fn ssh_client_arguments() {
    let t = GuestSshTarget { host: "10.0.0.9".into(), user: "debian".into(), identity: Some("/etc/pertisk/ssh/id_ed25519".into()) };
    let a = ssh_args(&t);
    assert_eq!(a[0], "-tt");
    assert_eq!(a.len(), 14);
    assert_eq!(a[11], "-i");
    assert_eq!(a[12], "/etc/pertisk/ssh/id_ed25519");
    assert_eq!(a[13], "debian@10.0.0.9");
    let t2 = GuestSshTarget { host: "h".into(), user: "u".into(), identity: None };
    assert_eq!(ssh_args(&t2).last().unwrap(), "u@h");
    assert_eq!(ssh_args(&t2).len(), 12);
    assert_eq!(
        forget_host_args(" 10.0.0.9 ").unwrap(),
        strs(&["-f", "/var/lib/pertisk/ssh/known_hosts", "-R", "10.0.0.9"])
    );
    assert!(forget_host_args("  ").is_none());
}

#[test]
fn mail_texts_and_recipients() {
    let (subject, body) = event_mail("node1", "vm started", "web is running");
    assert_eq!(subject, "[node1] vm started");
    assert_eq!(body, "web is running\n\n— pertisk on node1\n");
    let (subject, body) = test_mail("node1");
    assert_eq!(subject, "[node1] Pertisk test email");
    assert!(body.starts_with("This is a test message from pertisk on node1.\n\n"));
    assert_eq!(mail_recipients(&strs(&[" a@x ", "", "  ", "b@y"])).unwrap(), strs(&["a@x", "b@y"]));
    assert_eq!(mail_recipients(&strs(&[" "])).unwrap_err(), "no recipients");
}

#[test]
fn tls_listener_files() {
    let mut d = DaemonConfig::default();
    assert!(tls_bind("/home/p", &d).is_none());
    d.tls_listen = Some("  ".into());
    assert!(tls_bind("/home/p", &d).is_none());
    d.tls_listen = Some(" 0.0.0.0:7443 ".into());
    let b = tls_bind("/home/p", &d).unwrap();
    assert_eq!(b.listen, "0.0.0.0:7443");
    assert_eq!(b.cert, "/home/p/tls/cert.pem");
    assert_eq!(b.key, "/home/p/tls/key.pem");
    d.tls_cert = Some("/etc/c.pem".into());
    assert_eq!(tls_bind("/home/p", &d).unwrap().cert, "/etc/c.pem");
}

#[test]
fn error_texts() {
    let id = VmId(0x0123_4567_89ab_cdef_0011_2233_4455_6677);
    assert_eq!(error_message(&DaemonError::NotFound(id)), "vm not found: 01234567-89ab-cdef-0011-223344556677");
    assert_eq!(
        error_message(&DaemonError::MustBeStopped(id, "resize".into())),
        "vm 01234567-89ab-cdef-0011-223344556677 must be stopped to resize"
    );
    assert_eq!(error_message(&DaemonError::Fenced), "node is fenced (lost quorum)");
    assert_eq!(error_message(&DaemonError::Unschedulable("no members".into())), "no node has capacity for this vm (no members)");
    assert_eq!(error_message(&DaemonError::Control(ControlError::BadCredentials)), "invalid credentials");
    assert_eq!(error_message(&DaemonError::Net(NetError::PoolExhausted("10.0.0.0/30".into()))), "address pool exhausted for 10.0.0.0/30");
    assert_eq!(error_message(&DaemonError::Types(TypesError::InvalidSpec("x".into()))), "invalid vm spec: x");
    assert_eq!(storage_message(&StorageError::CannotShrink { from: 10, to: 5 }), "cannot shrink volume from 10 to 5 bytes");
}

#[test]
fn peer_url_upgrades() {
    assert!(peer_url_upgrade("http://10.0.0.5:7480", "http://127.0.0.1:7480"));
    assert!(peer_url_upgrade("https://10.0.0.5:7443", "http://10.0.0.5:7480"));
    assert!(!peer_url_upgrade("http://127.0.0.1:7480", "http://0.0.0.0:7480"));
    assert!(!peer_url_upgrade("http://10.0.0.6:7480", "http://10.0.0.5:7480"));
}

#[test]
fn short_apt_log_is_kept_whole() {
    let log = "Hit:1 http://deb.debian.org/debian bookworm InRelease".to_string();
    assert!(log_cut_fits(&log));
    assert_eq!(cap_log(log.clone()), log);
}

#[test]
fn long_apt_log_keeps_its_last_64_kib() {
    let mut log = String::from("HEAD");
    for i in 0..70_000u32 {
        log.push(char::from(b'a' + (i % 26) as u8));
    }
    assert!(log_cut_fits(&log));
    let capped = cap_log(log.clone());
    assert!(capped.starts_with("…\n"));
    assert_eq!(&capped["…\n".len()..], &log[log.len() - 65536..]);
    assert!(!capped.contains("HEAD"));
}

#[test]
fn log_cut_inside_a_character_is_refused() {
    // 65535 ASCII bytes after a two-byte character: the last 64 KiB start inside it.
    let mut log = String::from("xé");
    log.push_str(&"a".repeat(65535));
    assert!(!log_cut_fits(&log));
    let mut fine = String::from("é");
    fine.push_str(&"a".repeat(65536));
    assert!(log_cut_fits(&fine));
}

#[test]
fn resolver_fallback_decision() {
    assert!(resolv_needs_fallback("nameserver 127.0.0.53\n", false));
    assert!(resolv_needs_fallback("nameserver 1.1.1.1\n", true));
    assert!(resolv_needs_fallback("search lan\n", false));
    assert!(!resolv_needs_fallback("nameserver 192.168.1.1\n", false));
}

#[test]
fn host_cpu_counters_from_proc_stat() {
    let stat = "cpu  100 5 50 800 20 1 2 0 0 0\ncpu0 50 2 25 400 10 0 1 0 0 0\n";
    assert!(cpu_counters_fit_in(stat));
    // idle = 800 + 20, total = 978
    assert_eq!(cpu_counters(stat), Some((158, 978)));
    // Without iowait only the idle column counts.
    assert_eq!(cpu_counters("cpu 1 2 3 4\n"), Some((6, 10)));
    assert_eq!(cpu_counters("cpu 1 2 3\n"), None);
    assert_eq!(cpu_counters("intr 1 2 3 4 5\n"), None);
    assert_eq!(cpu_counters("cpu 0 0 0 0\n"), Some((0, 1)));
    assert!(!cpu_counters_fit_in("cpu 18446744073709551615 1 0 0\n"));
}

#[test]
fn process_cpu_ticks_after_the_command_name() {
    let stat = "4242 (cloud-hyper (x)) S 1 4242 4242 0 -1 4194560 100 0 0 0 250 75 0 0 20 0 4 0";
    assert!(proc_stat_sliceable_in(stat));
    assert_eq!(proc_cpu_ticks(stat), Some(325));
    assert_eq!(proc_cpu_ticks("12 (sh) S 1 2"), None);
    assert_eq!(proc_cpu_ticks("no parens here"), None);
    assert!(!proc_stat_sliceable_in("12 (sh)"));
    assert!(!proc_stat_sliceable_in("12 (sh)é"));
}

fn member(id: u128, online: bool) -> ClusterMemberStatus {
    ClusterMemberStatus {
        id: NodeId(id),
        name: format!("n{id}"),
        peer_url: String::new(),
        online,
        cpus: 4,
        memory_mib: 8192,
        used_vcpus: 0,
        used_memory_mib: 0,
        ipv4: vec![],
        ipv6: vec![],
    }
}

fn placed(id: u128, node: Option<u128>, state: VmState, vcpus: u8, memory_mib: u32) -> VmRecord {
    let mut v = vm(id, state, vec![]);
    v.node_id = node.map(NodeId);
    v.spec.vcpus = vcpus;
    v.spec.memory_mib = memory_mib;
    v
}

#[test]
fn templates_refuse_other_operations() {
    let mut t = vm(7, VmState::Stopped, vec![]);
    assert!(require_not_template(&t, "start").is_ok());
    t.template = true;
    match require_not_template(&t, "start") {
        Err(DaemonError::IsTemplate(id, op)) => {
            assert_eq!(id, VmId(7));
            assert_eq!(op, "start");
        }
        _ => panic!("expected IsTemplate"),
    }
    let e = DaemonError::IsTemplate(VmId(7), "start".into());
    assert_eq!(error_status(&e), 500);
    assert_eq!(
        error_message(&e),
        format!("vm {} is a template; cannot start", VmId(7).to_string())
    );
}

#[test]
fn loads_count_only_running_guests_of_each_member() {
    let members = vec![member(1, true), member(2, false)];
    let vms = vec![
        placed(100, Some(1), VmState::Running, 2, 1024),
        placed(101, Some(1), VmState::Stopped, 4, 4096),
        placed(102, Some(2), VmState::Running, 1, 512),
        placed(103, None, VmState::Running, 8, 8192),
        placed(104, Some(1), VmState::Running, 1, 256),
    ];
    let loads = node_loads(&members, &vms);
    assert_eq!(loads.len(), 2);
    assert_eq!((loads[0].used_vcpus, loads[0].used_memory_mib), (3, 1280));
    assert_eq!((loads[1].used_vcpus, loads[1].used_memory_mib), (1, 512));
    assert!(loads[0].online && !loads[1].online);
    assert_eq!(running_local_guest_count(&vms, NodeId(1)), 2);
    assert_eq!(running_local_guest_count(&vms, NodeId(3)), 0);
}

#[test]
fn unschedulable_detail_lists_every_node() {
    assert_eq!(unschedulable_detail(&vec![]), "no members");
    let n = NodeLoad {
        id: NodeId(0x0123_4567_89ab_cdef_0123_4567_89ab_cdef),
        online: true,
        cpus: 4,
        memory_mib: 8192,
        used_vcpus: 3,
        used_memory_mib: 1280,
    };
    let off = NodeLoad { online: false, id: NodeId(2), ..n };
    assert_eq!(
        unschedulable_detail(&vec![n, off]),
        "01234567-89ab-cdef-0123-456789abcdef online=true vcpu 3/4 mem 1280/7783 MiB guest (8192 MiB host); \
         00000000-0000-0000-0000-000000000002 online=false vcpu 3/4 mem 1280/7783 MiB guest (8192 MiB host)"
    );
}

#[test]
fn picking_a_node_fails_with_the_loads() {
    let busy = NodeLoad {
        id: NodeId(1),
        online: true,
        cpus: 1,
        memory_mib: 2048,
        used_vcpus: 1,
        used_memory_mib: 1900,
    };
    let loads = vec![busy];
    let spec = placed(5, None, VmState::Stopped, 1, 512).spec;
    match pick_node(&loads, &spec, None, &vec![]) {
        Err(DaemonError::Unschedulable(m)) => assert_eq!(m, unschedulable_detail(&loads)),
        other => panic!("expected Unschedulable, got {other:?}"),
    }
    // Defining only needs an online node.
    assert_eq!(pick_node_define(&loads, None, &vec![]).unwrap(), NodeId(1));
    let down = vec![NodeLoad { online: false, ..busy }];
    assert!(matches!(pick_node_define(&down, None, &vec![]), Err(DaemonError::Unschedulable(_))));
}

#[test]
fn guest_disk_bytes_count_volumes_at_their_size() {
    let vols = vec![VolumeRecord {
        id: VolumeId(9),
        name: "root".into(),
        format: VolumeFormat::Qcow2,
        size_bytes: 10 << 30,
        path: "/pool/root.qcow2".into(),
        backing_id: None,
        snapshots: vec![],
    }];
    let guest = vm(
        1,
        VmState::Running,
        vec![
            disk("/vm/root.qcow2", false, Some(VolumeId(9)), None),
            disk("/isos/debian.iso", true, None, Some("debian.iso")),
            disk("/vm/scratch.raw", false, None, None),
            disk("/vm/gone.qcow2", false, Some(VolumeId(4)), None),
        ],
    );
    let stats = disk_stat_targets(&guest, &vols);
    assert_eq!(
        stats,
        vec![
            DiskStat { path: "/pool/root.qcow2".into(), size_bytes: Some(10 << 30) },
            DiskStat { path: "/vm/scratch.raw".into(), size_bytes: None },
            DiskStat { path: "/vm/gone.qcow2".into(), size_bytes: None },
        ]
    );
    assert_eq!(vm_disk_bytes(&stats, &vec![1 << 30, 500, 0]), ((1 << 30) + 500, (10 << 30) + 500));
    // Total never falls below used, nor below one byte.
    let thin = vec![DiskStat { path: "/x".into(), size_bytes: Some(10) }];
    assert_eq!(vm_disk_bytes(&thin, &vec![4096]), (4096, 4096));
    assert_eq!(vm_disk_bytes(&vec![], &vec![]), (0, 1));
}

fn notify_cfg() -> NotifyConfig {
    NotifyConfig {
        enabled: false,
        smtp_host: "old.example".into(),
        smtp_port: 25,
        smtp_tls: SmtpTls::Off,
        smtp_user: "u".into(),
        smtp_password: "secret".into(),
        from: "a@example.org".into(),
        recipients: vec!["ops@example.org".into()],
        events: vec!["vm.failed".into()],
    }
}

fn no_update() -> NotifyUpdate {
    NotifyUpdate {
        enabled: None,
        smtp_host: None,
        smtp_port: None,
        smtp_tls: None,
        smtp_user: None,
        smtp_password: None,
        from: None,
        recipients: None,
        events: None,
    }
}

#[test]
fn recipient_lines_split_at_commas_semicolons_and_breaks() {
    let lines = vec![" a@x.org, b@x.org ;c@x.org".to_string(), "\n d@x.org \n,,".to_string()];
    assert_eq!(
        split_recipient_lines(&lines),
        vec!["a@x.org", "b@x.org", "c@x.org", "d@x.org"]
    );
    assert!(split_recipient_lines(&vec![" ; , ".to_string()]).is_empty());
}

#[test]
fn settings_update_applies_given_fields() {
    let mut cfg = notify_cfg();
    let mut u = no_update();
    u.enabled = Some(true);
    u.smtp_host = Some("  mail.example.org ".into());
    u.smtp_tls = Some(" STARTTLS ".into());
    u.recipients = Some(vec!["x@y.org; z@y.org".into()]);
    u.events = Some(vec![" node.offline ".into(), "  ".into()]);
    assert!(update_notify(&mut cfg, u).is_ok());
    assert!(cfg.enabled);
    assert_eq!(cfg.smtp_host, "mail.example.org");
    assert_eq!(cfg.smtp_port, 25);
    assert_eq!(cfg.smtp_tls, SmtpTls::StartTls);
    assert_eq!(cfg.smtp_password, "secret");
    assert_eq!(cfg.recipients, vec!["x@y.org", "z@y.org"]);
    assert_eq!(cfg.events, vec!["node.offline"]);
}

#[test]
fn settings_update_with_bad_tls_stops_there() {
    let mut cfg = notify_cfg();
    let mut u = no_update();
    u.smtp_port = Some(587);
    u.smtp_tls = Some("maybe".into());
    u.smtp_user = Some("someone".into());
    match update_notify(&mut cfg, u) {
        Err(DaemonError::Peer(m)) => {
            assert_eq!(m, "invalid smtp_tls 'maybe' (expected off|starttls|tls)")
        }
        other => panic!("expected Peer, got {other:?}"),
    }
    // Fields before the TLS setting were applied, the ones after it were not.
    assert_eq!(cfg.smtp_port, 587);
    assert_eq!(cfg.smtp_user, "u");
}

#[test]
fn settings_view_hides_the_password() {
    let cfg = notify_cfg();
    let v = notify_settings_view(&cfg);
    assert_eq!(v.smtp_password, "");
    assert!(v.smtp_password_set);
    assert_eq!(v.smtp_tls, "off");
    assert_eq!(v.smtp_host, "old.example");
    let mut empty = notify_cfg();
    empty.smtp_password = String::new();
    assert!(!notify_settings_view(&empty).smtp_password_set);
    assert_eq!(SmtpTls::Tls.as_str(), "tls");
}

#[test]
fn node_names_are_trimmed_and_not_blank() {
    assert_eq!(check_node_name("  node-a ").unwrap(), "node-a");
    match check_node_name("   ") {
        Err(DaemonError::Peer(m)) => assert_eq!(m, "node_name must not be empty"),
        other => panic!("expected Peer, got {other:?}"),
    }
}

#[test]
fn event_mail_texts() {
    let (sub, body) = vm_event_mail("vm.failed", "web", VmId(3), VmState::Failed, "HA restart failed: x");
    assert_eq!(sub, "vm.failed: web");
    assert_eq!(
        body,
        format!("Event: vm.failed\nVM: web\nID: {}\nState: failed\nHA restart failed: x", VmId(3).to_string())
    );
    let (sub, body) = node_offline_mail("n2", NodeId(2), "https://10.0.0.2:8443");
    assert_eq!(sub, "Node offline: n2");
    assert_eq!(
        body,
        "Event: node.offline\nNode: n2\nID: 00000000-0000-0000-0000-000000000002\nPeer URL: https://10.0.0.2:8443\n"
    );
}

#[test]
fn peers_going_offline_are_reported_once() {
    let mut seen = std::collections::HashMap::new();
    let up = vec![member(1, true), member(2, true), member(3, false)];
    // Never seen before: taken as they are now, so nothing is reported.
    assert!(node_offline_events(&mut seen, &up, NodeId(1)).is_empty());
    let down = vec![member(1, false), member(2, false), member(3, false)];
    assert_eq!(node_offline_events(&mut seen, &down, NodeId(1)), vec![1]);
    assert!(node_offline_events(&mut seen, &down, NodeId(1)).is_empty());
    assert_eq!(seen.get(&1), Some(&true));
}

fn node(id: u128, online: bool) -> NodeLoad {
    NodeLoad { id: NodeId(id), online, cpus: 8, memory_mib: 16384, used_vcpus: 0, used_memory_mib: 0 }
}

#[test]
fn ha_guests_of_offline_nodes_restart_elsewhere() {
    let loads = vec![node(1, false), node(2, true), node(3, true)];
    let mut g = placed(10, Some(1), VmState::Running, 1, 512);
    g.spec.ha = true;
    // Its volumes are on node 3 only: it goes there.
    assert_eq!(ha_restart_target(&g, &loads, &vec![NodeId(1), NodeId(3)]), Some(NodeId(3)));
    // Without affinity any fitting node will do, never the offline one.
    let t = ha_restart_target(&g, &loads, &vec![]).unwrap();
    assert!(t == NodeId(2) || t == NodeId(3));
    // No HA, a template, a stopped guest, or an online owner: nothing to do.
    let mut plain = placed(11, Some(1), VmState::Running, 1, 512);
    assert_eq!(ha_restart_target(&plain, &loads, &vec![]), None);
    plain.spec.ha = true;
    plain.template = true;
    assert_eq!(ha_restart_target(&plain, &loads, &vec![]), None);
    let mut stopped = placed(12, Some(1), VmState::Stopped, 1, 512);
    stopped.spec.ha = true;
    assert_eq!(ha_restart_target(&stopped, &loads, &vec![]), None);
    let mut fine = placed(13, Some(2), VmState::Running, 1, 512);
    fine.spec.ha = true;
    assert_eq!(ha_restart_target(&fine, &loads, &vec![]), None);
    // No node online at all.
    let dark = vec![node(1, false)];
    assert_eq!(ha_restart_target(&g, &dark, &vec![]), None);
}

fn auto(id: u128, node: u128, order: u32, delay: u64, state: VmState) -> VmRecord {
    let mut v = placed(id, Some(node), state, 1, 256);
    v.spec.autostart = true;
    v.spec.autostart_order = order;
    v.spec.autostart_delay = delay;
    v
}

#[test]
fn autostart_runs_in_order_delay_and_id() {
    let mut tmpl = auto(9, 1, 0, 0, VmState::Stopped);
    tmpl.template = true;
    let vms = vec![
        auto(5, 1, 2, 0, VmState::Stopped),
        auto(4, 1, 1, 30, VmState::Stopped),
        auto(3, 1, 1, 0, VmState::Running),
        auto(2, 2, 0, 0, VmState::Stopped),
        tmpl,
        auto(1, 1, 1, 0, VmState::Failed),
        placed(8, Some(1), VmState::Stopped, 1, 256),
        auto(7, 1, 0, 0, VmState::Created),
    ];
    // Guest 7 was created since the daemon came up: it is left alone.
    let order = autostart_order(&vms, NodeId(1), &vec![VmId(7)]);
    assert_eq!(order, vec![5, 2, 1, 0]);
    // Ten seconds in, guest 4 (30 s delay) waits; running guest 3 is taken up unstarted.
    let due = autostart_due(&vms, &order, 10, &vec![]);
    assert_eq!(due, vec![(5, true), (2, false), (0, true)]);
    // Once those are marked done, the same round takes up nobody.
    let marked: Vec<VmId> = due.iter().map(|(i, _)| vms[*i].id).collect();
    assert!(autostart_due(&vms, &order, 10, &marked).is_empty());
    // Later, only what was not done yet.
    let done = vec![VmId(1), VmId(3), VmId(5)];
    assert_eq!(autostart_due(&vms, &order, 60, &done), vec![(1, true)]);
}

fn no_change() -> UpdateVmRequest {
    UpdateVmRequest {
        name: None,
        vcpus: None,
        memory_mib: None,
        ha: None,
        autostart: None,
        autostart_delay: None,
        autostart_order: None,
    }
}

#[test]
fn renaming_and_resizing_a_guest() {
    let all = vec![vm(1, VmState::Stopped, vec![]), vm(2, VmState::Running, vec![])];
    assert!(name_taken(&all, "vm2", Some(VmId(1))));
    assert!(!name_taken(&all, "vm2", Some(VmId(2))));
    assert!(!name_taken(&all, "vm3", None));

    let mut req = no_change();
    req.name = Some("  web  ".into());
    req.vcpus = Some(4);
    req.ha = Some(true);
    let v = update_vm(vm(1, VmState::Stopped, vec![]), req, &all).unwrap();
    assert_eq!(v.spec.name, "web");
    assert_eq!(v.spec.vcpus, 4);
    assert!(v.spec.ha);
    assert_eq!(v.spec.memory_mib, 512);

    // Resizing a running guest is refused.
    let mut req = no_change();
    req.memory_mib = Some(1024);
    match update_vm(vm(2, VmState::Running, vec![]), req, &all) {
        Err(DaemonError::MustBeStopped(id, op)) => {
            assert_eq!(id, VmId(2));
            assert_eq!(op, "resize cpu or memory");
        }
        other => panic!("expected MustBeStopped, got {other:?}"),
    }
    // A running guest may still be renamed; not to a name another guest has.
    let mut req = no_change();
    req.name = Some(" vm1".into());
    match update_vm(vm(2, VmState::Running, vec![]), req, &all) {
        Err(DaemonError::NameTaken(n)) => assert_eq!(n, "vm1"),
        other => panic!("expected NameTaken, got {other:?}"),
    }
    // The result must still be a valid spec.
    let mut req = no_change();
    req.memory_mib = Some(32);
    match update_vm(vm(1, VmState::Stopped, vec![]), req, &all) {
        Err(DaemonError::Types(TypesError::InvalidSpec(m))) => assert_eq!(m, "memory_mib must be >= 64"),
        other => panic!("expected InvalidSpec, got {other:?}"),
    }
}

#[test]
fn attaching_and_detaching_volumes() {
    let vol = VolumeId(77);
    let other = vm(2, VmState::Stopped, vec![disk("/p/77.qcow2", false, Some(vol), None)]);
    let base = vm(1, VmState::Stopped, vec![disk("/p/root.qcow2", false, Some(VolumeId(1)), None)]);
    let all = vec![vm(1, VmState::Stopped, vec![]), other];
    // Busy: guest 2 uses it.
    assert!(matches!(
        attach_volume(vm(1, VmState::Stopped, vec![]), vol, Ok("/p/77.qcow2".into()), &all),
        Err(DaemonError::VolumeBusy(v)) if v == vol
    ));
    let free = vec![vm(1, VmState::Stopped, vec![])];
    let v = attach_volume(base, vol, Ok("/p/77.qcow2".into()), &free).unwrap();
    assert_eq!(v.spec.disks.len(), 2);
    assert_eq!(v.spec.disks[1], disk("/p/77.qcow2", false, Some(vol), None));
    // Attaching again changes nothing, even if the lookup now fails.
    let again = attach_volume(v, vol, Err(DaemonError::NoQuorum), &free).unwrap();
    assert_eq!(again.spec.disks.len(), 2);
    // Detaching gives the disks back.
    let back = detach_volume(again, vol).unwrap();
    assert_eq!(back.spec.disks, vec![disk("/p/root.qcow2", false, Some(VolumeId(1)), None)]);
    // Not while running.
    assert!(matches!(
        detach_volume(vm(3, VmState::Running, vec![]), vol),
        Err(DaemonError::MustBeStopped(_, op)) if op == "detach disk"
    ));
    // A failed lookup of a volume not attached yet is the answer.
    assert!(matches!(
        attach_volume(vm(1, VmState::Stopped, vec![]), vol, Err(DaemonError::NoQuorum), &free),
        Err(DaemonError::NoQuorum)
    ));
}

#[test]
fn attaching_and_detaching_isos() {
    let v = attach_iso(
        vm(1, VmState::Stopped, vec![]),
        "debian.iso",
        Ok(("debian.iso".into(), "/isos/debian.iso".into())),
    )
    .unwrap();
    assert_eq!(v.spec.disks, vec![disk("/isos/debian.iso", true, None, Some("debian.iso"))]);
    let same = attach_iso(v, "debian.iso", Err(DaemonError::NoQuorum)).unwrap();
    assert_eq!(same.spec.disks.len(), 1);
    let back = detach_iso(same, "debian.iso").unwrap();
    assert!(back.spec.disks.is_empty());
    assert!(matches!(
        attach_iso(vm(2, VmState::Running, vec![]), "x.iso", Err(DaemonError::NoQuorum)),
        Err(DaemonError::MustBeStopped(_, op)) if op == "attach iso"
    ));
}

fn clone_req(name: &str) -> CloneSettings {
    CloneSettings {
        name: name.into(),
        vcpus: None,
        memory_mib: None,
        ha: None,
        autostart: None,
        autostart_delay: None,
        autostart_order: None,
        start: false,
    }
}

#[test]
fn clone_specs_start_fresh() {
    let mut src = vm(1, VmState::Stopped, vec![disk("/p/root.qcow2", false, Some(VolumeId(1)), None)]);
    src.spec.memory_mib = 4096;
    src.spec.autostart = true;
    src.spec.kernel = Some("/boot/vmlinuz".into());
    let all = vec![vm(1, VmState::Stopped, vec![])];
    let s = clone_spec(&src, &clone_req("  copy "), &all, None).unwrap();
    assert_eq!(s.name, "copy");
    assert_eq!(s.memory_mib, 4096);
    assert!(s.disks.is_empty() && s.nets.is_empty() && s.serial_log.is_none());
    assert!(s.ha && !s.autostart);
    assert_eq!(s.kernel.as_deref(), Some("/boot/vmlinuz"));
    // Started clones are cut to the free budget.
    let mut r = clone_req("fit");
    r.start = true;
    assert_eq!(clone_spec(&src, &r, &all, Some(2048)).unwrap().memory_mib, 2048);
    assert_eq!(clone_spec(&src, &r, &all, Some(32)).unwrap().memory_mib, 4096);
    assert_eq!(clone_spec(&src, &clone_req("x"), &all, Some(2048)).unwrap().memory_mib, 4096);
    // Refusals.
    assert!(matches!(
        clone_spec(&src, &clone_req("vm1"), &all, None),
        Err(DaemonError::NameTaken(n)) if n == "vm1"
    ));
    assert!(matches!(
        clone_spec(&src, &clone_req("   "), &all, None),
        Err(DaemonError::Types(TypesError::InvalidSpec(m))) if m == "name is required"
    ));
    let running = vm(2, VmState::Running, vec![]);
    assert!(matches!(
        clone_spec(&running, &clone_req("c"), &all, None),
        Err(DaemonError::MustBeStopped(_, op)) if op == "clone"
    ));
}

fn record(id: u128) -> NodeRecord {
    NodeRecord {
        id: NodeId(id),
        name: format!("n{id}"),
        peer_url: format!("https://10.0.0.{id}:8443"),
        cpus: 4,
        memory_mib: 8192,
        ipv4: vec![],
        ipv6: vec![],
    }
}

#[test]
fn online_peer_urls_leave_out_self_and_offline_peers() {
    let mut c = Cluster::new_solo(record(1), "lab".into(), "s".into(), 1000, 100, 0);
    c.add_member(record(2), 0);
    c.add_member(record(3), 0);
    c.touch(NodeId(2), None, 1000);
    let urls = c.peer_urls_online_except_self(1000);
    assert_eq!(urls, vec![(NodeId(2), "https://10.0.0.2:8443".to_string())]);
    assert_eq!(c.peer_urls_except_self().len(), 2);
}

#[test]
fn starting_a_guest_decides_by_state_and_hypervisor() {
    let id = VmId(9);
    assert!(matches!(
        plan_start(id, VmState::Stopped, true, false, DriverKind::Qemu, true, false),
        Err(DaemonError::IsTemplate(v, op)) if v == id && op == "start"
    ));
    assert!(matches!(
        plan_start(id, VmState::Running, false, false, DriverKind::Qemu, true, false),
        Err(DaemonError::InvalidState(VmState::Running, op)) if op == "start"
    ));
    assert_eq!(
        plan_start(id, VmState::Running, false, true, DriverKind::Qemu, true, false).unwrap(),
        StartStep::AlreadyRunning
    );
    let boot = |state, driver, alive, missing| {
        plan_start(id, state, false, true, driver, alive, missing).unwrap()
    };
    assert_eq!(boot(VmState::Stopped, DriverKind::Qemu, true, false), StartStep::Boot { recreate: false });
    assert_eq!(boot(VmState::Stopped, DriverKind::Qemu, true, true), StartStep::Boot { recreate: true });
    assert_eq!(boot(VmState::Stopped, DriverKind::CloudHypervisor, false, false), StartStep::Boot { recreate: true });
    assert_eq!(boot(VmState::Stopped, DriverKind::Mock, false, true), StartStep::Boot { recreate: false });
    assert_eq!(boot(VmState::Failed, DriverKind::Mock, true, false), StartStep::Boot { recreate: true });
    assert_eq!(error_status(&DaemonError::InvalidState(VmState::Running, "start".into())), 409);
}

#[test]
fn records_after_create_start_and_failure() {
    let mut r = vm(4, VmState::Created, vec![]);
    r.serial_log = Some("/run/old.serial".into());
    let made = record_after_create(r, Some(77), Some("/run/4.sock".into()), None, Some("/run/4.con".into()), None);
    assert_eq!(made.pid, Some(77));
    assert_eq!(made.api_socket.as_deref(), Some("/run/4.sock"));
    assert_eq!(made.serial_log.as_deref(), Some("/run/old.serial"));
    assert_eq!(made.console_socket.as_deref(), Some("/run/4.con"));
    assert_eq!(made.graphics_socket, None);
    let mut failed_before = made;
    failed_before.last_error = Some("old".into());
    let up = record_after_start(failed_before, None, NodeId(3));
    assert_eq!(up.state, VmState::Running);
    assert_eq!(up.pid, Some(77));
    assert_eq!(up.last_error, None);
    assert_eq!(up.node_id, Some(NodeId(3)));
    let again = record_after_start(up, Some(78), NodeId(5));
    assert_eq!(again.node_id, Some(NodeId(3)));
    assert_eq!(again.pid, Some(78));
    let down = record_after_failure(again, "boom".into());
    assert_eq!(down.state, VmState::Failed);
    assert_eq!(down.last_error.as_deref(), Some("boom"));
}

#[test]
fn clone_finishing_choices() {
    assert!(clone_linked(true, DriverKind::Qemu));
    assert!(!clone_linked(true, DriverKind::CloudHypervisor));
    assert!(!clone_linked(false, DriverKind::Mock));
    assert_eq!(clone_grow(Some(20), 10), Some(20));
    assert_eq!(clone_grow(Some(10), 10), None);
    assert_eq!(clone_grow(None, 10), None);
    assert_eq!(clone_network(None, Some(2u32), Some(3)), Some(2));
    assert_eq!(clone_network(Some(1u32), Some(2), Some(3)), Some(1));
    assert_eq!(clone_network::<u32>(None, None, Some(3)), Some(3));
    assert_eq!(clone_hostname(Some("  web1 "), "copy"), "web1");
    assert_eq!(clone_hostname(Some("  "), "copy"), "copy");
    assert_eq!(clone_hostname(None, "copy"), "copy");
    assert_eq!(nonblank_text(Some(" pw ")).as_deref(), Some("pw"));
    assert_eq!(nonblank_text(Some("")), None);
    assert_eq!(
        clone_cidata_iso_name("copy", VmId(1)),
        "copy-00000000-0000-0000-0000-000000000001-cidata.iso"
    );
}

fn bv(name: &str, rbd: bool, local_file: bool) -> Result<BackupVolume, DaemonError> {
    Ok(BackupVolume { name: name.into(), rbd, local_file })
}

#[test]
fn backups_check_their_sources() {
    let g = vm(
        1,
        VmState::Stopped,
        vec![
            disk("/p/a.qcow2", false, Some(VolumeId(1)), None),
            disk("/i/x.iso", true, None, Some("x.iso")),
            disk("/p/b.raw", false, Some(VolumeId(2)), None),
            disk("/p/raw.img", false, None, None),
        ],
    );
    assert_eq!(backup_volume_ids(&g), vec![VolumeId(1), VolumeId(2)]);
    assert!(check_backup_sources(&g, vec![bv("a", false, true), bv("b", false, true)]).is_ok());
    assert!(matches!(
        check_backup_sources(&g, vec![bv("a", false, false), bv("b", true, true)]),
        Err(DaemonError::Types(TypesError::InvalidSpec(m))) if m == "volume a has no local image to export"
    ));
    assert!(matches!(
        check_backup_sources(&g, vec![bv("a", false, true), bv("b", true, true)]),
        Err(DaemonError::Types(TypesError::InvalidSpec(m))) if m == "RBD volumes cannot be backed up with the local export path yet"
    ));
    assert!(matches!(
        check_backup_sources(&g, vec![Err(DaemonError::NoQuorum), bv("b", true, true)]),
        Err(DaemonError::NoQuorum)
    ));
    let empty = vm(2, VmState::Stopped, vec![]);
    assert!(matches!(
        check_backup_sources(&empty, vec![]),
        Err(DaemonError::Types(TypesError::InvalidSpec(m))) if m == "guest has no disks to back up"
    ));
    assert!(matches!(
        check_backup_sources(&vm(3, VmState::Running, vec![]), vec![]),
        Err(DaemonError::MustBeStopped(_, op)) if op == "backup"
    ));
    let mut t = vm(4, VmState::Stopped, vec![]);
    t.template = true;
    assert!(matches!(check_backup_sources(&t, vec![]), Err(DaemonError::IsTemplate(_, op)) if op == "backup"));
    assert_eq!(backup_name("web", 0xdeadbeef_0000_0000_0000_0000_0000_0001), "web-deadbeef");
    assert_eq!(backup_file_name(VolumeId(2), VolumeFormat::Qcow2), "00000000-0000-0000-0000-000000000002.qcow2");
    assert_eq!(backup_notes(Some("  weekly ".into())).as_deref(), Some("weekly"));
    assert_eq!(backup_notes(Some("   ".into())), None);
    assert_eq!(backup_notes(None), None);
    assert_eq!(backup_size(&vec![1, 2, 3]), 6);
    assert_eq!(backup_size(&vec![u64::MAX, 5]), u64::MAX);
}

#[test]
fn apt_runs_are_judged_from_their_raw_output() {
    let hit = b"Hit:1 http://deb.debian.org/debian trixie InRelease\n";
    let r = refresh(apt_run_outcome(hit, b"", false, true, "exit status: 0", true).unwrap(), false).unwrap();
    assert!(r.ok);
    assert_eq!(r.log, "Hit:1 http://deb.debian.org/debian trixie InRelease\nFinished.\n");
    assert_eq!(
        refresh(apt_run_outcome(hit, b"", true, false, "exit status: 124", true).unwrap(), false).err(),
        Some("apt-get timed out after 120s (mirror or DNS too slow)".to_string())
    );
    let dns = b"Err:1 http://deb.debian.org/debian trixie InRelease\n  Temporary failure resolving 'deb.debian.org'\n";
    let e = refresh(apt_run_outcome(dns, b"", false, true, "exit status: 0", true).unwrap(), false)
        .err()
        .unwrap();
    assert!(e.starts_with("No DNS: cannot reach deb.debian.org"));
    let u = upgrade(
        apt_run_outcome(
            hit,
            b"Reading package lists...\rReading package lists... Done\n",
            false,
            true,
            "exit status: 0",
            false,
        )
        .unwrap(),
        true,
    )
    .unwrap();
    assert_eq!(
        u.log,
        "Hit:1 http://deb.debian.org/debian trixie InRelease\nReading package lists...\nReading package lists... Done"
    );
    assert!(!u.log.contains('\r'));
    assert!(u.reboot_required);
}

#[test]
fn status_reports_loads_and_keeps_members() {
    let mut c = Cluster::new_solo(record(1), "lab".into(), "s".into(), 1000, 100, 0);
    c.add_member(record(2), 0);
    let loads = vec![
        NodeLoad { id: NodeId(2), online: true, cpus: 4, memory_mib: 8192, used_vcpus: 3, used_memory_mib: 700 },
        NodeLoad { id: NodeId(2), online: true, cpus: 4, memory_mib: 8192, used_vcpus: 9, used_memory_mib: 9 },
    ];
    let addrs = HostAddrs { ipv4: vec!["192.168.1.5".into()], ipv6: vec![] };
    let st = c.status(&loads, 50, addrs);
    assert_eq!(st.members.len(), 2);
    assert_eq!((st.members[0].used_vcpus, st.members[0].used_memory_mib), (0, 0));
    assert_eq!((st.members[1].used_vcpus, st.members[1].used_memory_mib), (3, 700));
    assert_eq!(st.members[0].ipv4, vec!["192.168.1.5".to_string()]);
    assert_eq!(st.members[1].name, "n2");
    assert_eq!(st.members[1].cpus, 4);
    assert_eq!(st.leader_id, Some(NodeId(1)));
    let hb = c.heartbeat_out(true, HostAddrs { ipv4: vec!["10.1.1.1".into()], ipv6: vec!["fd00::1".into()] });
    assert_eq!(hb.member.ipv4, vec!["10.1.1.1".to_string()]);
    assert_eq!(hb.member.ipv6, vec!["fd00::1".to_string()]);
    assert_eq!(hb.snapshot.unwrap().members.len(), 2);
    assert_eq!(c.peer_urls_except_self().len(), 1);
}

#[test]
fn restart_shutdown_and_migrate_decisions() {
    let id = VmId(1);
    assert!(require_running(id, VmState::Running, "shutdown").is_ok());
    assert!(matches!(
        require_running(id, VmState::Stopped, "shutdown"),
        Err(DaemonError::InvalidState(VmState::Stopped, op)) if op == "shutdown"
    ));
    assert_eq!(plan_restart(id, VmState::Running, DriverKind::Qemu, false).unwrap(), RestartStep::Reset);
    assert_eq!(plan_restart(id, VmState::Running, DriverKind::Qemu, true).unwrap(), RestartStep::StopStart);
    assert_eq!(plan_restart(id, VmState::Running, DriverKind::CloudHypervisor, false).unwrap(), RestartStep::StopStart);
    assert_eq!(plan_restart(id, VmState::Running, DriverKind::Mock, true).unwrap(), RestartStep::Reset);
    assert!(plan_restart(id, VmState::Created, DriverKind::Mock, false).is_err());
    let mut r = vm(1, VmState::Running, vec![]);
    r.pid = Some(9);
    r.last_error = Some("x".into());
    let st = record_after_stop(r);
    assert_eq!((st.state, st.pid, st.last_error), (VmState::Stopped, None, None));
    assert_eq!(migrate_source(Some(NodeId(2)), NodeId(1), NodeId(2)), None);
    assert_eq!(migrate_source(None, NodeId(1), NodeId(2)), Some(NodeId(1)));
    assert_eq!(migrate_source(None, NodeId(1), NodeId(1)), None);
}

#[test]
fn users_bootstrap_and_home() {
    assert!(check_new_user("alice", "pass").is_ok());
    assert!(check_new_user("  ", "password").is_err());
    assert!(check_new_user("bob", "abc").is_err());
    // Four bytes, though only two characters.
    assert!(check_new_user("bob", "éé").is_ok());
    assert_eq!(bootstrap_admin(None, 0), Some(("admin".to_string(), "admin".to_string())));
    assert_eq!(bootstrap_admin(Some("s3cret"), 0), Some(("admin".to_string(), "s3cret".to_string())));
    assert_eq!(bootstrap_admin(Some("s3cret"), 2), None);
    assert_eq!(home_dir(Some("/tmp/p1"), Some("/home/u")), "/tmp/p1");
    assert_eq!(home_dir(None, Some("/home/u")), "/home/u/.pertisk");
    assert_eq!(home_dir(None, None), "./.pertisk");
}

#[test]
fn boot_choices_for_installers_and_shim_disks() {
    let mut spec = placed(1, None, VmState::Stopped, 1, 2048).spec;
    spec.disks = vec![
        disk("/isos/debian.iso", true, None, Some("debian-13.iso")),
        disk("/p/root.qcow2", false, Some(VolumeId(5)), None),
    ];
    assert_eq!(boot_plan(&spec, DriverKind::CloudHypervisor), BootPlan::DiskFirst { disk: 1 });
    assert_eq!(boot_plan(&spec, DriverKind::Qemu), BootPlan::Installer);
    assert_eq!(boot_plan(&spec, DriverKind::Mock), BootPlan::AsIs);
    assert_eq!(installer_choice(&spec.disks, &vec![false, false]), Some(0));
    assert_eq!(installer_choice(&spec.disks, &vec![false, true]), None);
    let metal = vec![
        disk("/isos/metal-amd64.iso", true, None, Some("metal-amd64.iso")),
        disk("/p/root.qcow2", false, Some(VolumeId(5)), None),
    ];
    assert_eq!(installer_choice(&metal, &vec![false, true]), Some(0));
    assert_eq!(disk_boot_dir_name(&spec.disks[1]), "00000000-0000-0000-0000-000000000005");
    assert_eq!(disk_boot_dir_name(&disk("/vm/ubuntu.raw", false, None, None)), "ubuntu");
    assert_eq!(disk_boot_dir_name(&disk("/vm/.hidden", false, None, None)), ".hidden");
    assert_eq!(iso_boot_dir_name(&Some("debian-13.iso".into())), "debian-13");
    assert_eq!(iso_boot_dir_name(&None), "iso");
    let booted = with_kernel_boot(spec, "/k".into(), "/i".into(), "console=ttyS0".into());
    assert_eq!(booted.kernel.as_deref(), Some("/k"));
    assert_eq!(booted.cmdline.as_deref(), Some("console=ttyS0"));
    spec = booted;
    assert_eq!(boot_plan(&spec, DriverKind::CloudHypervisor), BootPlan::AsIs);
}

fn part(label: Option<&str>, fstype: Option<&str>) -> PartProbe {
    PartProbe { label: label.map(String::from), fstype: fstype.map(String::from) }
}

#[test]
fn shim_disk_partitions_are_searched_in_order() {
    // Ubuntu: rootfs on p1, ESP, BOOT on p13.
    let parts = vec![
        part(Some("cloudimg-rootfs"), Some("ext4")),
        part(Some("UEFI"), Some("vfat")),
        part(Some("BOOT"), Some("ext4")),
    ];
    let order = shim_search_order(&parts);
    assert_eq!(order, vec![2, 0]);
    assert_eq!(shim_root_partition(&parts, &order), 0);
    // RHEL-like: XFS /boot and root, no labels.
    let rhel = vec![part(None, Some("vfat")), part(None, Some("xfs")), part(None, Some("xfs"))];
    let order = shim_search_order(&rhel);
    assert_eq!(order, vec![1]);
    assert_eq!(shim_root_partition(&rhel, &order), 1);
    assert!(shim_search_order(&vec![part(None, Some("vfat"))]).is_empty());
}

#[test]
fn configured_self_record_defaults() {
    let r = configured_self_record(NodeId(1), "https://10.0.0.1:7480".into(), None, None, None, Some(8), None);
    assert_eq!(r.name, "node");
    assert_eq!(r.cpus, 8);
    assert_eq!(r.memory_mib, 16384);
    let r = configured_self_record(NodeId(1), "u".into(), Some("n1"), Some(2), Some(4096), Some(8), Some(1));
    assert_eq!((r.name.as_str(), r.cpus, r.memory_mib), ("n1", 2, 4096));
    assert!(r.ipv4.is_empty() && r.ipv6.is_empty());
}

#[test]
fn reapplying_own_snapshot_changes_nothing() {
    let mut c = Cluster::new_solo(record(1), "lab".into(), "s".into(), 1000, 100, 0);
    c.add_member(record(2), 0);
    let snap = c.membership_snapshot();
    let before = c.generation();
    c.apply_membership(&snap, 5);
    let after = c.membership_snapshot();
    assert_eq!(after.generation, before);
    assert_eq!(after.members.len(), 2);
    assert_eq!(after.members[1].peer_url, "https://10.0.0.2:8443");
    assert_eq!(after.name, "lab");
}

#[test]
fn replica_counts() {
    let (a, b, c) = (NodeId(1), NodeId(2), NodeId(3));
    assert_eq!(place_replicas(&[a, b, c], 2, Some(c)).len(), 2);
    assert_eq!(place_replicas(&[a, b, c], 5, None).len(), 3);
    assert_eq!(place_replicas(&[a, b, c], 0, Some(NodeId(9))).len(), 1);
    assert_eq!(place_replicas(&[], 3, Some(a)), vec![a]);
    assert!(place_replicas(&[], 3, None).is_empty());
}

#[test]
fn solo_clusters_lead() {
    let c = Cluster::new_solo(record(5), "lab".into(), "s".into(), 1000, 100, 0);
    for now in [0u64, 50, 100_000] {
        assert!(c.is_leader(now));
        assert_eq!(c.leader_id(now), Some(NodeId(5)));
    }
    let reopened = Cluster::restore(
        NodeId(5),
        "lab".into(),
        "s".into(),
        7,
        vec![record(5)],
        record(5),
        1000,
        100,
        10,
    );
    assert_eq!(reopened.self_id(), NodeId(5));
    assert_eq!(reopened.generation(), 7);
    assert!(reopened.is_leader(1_000_000));
}

#[test]
fn leader_is_the_smallest_online_id() {
    let mut c = Cluster::new_solo(record(2), "lab".into(), "s".into(), 1000, 100, 0);
    c.add_member(record(1), 0);
    c.add_member(record(3), 0);
    assert_eq!(c.leader_id(50), Some(NodeId(1)));
    assert!(!c.is_leader(50));
    // node 1 falls silent: node 2 takes over
    assert_eq!(c.leader_id(10_000), Some(NodeId(2)));
    assert!(c.is_leader(10_000));
}

#[test]
fn identity_and_generation_hold_over_a_history() {
    let mut c = Cluster::new_solo(record(4), "lab".into(), "s".into(), 1000, 100, 0);
    let id = c.self_id();
    let mut last = c.generation();
    assert_eq!(last, 1);
    c.add_member(record(6), 0);
    assert!(c.generation() >= last);
    last = c.generation();
    c.touch(NodeId(6), None, 5);
    assert_eq!(c.generation(), last);
    c.set_fenced(true);
    c.set_peer_url("https://10.0.0.4:9443".into());
    assert_eq!(c.generation(), last);
    c.bump();
    assert_eq!(c.generation(), last + 1);
    last = c.generation();
    c.reset_solo();
    assert_eq!(c.generation(), last + 1);
    assert_eq!(c.self_id(), id);
}

#[test]
fn fresh_ids_have_the_version_4_layout() {
    let mask: u128 = 0x0000_0000_0000_F000_C000_0000_0000_0000;
    let bits: u128 = 0x0000_0000_0000_4000_8000_0000_0000_0000;
    for _ in 0..16 {
        assert_eq!(NodeId::new().0 & mask, bits);
        assert_eq!(VmId::new().0 & mask, bits);
        let v = VolumeId::new();
        assert_eq!(v.0 & mask, bits);
        let text = v.to_string();
        assert_eq!(&text[14..15], "4");
        assert!(matches!(&text[19..20], "8" | "9" | "a" | "b"));
    }
}

#[test]
fn parsed_networks_contain_their_range() {
    let net = parse_cidr("10.88.0.0/24").unwrap();
    let b = net.broadcast();
    assert_eq!(b, 0x0a58_00ff);
    assert!(net.contains(net.network));
    assert!(net.contains(b));
    assert!(net.contains(0x0a58_0042));
    assert!(!net.contains(net.network - 1));
    assert!(!net.contains(b + 1));
    let all = parse_cidr("0.0.0.0/0").unwrap();
    assert!(all.contains(0));
    assert!(all.contains(u32::MAX));
    let host = parse_cidr("192.168.1.7/32").unwrap();
    assert!(host.contains(0xc0a8_0107));
    assert!(!host.contains(0xc0a8_0108));
}

#[test]
fn metal_isos_without_a_kernel_are_refused() {
    assert!(check_iso_without_kernel("debian-12", false).is_ok());
    match check_iso_without_kernel("metal-amd64", true) {
        Err(TypesError::InvalidSpec(m)) => assert_eq!(
            m,
            "metal-amd64 is a Talos/metal ISO but no /boot/vmlinuz was found to kernel-boot; \
             OVMF cannot load the ~100MiB UKI and drops to the EFI shell"
        ),
        other => panic!("expected InvalidSpec, got {other:?}"),
    }
}

#[test]
fn clones_copy_volume_disks_and_retry_linked_as_full() {
    let disks = vec![
        disk("/iso/a.iso", true, Some(VolumeId(1)), Some("a.iso")),
        disk("/v/2.qcow2", false, Some(VolumeId(2)), None),
        disk("/raw/x.img", false, None, None),
        disk("/v/3.qcow2", false, Some(VolumeId(3)), None),
    ];
    assert_eq!(clone_sources(&disks), vec![VolumeId(2), VolumeId(3)]);
    assert_eq!(clone_sources(&vec![]), Vec::<VolumeId>::new());
    let linked_err = DaemonError::Storage(StorageError::LinkedRequiresQemu);
    assert!(clone_retry_full(true, &linked_err));
    assert!(!clone_retry_full(false, &linked_err));
    assert!(!clone_retry_full(true, &DaemonError::NoQuorum));
    assert_eq!(clone_grow_at(0, Some(20), 10), Some(20));
    assert_eq!(clone_grow_at(0, Some(5), 10), None);
    assert_eq!(clone_grow_at(1, Some(20), 10), None);
    assert_eq!(clone_grow_at(0, None, 10), None);
}

#[test]
fn opening_a_cluster_restores_or_starts_fresh() {
    assert!(!state_text_present(""));
    assert!(!state_text_present(" \n\t "));
    assert!(state_text_present(" {} "));
    let fresh = Cluster::open_state(None, record(0), "lab".into(), 10, 10, 3);
    assert_eq!(fresh.generation(), 1);
    assert_eq!(fresh.heartbeat_ms(), 50);
    assert_eq!(fresh.name, "lab");
    assert_eq!(fresh.secret.len(), 64);
    assert!(fresh.secret.chars().all(|c| c.is_ascii_hexdigit() && !c.is_ascii_uppercase()));
    assert_eq!(&fresh.secret[12..13], "4");
    assert_eq!(&fresh.secret[44..45], "4");
    assert_ne!(fresh.self_id(), NodeId(0));
    assert!(fresh.is_leader(3));
    let persisted = PersistedCluster {
        self_id: NodeId(9),
        name: "prod".into(),
        secret: "k".into(),
        generation: 12,
        members: vec![record(9), record(10)],
    };
    let mut me = record(0);
    me.name = "renamed".into();
    let c = Cluster::open_state(Some(persisted), me, "ignored".into(), 1000, 1000, 5);
    assert_eq!(c.self_id(), NodeId(9));
    assert_eq!(c.generation(), 12);
    assert_eq!(c.name, "prod");
    assert_eq!(c.secret, "k");
    assert_eq!(c.members.len(), 2);
    assert_eq!(c.self_record().name, "renamed");
    assert_eq!(c.leader_id(5), Some(NodeId(9)));
}

#[test]
fn persist_roundtrip() {
    let listen_url = pertisk::urls::advertise_url("127.0.0.1:7480", None, &None);
    let me = || configured_self_record(NodeId(0), listen_url.clone(), Some("alpha"), Some(8), None, None, None);
    let cluster = Cluster::open_state(None, me(), "pertisk".into(), 1000, 5000, 10);
    let id = cluster.self_id();
    let saved = cluster.persisted();
    drop(cluster);
    let mut reopened = Cluster::open_state(Some(saved), me(), "pertisk".into(), 1000, 5000, 20);
    assert_eq!(reopened.self_id(), id);
    assert_eq!(reopened.self_record().name, "alpha");
    assert_eq!(reopened.self_record().cpus, 8);
    let status = reopened.status(&[], 20, HostAddrs { ipv4: vec![], ipv6: vec![] });
    assert_eq!(status.members.len(), 1);
    assert!(reopened.has_quorum(20));
    assert!(reopened.is_leader(20));
}

#[test]
fn self_stays_schedulable_after_heartbeat_timeout() {
    let listen_url = pertisk::urls::advertise_url("127.0.0.1:7480", None, &None);
    let me = configured_self_record(NodeId(0), listen_url, None, Some(1), None, None, None);
    let mut cluster = Cluster::open_state(None, me, "pertisk".into(), 1000, 50, 1_000);
    let later = 1_000 + 80;
    assert!(cluster.has_quorum(later));
    let status = cluster.status(&[], later, HostAddrs { ipv4: vec![], ipv6: vec![] });
    assert!(status.members.iter().all(|m| m.online));
    // long after any timeout, this node still counts itself online
    assert!(cluster.has_quorum(10_000_000));
}
