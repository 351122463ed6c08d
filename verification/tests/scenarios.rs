use pertisk::api::Role;
use pertisk::disk_boot::{cmdline_has_block_root, is_loop_partition, partition_index, pin_root_device, virtio_root_dev};
use pertisk::host::{find_identity, host_power_argv, HostPowerAction};
use pertisk::ids::{NodeId, VmId};
use pertisk::shell::parse_resize;
use pertisk::inject::parse_ssh_keys;
use pertisk::ipam::{ipv4_string, Ipv4Net};
use pertisk::iso9660::cidata_iso;
use pertisk::placement::{
    guest_memory_capacity, guest_start_fits, has_quorum, host_memory_reserve_mib, node_fits,
    place_replicas, schedule, schedule_define, NodeLoad,
};
use pertisk::storage::{format_qemu_size, Rbd};
use pertisk::types::{format_size, parse_size, NetSpec, VmSpec};
use pertisk::updates::{apt_dns_failed, parse_inst_lines, tidy_apt_log};
use pertisk::urls::{advertise_peer_url, advertise_url, is_loopback_peer_url, local_ips, HostAddrs};

fn spec() -> VmSpec {
    VmSpec {
        name: "vm".into(),
        vcpus: 2,
        memory_mib: 1024,
        kernel: None,
        cmdline: None,
        initramfs: None,
        disks: vec![],
        nets: vec![],
        serial_log: None,
        ha: true,
        autostart: false,
        autostart_delay: 0,
        autostart_order: 0,
    }
}

fn spec_small() -> VmSpec {
    let mut spec = spec();
    spec.vcpus = 1;
    spec.memory_mib = 512;
    spec
}

fn load(_id: u8, used_vcpus: u32) -> NodeLoad {
    NodeLoad {
        id: NodeId::new(),
        online: true,
        cpus: 8,
        memory_mib: 16_384,
        used_vcpus,
        used_memory_mib: used_vcpus * 512,
    }
}

#[test]
fn role_rank() {
    assert!(Role::Admin.allows(Role::Operator));
    assert!(!Role::Viewer.allows(Role::Operator));
}

#[test]
fn majority_quorum() {
    assert!(has_quorum(1, 1));
    assert!(!has_quorum(1, 2));
    assert!(has_quorum(2, 3));
    assert!(!has_quorum(1, 3));
    assert!(has_quorum(3, 4));
    assert!(!has_quorum(2, 4));
}

#[test]
fn least_loaded_fits() {
    let a = load(1, 6);
    let b = load(2, 1);
    let id_a = a.id;
    let id_b = b.id;
    let picked = schedule(&[a, b], &spec(), None).unwrap();
    assert_eq!(picked, id_b);
    let _ = id_a;
}

#[test]
fn replica_placement_includes_self() {
    let a = NodeId::new();
    let b = NodeId::new();
    let c = NodeId::new();
    let placed = place_replicas(&[a, b, c], 2, Some(a));
    assert_eq!(placed.len(), 2);
    assert_eq!(placed[0], a);
}

#[test]
fn overcommits_vcpus_on_small_hosts() {
    let node = NodeLoad {
        id: NodeId::new(),
        online: true,
        cpus: 1,
        memory_mib: 4096,
        used_vcpus: 1,
        used_memory_mib: 512,
    };
    let id = node.id;
    assert_eq!(schedule(&[node], &spec_small(), None), Some(id));
}

#[test]
fn rejects_when_vcpu_overcommit_exhausted() {
    let node = NodeLoad {
        id: NodeId::new(),
        online: true,
        cpus: 1,
        memory_mib: 16_384,
        used_vcpus: 8,
        used_memory_mib: 4096,
    };
    assert_eq!(schedule(&[node], &spec_small(), None), None);
}

#[test]
fn guest_memory_capacity_fits_1024_on_1088() {
    let n = NodeLoad {
        id: NodeId::new(),
        online: true,
        cpus: 4,
        memory_mib: 1088,
        used_vcpus: 0,
        used_memory_mib: 0,
    };
    assert_eq!(host_memory_reserve_mib(1088), 64);
    assert_eq!(guest_memory_capacity(&n), 1024);
    let spec = VmSpec {
        name: "cloud".into(),
        vcpus: 1,
        memory_mib: 1024,
        kernel: None,
        cmdline: None,
        initramfs: None,
        disks: vec![],
        nets: vec![],
        serial_log: None,
        ha: true,
        autostart: false,
        autostart_delay: 0,
        autostart_order: 0,
    };
    assert!(node_fits(&n, &spec));
    assert!(guest_start_fits(1088, 0, 1024));
    assert!(!guest_start_fits(1088, 0, 1025));
    assert!(!guest_start_fits(1088, 832, 1024));
}

#[test]
fn schedule_define_ignores_guest_ram() {
    let n = NodeLoad {
        id: NodeId::new(),
        online: true,
        cpus: 2,
        memory_mib: 1088,
        used_vcpus: 0,
        used_memory_mib: 0,
    };
    let id = n.id;
    let spec = VmSpec {
        name: "cloud".into(),
        vcpus: 1,
        memory_mib: 4096,
        kernel: None,
        cmdline: None,
        initramfs: None,
        disks: vec![],
        nets: vec![],
        serial_log: None,
        ha: true,
        autostart: false,
        autostart_delay: 0,
        autostart_order: 0,
    };
    assert_eq!(schedule(&[n.clone()], &spec, None), None);
    assert_eq!(schedule_define(&[n], None, &[]), Some(id));
}

#[test]
fn guest_memory_capacity_caps_reserve_on_large_hosts() {
    let n = NodeLoad {
        id: NodeId::new(),
        online: true,
        cpus: 8,
        memory_mib: 32_768,
        used_vcpus: 0,
        used_memory_mib: 0,
    };
    assert_eq!(host_memory_reserve_mib(32_768), 1536);
    assert_eq!(guest_memory_capacity(&n), 31_232);
}

#[test]
fn advertise_url_defaults_to_http() {
    let lan = pertisk::urls::lan_advertise_host(&HostAddrs::default());
    assert_eq!(advertise_url("127.0.0.1:7480", None, &lan), "http://127.0.0.1:7480");
    let public = advertise_url("0.0.0.0:7480", None, &lan);
    assert!(public.starts_with("http://"), "{public}");
    assert!(public.ends_with(":7480"), "{public}");
    assert!(!public.contains("0.0.0.0"), "{public}");
    assert_eq!(
        advertise_url("10.1.1.144:7443", Some("https://10.1.1.144:7443"), &lan),
        "https://10.1.1.144:7443"
    );
    assert_eq!(
        advertise_peer_url("0.0.0.0:7480", Some("0.0.0.0:7443"), None, &lan)
            .split("://")
            .next(),
        Some("https")
    );
}

#[test]
fn loopback_peer_url_detection() {
    assert!(is_loopback_peer_url("http://127.0.0.1:7480"));
    assert!(is_loopback_peer_url("https://localhost:7443"));
    assert!(!is_loopback_peer_url("https://10.1.1.144:7443"));
}

#[test]
fn find_identity_is_optional() {
    let present: Vec<bool> = pertisk::host::identity_paths()
        .iter()
        .map(|p| std::path::Path::new(p).is_file())
        .collect();
    let _ = find_identity(&present);
}

#[test]
fn host_power_argv_skips_and_expands() {
    assert_eq!(host_power_argv(Some("skip"), HostPowerAction::Reboot, true), None);
    assert_eq!(
        host_power_argv(Some("touch /tmp/host-{action}"), HostPowerAction::Shutdown, true),
        Some(vec!["touch".into(), "/tmp/host-poweroff".into()])
    );
    assert_eq!(
        host_power_argv(Some("touch /tmp/host-{action}"), HostPowerAction::Reboot, true),
        Some(vec!["touch".into(), "/tmp/host-reboot".into()])
    );
    assert_eq!(host_power_argv(None, HostPowerAction::Reboot, true), None);
}

#[test]
fn parses_apt_inst_lines() {
    let text = "\
Reading package lists...
Inst linux-image-amd64 [6.12.12-1] (6.12.22-1 Debian:13/stable [amd64])
Inst qemu-system-x86 [1:9.2.0] (1:10.0.0 Debian:13/stable [amd64])
Conf linux-image-amd64 (6.12.22-1 Debian:13/stable [amd64])
";
    let pkgs = parse_inst_lines(text);
    assert_eq!(pkgs.len(), 2);
    assert_eq!(pkgs[0].name, "linux-image-amd64");
    assert_eq!(pkgs[0].version, "6.12.12-1");
    assert_eq!(pkgs[0].available, "6.12.22-1");
    assert_eq!(pkgs[0].arch, "amd64");
    assert_eq!(pkgs[0].origin, "Debian:13/stable");
    assert_eq!(pkgs[1].name, "qemu-system-x86");
}

#[test]
fn detects_apt_dns_failure() {
    let log = "\
Ign:1 http://deb.debian.org/debian trixie InRelease
Err:1 http://deb.debian.org/debian trixie InRelease
  Temporary failure resolving 'deb.debian.org'
W: Failed to fetch http://deb.debian.org/debian/dists/trixie/InRelease  Temporary failure resolving 'deb.debian.org'
";
    assert!(apt_dns_failed(log));
    assert!(!apt_dns_failed(
        "Hit:1 http://deb.debian.org/debian trixie InRelease\n"
    ));
}

#[test]
fn tidy_apt_progress_overwrites() {
    let log = tidy_apt_log(
        b"Hit:1 http://deb.debian.org/debian trixie InRelease\n",
        b"Reading package lists...\rReading package lists... Done\n",
    );
    assert!(log.contains("Hit:1"));
    assert!(log.contains("Reading package lists... Done"));
    assert!(!log.contains('\r'));
}

#[test]
fn parses_and_allocates() {
    let net = Ipv4Net::parse("10.88.0.0/24").unwrap();
    assert_eq!(ipv4_string(net.nth(1)), "10.88.0.1");
    let ip = net.allocate(Some("10.88.0.1"), &[]).unwrap();
    assert_eq!(ipv4_string(ip), "10.88.0.2");
    let ip = net
        .allocate(Some("10.88.0.1"), &["10.88.0.2".into()])
        .unwrap();
    assert_eq!(ipv4_string(ip), "10.88.0.3");
}

#[test]
fn detects_overlapping_networks() {
    let lan = Ipv4Net::parse("10.1.1.0/24").unwrap();
    assert!(lan.overlaps(Ipv4Net::parse("10.1.1.0/25").unwrap()));
    assert!(lan.overlaps(Ipv4Net::parse("10.1.0.0/16").unwrap()));
    assert!(!lan.overlaps(Ipv4Net::parse("10.88.0.0/24").unwrap()));
}

#[test]
fn copies_tap_from_spec() {
    let spec = NetSpec {
        tap: Some("vmtap0".into()),
        ..NetSpec::default()
    };
    assert_eq!(spec.tap.as_deref(), Some("vmtap0"));
}

#[test]
fn ubuntu_gpt_esp_is_p15() {
    assert!(is_loop_partition("loop0", "loop0p1"));
    assert!(is_loop_partition("loop0", "loop0p13"));
    assert!(is_loop_partition("loop0", "loop0p15"));
    assert!(!is_loop_partition("loop0", "loop0"));
    assert!(!is_loop_partition("loop0", "loop0p"));
    assert!(!is_loop_partition("loop1", "loop10p1"));
    assert!(!is_loop_partition("loop0", "loop0n1"));
    assert_eq!(partition_index("/dev/loop0p15"), 15);
    assert_eq!(partition_index("/dev/loop0p1"), 1);
}

#[test]
fn virtio_root_from_loop_partition() {
    assert_eq!(
        virtio_root_dev("/dev/loop3p1").as_deref(),
        Some("/dev/vda1")
    );
    assert_eq!(
        virtio_root_dev("/dev/nbd0p15").as_deref(),
        Some("/dev/vda15")
    );
}

#[test]
fn label_root_needs_pin() {
    assert!(!cmdline_has_block_root("root=LABEL=cloudimg-rootfs ro quiet"));
    assert!(cmdline_has_block_root("root=UUID=abc ro"));
    assert!(cmdline_has_block_root("root=/dev/vda1 ro"));
    let pinned = pin_root_device(
        "root=LABEL=cloudimg-rootfs ro quiet",
        "/dev/loop0p1",
        None,
        None,
        None,
    );
    assert!(pinned.starts_with("root=/dev/vda1"), "{pinned}");
    assert!(pinned.contains("ro"), "{pinned}");
    assert!(!pinned.contains("LABEL="), "{pinned}");
}

#[test]
fn parse_ssh_keys_skips_comments() {
    let keys = parse_ssh_keys(
        "# comment\nssh-ed25519 AAAAC3NzaC1lZDI1NTE5AAAAIFakeKey user@host\n\nnot-a-key\n",
    );
    assert_eq!(
        keys,
        vec!["ssh-ed25519 AAAAC3NzaC1lZDI1NTE5AAAAIFakeKey user@host"]
    );
}

#[test]
fn cidata_volume_and_joliet_names() {
    let iso = cidata_iso(b"#cloud-config\n", b"instance-id: i-1\n");
    assert_eq!(&iso[32768..32774], b"\x01CD001");
    let vol = std::str::from_utf8(&iso[32768 + 40..32768 + 46]).unwrap();
    assert_eq!(vol, "CIDATA");
    assert_eq!(&iso[34816..34822], b"\x02CD001");
    let joliet_user: Vec<u8> = "user-data"
        .encode_utf16()
        .flat_map(|u| u.to_be_bytes())
        .collect();
    assert!(
        iso.windows(joliet_user.len()).any(|w| w == joliet_user),
        "missing Joliet user-data name"
    );
    let user = b"#cloud-config\n";
    let meta = b"instance-id: i-1\n";
    assert!(iso.windows(user.len()).any(|w| w == user));
    assert!(iso.windows(meta.len()).any(|w| w == meta));
}

#[test]
fn qemu_size_uses_gib_suffix() {
    assert_eq!(format_qemu_size(50 * 1024 * 1024 * 1024), "50G");
    assert_eq!(format_qemu_size(75 * 1024 * 1024 * 1024), "75G");
    assert_eq!(format_qemu_size(1024 * 1024), "1M");
    assert_eq!(format_qemu_size(4097), "4097");
}

#[test]
fn image_path_format() {
    let rbd = Rbd {
        binary: None,
        pool: "vms".into(),
    };
    assert_eq!(rbd.image_path("root"), "rbd:vms/root");
}

#[test]
fn local_ips_non_empty_fallback() {
    let ips = local_ips(&HostAddrs::default());
    assert!(!ips.is_empty());
}

#[test]
fn spec_rejects_empty_name() {
    let spec = VmSpec {
        name: "  ".into(),
        vcpus: 1,
        memory_mib: 512,
        kernel: None,
        cmdline: None,
        initramfs: None,
        disks: vec![],
        nets: vec![],
        serial_log: None,
        ha: true,
        autostart: false,
        autostart_delay: 0,
        autostart_order: 0,
    };
    assert!(spec.validate().is_err());
}

#[test]
fn parse_size_gib() {
    assert_eq!(parse_size("10G").unwrap(), 10 * 1024 * 1024 * 1024);
    assert_eq!(parse_size("512M").unwrap(), 512 * 1024 * 1024);
    assert_eq!(format_size(1024 * 1024 * 1024), "1GiB");
}

#[test]
fn vm_id_roundtrip() {
    let id = VmId::new();
    let parsed: VmId = id.to_string().parse().unwrap();
    assert_eq!(id, parsed);
}

#[test]
fn parse_resize_json() {
    assert_eq!(
        parse_resize(r#"{"type":"resize","cols":100,"rows":40}"#),
        Some((100, 40))
    );
    assert_eq!(parse_resize("echo hi"), None);
}

