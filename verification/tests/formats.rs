use pertisk::api::Role;
use pertisk::disk_boot::{
    boot_file_candidates, choose_bls_entry, disk_boot_cmdline, efi_file_is_shim,
    grub_linux_options, parse_bls, resolve_boot_path, unix_kernel_entry,
};
use pertisk::inject::{
    add_user_to_groups_text, authorized_keys_text, collect_guest_keys, group_gid, group_line,
    looks_like_ssh_key, next_uid, nocloud_meta_data, nocloud_user_data, passwd_home,
    passwd_line, patch_hosts_text, patch_sshd_text, sanitize_host, sanitize_user,
    set_shadow_hash_text, shadow_has, shadow_lastchg, shadow_line, unlock_passwd_text,
};
use pertisk::ipam::{ipv4_string, parse_cidr, parse_ipv4, NetError};
use pertisk::iso9660::{cidata_fits, cidata_iso};
use pertisk::text::decode_utf16_lossy;
use pertisk::iso_boot::{decode_iso9660, decode_joliet, parse_volume_id, roots_from};
use pertisk::seed::{
    cloudinit_iso_name, cloudinit_meta_data, cloudinit_user_data, iso_name, seed_name,
    CloudInitIsoRequest,
};
use pertisk::storage::{run_result, QemuImg, StorageError};
use pertisk::types::{parse_size, TypesError, VmSpec};
use pertisk::updates::{
    add_repo, parse_deb822_text, parse_list_text, sanitize_repo_name, set_deb822_enabled,
    set_list_enabled, AddRepositoryRequest,
};

fn strs(v: &[&str]) -> Vec<String> {
    v.iter().map(|s| s.to_string()).collect()
}

// ---------------------------------------------------------------------------
// Addresses and sizes
// ---------------------------------------------------------------------------

#[test]
fn ipv4_text_roundtrip() {
    for text in ["0.0.0.0", "10.88.0.1", "192.168.255.254", "255.255.255.255"] {
        let ip = parse_ipv4(text).unwrap();
        assert_eq!(ipv4_string(ip), text);
    }
    assert_eq!(parse_ipv4("10.88.0.1").unwrap(), 0x0a58_0001);
}

#[test]
fn address_errors() {
    match parse_ipv4("10.0.0") {
        Err(NetError::Invalid(m)) => assert_eq!(m, "invalid ipv4 10.0.0"),
        _ => panic!("expected Invalid"),
    }
    match parse_cidr("10.0.0.0") {
        Err(NetError::Invalid(m)) => assert_eq!(m, "cidr must look like 10.88.0.0/24, got 10.0.0.0"),
        _ => panic!("expected Invalid"),
    }
    match parse_cidr("10.0.0.0/33") {
        Err(NetError::Invalid(m)) => assert_eq!(m, "prefix must be 0..=32"),
        _ => panic!("expected Invalid"),
    }
    let net = parse_cidr("10.88.7.9/16").unwrap();
    assert_eq!(net.to_cidr_string(), "10.88.0.0/16");
    match parse_cidr("10.0.0.0/30").unwrap().allocate(Some("10.0.0.1"), &strs(&["10.0.0.2"])) {
        Err(NetError::PoolExhausted(m)) => assert_eq!(m, "10.0.0.0/30"),
        _ => panic!("expected PoolExhausted"),
    }
}

#[test]
fn sizes_and_spec_errors() {
    assert_eq!(parse_size("10G").unwrap(), 10 << 30);
    assert!(parse_size("ten").is_err());
    let spec = VmSpec {
        name: "vm".into(),
        vcpus: 0,
        memory_mib: 512,
        kernel: None,
        cmdline: None,
        initramfs: None,
        disks: vec![],
        nets: vec![],
        serial_log: None,
        ha: false,
        autostart: false,
        autostart_delay: 0,
        autostart_order: 0,
    };
    match spec.validate() {
        Err(TypesError::InvalidSpec(m)) => assert_eq!(m, "vcpus must be >= 1"),
        _ => panic!("expected InvalidSpec"),
    }
    assert_eq!(Role::parse("operator"), Ok(Role::Operator));
    assert_eq!(Role::parse("root"), Err("unknown role 'root'".to_string()));
}

// ---------------------------------------------------------------------------
// Tool runs
// ---------------------------------------------------------------------------

#[test]
fn storage_tool_failures() {
    let args = strs(&["create", "-f", "qcow2", "/v/a.qcow2", "1G"]);
    assert!(run_result("qemu-img", &args, true, "", true).is_ok());
    match run_result("qemu-img", &args, false, "  no space \n", true) {
        Err(StorageError::Message(m)) => {
            assert_eq!(m, "qemu-img create -f qcow2 /v/a.qcow2 1G failed: no space")
        }
        _ => panic!("expected Message"),
    }
    assert!(matches!(QemuImg::new(None, None).create_qcow2("/v/a", 1), Err(StorageError::QemuImgRequired)));
    let q = QemuImg::new(None, Some("/usr/bin/qemu-img".into()));
    let inv = q.resize("/v/a.qcow2", 20 << 30).unwrap();
    assert_eq!(inv.args, strs(&["resize", "-f", "qcow2", "/v/a.qcow2", "20G"]));
}

// ---------------------------------------------------------------------------
// Cloud-init seed images
// ---------------------------------------------------------------------------

#[test]
fn cidata_image_reads_back() {
    let img = cidata_iso(b"#cloud-config\n", b"instance-id: iid-a\n");
    let sectors: Vec<Vec<u8>> = img.chunks(2048).map(|c| c.to_vec()).collect();
    let descriptors: Vec<Vec<u8>> = sectors[16..sectors.len().min(32)].to_vec();
    let roots = roots_from(&descriptors).unwrap();
    assert_eq!(roots.volume_id, "CIDATA");
    assert!(roots.iso.is_some());
    assert!(roots.joliet.is_some());
    assert_eq!(parse_volume_id(&sectors[16]), "CIDATA");
}

#[test]
fn directory_names_decode() {
    assert_eq!(decode_iso9660(b"USER_DAT.;1"), "USER_DAT");
    assert_eq!(decode_joliet(&[0, b'u', 0, b's', 0, b'e', 0, b'r']), "user");
}

// ---------------------------------------------------------------------------
// Disk boot
// ---------------------------------------------------------------------------

#[test]
fn bls_entries_and_grub_options() {
    let e = parse_bls("title Fedora\nversion 6.8.5\nlinux /vmlinuz-6.8.5\ninitrd /initramfs-6.8.5.img\noptions root=UUID=abc ro\n").unwrap();
    assert_eq!(e.linux, "/vmlinuz-6.8.5");
    assert_eq!(e.initrd, "/initramfs-6.8.5.img");
    assert_eq!(e.options, "root=UUID=abc ro");
    assert_eq!(e.version, "6.8.5");
    assert!(parse_bls("linux /vmlinuz\n").is_none());
    let older = parse_bls("version 6.1.0\nlinux /a\ninitrd /b\n").unwrap();
    let newer = parse_bls("version 6.8.5\nlinux /c\ninitrd /d\n").unwrap();
    assert_eq!(choose_bls_entry(&vec![older, newer]), Some(1));
    assert_eq!(choose_bls_entry(&vec![]), None);
    let cfg = "menuentry x {\n  linux /boot/vmlinuz-6 root=LABEL=cloudimg-rootfs ro quiet\n}\n";
    assert_eq!(
        grub_linux_options(&vec![Some(cfg.to_string())]).as_deref(),
        Some("root=LABEL=cloudimg-rootfs ro quiet")
    );
    assert_eq!(grub_linux_options(&vec![None, Some(cfg.to_string())]), None);
}

#[test]
fn disk_boot_cmdline_adds_console_and_panic() {
    let c = disk_boot_cmdline("root=/dev/vda1 ro", "/dev/loop0p1", None, None, None);
    assert_eq!(c, "root=/dev/vda1 ro console=ttyS0,115200n8 reboot=k panic=1");
    let kept = disk_boot_cmdline("root=/dev/vda1 console=hvc0 reboot=t panic=5", "/dev/loop0p1", None, None, None);
    assert_eq!(kept, "root=/dev/vda1 console=hvc0 reboot=t panic=5");
}

// ---------------------------------------------------------------------------
// Guest identity files
// ---------------------------------------------------------------------------

#[test]
fn names_are_sanitized() {
    assert_eq!(sanitize_user("  Alice.Smith "), "alicesmith");
    assert_eq!(sanitize_user("root"), "cloud-user");
    assert_eq!(sanitize_user("!!"), "cloud-user");
    assert_eq!(sanitize_host(" my host.example "), "my-host-example");
    assert_eq!(sanitize_host("..."), "pertisk");
}

#[test]
fn ssh_keys() {
    assert!(looks_like_ssh_key("  ssh-ed25519 AAAA x"));
    assert!(looks_like_ssh_key("sk-ecdsa-sha2-nistp256@openssh.com AAAA"));
    assert!(!looks_like_ssh_key("# ssh-rsa AAAA"));
    let merged = collect_guest_keys(&strs(&["ssh-ed25519 A", " ssh-ed25519 A "]), &strs(&["ssh-rsa B", "ssh-ed25519 A"]));
    assert_eq!(merged, strs(&["ssh-ed25519 A", "ssh-rsa B"]));
    assert_eq!(authorized_keys_text(&strs(&[" ssh-ed25519 A ", ""])).as_deref(), Some("ssh-ed25519 A\n"));
    assert_eq!(authorized_keys_text(&strs(&["  "])), None);
}

#[test]
fn account_files() {
    let passwd = "root:x:0:0:root:/root:/bin/bash\ndebian:x:1000:1000::/home/debian:/bin/bash\n";
    assert_eq!(next_uid(passwd), 1001);
    assert_eq!(next_uid(""), 1000);
    assert_eq!(passwd_home(passwd, "debian"), Some((1000, 1000, "/home/debian".to_string())));
    assert_eq!(passwd_home(passwd, "nobody"), None);
    assert_eq!(passwd_line("ann", 1001, 1001), "ann:x:1001:1001:Cloud User:/home/ann:/bin/bash");
    assert_eq!(group_line("ann", 1001), "ann:x:1001:");
    let group = "wheel:x:10:\nsudo:x:27:bob\nann:x:1005:\n";
    assert_eq!(group_gid(group, "ann", 7), Some(1005));
    assert_eq!(group_gid(group, "nope", 7), None);
    let added = add_user_to_groups_text(group, "ann", &strs(&["wheel", "sudo", "adm"]));
    assert_eq!(added, "wheel:x:10:ann\nsudo:x:27:bob,ann\nann:x:1005:\n");
    assert_eq!(add_user_to_groups_text(&added, "ann", &strs(&["wheel", "sudo"])), added);
}

#[test]
fn shadow_entries() {
    let shadow = "root:*:19000:0:99999:7:::\n";
    assert!(shadow_has(shadow, "root"));
    assert!(!shadow_has(shadow, "almalinux"));
    let appended = set_shadow_hash_text(shadow, "almalinux", "$6$abc$hash", "19500");
    assert!(appended.contains("almalinux:$6$abc$hash:19500:0:99999:7:::"));
    let replaced = set_shadow_hash_text(&appended, "root", "$6$x", "19600");
    assert!(replaced.starts_with("root:$6$x:19600:0:99999:7:::\n"));
    assert_eq!(shadow_line("ann", "19500"), "ann:*:19500:0:99999:7:::");
    assert_eq!(shadow_lastchg(Some(86_400 * 20_000 + 5)), "20000");
    assert_eq!(shadow_lastchg(Some(5)), "1");
    assert_eq!(shadow_lastchg(None), "1");
    assert_eq!(unlock_passwd_text("ann:!:1001:1001::/home/ann:/bin/bash\n", "ann"), "ann:x:1001:1001::/home/ann:/bin/bash\n");
}

#[test]
fn hosts_and_sshd() {
    let hosts = patch_hosts_text("127.0.1.1 old\n::1 localhost\n", "web");
    assert_eq!(hosts, "127.0.0.1 localhost\n::1 localhost\n127.0.1.1 web\n");
    let sshd = patch_sshd_text("#PasswordAuthentication no\n  KbdInteractiveAuthentication no\nPort 22\n");
    assert_eq!(sshd, "PasswordAuthentication yes\nKbdInteractiveAuthentication yes\nPort 22\n");
}

#[test]
fn nocloud_seed_texts() {
    assert_eq!(nocloud_meta_data("web"), "instance-id: iid-web\nlocal-hostname: web\nhostname: web\n");
    let ud = nocloud_user_data("web", "ann", Some("pw"), &strs(&["ssh-ed25519 A", " "]));
    assert_eq!(
        ud,
        "#cloud-config\nhostname: web\nfqdn: web\npreserve_hostname: false\nssh_pwauth: true\nchpasswd:\n  expire: false\n  list: |\n    ann:pw\nssh_authorized_keys:\n  - ssh-ed25519 A\n"
    );
}

// ---------------------------------------------------------------------------
// APT sources
// ---------------------------------------------------------------------------

const DEBIAN_SOURCES: &str = "Types: deb\n\
URIs: http://deb.debian.org/debian\n\
Suites: trixie trixie-updates\n\
Components: main contrib\n\
Signed-By: /usr/share/keyrings/debian-archive-keyring.gpg\n";

#[test]
fn deb822_sources_toggle() {
    let repos = parse_deb822_text("etc/apt/sources.list.d/debian.sources", DEBIAN_SOURCES);
    assert_eq!(repos.len(), 1);
    assert!(repos[0].enabled);
    assert_eq!(repos[0].uri, "http://deb.debian.org/debian");
    assert_eq!(repos[0].suite, "trixie trixie-updates");
    let off = set_deb822_enabled(DEBIAN_SOURCES, &repos[0], false).unwrap();
    assert!(off.contains("Enabled: no"));
    let again = parse_deb822_text("etc/apt/sources.list.d/debian.sources", &off);
    assert!(!again[0].enabled);
}

#[test]
fn list_sources_add_and_disable() {
    let file = add_repo(&AddRepositoryRequest {
        name: "debian-security".into(),
        uri: "http://security.debian.org/debian-security".into(),
        suite: "trixie-security".into(),
        components: "main contrib".into(),
    })
    .unwrap();
    assert_eq!(file.file_name, "debian-security.list");
    assert_eq!(file.body, "deb http://security.debian.org/debian-security trixie-security main contrib\n");
    let repos = parse_list_text("etc/apt/sources.list.d/debian-security.list", &file.body);
    assert_eq!(repos.len(), 1);
    assert!(repos[0].enabled);
    assert_eq!(repos[0].suite, "trixie-security");
    let off = set_list_enabled(&file.body, &repos[0], false).unwrap();
    assert!(off.trim_start().starts_with("# deb "));
    assert!(sanitize_repo_name("../x").is_err());
}

// ---------------------------------------------------------------------------
// Cloud-init seeds
// ---------------------------------------------------------------------------

fn seed_request(name: &str) -> CloudInitIsoRequest {
    CloudInitIsoRequest {
        name: name.into(),
        hostname: Some("web-1".into()),
        user: Some("ubuntu".into()),
        password: Some("ubuntu".into()),
        ssh_authorized_keys: vec![],
        userdata: None,
    }
}

#[test]
fn cloudinit_seed_is_cidata() {
    let req = seed_request("web-1");
    assert_eq!(cloudinit_iso_name(&req).unwrap(), "web-1-cidata.iso");
    let user_data = cloudinit_user_data(&req);
    let meta_data = cloudinit_meta_data(&req);
    assert!(user_data.contains("hostname: web-1"));
    assert!(user_data.contains("ubuntu:ubuntu"));
    assert_eq!(meta_data, "instance-id: iid-web-1\nlocal-hostname: web-1\n");
    let bytes = cidata_iso(user_data.as_bytes(), meta_data.as_bytes());
    assert!(bytes.len() >= 25 * 2048);
    assert_eq!(&bytes[32768 + 40..32768 + 46], b"CIDATA");
}

#[test]
fn seed_names() {
    assert_eq!(seed_name(""), "cidata.iso");
    assert_eq!(seed_name(" web "), "web-cidata.iso");
    assert_eq!(seed_name("web.ISO"), "web-cidata.iso");
    assert_eq!(seed_name("my-CIDATA"), "my-CIDATA.iso");
    assert!(matches!(
        cloudinit_iso_name(&seed_request(".x")),
        Err(StorageError::InvalidIsoName(n)) if n == ".x-cidata.iso"
    ));
}

#[test]
fn stored_iso_names() {
    assert_eq!(iso_name("/tmp/debian-12.iso", None).unwrap(), "debian-12.iso");
    assert_eq!(iso_name("/", None).unwrap(), "disk.iso");
    assert_eq!(iso_name("/tmp/a.iso", Some("dir/b.iso".into())).unwrap(), "b.iso");
    assert!(matches!(iso_name("/tmp/a.iso", Some("..".into())), Err(StorageError::InvalidIsoName(n)) if n.is_empty()));
    assert!(matches!(iso_name("/tmp/a.iso", Some(".hidden".into())), Err(StorageError::InvalidIsoName(n)) if n == ".hidden"));
}

#[test]
fn own_user_data_wins() {
    let mut req = seed_request("x");
    req.userdata = Some("  #cloud-config\nruncmd: []\n ".into());
    assert_eq!(cloudinit_user_data(&req), "#cloud-config\nruncmd: []");
    let mut req = seed_request("x");
    req.user = None;
    req.hostname = Some("  ".into());
    req.password = None;
    req.ssh_authorized_keys = vec![" ssh-ed25519 A ".into(), "".into()];
    let ud = cloudinit_user_data(&req);
    assert!(ud.starts_with("#cloud-config\nhostname: pertisk\n"));
    assert!(ud.contains("  - name: ubuntu\n"));
    assert!(ud.ends_with("    ssh_authorized_keys:\n      - ssh-ed25519 A\n"));
}

#[test]
fn shim_files() {
    assert!(efi_file_is_shim("/esp/EFI/BOOT/BOOTX64.EFI", Some(b"PE\0\0MokListRT shim signature")));
    assert!(!efi_file_is_shim("/esp/EFI/BOOT/BOOTX64.EFI", Some(b"GRUB bootloader only")));
    assert!(!efi_file_is_shim("/esp/EFI/BOOT/BOOTX64.EFI", None));
    assert!(efi_file_is_shim("/esp/EFI/ubuntu/shimx64.efi", None));
    assert!(efi_file_is_shim("/esp/EFI/ubuntu/MMX64.EFI", None));
    assert!(!efi_file_is_shim("/esp/EFI/ubuntu/grubx64.efi", Some(b"shim")));
}

#[test]
fn kernel_from_boot_listing() {
    let boot = strs(&["vmlinuz-6.8.0-generic", "initrd.img-6.8.0-generic", "config-6.8.0-generic"]);
    let cfg = "linux /boot/vmlinuz-6.8.0-generic root=UUID=abc ro quiet\n".to_string();
    let options = grub_linux_options(&vec![Some(cfg)]).unwrap_or_default();
    let entry = unix_kernel_entry(&boot, &vec![], &options).unwrap();
    assert_eq!(entry.linux, "boot/vmlinuz-6.8.0-generic");
    assert_eq!(entry.initrd, "boot/initrd.img-6.8.0-generic");
    assert_eq!(entry.version, "6.8.0-generic");
    assert!(entry.options.contains("root=UUID=abc"));
    let newest = strs(&["vmlinuz-6.1.0", "vmlinuz-6.8.0", "initramfs-6.8.0.img"]);
    let e = unix_kernel_entry(&vec![], &newest, "").unwrap();
    assert_eq!(e.linux, "vmlinuz-6.8.0");
    assert_eq!(e.initrd, "initramfs-6.8.0.img");
    let plain = strs(&["vmlinuz", "initrd.img", "vmlinuz-9"]);
    let e = unix_kernel_entry(&plain, &vec![], "").unwrap();
    assert_eq!(e.linux, "boot/vmlinuz");
    assert_eq!(e.version, "");
    assert!(unix_kernel_entry(&strs(&["vmlinuz-1"]), &strs(&["initrd.img"]), "").is_none());
}

#[test]
fn loader_entry_paths() {
    let c = boot_file_candidates("/mnt/boot", "  /boot/vmlinuz-6.8 ");
    assert_eq!(c, strs(&["/mnt/boot/boot/vmlinuz-6.8", "/mnt/boot/vmlinuz-6.8"]));
    assert_eq!(resolve_boot_path("/mnt/boot", "/boot/vmlinuz-6.8", &vec![false, true]).unwrap(), "/mnt/boot/vmlinuz-6.8");
    assert_eq!(resolve_boot_path("/mnt/boot", "vmlinuz", &vec![true, true]).unwrap(), "/mnt/boot/vmlinuz");
    match resolve_boot_path("/mnt/boot", "//initrd ", &vec![false, false]) {
        Err(StorageError::Message(m)) => assert_eq!(m, "boot file not found: initrd under /mnt/boot"),
        _ => panic!("expected Message"),
    }
}

#[test]
fn malformed_addresses_are_refused() {
    for text in ["", "1.2.3", "1.2.3.4.5", "256.0.0.1", "a.b.c.d"] {
        match parse_ipv4(text) {
            Err(NetError::Invalid(m)) => assert_eq!(m, format!("invalid ipv4 {text}")),
            other => panic!("expected Invalid for {text:?}, got {other:?}"),
        }
    }
    assert_eq!(parse_ipv4("10.88.0.1").unwrap(), 0x0A58_0001);
}

#[test]
fn ordinary_seeds_fit() {
    assert!(cidata_fits(b"#cloud-config\n", b"instance-id: iid-a\n"));
    assert!(cidata_fits(b"", b""));
    assert!(cidata_fits(&vec![0u8; 1 << 20], &vec![1u8; 4096]));
}

#[test]
fn utf16_units_decode_with_replacement() {
    assert_eq!(decode_utf16_lossy(&[0x0075, 0x0073, 0x0065, 0x0072]), "user");
    assert_eq!(decode_utf16_lossy(&[0xD83D, 0xDE00]), "\u{1F600}");
    assert_eq!(decode_utf16_lossy(&[0xD800]), "\u{FFFD}");
    assert_eq!(decode_utf16_lossy(&[0xD800, 0x0041]), "\u{FFFD}A");
    assert_eq!(decode_utf16_lossy(&[0xDC00, 0x0041]), "\u{FFFD}A");
    assert_eq!(decode_utf16_lossy(&[0xDBFF, 0xDFFF]), "\u{10FFFF}");
    assert_eq!(decode_utf16_lossy(&[0xE000, 0xFFFF]), "\u{E000}\u{FFFF}");
    let samples: [&[u16]; 5] = [
        &[0xD800, 0xD800, 0xDC00],
        &[0xDC00, 0xD800],
        &[0x0041, 0xD83D, 0xDE00, 0xDFFF, 0x00E9],
        &[],
        &[0xDBFF],
    ];
    for units in samples {
        assert_eq!(decode_utf16_lossy(units), String::from_utf16_lossy(units));
    }
}
