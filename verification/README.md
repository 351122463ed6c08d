# pertisk

The control-plane logic of a small virtualization cluster, written in Verus: every
function in `src/` carries a contract that Verus proves. The daemon's I/O (HTTP, the
hypervisor processes, files, `ip`, `apt-get`) is not here; the library decides and
formats, and its callers run the commands and hand back what came out.

## Layout

- `src/` — the verified library, one module per concern:
  - cluster membership, quorum, fencing and heartbeats (`cluster`), placement and
    replicas (`placement`), HA restart and autostart (`recovery`);
  - the guest inventory (`inventory`), edits to a guest's record and the start, restart
    and migrate decisions (`vm_edit`), backups (`backup`), types and sizes (`types`),
    identifiers (`ids`);
  - networking: IPv4 address management (`ipam`), host bridges and TAPs as command
    plans (`hostnet`), interface names (`netnames`), addresses and URLs (`addrs`, `urls`);
  - storage: `qemu-img`/`rbd` invocations (`storage`), ISO 9660 seed images
    (`iso9660`), kernel-booting installer ISOs and shim disks (`iso_boot`, `disk_boot`),
    guest identity injection (`inject`), cloud-init seeds (`seed`);
  - the host: `/proc` and `df` parsing (`procfs`), host power, mail texts and boot plans
    (`host`), notification settings (`notify`), apt updates and repositories
    (`updates`), access control and API errors (`access`, `api`), configuration
    (`config`), text and JSON helpers (`text`, `json`, `shell`).
- `tests/` — tests run against the compiled library.
- `app/` — `pertisk-node`, a small host tool: it reads configuration and kernel files,
  runs the command plans the library makes, and prints what the library computes.

Calls into `uuid`, `serde_json` and a few std functions (UTF-8 lossy decoding,
`char::from_u32`, `String::push`) stand behind trusted
wrappers (`ids`, `json`, `text`), each with a doc comment that says what is assumed.
