//! Backups of a guest's disks: which volumes go into one, what it is named, where each
//! image is written, and how its notes and size read.
use vstd::prelude::*;

use crate::host::DaemonError;
use crate::ids::{uuid_string, uuid_text, VolumeId};
use crate::text::{append_str, chars_of, string_of, trim, trim_vec};
use crate::types::{TypesError, TypesErrorView, VmRecord, VmState, VolumeFormat};

verus! {

/// What a backup needs to know of a volume it would export.
#[derive(Debug)]
pub struct BackupVolume {
    pub name: String,
    /// The volume lives in a Ceph RBD pool, not in a local file.
    pub rbd: bool,
    /// Its image file exists on this node.
    pub local_file: bool,
}

/// The volumes of a guest's disks, CD-ROMs left out, in order.
pub open spec fn backup_ids(disks: Seq<crate::types::DiskSpec>) -> Seq<VolumeId>
    decreases disks.len(),
{
    if disks.len() == 0 {
        seq![]
    } else {
        let d = disks.last();
        backup_ids(disks.drop_last()) + match d.volume_id {
            Some(v) if !d.cdrom => seq![v],
            _ => seq![],
        }
    }
}

/// The volumes a backup of `vm` exports, in disk order (look each one up, in order, and
/// hand the outcomes to `check_backup_sources`).
pub fn backup_volume_ids(vm: &VmRecord) -> (r: Vec<VolumeId>)
    ensures
        r@ == backup_ids(vm.spec.disks@),
{
    let disks = &vm.spec.disks;
    let mut out: Vec<VolumeId> = Vec::new();
    let mut i: usize = 0;
    while i < disks.len()
        invariant
            i <= disks.len(),
            disks == &vm.spec.disks,
            out@ == backup_ids(disks@.take(i as int)),
        decreases disks.len() - i,
    {
        assert(disks@.take(i as int + 1).drop_last() =~= disks@.take(i as int));
        let ghost before = out@;
        if !disks[i].cdrom {
            if let Some(v) = disks[i].volume_id {
                out.push(v);
            }
        }
        assert(out@ =~= backup_ids(disks@.take(i as int + 1)));
        i += 1;
    }
    assert(disks@.take(disks.len() as int) =~= disks@);
    out
}

/// A looked-up volume stops the backup: the lookup failed, it is an RBD volume, or it has
/// no local image.
pub open spec fn backup_fault(v: Result<BackupVolume, DaemonError>) -> bool {
    match v {
        Err(_) => true,
        Ok(b) => b.rbd || !b.local_file,
    }
}

/// Why a looked-up volume stops the backup (for one that does).
pub open spec fn fault_is(v: Result<BackupVolume, DaemonError>, r: Result<(), DaemonError>) -> bool {
    match v {
        Err(e) => r == Err::<(), DaemonError>(e),
        Ok(b) => if b.rbd {
            r matches Err(DaemonError::Types(t)) && t@ == TypesErrorView::InvalidSpec(
                "RBD volumes cannot be backed up with the local export path yet"@,
            )
        } else {
            r matches Err(DaemonError::Types(t)) && t@ == TypesErrorView::InvalidSpec(
                "volume "@ + b.name@ + " has no local image to export"@,
            )
        },
    }
}

fn types_error(m: Vec<char>) -> (r: Result<(), DaemonError>)
    ensures
        r matches Err(DaemonError::Types(t)) && t@ == TypesErrorView::InvalidSpec(m@),
{
    Err(DaemonError::Types(TypesError::InvalidSpec(string_of(m.as_slice()))))
}

/// Whether guest `vm` can be backed up, given the lookups of its volumes in order
/// (`backup_volume_ids`). A template or a running guest is refused; then the first volume
/// whose lookup failed, that is an RBD volume or that has no local image stops it; a
/// guest without volumes has nothing to back up.
pub fn check_backup_sources(vm: &VmRecord, vols: Vec<Result<BackupVolume, DaemonError>>) -> (r: Result<
    (),
    DaemonError,
>)
    ensures
        vm.template ==> (r matches Err(DaemonError::IsTemplate(id, op)) && id == vm.id && op@
            == "backup"@),
        !vm.template && vm.state == VmState::Running ==> (r matches Err(
            DaemonError::MustBeStopped(id, op),
        ) && id == vm.id && op@ == "backup"@),
        !vm.template && vm.state != VmState::Running ==> {
            &&& (forall|k: int| 0 <= k < vols@.len() ==> !backup_fault(#[trigger] vols@[k]))
                ==> (if vols@.len() == 0 {
                r matches Err(DaemonError::Types(t)) && t@ == TypesErrorView::InvalidSpec(
                    "guest has no disks to back up"@,
                )
            } else {
                r is Ok
            })
            &&& (exists|k: int| 0 <= k < vols@.len() && backup_fault(#[trigger] vols@[k])) ==> exists|
                k: int,
            |
                0 <= k < vols@.len() && backup_fault(#[trigger] vols@[k]) && fault_is(vols@[k], r)
                    && forall|j: int| 0 <= j < k ==> !backup_fault(#[trigger] vols@[j])
        },
{
    if vm.template {
        return Err(DaemonError::IsTemplate(vm.id, string_of(chars_of("backup").as_slice())));
    }
    if vm.state == VmState::Running {
        return Err(DaemonError::MustBeStopped(vm.id, string_of(chars_of("backup").as_slice())));
    }
    let ghost orig = vols@;
    let n0: usize = vols.len();
    let mut rest = vols;
    let mut k: usize = 0;
    while rest.len() > 0
        invariant
            k + rest@.len() == orig.len(),
            orig.len() == n0,
            rest@ == orig.skip(k as int),
            forall|j: int| 0 <= j < k ==> !backup_fault(#[trigger] orig[j]),
            orig == vols@,
            !vm.template,
            vm.state != VmState::Running,
        decreases rest@.len(),
    {
        assert(rest@[0] == orig[k as int]);
        let v = rest.remove(0);
        assert(rest@ =~= orig.skip(k as int + 1));
        let ghost gv = v;
        assert(gv == orig[k as int]);
        let res: Result<(), DaemonError> = match v {
            Err(e) => Err(e),
            Ok(b) => {
                if b.rbd {
                    types_error(
                        chars_of("RBD volumes cannot be backed up with the local export path yet"),
                    )
                } else if !b.local_file {
                    let mut m = chars_of("volume ");
                    append_str(&mut m, b.name.as_str());
                    append_str(&mut m, " has no local image to export");
                    types_error(m)
                } else {
                    Ok(())
                }
            },
        };
        if res.is_err() {
            proof {
                assert(backup_fault(orig[k as int]));
                assert(fault_is(orig[k as int], res));
                assert(orig == vols@);
            }
            return res;
        }
        assert(!backup_fault(orig[k as int]));
        k += 1;
    }
    if n0 == 0 {
        return types_error(chars_of("guest has no disks to back up"));
    }
    Ok(())
}

/// A backup's name: the guest's name, `-`, and the first 8 characters of the backup's id.
pub fn backup_name(vm_name: &str, backup: u128) -> (r: String)
    ensures
        r@ == vm_name@ + "-"@ + uuid_text(backup).take(8),
{
    let id = chars_of(uuid_string(backup).as_str());
    let mut v = chars_of(vm_name);
    append_str(&mut v, "-");
    proof {
        crate::ids::lemma_uuid_text_len(backup);
    }
    let mut i: usize = 0;
    let ghost start = v@;
    while i < 8 && i < id.len()
        invariant
            i <= 8,
            i <= id@.len(),
            id@ == uuid_text(backup),
            v@ == start + id@.take(i as int),
        decreases 8 - i,
    {
        v.push(id[i]);
        assert(id@.take(i as int + 1) =~= id@.take(i as int).push(id@[i as int]));
        i += 1;
    }
    string_of(v.as_slice())
}

/// The file an exported volume image is written to: `<volume id>.<format>`.
pub fn backup_file_name(id: VolumeId, format: VolumeFormat) -> (r: String)
    ensures
        r@ == uuid_text(id.0) + "."@ + format.spec_as_str(),
{
    let mut v = chars_of(uuid_string(id.0).as_str());
    append_str(&mut v, ".");
    append_str(&mut v, format.extension());
    string_of(v.as_slice())
}

/// A backup's notes: trimmed, and none when blank.
pub fn backup_notes(notes: Option<String>) -> (r: Option<String>)
    ensures
        match notes {
            Some(n) if trim(n@).len() > 0 => r matches Some(t) && t@ == trim(n@),
            _ => r is None,
        },
{
    match notes {
        None => None,
        Some(n) => {
            let t = trim_vec(chars_of(n.as_str()).as_slice());
            if t.len() > 0 {
                Some(string_of(t.as_slice()))
            } else {
                None
            }
        },
    }
}

/// The sum of a list of sizes, saturating at `u64::MAX`.
pub open spec fn sat_sum(s: Seq<u64>) -> u64
    decreases s.len(),
{
    if s.len() == 0 {
        0
    } else {
        crate::procfs::sat_add(sat_sum(s.drop_last()), s.last())
    }
}

/// A backup's size: the sizes of its image files added up, saturating.
pub fn backup_size(sizes: &Vec<u64>) -> (r: u64)
    ensures
        r == sat_sum(sizes@),
{
    let mut total: u64 = 0;
    let mut i: usize = 0;
    while i < sizes.len()
        invariant
            i <= sizes.len(),
            total == sat_sum(sizes@.take(i as int)),
        decreases sizes.len() - i,
    {
        assert(sizes@.take(i as int + 1).drop_last() =~= sizes@.take(i as int));
        total = total.saturating_add(sizes[i]);
        i += 1;
    }
    assert(sizes@.take(sizes.len() as int) =~= sizes@);
    total
}

} // verus!
