//! Partition layout: a boot region, an EFI region and a data region.
use vstd::prelude::*;

use crate::package::string_is;

verus! {

/// Bytes in one MiB.
pub const MIB: u64 = 1048576;

/// Bytes that a GUID partition table reserves at each end of the disk:
/// 34 sectors of 512 bytes.
pub const GPT_RESERVED: u64 = 17408;

/// The only block size the partition table writer supports.
pub const TABLE_BLOCK_SIZE: u64 = 512;

/// EFI region size, in MiB, when the configuration gives none.
pub const DEFAULT_EFI_MIB: u64 = 1;

/// Why a disk cannot be laid out.
#[derive(PartialEq, Eq, Structural, Clone, Copy, Debug)]
pub enum PlanError {
    /// The block size is zero or does not divide a MiB, or the table writer
    /// does not support it.
    UnsupportedBlockSize,
    /// The disk leaves no room for a data region.
    DiskTooSmall,
    /// The EFI region was given a size of zero.
    EmptyEfiRegion,
    /// No EFI boot file name is known for the target architecture.
    UnsupportedArch,
}

/// An inclusive range of logical block addresses.
#[derive(PartialEq, Eq, Structural, Clone, Copy, Debug)]
pub struct LbaRange {
    pub first_lba: u64,
    pub last_lba: u64,
}

impl LbaRange {
    /// Number of blocks in the range.
    pub open spec fn spec_blocks(self) -> int {
        self.last_lba - self.first_lba + 1
    }

    /// Byte offset of the range's first block.
    pub fn byte_offset(&self, block_size: u64) -> (r: u64)
        requires
            self.first_lba * block_size <= u64::MAX,
        ensures
            r == self.first_lba * block_size,
    {
        self.first_lba * block_size
    }

    /// Length of the range in bytes.
    pub fn byte_len(&self, block_size: u64) -> (r: u64)
        requires
            self.first_lba <= self.last_lba,
            (self.last_lba - self.first_lba + 1) * block_size <= u64::MAX,
        ensures
            r == self.spec_blocks() * block_size,
    {
        let d = self.last_lba - self.first_lba;
        assert(d * block_size + block_size == (d + 1) * block_size) by (nonlinear_arith);
        assert(d * block_size <= (d + 1) * block_size) by (nonlinear_arith);
        d * block_size + block_size
    }
}

/// Where each region lies. Without partitioning only `data` is present.
#[derive(PartialEq, Eq, Structural, Clone, Copy, Debug)]
pub struct PartitionPlan {
    pub bios: Option<LbaRange>,
    pub efi: Option<LbaRange>,
    pub data: LbaRange,
}

/// A usable block size: non-zero and dividing a MiB.
pub open spec fn block_size_ok(block_size: u64) -> bool {
    block_size > 0 && MIB % block_size == 0
}

/// The EFI region size in MiB.
pub open spec fn efi_mib(efi_size: Option<u32>) -> u64 {
    match efi_size {
        Some(n) => n as u64,
        None => DEFAULT_EFI_MIB,
    }
}

/// First block of the boot region: just past the primary table.
pub open spec fn bios_first(block_size: u64) -> int {
    (GPT_RESERVED / block_size) as int
}

/// Last block of the boot region: the end of the first MiB.
pub open spec fn bios_last(block_size: u64) -> int {
    MIB / block_size - 1
}

/// Last block of the EFI region.
pub open spec fn efi_last(block_size: u64, efi_size: Option<u32>) -> int {
    bios_last(block_size) + (efi_mib(efi_size) as int * MIB as int) / block_size as int
}

/// Last block of the data region: the end of the last whole MiB before the
/// backup table.
pub open spec fn data_last(disk_size: u64, block_size: u64) -> int {
    if disk_size < GPT_RESERVED {
        -1
    } else {
        (((disk_size - GPT_RESERVED) as int / MIB as int) * MIB as int) / block_size as int - 1
    }
}

/// The inputs on which the three-region plan exists.
pub open spec fn plan_fits(disk_size: u64, block_size: u64, efi_size: Option<u32>) -> bool {
    &&& block_size_ok(block_size)
    &&& efi_mib(efi_size) > 0
    &&& data_last(disk_size, block_size) >= efi_last(block_size, efi_size) + 1
}

/// The three-region plan for a disk of `disk_size` bytes, when there is
/// room for a data region.
pub open spec fn spec_plan(disk_size: u64, block_size: u64, efi_size: Option<u32>) -> PartitionPlan {
    PartitionPlan {
        bios: Some(
            LbaRange {
                first_lba: bios_first(block_size) as u64,
                last_lba: bios_last(block_size) as u64,
            },
        ),
        efi: Some(
            LbaRange {
                first_lba: (bios_last(block_size) + 1) as u64,
                last_lba: efi_last(block_size, efi_size) as u64,
            },
        ),
        data: LbaRange {
            first_lba: (efi_last(block_size, efi_size) + 1) as u64,
            last_lba: data_last(disk_size, block_size) as u64,
        },
    }
}

/// Lays out a disk of `disk_size` bytes and `block_size`-byte blocks: the
/// first MiB for the boot region (which holds the primary table), then
/// `efi_size` MiB (one by default) for EFI, then data up to the last whole
/// MiB before the backup table.
pub fn plan_partitions(disk_size: u64, block_size: u64, efi_size: Option<u32>) -> (r: Result<
    PartitionPlan,
    PlanError,
>)
    ensures
        !block_size_ok(block_size) ==> r == Err::<PartitionPlan, PlanError>(
            PlanError::UnsupportedBlockSize,
        ),
        block_size_ok(block_size) && efi_mib(efi_size) == 0 ==> r == Err::<PartitionPlan, PlanError>(
            PlanError::EmptyEfiRegion,
        ),
        block_size_ok(block_size) && efi_mib(efi_size) > 0 && data_last(disk_size, block_size)
            < efi_last(block_size, efi_size) + 1 ==> r == Err::<PartitionPlan, PlanError>(PlanError::DiskTooSmall),
        plan_fits(disk_size, block_size, efi_size) ==> r == Ok::<PartitionPlan, PlanError>(spec_plan(disk_size, block_size, efi_size)),
{
    if block_size == 0 || MIB % block_size != 0 {
        return Err(PlanError::UnsupportedBlockSize);
    }
    let bios_start = GPT_RESERVED / block_size;
    let bios_end = MIB / block_size - 1;
    let efi_start = bios_end + 1;
    let efi_mib: u64 = match efi_size {
        Some(n) => n as u64,
        None => DEFAULT_EFI_MIB,
    };
    if efi_mib == 0 {
        return Err(PlanError::EmptyEfiRegion);
    }
    assert(efi_mib * MIB <= 0xffff_ffff * MIB) by (nonlinear_arith)
        requires
            efi_mib <= 0xffff_ffff,
    ;
    let efi_blocks = efi_mib * MIB / block_size;
    assert(efi_blocks <= efi_mib * MIB) by (nonlinear_arith)
        requires
            efi_blocks as int == (efi_mib as int * MIB as int) / block_size as int,
            block_size > 0,
    ;
    let efi_end = bios_end + efi_blocks;
    let data_start = efi_end + 1;
    if disk_size < GPT_RESERVED {
        return Err(PlanError::DiskTooSmall);
    }
    let whole = (disk_size - GPT_RESERVED) / MIB * MIB;
    let data_blocks = whole / block_size;
    if data_blocks < data_start + 1 {
        return Err(PlanError::DiskTooSmall);
    }
    let data_end = data_blocks - 1;
    Ok(
        PartitionPlan {
            bios: Some(LbaRange { first_lba: bios_start, last_lba: bios_end }),
            efi: Some(LbaRange { first_lba: efi_start, last_lba: efi_end }),
            data: LbaRange { first_lba: data_start, last_lba: data_end },
        },
    )
}

/// On every input that it accepts, the plan's regions come in the order
/// boot, EFI, data, none of them empty and no two overlapping, and each spans
/// a whole number of blocks.
pub proof fn lemma_plan_regions_disjoint(disk_size: u64, block_size: u64, efi_size: Option<u32>)
    requires
        plan_fits(disk_size, block_size, efi_size),
    ensures
        ({
            let p = spec_plan(disk_size, block_size, efi_size);
            let bios = p.bios->Some_0;
            let efi = p.efi->Some_0;
            &&& p.bios is Some && p.efi is Some
            &&& bios.first_lba <= bios.last_lba
            &&& bios.last_lba < efi.first_lba
            &&& efi.first_lba <= efi.last_lba
            &&& efi.last_lba < p.data.first_lba
            &&& p.data.first_lba <= p.data.last_lba
            &&& (bios.spec_blocks() * block_size) % (block_size as int) == 0
            &&& (efi.spec_blocks() * block_size) % (block_size as int) == 0
            &&& (p.data.spec_blocks() * block_size) % (block_size as int) == 0
        }),
{
    let bs = block_size as int;
    let k = MIB as int / bs;
    assert(k * bs == MIB) by (nonlinear_arith)
        requires
            bs > 0,
            MIB as int % bs == 0,
            k == MIB as int / bs,
    ;
    assert(bs <= MIB) by (nonlinear_arith)
        requires
            bs > 0,
            k * bs == MIB,
    ;
    let a = GPT_RESERVED as int / bs;
    assert(a < k) by (nonlinear_arith)
        requires
            bs > 0,
            a == GPT_RESERVED as int / bs,
            k * bs == MIB,
            GPT_RESERVED < MIB,
    ;
    let e = (efi_mib(efi_size) as int * MIB as int) / bs;
    assert(e >= 1) by (nonlinear_arith)
        requires
            bs > 0,
            bs <= MIB,
            efi_mib(efi_size) >= 1,
            e == (efi_mib(efi_size) as int * MIB as int) / bs,
    ;
    assert(e <= 0xffff_ffff * MIB) by (nonlinear_arith)
        requires
            bs > 0,
            efi_mib(efi_size) <= 0xffff_ffff,
            e == (efi_mib(efi_size) as int * MIB as int) / bs,
    ;
    assert(data_last(disk_size, block_size) <= u64::MAX) by (nonlinear_arith)
        requires
            bs > 0,
            disk_size >= GPT_RESERVED ==> data_last(disk_size, block_size) == (((disk_size
                - GPT_RESERVED) as int / MIB as int) * MIB as int) / bs - 1,
            disk_size < GPT_RESERVED ==> data_last(disk_size, block_size) == -1,
    ;
    let p = spec_plan(disk_size, block_size, efi_size);
    assert forall|r: LbaRange| true implies (r.spec_blocks() * block_size) % bs == 0 by {
        assert((r.spec_blocks() * bs) % bs == 0) by (nonlinear_arith)
            requires
                bs > 0,
        ;
    }
}

/// The plan when partitioning is skipped: one data region over every whole
/// block of the disk.
pub fn plan_whole_disk(disk_size: u64, block_size: u64) -> (r: Result<PartitionPlan, PlanError>)
    ensures
        block_size == 0 ==> r == Err::<PartitionPlan, PlanError>(PlanError::UnsupportedBlockSize),
        block_size > 0 && disk_size < block_size ==> r == Err::<PartitionPlan, PlanError>(
            PlanError::DiskTooSmall,
        ),
        block_size > 0 && disk_size >= block_size ==> r == Ok::<PartitionPlan, PlanError>(
            PartitionPlan {
                bios: None,
                efi: None,
                data: LbaRange { first_lba: 0, last_lba: (disk_size / block_size - 1) as u64 },
            },
        ),
{
    if block_size == 0 {
        return Err(PlanError::UnsupportedBlockSize);
    }
    if disk_size < block_size {
        return Err(PlanError::DiskTooSmall);
    }
    assert(disk_size / block_size >= 1) by (nonlinear_arith)
        requires
            disk_size >= block_size,
            block_size > 0,
    ;
    Ok(
        PartitionPlan {
            bios: None,
            efi: None,
            data: LbaRange { first_lba: 0, last_lba: disk_size / block_size - 1 },
        },
    )
}

/// Checks that the partition table writer supports `block_size`.
pub fn check_table_block_size(block_size: u64) -> (r: Result<(), PlanError>)
    ensures
        r is Ok <==> block_size == TABLE_BLOCK_SIZE,
        r is Err ==> r == Err::<(), PlanError>(PlanError::UnsupportedBlockSize),
{
    if block_size == TABLE_BLOCK_SIZE {
        Ok(())
    } else {
        Err(PlanError::UnsupportedBlockSize)
    }
}

/// The file name, under `EFI/BOOT/`, of the second boot stage for a target
/// architecture, when one is known.
pub open spec fn spec_efi_boot_name(arch: Seq<char>) -> Option<Seq<char>> {
    if arch == "x86_64"@ {
        Some("BOOTX64.EFI"@)
    } else if arch == "x86"@ {
        Some("BOOTIA32.EFI"@)
    } else if arch == "aarch64"@ {
        Some("BOOTAA64.EFI"@)
    } else if arch == "riscv64"@ {
        Some("BOOTRISCV64.EFI"@)
    } else {
        None
    }
}

/// The EFI boot file name for the architecture `arch` (as Rust names
/// architectures); an unknown architecture is an error.
pub fn efi_boot_name(arch: &String) -> (r: Result<String, PlanError>)
    ensures
        spec_efi_boot_name(arch@) is Some ==> r is Ok && r->Ok_0@ == spec_efi_boot_name(
            arch@,
        )->Some_0,
        spec_efi_boot_name(arch@) is None ==> r == Err::<String, PlanError>(
            PlanError::UnsupportedArch,
        ),
{
    if string_is(arch, "x86_64") {
        Ok(String::from_str("BOOTX64.EFI"))
    } else if string_is(arch, "x86") {
        Ok(String::from_str("BOOTIA32.EFI"))
    } else if string_is(arch, "aarch64") {
        Ok(String::from_str("BOOTAA64.EFI"))
    } else if string_is(arch, "riscv64") {
        Ok(String::from_str("BOOTRISCV64.EFI"))
    } else {
        Err(PlanError::UnsupportedArch)
    }
}

} // verus!
