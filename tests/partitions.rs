use redox_installer::partition::{
    check_table_block_size, efi_boot_name, plan_partitions, plan_whole_disk, LbaRange, PartitionPlan, PlanError,
};

#[test]
fn plan_of_64_mib_disk() {
    let plan = plan_partitions(64 * 1024 * 1024, 512, None).unwrap();
    assert_eq!(plan.bios, Some(LbaRange { first_lba: 34, last_lba: 2047 }));
    assert_eq!(plan.efi, Some(LbaRange { first_lba: 2048, last_lba: 4095 }));
    assert_eq!(plan.data, LbaRange { first_lba: 4096, last_lba: 63 * 2048 - 1 });
}

#[test]
fn plan_regions_ordered_and_aligned() {
    for (size, efi) in [(64u64 << 20, None), (1u64 << 30, Some(8u32)), ((10u64 << 20) + 12345, Some(2))] {
        let plan = plan_partitions(size, 512, efi).unwrap();
        let bios = plan.bios.unwrap();
        let e = plan.efi.unwrap();
        assert!(bios.first_lba <= bios.last_lba && bios.last_lba < e.first_lba);
        assert!(e.first_lba <= e.last_lba && e.last_lba < plan.data.first_lba);
        assert!(plan.data.first_lba <= plan.data.last_lba);
        assert_eq!(plan.data.byte_len(512) % 512, 0);
        assert!((plan.data.last_lba + 1) * 512 <= size - 17408);
    }
}

#[test]
fn plan_with_efi_size() {
    let plan = plan_partitions(64 << 20, 512, Some(16)).unwrap();
    assert_eq!(plan.efi, Some(LbaRange { first_lba: 2048, last_lba: 2047 + 16 * 2048 }));
    assert_eq!(plan.data.first_lba, 2048 + 16 * 2048);
}

#[test]
fn plan_errors() {
    assert_eq!(plan_partitions(64 << 20, 0, None), Err(PlanError::UnsupportedBlockSize));
    assert_eq!(plan_partitions(64 << 20, 1000, None), Err(PlanError::UnsupportedBlockSize));
    assert_eq!(plan_partitions(3 << 20, 512, None), Err(PlanError::DiskTooSmall));
    assert_eq!(plan_partitions(100, 512, None), Err(PlanError::DiskTooSmall));
    assert_eq!(plan_partitions(64 << 20, 512, Some(0)), Err(PlanError::EmptyEfiRegion));
    assert!(plan_partitions(64 << 20, 4096, None).is_ok());
}

#[test]
fn whole_disk_plan() {
    assert_eq!(
        plan_whole_disk(1000, 512),
        Ok(PartitionPlan { bios: None, efi: None, data: LbaRange { first_lba: 0, last_lba: 0 } })
    );
    assert_eq!(plan_whole_disk(100, 512), Err(PlanError::DiskTooSmall));
    assert_eq!(plan_whole_disk(100, 0), Err(PlanError::UnsupportedBlockSize));
}

#[test]
fn table_block_size() {
    assert_eq!(check_table_block_size(512), Ok(()));
    assert_eq!(check_table_block_size(4096), Err(PlanError::UnsupportedBlockSize));
}

#[test]
fn efi_names() {
    assert_eq!(efi_boot_name(&"x86_64".to_string()), Ok("BOOTX64.EFI".to_string()));
    assert_eq!(efi_boot_name(&"x86".to_string()), Ok("BOOTIA32.EFI".to_string()));
    assert_eq!(efi_boot_name(&"aarch64".to_string()), Ok("BOOTAA64.EFI".to_string()));
    assert_eq!(efi_boot_name(&"riscv64".to_string()), Ok("BOOTRISCV64.EFI".to_string()));
    assert_eq!(efi_boot_name(&"mips".to_string()), Err(PlanError::UnsupportedArch));
}

#[test]
fn range_bytes() {
    let r = LbaRange { first_lba: 2048, last_lba: 4095 };
    assert_eq!(r.byte_offset(512), 1 << 20);
    assert_eq!(r.byte_len(512), 1 << 20);
}
