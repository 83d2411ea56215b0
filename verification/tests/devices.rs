use bitfs::block::{check_args, BlockDevice, ReadBlockDevice, WriteBlockDevice};
use bitfs::copy::{copy, copy_offset};
use bitfs::error::{error_to_const, map_err, ErrorKind, FsError};
use bitfs::memory_devices::{OwnedDisk, RamDisk, RomDisk};

#[test]
fn copy_offset_moves_a_window() {
    let input = [1u8, 2, 3, 4, 5];
    let mut output = [0u8; 6];
    copy_offset(&input, &mut output, 3, 1, 2);
    assert_eq!(output, [0, 0, 2, 3, 4, 0]);
    copy_offset(&input, &mut output, 0, 5, 6);
    assert_eq!(output, [0, 0, 2, 3, 4, 0]);
}

#[test]
fn copy_takes_the_front() {
    let input = [7u16, 8, 9];
    let mut output = [0u16; 4];
    copy(&input, &mut output, 2);
    assert_eq!(output, [7, 8, 0, 0]);
}

#[test]
fn owned_disk_reads_what_was_written() {
    let mut disk = OwnedDisk { data: vec![0u8; 4096 * 3 + 100] };
    assert_eq!(disk.block_size(), 4096);
    assert_eq!(disk.blocks(), 3);
    assert!(!disk.is_read_only());
    let block = vec![0x5Au8; 4096];
    disk.write_block(2, &block).unwrap();
    let mut back = vec![0u8; 4096];
    disk.read_block(2, &mut back).unwrap();
    assert_eq!(back, block);
    disk.read_block(1, &mut back).unwrap();
    assert_eq!(back, vec![0u8; 4096]);
    assert_eq!(disk.data[4096 * 2], 0x5A);
    assert_eq!(disk.data[4096 * 2 - 1], 0);
    assert_eq!(disk.data[4096 * 3], 0);
}

#[test]
fn ram_disk_writes_through() {
    let mut bytes = vec![0u8; 4096 * 2];
    {
        let mut disk = RamDisk::new(&mut bytes);
        assert_eq!(disk.blocks(), 2);
        disk.write_block(1, &vec![9u8; 4096]).unwrap();
        let mut back = vec![0u8; 4096];
        disk.read_block(1, &mut back).unwrap();
        assert_eq!(back, vec![9u8; 4096]);
    }
    assert_eq!(bytes[4095], 0);
    assert_eq!(bytes[4096], 9);
}

#[test]
fn rom_disk_refuses_writes() {
    let mut bytes = vec![0u8; 4096 * 2];
    bytes[4096] = 3;
    let mut disk = RomDisk { data: &bytes };
    assert!(disk.is_read_only());
    let mut back = vec![0u8; 4096];
    disk.read_block(1, &mut back).unwrap();
    assert_eq!(back[0], 3);
    assert!(matches!(disk.write_block(1, &vec![1u8; 4096]), Err(FsError::IllegalOperation(_))));
    disk.read_block(1, &mut back).unwrap();
    assert_eq!(back[0], 3);
}

#[test]
fn check_args_wants_a_block_and_an_index_on_the_device() {
    let disk = OwnedDisk { data: vec![0u8; 4096 * 2] };
    assert!(check_args(&disk, &[0u8; 4096], 0).is_ok());
    assert!(check_args(&disk, &[0u8; 4096], 1).is_ok());
    assert!(matches!(check_args(&disk, &[0u8; 4096], 2), Err(FsError::InternalError(_))));
    assert!(matches!(check_args(&disk, &[0u8; 4095], 0), Err(FsError::InternalError(_))));
}

#[test]
fn errors_have_stable_codes() {
    assert_eq!(error_to_const(FsError::NotFound), -1);
    assert_eq!(error_to_const(FsError::AccessViolation), -2);
    assert_eq!(error_to_const(FsError::illegal("x")), -3);
    assert_eq!(error_to_const(FsError::BlockDeviceError), -4);
    assert_eq!(error_to_const(FsError::InvalidSuperBlock), -4);
    assert_eq!(error_to_const(FsError::InvalidAddress), -4);
    assert_eq!(error_to_const(FsError::NotEnoughSpace), -4);
    assert_eq!(error_to_const(FsError::internal("x")), -4);
    assert_eq!(map_err(Ok(17)), 17);
    assert_eq!(map_err(Err(FsError::NotFound)), -1);
    assert_eq!(FsError::internal("x").kind(), ErrorKind::InternalError);
    assert_eq!(FsError::NotEnoughSpace.kind(), ErrorKind::NotEnoughSpace);
}
