use sfs::disk::{Disk, DiskError};
use sfs::fs::{FileSystem, FsError};

#[test]
fn device_errors_become_filesystem_errors() {
    assert!(matches!(
        FsError::from(DiskError::GenericError),
        FsError::DiskError(DiskError::GenericError)
    ));
    assert!(matches!(
        FsError::from(DiskError::NotEnoughSpace),
        FsError::DiskError(DiskError::NotEnoughSpace)
    ));
    assert!(matches!(
        FileSystem::from_disk(Disk::new(vec![0u8; 4100])),
        Err(FsError::DiskError(DiskError::NotEnoughSpace))
    ));
}

#[test]
fn memory_device_reads_and_writes_what_fits() {
    let mut disk = Disk::new(vec![1u8, 2, 3, 4, 5]);
    let mut buf = [0u8; 4];
    assert_eq!(disk.read_lossy(3, &mut buf).unwrap(), 2);
    assert_eq!(buf, [4, 5, 0, 0]);
    assert_eq!(disk.read_lossy(5, &mut buf).unwrap(), 0);
    assert_eq!(disk.read_lossy(u64::MAX, &mut buf).unwrap(), 0);
    assert_eq!(disk.write_lossy(4, &[9, 9, 9]).unwrap(), 1);
    assert_eq!(disk.to_vec().unwrap(), vec![1, 2, 3, 4, 9]);
    assert!(matches!(disk.read_exact(2, &mut buf), Err(DiskError::NotEnoughSpace)));
    assert!(matches!(disk.write_exact(3, &[7, 7, 7]), Err(DiskError::NotEnoughSpace)));
    assert_eq!(disk.to_vec().unwrap(), vec![1, 2, 3, 7, 7]);
    assert!(disk.read_exact(1, &mut buf).is_ok());
    assert_eq!(buf, [2, 3, 7, 7]);
    assert!(disk.read_exact(77, &mut []).is_ok());
}
