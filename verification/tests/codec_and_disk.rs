use sfs::codec::{copy_into, get_u16, get_u32, get_u64, put_u16, put_u32, put_u64};
use sfs::disk::{Disk, DiskError};

#[test]
fn integers_are_stored_low_byte_first() {
    let mut out = vec![0xaa];
    put_u16(&mut out, 0x1234);
    put_u32(&mut out, 0x89ab_cdef);
    put_u64(&mut out, 0x0102_0304_0506_0708);
    assert_eq!(
        out,
        vec![0xaa, 0x34, 0x12, 0xef, 0xcd, 0xab, 0x89, 8, 7, 6, 5, 4, 3, 2, 1]
    );
    assert_eq!(get_u16(&out, 1), 0x1234);
    assert_eq!(get_u32(&out, 3), 0x89ab_cdef);
    assert_eq!(get_u64(&out, 7), 0x0102_0304_0506_0708);
}

#[test]
fn greatest_integers_round_trip() {
    let mut out = Vec::new();
    put_u16(&mut out, u16::MAX);
    put_u32(&mut out, u32::MAX);
    put_u64(&mut out, u64::MAX);
    put_u64(&mut out, 0);
    assert_eq!(out.len(), 22);
    assert_eq!(get_u16(&out, 0), u16::MAX);
    assert_eq!(get_u32(&out, 2), u32::MAX);
    assert_eq!(get_u64(&out, 6), u64::MAX);
    assert_eq!(get_u64(&out, 14), 0);
}

#[test]
fn copy_into_overwrites_the_middle() {
    let mut buf = [1u8, 2, 3, 4, 5, 6];
    copy_into(&mut buf, 2, &[9, 8, 7]);
    assert_eq!(buf, [1, 2, 9, 8, 7, 6]);
    copy_into(&mut buf, 6, &[]);
    assert_eq!(buf, [1, 2, 9, 8, 7, 6]);
}

#[test]
fn virtual_device_holds_zeros() {
    let mut disk = Disk::new_virtual(3);
    let image = disk.to_vec().unwrap();
    assert_eq!(image.len(), 3 * 4096);
    assert!(image.iter().all(|b| *b == 0));
    let mut none = Disk::new_virtual(0);
    assert_eq!(none.to_vec().unwrap(), Vec::<u8>::new());
}

#[test]
fn typed_access_reads_what_was_written() {
    let mut disk = Disk::new_virtual(1);
    disk.write_u8(7, 0x5a).unwrap();
    disk.write_u32(100, 0xdead_beef).unwrap();
    assert_eq!(disk.read_u8(7).unwrap(), 0x5a);
    assert_eq!(disk.read_u32(100).unwrap(), 0xdead_beef);
    assert_eq!(disk.read_bytes(99, 6).unwrap(), vec![0, 0xef, 0xbe, 0xad, 0xde, 0]);
    assert_eq!(disk.read_u32(4092).unwrap(), 0);
    assert!(matches!(disk.read_u32(4093), Err(DiskError::NotEnoughSpace)));
    assert!(matches!(disk.read_u8(4096), Err(DiskError::NotEnoughSpace)));
    assert!(matches!(disk.write_u32(4094, 1), Err(DiskError::NotEnoughSpace)));
    assert!(matches!(disk.read_bytes(4000, 97), Err(DiskError::NotEnoughSpace)));
    assert_eq!(disk.read_bytes(5000, 0).unwrap(), Vec::<u8>::new());
}

#[test]
fn a_failed_exact_write_keeps_what_fitted() {
    let mut disk = Disk::new(vec![0u8; 6]);
    assert!(matches!(disk.write_exact(4, &[1, 2, 3, 4]), Err(DiskError::NotEnoughSpace)));
    assert_eq!(disk.to_vec().unwrap(), vec![0, 0, 0, 0, 1, 2]);
}

#[test]
fn duplicate_copies_the_whole_device() {
    let image: Vec<u8> = (0..10_000u32).map(|i| (i % 251) as u8).collect();
    let mut disk = Disk::new(image.clone());
    let mut same = vec![0xffu8; 10_000];
    assert_eq!(disk.duplicate(&mut same).unwrap(), 10_000);
    assert_eq!(same, image);
    let mut larger = vec![0xffu8; 12_000];
    assert_eq!(disk.duplicate(&mut larger).unwrap(), 10_000);
    assert_eq!(&larger[..10_000], &image[..]);
    assert!(larger[10_000..].iter().all(|b| *b == 0xff));
    assert_eq!(disk.to_vec().unwrap(), image);
}

#[test]
fn duplicate_fails_where_the_other_device_is_smaller() {
    let image: Vec<u8> = (0..10_000u32).map(|i| (i % 13) as u8 + 1).collect();
    let mut disk = Disk::new(image.clone());
    let mut smaller = vec![0u8; 9_000];
    assert!(matches!(disk.duplicate(&mut smaller), Err(DiskError::NotEnoughSpace)));
    assert_eq!(&smaller[..], &image[..9_000]);
}
