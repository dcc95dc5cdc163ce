use redox_installer::disk::{DiskError, DiskWrapper, MemDisk, SeekPos};

fn pattern(len: usize) -> Vec<u8> {
    (0..len).map(|i| (i * 7 % 256) as u8).collect()
}

fn wrapper(len: usize) -> DiskWrapper {
    DiskWrapper::new(MemDisk { data: pattern(len) })
}

#[test]
fn unaligned_write_then_read() {
    for (offset, len) in [(1u64, 1usize), (100, 1000), (511, 2), (512, 100), (3, 4000), (1000, 24)] {
        let mut d = wrapper(8192);
        let before = pattern(8192);
        let data: Vec<u8> = (0..len).map(|i| (255 - i % 256) as u8).collect();
        d.seek(SeekPos::Start(offset));
        assert_eq!(d.write(&data), Ok(len));
        assert_eq!(d.position(), offset + len as u64);
        d.seek(SeekPos::Start(offset));
        let mut back = vec![0u8; len];
        assert_eq!(d.read(&mut back), Ok(len));
        assert_eq!(back, data);
        let all = d.into_inner().data;
        let o = offset as usize;
        assert_eq!(&all[..o], &before[..o]);
        assert_eq!(&all[o + len..], &before[o + len..]);
    }
}

#[test]
fn aligned_write() {
    let mut d = wrapper(4096);
    d.seek(SeekPos::Start(1024));
    let data = vec![9u8; 1024];
    assert_eq!(d.write(&data), Ok(1024));
    let all = d.into_inner().data;
    assert_eq!(&all[1024..2048], &data[..]);
    assert_eq!(&all[..1024], &pattern(4096)[..1024]);
}

#[test]
fn access_past_end_is_refused() {
    let mut d = wrapper(1024);
    d.seek(SeekPos::Start(1000));
    assert_eq!(d.write(&vec![1u8; 100]), Err(DiskError::OutOfRange));
    let mut buf = vec![0u8; 25];
    assert_eq!(d.read(&mut buf), Err(DiskError::OutOfRange));
    assert_eq!(d.position(), 1000);
}

#[test]
fn seek_clamps() {
    let mut d = wrapper(2048);
    assert_eq!(d.seek(SeekPos::Start(5000)), 2048);
    assert_eq!(d.seek(SeekPos::End(-48)), 2000);
    assert_eq!(d.seek(SeekPos::Current(-5000)), 0);
    assert_eq!(d.seek(SeekPos::End(i64::MAX)), 2048);
    assert_eq!(d.seek(SeekPos::Current(10)), 2048);
    assert_eq!(d.seek(SeekPos::End(i64::MIN)), 0);
    assert_eq!(d.size(), 2048);
    assert_eq!(d.block_size(), 512);
}
