use segmented_rs::mmap::{MmapFlags, MmapProt};

#[test]
fn prot_bits_are_the_documented_values() {
    assert_eq!(MmapProt::none().bits(), 0x00);
    assert_eq!(MmapProt::read().bits(), 0x01);
    assert_eq!(MmapProt::write().bits(), 0x02);
    assert_eq!(MmapProt::execute().bits(), 0x04);
    assert_eq!(MmapProt::read().union(MmapProt::write()).bits(), 0x03);
}

#[test]
fn flag_bits_are_the_documented_values() {
    assert_eq!(MmapFlags::shared().bits(), 0x0001);
    assert_eq!(MmapFlags::private().bits(), 0x0002);
    assert_eq!(MmapFlags::fixed().bits(), 0x0010);
    assert_eq!(MmapFlags::noreplace().bits(), 0x100000);
    assert_eq!(MmapFlags::anonymous().bits(), 0x20);
    assert_eq!(MmapFlags::stack().bits(), 0x4000);
    assert_eq!(MmapFlags::conceal().bits(), 0x8000);
    assert_eq!(
        MmapFlags::private().union(MmapFlags::anonymous()).bits(),
        0x22
    );
}
