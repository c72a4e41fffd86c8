use rust_os::addr::{
    p1_index, p2_index, p3_index, p4_index, page_containing_address, page_offset,
};

#[test]
fn address_decomposes_into_indices_and_offset() {
    let va: u64 = 0xdeadbeeff010;
    assert_eq!(p4_index(va), 445);
    assert_eq!(p3_index(va), 182);
    assert_eq!(p2_index(va), 503);
    assert_eq!(p1_index(va), 255);
    assert_eq!(page_offset(va), 0x10);
}

#[test]
fn page_base_clears_the_offset() {
    assert_eq!(page_containing_address(0xdeadbeeff010), 0xdeadbeeff000);
    assert_eq!(page_containing_address(0xdeadbeeff000), 0xdeadbeeff000);
    assert_eq!(page_containing_address(0xfff), 0);
    // bits beyond the translated 48 are not part of any page
    assert_eq!(page_containing_address(0xffff_8000_0000_1000), 0x8000_0000_1000);
}

#[test]
fn indices_cover_the_full_table_range() {
    let va: u64 = 0xffff_ffff_ffff_ffff;
    assert_eq!(p4_index(va), 511);
    assert_eq!(p3_index(va), 511);
    assert_eq!(p2_index(va), 511);
    assert_eq!(p1_index(va), 511);
    assert_eq!(page_offset(va), 4095);
    assert_eq!(p4_index(0), 0);
    assert_eq!(page_offset(0), 0);
}
