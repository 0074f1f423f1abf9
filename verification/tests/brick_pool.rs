use vackrooms::brick_pool::{pack_voxel, unpack_voxel};

#[test]
fn packing_survives_every_field() {
    let (w0, w1) = pack_voxel(0xAB, 0x00FF_1234, [1, 9, 15], 0x3F);
    assert_eq!(unpack_voxel(w0, w1), (0xAB, 0x00FF_1234, [1, 9, 15], 0x3F));
}

#[test]
fn packing_places_each_field_in_its_bits() {
    let (w0, w1) = pack_voxel(0x12, 0x0034_5678, [0xA, 0xB, 0xC], 0x3F);
    assert_eq!(w0, 0x1234_5678);
    assert_eq!(w1, 0x000C_BA3F);
}
