use tantivy::segment::FIELDNORM_TABLE;

const IDENTITY_PART: u8 = 24u8;

fn decode_field_norm_exp_part(b: u8) -> u64 {
    let bits = (b & 0b00000111) as u64;
    let shift = b >> 3;
    if shift == 0 {
        bits
    } else {
        (bits | 8u64) << ((shift - 1u8) as u64)
    }
}

fn decode_fieldnorm_byte(b: u8) -> u64 {
    if b < IDENTITY_PART {
        b as u64
    } else {
        IDENTITY_PART as u64 + decode_field_norm_exp_part(b - IDENTITY_PART)
    }
}

#[test]
fn test_fieldnorm_byte() {
    for i in 0..256 {
        println!("{} {}", i, decode_fieldnorm_byte(i as u8));
        assert_eq!(FIELDNORM_TABLE[i], decode_fieldnorm_byte(i as u8));
    }
}
