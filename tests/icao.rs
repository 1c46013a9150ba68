use flydent::icao::{icao_to_country, icao_u32_to_country};

#[test]
fn test_usa_allocation() {
    let us_icao = [0xA0, 0x00, 0x01];
    assert_eq!(icao_to_country(us_icao), Some("US"));

    let us_icao2 = [0xAB, 0x8E, 0x4F];
    assert_eq!(icao_to_country(us_icao2), Some("US"));
}

#[test]
fn test_yugoslavia_allocation() {
    let yu_icao = [0x4C, 0x00, 0x00];
    assert_eq!(icao_to_country(yu_icao), Some("RS"));
}

#[test]
fn test_canada_allocation() {
    let ca_icao = [0xC0, 0x00, 0x01];
    assert_eq!(icao_to_country(ca_icao), Some("CA"));
}

#[test]
fn test_uk_allocation() {
    let uk_icao = [0x40, 0x00, 0x00];
    assert_eq!(icao_to_country(uk_icao), Some("GB"));
}

#[test]
fn test_russia_allocation() {
    let ru_icao = [0x10, 0x00, 0x00];
    assert_eq!(icao_to_country(ru_icao), Some("RU"));
}

#[test]
fn test_icao_special_allocation() {
    let icao_special = [0xF0, 0x00, 0x00];
    assert_eq!(icao_to_country(icao_special), Some("ZZ"));
}

#[test]
fn test_long_prefix() {
    let ag_icao = [0x0C, 0xA0, 0x00];
    assert_eq!(icao_to_country(ag_icao), Some("AG"));
}

#[test]
fn test_no_allocation() {
    let unallocated = [0xFF, 0xFF, 0xFF];
    assert_eq!(icao_to_country(unallocated), None);
}

#[test]
fn test_prefix_precedence() {
    let ag_icao = [0x0C, 0xA0, 0x00];
    assert_eq!(icao_to_country(ag_icao), Some("AG"));
    assert_ne!(icao_to_country(ag_icao), Some("RU"));
}

#[test]
fn test_u32_usa_allocation() {
    assert_eq!(icao_u32_to_country(0xAB8E4F), Some("US"));
    assert_eq!(icao_u32_to_country(0xA00001), Some("US"));
}

#[test]
fn test_u32_yugoslavia_allocation() {
    assert_eq!(icao_u32_to_country(0x4C0000), Some("RS"));
}

#[test]
fn test_u32_canada_allocation() {
    assert_eq!(icao_u32_to_country(0xC00001), Some("CA"));
}

#[test]
fn test_u32_invalid_more_than_24_bits() {
    assert_eq!(icao_u32_to_country(0x01000000), None);
    assert_eq!(icao_u32_to_country(0xFFFFFFFF), None);
    assert_eq!(icao_u32_to_country(0x12345678), None);
}

#[test]
fn test_u32_boundary_values() {
    assert_eq!(icao_u32_to_country(0xFFFFFF), None);
    assert_eq!(icao_u32_to_country(0x1000000), None);
}

#[test]
fn test_u32_zero() {
    assert_eq!(icao_u32_to_country(0x000000), None);
}

#[test]
fn test_u32_equivalence_with_array_version() {
    let test_cases = vec![0xAB8E4Fu32, 0x4C0000, 0xC00001, 0x400000, 0x100000];

    for icao_u32 in test_cases {
        let icao_array = [
            ((icao_u32 >> 16) & 0xFF) as u8,
            ((icao_u32 >> 8) & 0xFF) as u8,
            (icao_u32 & 0xFF) as u8,
        ];
        assert_eq!(icao_u32_to_country(icao_u32), icao_to_country(icao_array));
    }
}

#[test]
fn fourteen_bit_entry_beats_four_bit_entry_after_it() {
    // 0x0CA000 starts with 0000 1100 1010 00: Antigua's 14-bit prefix, listed
    // before the 4-bit prefix 0001 of Russia, which it does not match anyway,
    // and before any shorter prefix that it matches.
    assert_eq!(icao_u32_to_country(0x0CA000), Some("AG"));
    assert_eq!(icao_u32_to_country(0x0CA3FF), Some("AG"));
    assert_eq!(icao_u32_to_country(0x0CA400), None);
}

#[test]
fn each_entry_is_reached_at_its_first_address() {
    // Afghanistan, twelve bits 0111 0000 0000.
    assert_eq!(icao_u32_to_country(0x700000), Some("AF"));
    assert_eq!(icao_u32_to_country(0x700FFF), Some("AF"));
    // The second block of ICAO itself.
    assert_eq!(icao_u32_to_country(0xF09000), Some("ZZ"));
    // Angola, the last entry.
    assert_eq!(icao_u32_to_country(0x090000), Some("AO"));
    // South Africa, nine bits.
    assert_eq!(icao_u32_to_country(0x008000), Some("ZA"));
    assert_eq!(icao_u32_to_country(0x007FFF), None);
}
