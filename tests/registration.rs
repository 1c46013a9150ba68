use flydent::registration::{
    icao_to_registration, icao_u32_to_us, registration_to_icao, us_n_to_icao_u32, NNumberError,
};

#[test]
fn us_roundtrip() {
    let reg = "N456TS";
    let icao = registration_to_icao(reg).unwrap();
    assert_eq!(icao_to_registration(icao).unwrap(), reg);
}

#[test]
fn us_icao_to_registration_ab8e4f() {
    let icao = [0xAB, 0x8E, 0x4F];
    let reg = icao_to_registration(icao).unwrap();
    assert_eq!(reg, "N8437D");
}

#[test]
fn us_registration_to_icao_n8437d() {
    let reg = "N8437D";
    let icao = registration_to_icao(reg).unwrap();
    assert_eq!(icao, [0xAB, 0x8E, 0x4F]);
}

#[test]
fn reject_other() {
    assert!(registration_to_icao("G-ABCD").is_err());
    assert!(icao_to_registration([0x00, 0x12, 0x34]).is_err());
}

#[test]
fn test_n1() {
    let icao = registration_to_icao("N1").unwrap();
    assert_eq!(icao, [0xA0, 0x00, 0x01]);
    assert_eq!(icao_to_registration(icao).unwrap(), "N1");
}

#[test]
fn test_n99999() {
    let reg = "N99999";
    let icao = registration_to_icao(reg).unwrap();
    assert_eq!(icao, [0xAD, 0xF7, 0xC7]);
    assert_eq!(icao_to_registration(icao).unwrap(), reg);
}

#[test]
fn rejections_name_their_cause() {
    assert_eq!(registration_to_icao("G-ABCD"), Err(NNumberError::NotStartingWithN));
    assert_eq!(registration_to_icao(""), Err(NNumberError::NotStartingWithN));
    assert_eq!(registration_to_icao("n123"), Err(NNumberError::NotStartingWithN));
    assert_eq!(registration_to_icao("N123456"), Err(NNumberError::TooLong));
    assert_eq!(registration_to_icao("N12I"), Err(NNumberError::InvalidCharacter));
    assert_eq!(registration_to_icao("N1ab"), Err(NNumberError::InvalidCharacter));
    assert_eq!(registration_to_icao("N1A2"), Err(NNumberError::LetterBeforeSuffixPosition));
    assert_eq!(registration_to_icao("N1ABC"), Err(NNumberError::LetterBeforeSuffixPosition));
    assert_eq!(registration_to_icao("N0"), Err(NNumberError::OutOfAllocatedRange));
    assert_eq!(icao_to_registration([0x00, 0x12, 0x34]), Err(NNumberError::AddressOutsideUSBlock));
    assert_eq!(icao_to_registration([0xA0, 0x00, 0x00]), Err(NNumberError::AddressOutsideUSBlock));
    assert_eq!(icao_to_registration([0xAD, 0xF7, 0xC8]), Err(NNumberError::AddressOutsideUSBlock));
    assert_eq!(icao_u32_to_us(0x1000000), Err(NNumberError::AddressOutsideUSBlock));
}

#[test]
fn boundary_literals_both_ways() {
    assert_eq!(us_n_to_icao_u32("N1"), Ok(0xA00001));
    assert_eq!(us_n_to_icao_u32("N99999"), Ok(0xADF7C7));
    assert_eq!(us_n_to_icao_u32("N8437D"), Ok(0xAB8E4F));
    assert_eq!(icao_u32_to_us(0xA00001).unwrap(), "N1");
    assert_eq!(icao_u32_to_us(0xADF7C7).unwrap(), "N99999");
    assert_eq!(icao_u32_to_us(0xAB8E4F).unwrap(), "N8437D");
}

#[test]
fn suffixes_follow_their_numbering() {
    assert_eq!(us_n_to_icao_u32("N1A"), Ok(0xA00002));
    assert_eq!(us_n_to_icao_u32("N1AA"), Ok(0xA00003));
    assert_eq!(us_n_to_icao_u32("N1AZ"), Ok(0xA00001 + 25));
    assert_eq!(us_n_to_icao_u32("N1B"), Ok(0xA00001 + 26));
    assert_eq!(us_n_to_icao_u32("N1ZZ"), Ok(0xA00001 + 600));
    assert_eq!(us_n_to_icao_u32("N10"), Ok(0xA00001 + 601));
    assert_eq!(us_n_to_icao_u32("N2"), Ok(0xA00001 + 101711));
    assert_eq!(icao_u32_to_us(0xA00002).unwrap(), "N1A");
    assert_eq!(icao_u32_to_us(0xA00001 + 601).unwrap(), "N10");
    assert_eq!(icao_u32_to_us(0xA00001 + 600).unwrap(), "N1ZZ");
}

#[test]
fn round_trip_over_the_block() {
    let mut a: u32 = 0xA00001;
    while a <= 0xADF7C7 {
        let s = icao_u32_to_us(a).unwrap();
        assert_eq!(us_n_to_icao_u32(&s), Ok(a));
        a += 97;
    }
    for s in ["N1", "N12", "N123", "N1234", "N12345", "N1234Z", "N1234A", "N123AB", "N12Z", "N9ZZ"] {
        let a = us_n_to_icao_u32(s).unwrap();
        assert_eq!(icao_u32_to_us(a).unwrap(), s);
    }
}
