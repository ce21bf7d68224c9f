use astrometry::usnob::{
    decode_records, extract_digit_chunks, record_count, u8_to_u32_slice, ParseError, USNOBObject,
};

fn record_from_words(words: [u32; 20]) -> Vec<u8> {
    let mut out = Vec::new();
    for w in words.iter() {
        out.push((w & 0xFF) as u8);
        out.push(((w >> 8) & 0xFF) as u8);
        out.push(((w >> 16) & 0xFF) as u8);
        out.push(((w >> 24) & 0xFF) as u8);
    }
    out
}

#[test]
fn s1_single_record() {
    // RA 90 degrees is 32_400_000 centi-arcseconds; Dec 35 degrees is
    // (35 + 90) * 360000 = 45_000_000 centi-arcseconds from the south pole.
    let mut words = [0u32; 20];
    words[0] = 32_400_000;
    words[1] = 45_000_000;
    words[2] = 0;
    words[3] = 10;
    words[4] = 100_110_010;
    let buf = record_from_words(words);
    let star = USNOBObject::from_bytes(&buf, 1).unwrap();
    assert_eq!(star.ra_cas, 32_400_000);
    assert_eq!(star.dec_cas, 45_000_000);
    assert_eq!(star.usnob_id, "1250-0000001");
    // word 3 digit groups (3,3,1,1,1,1): sigma_pm_ra = 010
    assert_eq!(star.sigma_pm_ra_mas_yr, 10);
    assert_eq!(star.n_detections, 0);
    // word 4 digit groups (3,3,3,1): 100_110_010 -> 010, 110, 100, 0
    assert_eq!(star.sigma_ra_mas, 10);
    assert_eq!(star.sigma_dec_mas, 110);
    assert_eq!(star.epoch_tenths, 100); // epoch year 1960.0
    assert!(!star.ys4);
    // proper motion raw 0 recenters to -10000 milli-arcsec/yr
    assert_eq!(star.pm_ra_mas_yr, -10000);
    // every observation slot has field 0: absent
    assert!(star.observations.blue1.is_none());
    assert!(star.observations.infrared.is_none());
}

#[test]
fn observation_slots_and_magnitudes() {
    let mut words = [0u32; 20];
    words[0] = 1;
    words[1] = 32_400_000;
    // word 5 (blue1) digit groups (4,3,1,2): mag 1234, field 567, survey 8,
    // star/galaxy 11
    words[5] = 11_8_567_1234;
    // residual word groups (4,4,1): xi 22, eta 33, calibration 4
    words[10] = 4_0033_0022;
    words[15] = 0xFFFF_FFFF; // pmmscan -1
    let buf = record_from_words(words);
    let star = USNOBObject::from_bytes(&buf, 42).unwrap();
    let blue1 = star.observations.blue1.as_ref().unwrap();
    assert_eq!(blue1.mag_cmag, 1234); // magnitude 12.34
    assert_eq!(blue1.field, 567);
    assert_eq!(blue1.survey, 8);
    assert_eq!(blue1.star_galaxy, 11);
    // a present slot has a nonzero field, so the residual rule zeroes both
    assert_eq!(blue1.xi_resid_cas, 0);
    assert_eq!(blue1.eta_resid_cas, 0);
    assert_eq!(blue1.calibration, 4);
    assert_eq!(blue1.pmmscan, -1);
    assert!(star.observations.red1.is_none());
    assert_eq!(star.usnob_id, "0900-0000042");
}

#[test]
fn range_validation() {
    let mut words = [0u32; 20];
    words[0] = 129_600_000; // exactly 360 degrees: out of range
    words[1] = 0;
    let buf = record_from_words(words);
    assert_eq!(USNOBObject::from_bytes(&buf, 1).unwrap_err(), ParseError::OutOfRange);

    words[0] = 129_599_999;
    words[1] = 64_800_000; // exactly +90 degrees: allowed
    let buf = record_from_words(words);
    assert!(USNOBObject::from_bytes(&buf, 1).is_ok());

    words[1] = 64_800_001;
    let buf = record_from_words(words);
    assert_eq!(USNOBObject::from_bytes(&buf, 1).unwrap_err(), ParseError::OutOfRange);

    assert_eq!(USNOBObject::from_bytes(&[0u8; 79], 1).unwrap_err(), ParseError::Malformed);
}

#[test]
fn digit_chunks() {
    let widths = [4usize, 4, 1, 1];
    let parts = extract_digit_chunks(1_234_567_890, &widths);
    // 1234567890 splits from the low end as 7890, 3456, 2, 1
    assert_eq!(parts, vec![7890, 3456, 2, 1]);
    let parts = extract_digit_chunks(42, &[1usize, 1, 1]);
    assert_eq!(parts, vec![2, 4, 0]);
}

#[test]
fn words_from_bytes() {
    let src = [0x78u8, 0x56, 0x34, 0x12, 0xFF, 0x00, 0x00, 0x00];
    let mut dst = vec![0u32; 2];
    u8_to_u32_slice(&src, &mut dst).unwrap();
    assert_eq!(dst, vec![0x12345678, 0xFF]);
    let mut wrong = vec![0u32; 3];
    assert!(u8_to_u32_slice(&src, &mut wrong).is_err());
}

#[test]
fn batch_decode_skips_bad_records() {
    let mut words = [0u32; 20];
    words[1] = 32_400_000;
    let good = record_from_words(words);
    words[0] = 129_600_000;
    let bad = record_from_words(words);

    let mut data = Vec::new();
    data.extend_from_slice(&good);
    data.extend_from_slice(&bad);
    data.extend_from_slice(&good);
    data.push(0); // a trailing partial record is ignored

    let stars = decode_records(&data);
    assert_eq!(stars.len(), 2);
    // record numbers are 1-based file positions: the bad record still counts
    assert_eq!(stars[0].usnob_id, "0900-0000001");
    assert_eq!(stars[1].usnob_id, "0900-0000003");
}

#[test]
fn big_endian_records_decode_identically() {
    let mut words = [0u32; 20];
    words[0] = 32_400_000;
    words[1] = 45_000_000;
    words[3] = 10;
    words[4] = 100_110_010;
    let le = record_from_words(words);
    // the same record with every word written big-endian
    let mut be = Vec::new();
    for group in le.chunks(4) {
        be.extend(group.iter().rev());
    }
    let a = USNOBObject::from_bytes(&le, 1).unwrap();
    let b = USNOBObject::from_bytes_be(&be, 1).unwrap();
    assert_eq!(a.usnob_id, b.usnob_id);
    assert_eq!((a.ra_cas, a.dec_cas, a.epoch_tenths), (b.ra_cas, b.dec_cas, b.epoch_tenths));
    assert_eq!(USNOBObject::from_bytes_be(&be[..79], 1).unwrap_err(), ParseError::Malformed);
}

#[test]
fn record_count_floors() {
    assert_eq!(record_count(0), 0);
    assert_eq!(record_count(79), 0);
    assert_eq!(record_count(80), 1);
    assert_eq!(record_count(161), 2);
}
