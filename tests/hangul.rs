use ucd_tables::error::UcdError;
use ucd_tables::hangul::{compose, decompose, S_BASE, S_COUNT};

#[test]
fn decompose_first_syllable() {
    assert_eq!(decompose('\u{AC00}'), Ok(vec!['\u{1100}', '\u{1161}']));
}

#[test]
fn compose_first_syllable() {
    assert_eq!(compose('\u{1100}', '\u{1161}'), Some('\u{AC00}'));
}

#[test]
fn decompose_with_trailing_jamo() {
    assert_eq!(decompose('\u{AC01}'), Ok(vec!['\u{1100}', '\u{1161}', '\u{11A8}']));
}

#[test]
fn decompose_last_syllable() {
    assert_eq!(decompose('\u{D7A3}'), Ok(vec!['\u{1112}', '\u{1175}', '\u{11C2}']));
}

#[test]
fn decompose_rejects_other_scalars() {
    assert_eq!(decompose('A'), Err(UcdError::InvalidSyllable));
    assert_eq!(decompose('\u{ABFF}'), Err(UcdError::InvalidSyllable));
    assert_eq!(decompose('\u{D7A4}'), Err(UcdError::InvalidSyllable));
}

#[test]
fn compose_lv_with_trailing() {
    assert_eq!(compose('\u{AC00}', '\u{11A8}'), Some('\u{AC01}'));
    assert_eq!(compose('\u{D788}', '\u{11C2}'), Some('\u{D7A3}'));
}

#[test]
fn compose_with_empty_trailing_index_keeps_syllable() {
    // The trailing range begins with the index that stands for "none".
    assert_eq!(compose('\u{AC00}', '\u{11A7}'), Some('\u{AC00}'));
}

#[test]
fn compose_refuses_non_jamo() {
    assert_eq!(compose('\u{0041}', '\u{1161}'), None);
    assert_eq!(compose('\u{1100}', '\u{0041}'), None);
    // An LVT syllable takes no second trailing Jamo.
    assert_eq!(compose('\u{AC01}', '\u{11A8}'), None);
    assert_eq!(compose('\u{1100}', '\u{1100}'), None);
}

#[test]
fn round_trip_every_syllable() {
    for si in 0..S_COUNT {
        let s = char::from_u32(S_BASE + si).unwrap();
        let d = decompose(s).unwrap();
        let lv = compose(d[0], d[1]).unwrap();
        let back = if d.len() == 3 { compose(lv, d[2]).unwrap() } else { lv };
        assert_eq!(back, s);
    }
}
