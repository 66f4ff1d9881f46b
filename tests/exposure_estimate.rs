use raw::exposure::{add_pairs, exposure_shift, mid_tone_pair, Exposure};

#[test]
fn mid_tone_mean_pushes() {
    assert_eq!(exposure_shift(&vec![100u8; 1000]), Exposure::Push { mean: 100 });
    assert_eq!(exposure_shift(&[10, 100, 250, 110]), Exposure::Push { mean: 105 });
    assert_eq!(exposure_shift(&[61]), Exposure::Push { mean: 61 });
    assert_eq!(exposure_shift(&[110]), Exposure::Push { mean: 110 });
}

#[test]
fn bright_mean_pulls() {
    assert_eq!(exposure_shift(&[111]), Exposure::Pull { mean: 111 });
    assert_eq!(exposure_shift(&[115, 116, 0, 255]), Exposure::Pull { mean: 115 });
    assert_eq!(exposure_shift(&[119]), Exposure::Pull { mean: 119 });
}

#[test]
fn out_of_band_mean_keeps() {
    assert_eq!(exposure_shift(&[60]), Exposure::Keep);
    assert_eq!(exposure_shift(&[120]), Exposure::Keep);
    assert_eq!(exposure_shift(&[30, 40]), Exposure::Keep);
    assert_eq!(exposure_shift(&[200, 219]), Exposure::Keep);
}

#[test]
fn no_mid_tones_keeps() {
    assert_eq!(exposure_shift(&[]), Exposure::Keep);
    assert_eq!(exposure_shift(&[0, 20, 220, 255]), Exposure::Keep);
}

#[test]
fn mean_rounds_down() {
    assert_eq!(exposure_shift(&[100, 101]), Exposure::Push { mean: 100 });
}

#[test]
fn large_buffer_in_parallel() {
    let data: Vec<u8> = (0..3_000_064u32).map(|i| (i % 256) as u8).collect();
    // Mid-tones 21..=219 average 120: no correction.
    assert_eq!(exposure_shift(&data), Exposure::Keep);
    let data: Vec<u8> = (0..3_000_000u32).map(|i| if i % 2 == 0 { 90 } else { 255 }).collect();
    assert_eq!(exposure_shift(&data), Exposure::Push { mean: 90 });
}

#[test]
fn totals_pieces() {
    assert_eq!(mid_tone_pair(21), (21, 1));
    assert_eq!(mid_tone_pair(20), (0, 0));
    assert_eq!(mid_tone_pair(219), (219, 1));
    assert_eq!(mid_tone_pair(220), (0, 0));
    assert_eq!(add_pairs((1, 2), (3, 4)), (4, 6));
    assert_eq!(add_pairs((u128::MAX, 0), (1, 1)), (u128::MAX, 1));
}
