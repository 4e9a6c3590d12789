use sdr_fm::detect::{
    argmax_quality, best_per_blob, merge_spaced, select_channels, split_valleys, ChannelScore,
    MAX_CHANNELS, MIN_SEP_KHZ, OCCUPANCY_SCALE, SNR_SCALE,
};

fn snr_q(db: f32) -> i64 {
    (db as f64 * SNR_SCALE as f64) as i64
}

fn occ_q(fraction: f32) -> i64 {
    (fraction as f64 * OCCUPANCY_SCALE as f64) as i64
}

fn channel(frequency_khz: u32, snr_db: f32, occupancy: f32, _bandwidth_hz: f32) -> ChannelScore {
    ChannelScore {
        frequency_khz,
        snr_q: snr_q(snr_db),
        occupancy_q: occ_q(occupancy),
        eligible: true,
    }
}

fn freqs(hits: &[ChannelScore]) -> Vec<u32> {
    hits.iter().map(|h| h.frequency_khz).collect()
}

#[test]
fn merge_drops_100_khz_duplicate() {
    let peaks = vec![
        channel(105_000, 12.0, 0.7, 160_000.0),
        channel(105_100, 9.0, 0.5, 140_000.0),
    ];
    let merged = merge_spaced(peaks, MIN_SEP_KHZ, MAX_CHANNELS);
    assert_eq!(freqs(&merged), vec![105_000]);
}

#[test]
fn merge_keeps_stronger_of_200_khz_pair() {
    let peaks = vec![
        channel(88_000, 18.0, 0.8, 170_000.0),
        channel(88_200, 9.0, 0.4, 90_000.0),
    ];
    let merged = merge_spaced(peaks, MIN_SEP_KHZ, MAX_CHANNELS);
    assert_eq!(freqs(&merged), vec![88_000]);
}

#[test]
fn merge_orders_by_frequency_and_caps() {
    let peaks = vec![
        channel(107_000, 5.0, 0.5, 0.0),
        channel(90_000, 20.0, 0.5, 0.0),
        channel(100_000, 10.0, 0.5, 0.0),
    ];
    assert_eq!(freqs(&merge_spaced(peaks.clone(), 250, 50)), vec![90_000, 100_000, 107_000]);
    assert_eq!(freqs(&merge_spaced(peaks.clone(), 250, 2)), vec![90_000, 100_000]);
    assert_eq!(freqs(&merge_spaced(peaks, 250, 0)), vec![90_000]);
}

#[test]
fn argmax_prefers_later_on_ties() {
    let stats = vec![
        channel(100_000, 9.0, 0.5, 0.0),
        channel(100_100, 9.0, 0.5, 0.0),
        channel(100_200, 9.0, 0.4, 0.0),
    ];
    assert_eq!(argmax_quality(&stats, 0, 3), Some(1));
    assert_eq!(argmax_quality(&stats, 2, 2), None);
}

fn blob(snrs: &[f32]) -> Vec<ChannelScore> {
    snrs.iter()
        .enumerate()
        .map(|(i, &s)| channel(100_000 + 100 * i as u32, s, 0.5, 0.0))
        .collect()
}

#[test]
fn deep_valley_splits_blob() {
    let stats = blob(&[20.0, 10.0, 20.0]);
    assert_eq!(split_valleys(&stats, 0, 3), vec![(0, 1), (2, 3)]);
    let stats = blob(&[20.0, 10.0]);
    assert_eq!(split_valleys(&stats, 0, 2), vec![(0, 2)]);
    let stats = blob(&[20.0, 18.0, 10.0, 18.0, 20.0]);
    assert_eq!(split_valleys(&stats, 0, 5), vec![(0, 2), (3, 5)]);
    let stats = blob(&[20.0, 18.0, 15.0, 18.0, 20.0]);
    assert_eq!(split_valleys(&stats, 0, 5), vec![(0, 5)]);
}

#[test]
fn valley_of_exactly_six_db_splits() {
    let stats = blob(&[18.0, 17.0, 12.0, 17.0, 18.0]);
    assert_eq!(split_valleys(&stats, 0, 5), vec![(0, 2), (3, 5)]);
    let stats = blob(&[18.0, 17.0, 12.000001, 17.0, 18.0]);
    assert_eq!(split_valleys(&stats, 0, 5), vec![(0, 5)]);
}

#[test]
fn best_per_blob_one_peak_per_run() {
    let mut stats = blob(&[3.0, 8.0, 12.0, 7.0, 3.0, 9.0, 9.5, 2.0]);
    for (i, c) in stats.iter_mut().enumerate() {
        c.eligible = !matches!(i, 0 | 4 | 7);
    }
    let peaks = best_per_blob(&stats);
    assert_eq!(freqs(&peaks), vec![100_200, 100_600]);
}

#[test]
fn selection_spaces_channels() {
    let mut stats = blob(&[3.0, 10.0, 3.0, 11.0, 3.0, 3.0, 12.0]);
    for c in stats.iter_mut() {
        c.eligible = c.snr_q > snr_q(4.5);
    }
    let hits = select_channels(&stats);
    assert_eq!(freqs(&hits), vec![100_300, 100_600]);
    assert!(select_channels(&blob(&[1.0, 2.0])).len() <= 2);
}
