use sdr_fm::audio::{
    audio_sink_error_hint, channels_for_rate, device_listing, pick_stream_format, ConfigRange,
    DeviceEntry, OutputSetup,
};
use sdr_fm::player::{
    on_launch, on_start, on_stop, tune_failed_message, tuned_message, DspCommand, LaunchEvent,
    PlayerState, StartAction,
};
use sdr_fm::scan::{rds_order, rds_plan, scan_stations, ScanPhase};
use sdr_fm::detect::ChannelScore;
use std::collections::HashMap;

#[test]
fn start_rejects_out_of_band() {
    match on_start(PlayerState::Idle, 63_999) {
        StartAction::Reject(m) => {
            assert_eq!(m, "Frequency must be between 64000 and 1080000 kHz (FM band)")
        }
        _ => panic!("expected rejection"),
    }
}

#[test]
fn start_launches_or_retunes() {
    match on_start(PlayerState::Idle, 101_500) {
        StartAction::Launch(hz, m) => {
            assert_eq!(hz, 101_500_000);
            assert_eq!(m, "Tuned to 101.500 MHz (WBFM)");
        }
        _ => panic!("expected launch"),
    }
    match on_start(PlayerState::Running, 1_080_000) {
        StartAction::Retune(cmd, m) => {
            assert_eq!(cmd, DspCommand::TuneFrequency(1_080_000_000));
            assert_eq!(m, "Tuned to 1080.000 MHz (WBFM)");
        }
        _ => panic!("expected retune"),
    }
}

#[test]
fn tuned_message_three_decimals() {
    for khz in [64_000u32, 88_005, 103_305, 99_999] {
        assert_eq!(tuned_message(khz), format!("Tuned to {:.3} MHz (WBFM)", khz as f64 / 1000.0));
    }
}

#[test]
fn launch_outcomes() {
    assert_eq!(on_launch(LaunchEvent::Ready).0, PlayerState::Running);
    let (state, r) = on_launch(LaunchEvent::Disconnected);
    assert_eq!(state, PlayerState::Idle);
    assert_eq!(r.unwrap_err(), "DSP pipeline exited before startup completed.");
    let (_, r) = on_launch(LaunchEvent::TimedOut);
    assert!(r.unwrap_err().starts_with("DSP pipeline did not start in time."));
    let (_, r) = on_launch(LaunchEvent::Failed("no audio".to_string()));
    assert_eq!(r.unwrap_err(), "no audio");
    assert_eq!(on_stop(PlayerState::Running), PlayerState::Idle);
    assert_eq!(tune_failed_message("closed"), "Failed to tune: closed");
}

#[test]
fn stream_format_preferences() {
    let configs = [
        ConfigRange { min_sample_rate: 8_000, max_sample_rate: 44_100, channels: 0 },
        ConfigRange { min_sample_rate: 8_000, max_sample_rate: 44_100, channels: 1 },
        ConfigRange { min_sample_rate: 44_100, max_sample_rate: 96_000, channels: 6 },
    ];
    assert_eq!(channels_for_rate(&configs, 48_000), Some(2));
    assert_eq!(channels_for_rate(&configs, 22_050), Some(1));
    assert_eq!(channels_for_rate(&configs, 192_000), None);
    assert_eq!(pick_stream_format(&configs, 96_000, 2), (48_000, 2));
    assert_eq!(pick_stream_format(&configs[..2], 96_000, 2), (44_100, 1));
    assert_eq!(pick_stream_format(&[], 96_000, 6), (96_000, 2));
    assert_eq!(pick_stream_format(&[], 16_000, 1), (16_000, 1));
}

#[test]
fn output_setup_duplicates_mono_on_stereo() {
    let s = OutputSetup::new(48_000, 2, "HDMI".to_string(), "hw:0,3".to_string());
    assert!(s.duplicate_mono);
    assert_eq!(s.pcm_id(), "hw:0,3");
    assert!(!OutputSetup::new(48_000, 1, String::new(), String::new()).duplicate_mono);
    assert_eq!(
        audio_sink_error_hint(44_100),
        "Audio output failed at 44100 Hz. On Linux list devices with `aplay -l`, then try e.g. `export SDR_FM_ALSA_DEVICE=plughw:1,0` before starting the app."
    );
}

fn entry(name: &str, description: &str) -> DeviceEntry {
    DeviceEntry { name: name.to_string(), description: description.to_string() }
}

#[test]
fn device_listing_dedups_default() {
    let lines = device_listing(
        Some(entry("default", "PipeWire")),
        &vec![entry("default", "PipeWire"), entry("hw:1,0", "USB")],
    );
    assert_eq!(lines, vec!["default — PipeWire (system default)", "hw:1,0 — USB"]);
    assert_eq!(device_listing(None, &Vec::new()), vec!["(no playback devices found)"]);
}

fn scored(frequency_khz: u32, snr_q: i64) -> ChannelScore {
    ChannelScore { frequency_khz, snr_q, occupancy_q: 0, eligible: true }
}

#[test]
fn rds_order_strongest_first() {
    let detected = vec![scored(88_000, 5), scored(90_000, 9), scored(95_000, 9), scored(99_000, 1)];
    assert_eq!(rds_order(&detected), vec![1, 2, 0, 3]);
    let many: Vec<ChannelScore> = (0..20).map(|i| scored(88_000 + 300 * i, i as i64)).collect();
    let order = rds_order(&many);
    assert_eq!(order.len(), 15);
    assert_eq!(order[0], 19);
}

#[test]
fn scan_presets_named_from_rds() {
    let mut names = HashMap::new();
    names.insert(101_500u32, "Kiss FM".to_string());
    let stations = scan_stations(&vec![101_500, 88_000], names);
    assert_eq!(stations.len(), 2);
    assert_eq!(stations[0].id, "scan-88000");
    assert_eq!(stations[0].name, "");
    assert_eq!(stations[1].id, "scan-101500");
    assert_eq!(stations[1].name, "Kiss FM");
    assert_ne!(ScanPhase::Spectrum, ScanPhase::Rds);
}

#[test]
fn rds_plan_fails_on_empty_scan() {
    assert_eq!(
        rds_plan(&Vec::new()),
        Err("No FM stations found. Try another antenna position or higher gain.".to_string())
    );
    let detected = vec![scored(88_000, 5), scored(99_100, 9)];
    assert_eq!(rds_plan(&detected), Ok(vec![1, 0]));
}
