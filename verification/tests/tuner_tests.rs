use sdr_fm::tuner::{
    effective_sample_rate, is_rtlsdr_valid_sample_rate, list_output_devices, missing_module_hint,
    nearest_preferred_rate, open_device_error, parse_u32, wbfm_decimation,
    PLATFORM_DEFAULT_SAMPLE_RATE,
};

#[test]
fn platform_default_is_valid_for_rtlsdr() {
    assert!(is_rtlsdr_valid_sample_rate(PLATFORM_DEFAULT_SAMPLE_RATE));
}

#[test]
fn rejects_rtlsdr_dead_band() {
    assert!(!is_rtlsdr_valid_sample_rate(768_000));
    assert!(!is_rtlsdr_valid_sample_rate(900_000));
    assert!(!is_rtlsdr_valid_sample_rate(500_000));
}

#[test]
fn accepts_common_rates() {
    assert!(is_rtlsdr_valid_sample_rate(256_000));
    assert!(is_rtlsdr_valid_sample_rate(1_024_000));
    assert!(is_rtlsdr_valid_sample_rate(2_048_000));
}

#[test]
fn rate_band_edges() {
    assert!(!is_rtlsdr_valid_sample_rate(225_000));
    assert!(is_rtlsdr_valid_sample_rate(225_001));
    assert!(is_rtlsdr_valid_sample_rate(300_000));
    assert!(!is_rtlsdr_valid_sample_rate(300_001));
    assert!(is_rtlsdr_valid_sample_rate(900_001));
    assert!(is_rtlsdr_valid_sample_rate(3_200_000));
    assert!(!is_rtlsdr_valid_sample_rate(3_200_001));
}

#[test]
fn nearest_preferred_from_dead_band() {
    assert_eq!(nearest_preferred_rate(768_000), 1_024_000);
    assert_eq!(nearest_preferred_rate(900_000), 1_024_000);
}

#[test]
fn nearest_preferred_ties_and_extremes() {
    assert_eq!(nearest_preferred_rate(0), 256_000);
    assert_eq!(nearest_preferred_rate(640_000), 256_000);
    assert_eq!(nearest_preferred_rate(u32::MAX), 2_560_000);
    assert_eq!(nearest_preferred_rate(1_856_000), 1_792_000);
}

#[test]
fn parses_decimal_like_std() {
    for text in ["0", "+7", "4294967295", "4294967296", "", "+", "-1", " 1", "12a", "007"] {
        assert_eq!(parse_u32(text), text.parse::<u32>().ok(), "{text:?}");
    }
}

#[test]
fn effective_rate_choices() {
    assert_eq!(effective_sample_rate(None), (1_024_000, None));
    assert_eq!(effective_sample_rate(Some("2048000")), (2_048_000, None));
    assert_eq!(effective_sample_rate(Some("fast")), (1_024_000, None));
    let (rate, warning) = effective_sample_rate(Some("768000"));
    assert_eq!(rate, 1_024_000);
    assert_eq!(
        warning.as_deref(),
        Some("SDR_KITCHEN_SAMPLE_RATE=768000 is invalid for RTL-SDR; using 1024000 Hz (valid bands: 225001–300000 and 900001–3200000)")
    );
}

#[test]
fn open_errors_carry_module_hint() {
    assert_eq!(missing_module_hint("boom"), "");
    assert!(missing_module_hint("Device::make() no match").contains("soapyrtlsdr"));
    assert!(missing_module_hint("No devices found").starts_with("\n\nInstall"));
    assert_eq!(open_device_error("busy"), "Failed to open RTL-SDR via SoapySDR: busy");
    assert!(open_device_error("x no match y").ends_with("--probe=\"driver=rtlsdr\""));
}

#[test]
fn output_device_guidance() {
    let lines = list_output_devices().unwrap();
    assert_eq!(lines[2], "Override: export SDR_KITCHEN_ALSA_DEVICE=plughw:CARD,DEV");
}

#[test]
fn wbfm_decimation_rounds_to_nearest() {
    assert_eq!(wbfm_decimation(1_024_000), 4);
    assert_eq!(wbfm_decimation(2_048_000), 8);
    assert_eq!(wbfm_decimation(256_000), 3);
    assert_eq!(wbfm_decimation(1_152_000), 5);
    assert_eq!(wbfm_decimation(1_151_999), 4);
}
