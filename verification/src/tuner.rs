//! RTL-SDR tuner configuration: which IQ sample rates the RTL2832 accepts,
//! how a requested rate is settled, and device-open diagnostics.

use vstd::prelude::*;

use crate::text::{contains_seq, contains_str, decimal_seq, push_decimal};

verus! {

pub const DEFAULT_SAMPLE_RATE: u32 = 1_024_000;

pub const PLATFORM_DEFAULT_SAMPLE_RATE: u32 = DEFAULT_SAMPLE_RATE;

/// RTL2832 rates: 225_001–300_000 Hz and 900_001–3_200_000 Hz.
pub open spec fn rtlsdr_rate_ok(rate: u32) -> bool {
    225_001 <= rate <= 3_200_000 && !(300_000 < rate <= 900_000)
}

/// True if `rate` is accepted by the RTL2832 resampler (librtlsdr rules).
pub fn is_rtlsdr_valid_sample_rate(rate: u32) -> (ok: bool)
    ensures
        ok == rtlsdr_rate_ok(rate),
{
    if rate < 225_001 || rate > 3_200_000 {
        return false;
    }
    !(300_000 < rate && rate <= 900_000)
}

pub open spec fn preferred_rates() -> Seq<u32> {
    seq![256_000u32, 1_024_000, 1_536_000, 1_792_000, 1_920_000, 2_048_000, 2_160_000, 2_560_000]
}

/// Rates the snapping prefers, all native RTL2832 rates.
pub fn rtl_sdr_preferred_rates() -> (r: [u32; 8])
    ensures
        r@ == preferred_rates(),
{
    let r = [256_000, 1_024_000, 1_536_000, 1_792_000, 1_920_000, 2_048_000, 2_160_000, 2_560_000];
    assert(r@ =~= preferred_rates());
    r
}

pub open spec fn rate_distance(a: u32, b: u32) -> int {
    if a >= b {
        a - b
    } else {
        b - a
    }
}

/// `k` is the first preferred rate closest to `requested`.
pub open spec fn is_nearest_preferred(requested: u32, k: int) -> bool {
    &&& 0 <= k < preferred_rates().len()
    &&& forall|j: int|
        0 <= j < preferred_rates().len() ==> rate_distance(preferred_rates()[k], requested)
            <= rate_distance(#[trigger] preferred_rates()[j], requested)
    &&& forall|j: int|
        0 <= j < k ==> rate_distance(preferred_rates()[k], requested) < rate_distance(
            #[trigger] preferred_rates()[j],
            requested,
        )
}

/// The preferred rate closest to `requested` (the first one on a tie).
pub fn nearest_preferred_rate(requested: u32) -> (r: u32)
    ensures
        exists|k: int| is_nearest_preferred(requested, k) && r == preferred_rates()[k],
        rtlsdr_rate_ok(r),
{
    let rates = rtl_sdr_preferred_rates();
    let mut best: usize = 0;
    let mut best_diff: u32 = if rates[0] >= requested {
        rates[0] - requested
    } else {
        requested - rates[0]
    };
    let mut i: usize = 1;
    while i < 8
        invariant
            rates@ == preferred_rates(),
            1 <= i <= 8,
            best < i,
            best_diff as int == rate_distance(preferred_rates()[best as int], requested),
            forall|j: int|
                0 <= j < i ==> rate_distance(preferred_rates()[best as int], requested)
                    <= rate_distance(#[trigger] preferred_rates()[j], requested),
            forall|j: int|
                0 <= j < best ==> rate_distance(preferred_rates()[best as int], requested)
                    < rate_distance(#[trigger] preferred_rates()[j], requested),
        decreases 8 - i,
    {
        let d = if rates[i] >= requested {
            rates[i] - requested
        } else {
            requested - rates[i]
        };
        if d < best_diff {
            best = i;
            best_diff = d;
        }
        i = i + 1;
    }
    assert(is_nearest_preferred(requested, best as int));
    assert(forall|j: int| 0 <= j < 8 ==> rtlsdr_rate_ok(#[trigger] preferred_rates()[j]));
    rates[best]
}

pub open spec fn is_ascii_digit(c: char) -> bool {
    '0' <= c <= '9'
}

pub open spec fn digits_value(d: Seq<char>) -> int
    decreases d.len(),
{
    if d.len() == 0 {
        0
    } else {
        digits_value(d.drop_last()) * 10 + (d.last() as int - '0' as int)
    }
}

/// What `str::parse::<u32>` accepts: an optional `+`, then one or more ASCII
/// digits whose value fits in a `u32`.
pub open spec fn unsigned_digits(s: Seq<char>) -> Seq<char> {
    if s.len() > 0 && s[0] == '+' {
        s.drop_first()
    } else {
        s
    }
}

pub open spec fn all_ascii_digits(d: Seq<char>) -> bool {
    forall|i: int| 0 <= i < d.len() ==> is_ascii_digit(#[trigger] d[i])
}

pub open spec fn parse_u32_spec(s: Seq<char>) -> Option<u32> {
    let d = unsigned_digits(s);
    if d.len() == 0 || !all_ascii_digits(d) {
        None
    } else if digits_value(d) > u32::MAX {
        None
    } else {
        Some(digits_value(d) as u32)
    }
}

proof fn lemma_digits_value_grows(d: Seq<char>, i: int)
    requires
        0 <= i <= d.len(),
        forall|k: int| 0 <= k < d.len() ==> is_ascii_digit(#[trigger] d[k]),
    ensures
        digits_value(d.subrange(0, i)) <= digits_value(d),
        0 <= digits_value(d.subrange(0, i)),
    decreases d.len() - i,
{
    if i < d.len() {
        lemma_digits_value_grows(d, i + 1);
        assert(d.subrange(0, i + 1).drop_last() =~= d.subrange(0, i));
    } else {
        assert(d.subrange(0, i) =~= d);
    }
    lemma_digits_value_nonneg(d.subrange(0, i));
}

proof fn lemma_digits_value_nonneg(d: Seq<char>)
    requires
        forall|k: int| 0 <= k < d.len() ==> is_ascii_digit(#[trigger] d[k]),
    ensures
        0 <= digits_value(d),
    decreases d.len(),
{
    if d.len() > 0 {
        lemma_digits_value_nonneg(d.drop_last());
    }
}

/// Decimal `u32`, as `str::parse::<u32>` reads it.
pub fn parse_u32(s: &str) -> (r: Option<u32>)
    ensures
        r == parse_u32_spec(s@),
{
    let v = crate::text::chars_of(s);
    let start: usize = if v.len() > 0 && v[0] == '+' {
        1
    } else {
        0
    };
    let ghost d = unsigned_digits(s@);
    assert(d =~= v@.subrange(start as int, v.len() as int));
    if start >= v.len() {
        return None;
    }
    let mut acc: u64 = 0;
    let mut i = start;
    while i < v.len()
        invariant
            v@ == s@,
            start <= i <= v.len(),
            d == v@.subrange(start as int, v.len() as int),
            d == unsigned_digits(s@),
            d.len() > 0,
            forall|k: int| start <= k < i ==> is_ascii_digit(#[trigger] v@[k]),
            acc as int == digits_value(v@.subrange(start as int, i as int)),
            acc <= u32::MAX,
        decreases v.len() - i,
    {
        let c = v[i];
        if !('0' <= c && c <= '9') {
            assert(!is_ascii_digit(d[i - start]));
            assert(!all_ascii_digits(d));
            return None;
        }
        let digit = (c as u32 - '0' as u32) as u64;
        assert(v@.subrange(start as int, i + 1).drop_last() =~= v@.subrange(start as int, i as int));
        acc = acc * 10 + digit;
        i = i + 1;
        if acc > u32::MAX as u64 {
            proof {
                let rest = v@.subrange(start as int, v.len() as int);
                if all_ascii_digits(rest) {
                    lemma_digits_value_grows(rest, i - start);
                    assert(rest.subrange(0, i - start) =~= v@.subrange(start as int, i as int));
                    assert(digits_value(d) > u32::MAX);
                }
            }
            return None;
        }
    }
    assert(all_ascii_digits(d)) by {
        assert forall|k: int| 0 <= k < d.len() implies is_ascii_digit(#[trigger] d[k]) by {
            assert(d[k] == v@[start + k]);
        }
    }
    Some(acc as u32)
}

pub open spec fn snapped_warning(requested: u32, snapped: u32) -> Seq<char> {
    "SDR_KITCHEN_SAMPLE_RATE="@ + decimal_seq(requested as nat)
        + " is invalid for RTL-SDR; using "@ + decimal_seq(snapped as nat)
        + " Hz (valid bands: 225001–300000 and 900001–3200000)"@
}

fn snapped_warning_text(requested: u32, snapped: u32) -> (s: String)
    ensures
        s@ == snapped_warning(requested, snapped),
{
    let mut s = String::new();
    s.append("SDR_KITCHEN_SAMPLE_RATE=");
    push_decimal(&mut s, requested as u64);
    s.append(" is invalid for RTL-SDR; using ");
    push_decimal(&mut s, snapped as u64);
    s.append(" Hz (valid bands: 225001–300000 and 900001–3200000)");
    assert(s@ =~= snapped_warning(requested, snapped));
    s
}

/// Effective IQ sample rate from the override variable's text (if set): a
/// valid RTL-SDR rate is used as given; an invalid one snaps to the nearest
/// preferred rate, with a warning; unreadable text or no override gives the
/// platform default.
pub fn effective_sample_rate(raw: Option<&str>) -> (r: (u32, Option<String>))
    ensures
        rtlsdr_rate_ok(r.0),
        match raw {
            Some(text) => match parse_u32_spec(text@) {
                Some(requested) => if rtlsdr_rate_ok(requested) {
                    r.0 == requested && r.1 is None
                } else {
                    &&& exists|k: int|
                        is_nearest_preferred(requested, k) && r.0 == preferred_rates()[k]
                    &&& r.1 matches Some(w) && w@ == snapped_warning(requested, r.0)
                },
                None => r.0 == PLATFORM_DEFAULT_SAMPLE_RATE && r.1 is None,
            },
            None => r.0 == PLATFORM_DEFAULT_SAMPLE_RATE && r.1 is None,
        },
{
    if let Some(text) = raw {
        if let Some(requested) = parse_u32(text) {
            if is_rtlsdr_valid_sample_rate(requested) {
                return (requested, None);
            }
            let snapped = nearest_preferred_rate(requested);
            let warning = snapped_warning_text(requested, snapped);
            return (snapped, Some(warning));
        }
    }
    (PLATFORM_DEFAULT_SAMPLE_RATE, None)
}

pub open spec fn module_hint() -> Seq<char> {
    "\n\nInstall the SoapySDR RTL-SDR module:\n  brew install soapyrtlsdr\n\nThen verify the dongle is visible:\n  SoapySDRUtil --probe=\"driver=rtlsdr\""@
}

/// Advice appended to a device-open failure when SoapySDR found no module or device.
pub fn missing_module_hint(err: &str) -> (r: &'static str)
    ensures
        r@ == if contains_seq(err@, "no match"@) || contains_seq(err@, "No devices found"@) {
            module_hint()
        } else {
            ""@
        },
{
    if contains_str(err, "no match") || contains_str(err, "No devices found") {
        "\n\nInstall the SoapySDR RTL-SDR module:\n  brew install soapyrtlsdr\n\nThen verify the dongle is visible:\n  SoapySDRUtil --probe=\"driver=rtlsdr\""
    } else {
        ""
    }
}

/// The error reported when no open attempt succeeded, from the last error.
pub fn open_device_error(last_err: &str) -> (s: String)
    ensures
        s@ == "Failed to open RTL-SDR via SoapySDR: "@ + last_err@ + (if contains_seq(
            last_err@,
            "no match"@,
        ) || contains_seq(last_err@, "No devices found"@) {
            module_hint()
        } else {
            ""@
        }),
{
    let mut s = String::new();
    s.append("Failed to open RTL-SDR via SoapySDR: ");
    s.append(last_err);
    s.append(missing_module_hint(last_err));
    s
}

/// Guidance lines about audio output devices.
pub fn list_output_devices() -> (r: Result<Vec<String>, String>)
    ensures
        r matches Ok(lines) && lines.len() == 3 && lines@[0]@
            == "Audio uses the system default output (cpal/ALSA)."@ && lines@[1]@
            == "List cards: aplay -l"@ && lines@[2]@
            == "Override: export SDR_KITCHEN_ALSA_DEVICE=plughw:CARD,DEV"@,
{
    let mut lines: Vec<String> = Vec::new();
    lines.push("Audio uses the system default output (cpal/ALSA).".to_owned());
    lines.push("List cards: aplay -l".to_owned());
    lines.push("Override: export SDR_KITCHEN_ALSA_DEVICE=plughw:CARD,DEV".to_owned());
    Ok(lines)
}

/// Decimation from the IQ rate to the ~256 kHz WBFM channel: the nearest
/// integer ratio (halves round up), at least 3.
pub fn wbfm_decimation(sample_rate: u32) -> (d: u32)
    ensures
        d == if (sample_rate as int + 128_000) / 256_000 < 3 {
            3
        } else {
            (sample_rate as int + 128_000) / 256_000
        },
        d >= 3,
{
    let q = ((sample_rate as u64 + 128_000) / 256_000) as u32;
    if q < 3 {
        3
    } else {
        q
    }
}

} // verus!
