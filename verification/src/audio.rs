//! Audio output set-up: stream format choice and device listings.

use vstd::prelude::*;

use crate::text::{decimal_seq, push_decimal, starts_with_str};

verus! {

/// A chosen output stream: rate, channel count and the device it plays on.
pub struct OutputSetup {
    pub sample_rate: u32,
    /// Channels written to the device (1 or 2).
    pub output_channels: u16,
    pub duplicate_mono: bool,
    pub device_label: String,
    pub pcm_id: String,
}

impl OutputSetup {
    /// Mono audio is duplicated into both channels of a stereo stream.
    pub fn new(sample_rate: u32, output_channels: u16, device_label: String, pcm_id: String) -> (s:
        OutputSetup)
        ensures
            s.sample_rate == sample_rate,
            s.output_channels == output_channels,
            s.duplicate_mono == (output_channels == 2),
            s.device_label@ == device_label@,
            s.pcm_id@ == pcm_id@,
    {
        OutputSetup {
            sample_rate,
            output_channels,
            duplicate_mono: output_channels == 2,
            device_label,
            pcm_id,
        }
    }

    /// The device's PCM identifier.
    pub fn pcm_id(&self) -> (r: &str)
        ensures
            r@ == self.pcm_id@,
    {
        self.pcm_id.as_str()
    }
}

/// One supported output configuration range of a device.
#[derive(Debug, Clone, Copy, PartialEq, Eq, Structural)]
pub struct ConfigRange {
    pub min_sample_rate: u32,
    pub max_sample_rate: u32,
    pub channels: u16,
}

/// Channel count for `rate` from the first range that covers it and has at
/// least one channel: 2 when it offers two or more, otherwise 1.
pub open spec fn channels_for_rate_spec(configs: Seq<ConfigRange>, rate: u32) -> Option<u16>
    decreases configs.len(),
{
    if configs.len() == 0 {
        None
    } else {
        let c = configs[0];
        if rate < c.min_sample_rate || rate > c.max_sample_rate || c.channels == 0 {
            channels_for_rate_spec(configs.drop_first(), rate)
        } else if c.channels >= 2 {
            Some(2)
        } else {
            Some(1)
        }
    }
}

/// `c` covers `rate` and has at least one channel.
pub open spec fn usable_range(c: ConfigRange, rate: u32) -> bool {
    c.min_sample_rate <= rate <= c.max_sample_rate && c.channels >= 1
}

/// `configs[i]` is the first range usable at `rate`.
pub open spec fn first_usable(configs: Seq<ConfigRange>, rate: u32, i: int) -> bool {
    &&& 0 <= i < configs.len()
    &&& usable_range(configs[i], rate)
    &&& forall|j: int| 0 <= j < i ==> !usable_range(#[trigger] configs[j], rate)
}

/// The channel count follows the first usable range: stereo when it offers
/// two or more channels, mono when it offers exactly one, and nothing when
/// no range is usable.
pub proof fn lemma_channels_follow_first_usable(configs: Seq<ConfigRange>, rate: u32)
    ensures
        (forall|j: int| 0 <= j < configs.len() ==> !usable_range(#[trigger] configs[j], rate))
            ==> channels_for_rate_spec(configs, rate) is None,
        forall|i: int|
            #[trigger] first_usable(configs, rate, i) ==> {
                &&& (channels_for_rate_spec(configs, rate) == Some(2u16) <==> configs[i].channels
                    >= 2)
                &&& (channels_for_rate_spec(configs, rate) == Some(1u16) <==> configs[i].channels
                    == 1)
            },
    decreases configs.len(),
{
    if configs.len() > 0 {
        let rest = configs.drop_first();
        lemma_channels_follow_first_usable(rest, rate);
        if !usable_range(configs[0], rate) {
            assert forall|i: int| #[trigger] first_usable(configs, rate, i) implies first_usable(
                rest,
                rate,
                i - 1,
            ) by {
                assert(i != 0);
                assert forall|j: int| 0 <= j < i - 1 implies !usable_range(
                    #[trigger] rest[j],
                    rate,
                ) by {
                    assert(rest[j] == configs[j + 1]);
                }
            }
            if forall|j: int| 0 <= j < configs.len() ==> !usable_range(#[trigger] configs[j], rate) {
                assert forall|j: int| 0 <= j < rest.len() implies !usable_range(
                    #[trigger] rest[j],
                    rate,
                ) by {
                    assert(rest[j] == configs[j + 1]);
                }
            }
        } else {
            assert forall|i: int| #[trigger] first_usable(configs, rate, i) implies i == 0 by {
                if i > 0 {
                    assert(!usable_range(configs[0], rate));
                }
            }
        }
    }
}

pub fn channels_for_rate(configs: &[ConfigRange], rate: u32) -> (r: Option<u16>)
    ensures
        r == channels_for_rate_spec(configs@, rate),
        (forall|j: int| 0 <= j < configs@.len() ==> !usable_range(#[trigger] configs@[j], rate))
            ==> r is None,
        forall|i: int|
            #[trigger] first_usable(configs@, rate, i) ==> {
                &&& (r == Some(2u16) <==> configs@[i].channels >= 2)
                &&& (r == Some(1u16) <==> configs@[i].channels == 1)
            },
{
    proof {
        lemma_channels_follow_first_usable(configs@, rate);
    }
    let mut i: usize = 0;
    assert(configs@.subrange(0, configs@.len() as int) =~= configs@);
    while i < configs.len()
        invariant
            i <= configs.len(),
            channels_for_rate_spec(configs@, rate) == channels_for_rate_spec(
                configs@.subrange(i as int, configs@.len() as int),
                rate,
            ),
        decreases configs.len() - i,
    {
        proof {
            lemma_channels_follow_first_usable(configs@, rate);
        }
        let c = configs[i];
        assert(configs@.subrange(i as int, configs@.len() as int)[0] == c);
        assert(configs@.subrange(i as int, configs@.len() as int).drop_first() =~= configs@.subrange(
            i + 1,
            configs@.len() as int,
        ));
        if rate < c.min_sample_rate || rate > c.max_sample_rate {
            i = i + 1;
            continue;
        }
        if c.channels >= 2 {
            return Some(2);
        }
        if c.channels == 1 {
            return Some(1);
        }
        i = i + 1;
    }
    None
}

pub open spec fn preferred_output_rates() -> Seq<u32> {
    seq![48_000u32, 44_100, 32_000, 22_050]
}

/// The stream format: the first of 48 000, 44 100, 32 000 and 22 050 Hz that
/// some range supports, else the device default rate with its channels
/// capped at 2.
pub open spec fn stream_format_spec(
    configs: Seq<ConfigRange>,
    default_rate: u32,
    default_channels: u16,
) -> (u32, u16) {
    let rates = preferred_output_rates();
    if channels_for_rate_spec(configs, rates[0]) is Some {
        (rates[0], channels_for_rate_spec(configs, rates[0])->0)
    } else if channels_for_rate_spec(configs, rates[1]) is Some {
        (rates[1], channels_for_rate_spec(configs, rates[1])->0)
    } else if channels_for_rate_spec(configs, rates[2]) is Some {
        (rates[2], channels_for_rate_spec(configs, rates[2])->0)
    } else if channels_for_rate_spec(configs, rates[3]) is Some {
        (rates[3], channels_for_rate_spec(configs, rates[3])->0)
    } else {
        (
            default_rate,
            if default_channels >= 2 {
                2
            } else {
                1
            },
        )
    }
}

/// The format is stereo or mono, and a device with a range usable at
/// 48 kHz plays at 48 kHz, in stereo exactly when that range offers two or
/// more channels.
pub proof fn lemma_stream_format(configs: Seq<ConfigRange>, default_rate: u32, default_channels: u16)
    ensures
        stream_format_spec(configs, default_rate, default_channels).1 == 1
            || stream_format_spec(configs, default_rate, default_channels).1 == 2,
        forall|i: int|
            #[trigger] first_usable(configs, 48_000, i) ==> {
                &&& stream_format_spec(configs, default_rate, default_channels).0 == 48_000
                &&& (stream_format_spec(configs, default_rate, default_channels).1 == 2
                    <==> configs[i].channels >= 2)
            },
{
    lemma_channels_follow_first_usable(configs, 48_000);
    lemma_channels_follow_first_usable(configs, 44_100);
    lemma_channels_follow_first_usable(configs, 32_000);
    lemma_channels_follow_first_usable(configs, 22_050);
    lemma_channels_one_or_two(configs, 48_000);
    lemma_channels_one_or_two(configs, 44_100);
    lemma_channels_one_or_two(configs, 32_000);
    lemma_channels_one_or_two(configs, 22_050);
    assert(preferred_output_rates()[0] == 48_000u32);
    assert(preferred_output_rates()[1] == 44_100u32);
    assert(preferred_output_rates()[2] == 32_000u32);
    assert(preferred_output_rates()[3] == 22_050u32);
}

proof fn lemma_channels_one_or_two(configs: Seq<ConfigRange>, rate: u32)
    ensures
        channels_for_rate_spec(configs, rate) is Some ==> channels_for_rate_spec(configs, rate)
            == Some(1u16) || channels_for_rate_spec(configs, rate) == Some(2u16),
    decreases configs.len(),
{
    if configs.len() > 0 {
        lemma_channels_one_or_two(configs.drop_first(), rate);
    }
}

pub fn pick_stream_format(configs: &[ConfigRange], default_rate: u32, default_channels: u16) -> (r:
    (u32, u16))
    ensures
        r == stream_format_spec(configs@, default_rate, default_channels),
        r.1 == 1 || r.1 == 2,
        forall|i: int|
            #[trigger] first_usable(configs@, 48_000, i) ==> {
                &&& r.0 == 48_000
                &&& (r.1 == 2 <==> configs@[i].channels >= 2)
            },
{
    proof {
        lemma_stream_format(configs@, default_rate, default_channels);
    }
    let prefer_rates: [u32; 4] = [48_000, 44_100, 32_000, 22_050];
    assert(prefer_rates@ =~= preferred_output_rates());
    let mut i: usize = 0;
    while i < 4
        invariant
            i <= 4,
            prefer_rates@ == preferred_output_rates(),
            forall|j: int|
                0 <= j < i ==> #[trigger] channels_for_rate_spec(
                    configs@,
                    preferred_output_rates()[j],
                ) is None,
        decreases 4 - i,
    {
        proof {
            lemma_stream_format(configs@, default_rate, default_channels);
        }
        let rate = prefer_rates[i];
        if let Some(channels) = channels_for_rate(configs, rate) {
            return (rate, channels);
        }
        i = i + 1;
    }
    (
        default_rate,
        if default_channels >= 2 {
            2
        } else {
            1
        },
    )
}

pub open spec fn sink_error_hint(rate: u32) -> Seq<char> {
    "Audio output failed at "@ + decimal_seq(rate as nat)
        + " Hz. On Linux list devices with `aplay -l`, then try e.g. `export SDR_FM_ALSA_DEVICE=plughw:1,0` before starting the app."@
}

/// Advice shown when the audio sink cannot be opened at `rate`.
pub fn audio_sink_error_hint(rate: u32) -> (s: String)
    ensures
        s@ == sink_error_hint(rate),
{
    let mut s = String::new();
    s.append("Audio output failed at ");
    push_decimal(&mut s, rate as u64);
    s.append(
        " Hz. On Linux list devices with `aplay -l`, then try e.g. `export SDR_FM_ALSA_DEVICE=plughw:1,0` before starting the app.",
    );
    assert(s@ =~= sink_error_hint(rate));
    s
}

/// A playback device as listed: its name and description.
pub struct DeviceEntry {
    pub name: String,
    pub description: String,
}

pub open spec fn device_line(e: DeviceEntry) -> Seq<char> {
    e.name@ + " — "@ + e.description@
}

pub open spec fn starts_with_seq(s: Seq<char>, p: Seq<char>) -> bool {
    p.len() <= s.len() && s.subrange(0, p.len() as int) == p
}

/// Lines after the first `k` devices: each device adds its line unless a
/// line already listed starts with its name.
pub open spec fn device_lines_upto(start: Seq<Seq<char>>, devices: Seq<DeviceEntry>, k: int) -> Seq<
    Seq<char>,
>
    decreases k,
{
    if k <= 0 {
        start
    } else {
        let lines = device_lines_upto(start, devices, k - 1);
        let d = devices[k - 1];
        if exists|j: int| 0 <= j < lines.len() && starts_with_seq(#[trigger] lines[j], d.name@) {
            lines
        } else {
            lines.push(device_line(d))
        }
    }
}

pub open spec fn listing_start(default: Option<DeviceEntry>) -> Seq<Seq<char>> {
    match default {
        Some(d) => seq![device_line(d) + " (system default)"@],
        None => Seq::empty(),
    }
}

/// The device listing: the system default first (marked), then every other
/// playback device whose name no earlier line starts with; a placeholder
/// line when there is none.
pub open spec fn device_listing_spec(default: Option<DeviceEntry>, devices: Seq<DeviceEntry>) -> Seq<
    Seq<char>,
> {
    let lines = device_lines_upto(listing_start(default), devices, devices.len() as int);
    if lines.len() == 0 {
        seq!["(no playback devices found)"@]
    } else {
        lines
    }
}

fn line_for(e: &DeviceEntry) -> (s: String)
    ensures
        s@ == device_line(*e),
{
    let mut s = String::new();
    s.append(e.name.as_str());
    s.append(" — ");
    s.append(e.description.as_str());
    assert(s@ =~= device_line(*e));
    s
}

pub fn device_listing(default: Option<DeviceEntry>, devices: &Vec<DeviceEntry>) -> (r: Vec<
    String,
>)
    ensures
        r@.map_values(|s: String| s@) == device_listing_spec(default, devices@),
{
    let mut lines: Vec<String> = Vec::new();
    let ghost start: Seq<Seq<char>> = listing_start(default);
    if let Some(d) = &default {
        let mut line = line_for(d);
        line.append(" (system default)");
        lines.push(line);
    }
    assert(lines@.map_values(|s: String| s@) =~= start);
    let mut i: usize = 0;
    while i < devices.len()
        invariant
            i <= devices.len(),
            lines@.map_values(|s: String| s@) == device_lines_upto(start, devices@, i as int),
        decreases devices.len() - i,
    {
        let d = &devices[i];
        let mut seen = false;
        let mut j: usize = 0;
        while j < lines.len()
            invariant
                j <= lines.len(),
                seen == exists|l: int|
                    0 <= l < j && starts_with_seq(#[trigger] lines@[l]@, d.name@),
            decreases lines.len() - j,
        {
            if starts_with_str(lines[j].as_str(), d.name.as_str()) {
                seen = true;
            }
            j = j + 1;
        }
        let ghost before = lines@.map_values(|s: String| s@);
        proof {
            if seen {
                let l = choose|l: int| 0 <= l < lines.len() && starts_with_seq(lines@[l]@, d.name@);
                assert(before[l] == lines@[l]@);
            }
            if exists|l: int| 0 <= l < before.len() && starts_with_seq(#[trigger] before[l], d.name@) {
                let l = choose|l: int| 0 <= l < before.len() && starts_with_seq(before[l], d.name@);
                assert(before[l] == lines@[l]@);
            }
        }
        if !seen {
            lines.push(line_for(d));
            assert(lines@.map_values(|s: String| s@) =~= before.push(device_line(devices@[i as int])));
        }
        i = i + 1;
    }
    if lines.len() == 0 {
        let mut r: Vec<String> = Vec::new();
        r.push("(no playback devices found)".to_owned());
        assert(r@.map_values(|s: String| s@) =~= seq!["(no playback devices found)"@]);
        return r;
    }
    lines
}


/// Samples of `chunk` that fit in `data` from `pos`: each takes two slots
/// when mono is duplicated into stereo, one otherwise.
pub open spec fn samples_that_fit(data_len: int, pos: int, chunk_len: int, duplicate_mono: bool) -> int {
    let room = if duplicate_mono {
        (data_len - pos) / 2
    } else {
        data_len - pos
    };
    if chunk_len < room {
        chunk_len
    } else {
        room
    }
}

/// Copy as much of `chunk` into the output buffer `data` from `pos` as fits,
/// writing every sample to both channels when `duplicate_mono`; returns how
/// many samples of `chunk` were written. Slots outside the written span keep
/// their values.
pub fn copy_chunk<T: Copy>(data: &mut [T], pos: usize, chunk: &[T], duplicate_mono: bool) -> (n:
    usize)
    requires
        pos <= old(data)@.len(),
    ensures
        n == samples_that_fit(old(data)@.len() as int, pos as int, chunk@.len() as int, duplicate_mono),
        n <= chunk@.len(),
        !duplicate_mono ==> pos + n <= old(data)@.len() && (n == chunk@.len() || pos + n
            == old(data)@.len()),
        duplicate_mono ==> pos + 2 * n <= old(data)@.len() && (n == chunk@.len() || pos + 2 * n
            + 2 > old(data)@.len()),
        final(data)@.len() == old(data)@.len(),
        forall|k: int|
            0 <= k < pos || pos + n * (if duplicate_mono {
                2int
            } else {
                1int
            }) <= k < old(data)@.len() ==> #[trigger] final(data)@[k] == old(data)@[k],
        forall|j: int|
            0 <= j < n ==> if duplicate_mono {
                final(data)@[pos + 2 * j] == chunk@[j] && final(data)@[pos + 2 * j + 1]
                    == #[trigger] chunk@[j]
            } else {
                final(data)@[pos + j] == #[trigger] chunk@[j]
            },
{
    let room = if duplicate_mono {
        (data.len() - pos) / 2
    } else {
        data.len() - pos
    };
    let n = if chunk.len() < room {
        chunk.len()
    } else {
        room
    };
    let ghost before = data@;
    assert(before.len() == data.len());
    let mut j: usize = 0;
    while j < n
        invariant
            n <= chunk@.len(),
            n == samples_that_fit(before.len() as int, pos as int, chunk@.len() as int, duplicate_mono),
            pos <= before.len(),
            before.len() <= usize::MAX,
            duplicate_mono ==> pos + 2 * n <= before.len(),
            !duplicate_mono ==> pos + n <= before.len(),
            data@.len() == before.len(),
            j <= n,
            forall|k: int|
                0 <= k < pos || pos + j * (if duplicate_mono {
                    2int
                } else {
                    1int
                }) <= k < before.len() ==> #[trigger] data@[k] == before[k],
            forall|l: int|
                0 <= l < j ==> if duplicate_mono {
                    data@[pos + 2 * l] == chunk@[l] && data@[pos + 2 * l + 1] == #[trigger] chunk@[l]
                } else {
                    data@[pos + l] == #[trigger] chunk@[l]
                },
        decreases n - j,
    {
        let sample = chunk[j];
        if duplicate_mono {
            data[pos + 2 * j] = sample;
            data[pos + 2 * j + 1] = sample;
        } else {
            data[pos + j] = sample;
        }
        j = j + 1;
    }
    n
}
} // verus!
