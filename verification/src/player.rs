//! Start / retune / stop decisions of the FM player.

use vstd::prelude::*;

use crate::stations::{in_fm_band, FM_MAX_KHZ, FM_MIN_KHZ};
use crate::text::{decimal_seq, digit, digit_char, push_char, push_decimal};

verus! {

/// Commands sent to a running DSP pipeline.
#[derive(Debug, Clone, Copy, PartialEq, Eq, Structural)]
pub enum DspCommand {
    TuneFrequency(u32),
}

/// Whether a DSP pipeline is running.
#[derive(Debug, Clone, Copy, PartialEq, Eq, Structural)]
pub enum PlayerState {
    Idle,
    Running,
}

/// What a start request asks of the supervisor.
pub enum StartAction {
    /// Refuse with this message.
    Reject(String),
    /// Send the command to the running pipeline; reply with the message.
    Retune(DspCommand, String),
    /// Open the device and launch a pipeline at `frequency_hz`; reply with the message.
    Launch(u64, String),
}

/// What became of a pipeline launch.
pub enum LaunchEvent {
    Ready,
    Failed(String),
    TimedOut,
    Disconnected,
}

pub open spec fn msg_band() -> Seq<char> {
    "Frequency must be between "@ + decimal_seq(FM_MIN_KHZ as nat) + " and "@ + decimal_seq(
        FM_MAX_KHZ as nat,
    ) + " kHz (FM band)"@
}

/// `khz / 1000` with exactly three decimals.
pub open spec fn mhz_three_decimals(khz: u32) -> Seq<char> {
    decimal_seq((khz / 1000) as nat) + seq![
        '.',
        digit_char(((khz % 1000) / 100) as int),
        digit_char(((khz % 1000) / 10 % 10) as int),
        digit_char((khz % 1000 % 10) as int),
    ]
}

pub open spec fn msg_tuned(khz: u32) -> Seq<char> {
    "Tuned to "@ + mhz_three_decimals(khz) + " MHz (WBFM)"@
}

/// The reply to a successful start or retune.
pub fn tuned_message(khz: u32) -> (s: String)
    ensures
        s@ == msg_tuned(khz),
{
    let mut s = String::new();
    s.append("Tuned to ");
    push_decimal(&mut s, (khz / 1000) as u64);
    let ghost head = s@;
    let frac = khz % 1000;
    let c1 = digit(frac / 100);
    let c2 = digit((frac / 10) % 10);
    let c3 = digit(frac % 10);
    push_char(&mut s, '.');
    push_char(&mut s, c1);
    push_char(&mut s, c2);
    push_char(&mut s, c3);
    assert(s@ =~= head + seq!['.', c1, c2, c3]);
    s.append(" MHz (WBFM)");
    assert(s@ =~= msg_tuned(khz));
    s
}

fn band_message() -> (s: String)
    ensures
        s@ == msg_band(),
{
    let mut s = String::new();
    s.append("Frequency must be between ");
    push_decimal(&mut s, FM_MIN_KHZ as u64);
    s.append(" and ");
    push_decimal(&mut s, FM_MAX_KHZ as u64);
    s.append(" kHz (FM band)");
    assert(s@ =~= msg_band());
    s
}

/// A start request at `frequency_khz`: out-of-band frequencies are refused;
/// a running pipeline is retuned; otherwise a pipeline is launched.
pub fn on_start(state: PlayerState, frequency_khz: u32) -> (a: StartAction)
    ensures
        match a {
            StartAction::Reject(m) => !in_fm_band(frequency_khz) && m@ == msg_band(),
            StartAction::Retune(cmd, m) => {
                &&& in_fm_band(frequency_khz)
                &&& state == PlayerState::Running
                &&& cmd == DspCommand::TuneFrequency((frequency_khz * 1000) as u32)
                &&& frequency_khz * 1000 <= u32::MAX
                &&& m@ == msg_tuned(frequency_khz)
            },
            StartAction::Launch(hz, m) => {
                &&& in_fm_band(frequency_khz)
                &&& state == PlayerState::Idle
                &&& hz == frequency_khz * 1000
                &&& m@ == msg_tuned(frequency_khz)
            },
        },
{
    if !(FM_MIN_KHZ <= frequency_khz && frequency_khz <= FM_MAX_KHZ) {
        return StartAction::Reject(band_message());
    }
    let frequency_hz = frequency_khz as u64 * 1_000;
    let message = tuned_message(frequency_khz);
    match state {
        PlayerState::Running => StartAction::Retune(
            DspCommand::TuneFrequency(frequency_hz as u32),
            message,
        ),
        PlayerState::Idle => StartAction::Launch(frequency_hz, message),
    }
}

pub open spec fn launch_outcome_spec(e: LaunchEvent) -> (PlayerState, Result<(), Seq<char>>) {
    match e {
        LaunchEvent::Ready => (PlayerState::Running, Ok(())),
        LaunchEvent::Failed(m) => (PlayerState::Idle, Err(m@)),
        LaunchEvent::TimedOut => (
            PlayerState::Idle,
            Err(
                "DSP pipeline did not start in time. The Pi may be overloaded — try a lower sample rate: export SDR_FM_SAMPLE_RATE=768000"@,
            ),
        ),
        LaunchEvent::Disconnected => (
            PlayerState::Idle,
            Err("DSP pipeline exited before startup completed."@),
        ),
    }
}

/// The player after a launch attempt: running only when the pipeline
/// reported ready; otherwise stopped, with the reason.
pub fn on_launch(e: LaunchEvent) -> (r: (PlayerState, Result<(), String>))
    ensures
        r.0 == launch_outcome_spec(e).0,
        match r.1 {
            Ok(()) => launch_outcome_spec(e).1 == Ok::<(), Seq<char>>(()),
            Err(m) => launch_outcome_spec(e).1 == Err::<(), Seq<char>>(m@),
        },
{
    match e {
        LaunchEvent::Ready => (PlayerState::Running, Ok(())),
        LaunchEvent::Failed(m) => (PlayerState::Idle, Err(m)),
        LaunchEvent::TimedOut => (
            PlayerState::Idle,
            Err(
                "DSP pipeline did not start in time. The Pi may be overloaded — try a lower sample rate: export SDR_FM_SAMPLE_RATE=768000".to_owned(),
            ),
        ),
        LaunchEvent::Disconnected => (
            PlayerState::Idle,
            Err("DSP pipeline exited before startup completed.".to_owned()),
        ),
    }
}

/// Stopping always leaves the player idle.
pub fn on_stop(state: PlayerState) -> (r: PlayerState)
    ensures
        r == PlayerState::Idle,
{
    PlayerState::Idle
}

/// The error reported when a running pipeline cannot take a retune.
pub fn tune_failed_message(err: &str) -> (s: String)
    ensures
        s@ == "Failed to tune: "@ + err@,
{
    let mut s = String::new();
    s.append("Failed to tune: ");
    s.append(err);
    s
}

} // verus!
