//! FM presets: the bundled list, ordering and validation.

use vstd::prelude::*;

use crate::text::{all_whitespace, decimal_seq, digit_char, is_blank, push_char, push_decimal};

verus! {

pub const FM_MIN_KHZ: u32 = 64_000;

pub const FM_MAX_KHZ: u32 = 1_080_000;

#[derive(Debug, Clone)]
pub struct Station {
    pub id: String,
    pub name: String,
    pub frequency_khz: u32,
}

pub open spec fn in_fm_band(khz: u32) -> bool {
    FM_MIN_KHZ <= khz <= FM_MAX_KHZ
}

/// Multiplier that makes `k / 1000` (64 ≤ k/1000 < 2048) an integer count
/// of units in the last place of an f64: 2^(52 − ⌊log2(k/1000)⌋).
pub open spec fn f64_ulp_scale(k: int) -> int {
    if k < 128_000 {
        0x4000_0000_0000
    } else if k < 256_000 {
        0x2000_0000_0000
    } else if k < 512_000 {
        0x1000_0000_0000
    } else if k < 1_024_000 {
        0x800_0000_0000
    } else {
        0x400_0000_0000
    }
}

/// The MHz value `k / 1000` printed with one decimal (`{:.1}` of the f64
/// nearest to k/1000), as a count of tenths. Off a half-tenth the usual
/// rounding applies; on one (k ≡ 50 mod 100) the f64 lies above k/1000 when
/// the remainder of k·scale/1000 exceeds 500, below when it is under 500,
/// and on it when it is 0, where the tie goes to the even digit.
pub open spec fn mhz_tenths(k: int) -> int {
    let r = (k * f64_ulp_scale(k)) % 1000;
    if k % 100 != 50 {
        (k + 50) / 100
    } else if r == 0 {
        k / 100 + (k / 100) % 2
    } else if r > 500 {
        k / 100 + 1
    } else {
        k / 100
    }
}

pub open spec fn mhz_one_decimal(k: int) -> Seq<char> {
    decimal_seq((mhz_tenths(k) / 10) as nat) + seq!['.', digit_char(mhz_tenths(k) % 10)]
}

fn push_mhz_one_decimal(s: &mut String, khz: u32)
    requires
        in_fm_band(khz),
    ensures
        final(s)@ == old(s)@ + mhz_one_decimal(khz as int),
{
    let k = khz as u128;
    let scale: u128 = if khz < 128_000 {
        0x4000_0000_0000
    } else if khz < 256_000 {
        0x2000_0000_0000
    } else if khz < 512_000 {
        0x1000_0000_0000
    } else if khz < 1_024_000 {
        0x800_0000_0000
    } else {
        0x400_0000_0000
    };
    assert(k * scale <= 1_080_000 * 0x4000_0000_0000) by (nonlinear_arith)
        requires
            k <= 1_080_000,
            scale <= 0x4000_0000_0000,
    ;
    let r = (k * scale) % 1000;
    let floor = khz / 100;
    let tenths: u32 = if khz % 100 != 50 {
        (khz + 50) / 100
    } else if r == 0 {
        floor + floor % 2
    } else if r > 500 {
        floor + 1
    } else {
        floor
    };
    assert(tenths as int == mhz_tenths(khz as int));
    push_decimal(s, (tenths / 10) as u64);
    push_char(s, '.');
    push_char(s, (48u8 + (tenths % 10) as u8) as char);
    assert(final(s)@ =~= old(s)@ + mhz_one_decimal(khz as int));
}

pub open spec fn msg_empty() -> Seq<char> {
    "At least one station is required."@
}

pub open spec fn msg_blank_id() -> Seq<char> {
    "Station id cannot be empty."@
}

pub open spec fn msg_out_of_band() -> Seq<char> {
    "Frequency must be between "@ + decimal_seq(FM_MIN_KHZ as nat) + " and "@ + decimal_seq(
        FM_MAX_KHZ as nat,
    ) + " kHz (FM band)."@
}

pub open spec fn msg_duplicate(khz: u32) -> Seq<char> {
    "Duplicate frequency: "@ + mhz_one_decimal(khz as int) + " MHz."@
}

/// The complaint about station `i`, given the stations before it.
pub open spec fn station_error(s: Seq<Station>, i: int) -> Option<Seq<char>> {
    if all_whitespace(s[i].id@) {
        Some(msg_blank_id())
    } else if !in_fm_band(s[i].frequency_khz) {
        Some(msg_out_of_band())
    } else if exists|j: int| 0 <= j < i && s[j].frequency_khz == s[i].frequency_khz {
        Some(msg_duplicate(s[i].frequency_khz))
    } else {
        None
    }
}

/// The first complaint about the stations from `i` on.
pub open spec fn first_station_error(s: Seq<Station>, i: int) -> Option<Seq<char>>
    decreases s.len() - i,
{
    if i < 0 || i >= s.len() {
        None
    } else {
        match station_error(s, i) {
            Some(m) => Some(m),
            None => first_station_error(s, i + 1),
        }
    }
}

/// Why a preset list is refused, if it is.
pub open spec fn validation_error(s: Seq<Station>) -> Option<Seq<char>> {
    if s.len() == 0 {
        Some(msg_empty())
    } else {
        first_station_error(s, 0)
    }
}

/// A preset list is accepted when it is non-empty and every station has a
/// non-blank id, a frequency in the FM band, and a frequency of its own.
pub open spec fn stations_valid(s: Seq<Station>) -> bool {
    &&& s.len() > 0
    &&& forall|i: int| 0 <= i < s.len() ==> !all_whitespace(#[trigger] s[i].id@)
    &&& forall|i: int| 0 <= i < s.len() ==> in_fm_band(#[trigger] s[i].frequency_khz)
    &&& forall|i: int, j: int|
        0 <= i < j < s.len() ==> (#[trigger] s[i]).frequency_khz != (#[trigger] s[j]).frequency_khz
}

fn message(text: &str) -> (s: String)
    ensures
        s@ == text@,
{
    text.to_owned()
}

fn out_of_band_message() -> (s: String)
    ensures
        s@ == msg_out_of_band(),
{
    let mut s = String::new();
    s.append("Frequency must be between ");
    push_decimal(&mut s, FM_MIN_KHZ as u64);
    s.append(" and ");
    push_decimal(&mut s, FM_MAX_KHZ as u64);
    s.append(" kHz (FM band).");
    assert(s@ =~= msg_out_of_band());
    s
}

fn duplicate_message(khz: u32) -> (s: String)
    requires
        in_fm_band(khz),
    ensures
        s@ == msg_duplicate(khz),
{
    let mut s = String::new();
    s.append("Duplicate frequency: ");
    push_mhz_one_decimal(&mut s, khz);
    s.append(" MHz.");
    assert(s@ =~= msg_duplicate(khz));
    s
}

proof fn lemma_first_error_valid(s: Seq<Station>, i: int)
    requires
        0 <= i <= s.len(),
    ensures
        first_station_error(s, i) is None <==> (forall|k: int|
            i <= k < s.len() ==> #[trigger] station_error(s, k) is None),
    decreases s.len() - i,
{
    if i < s.len() {
        lemma_first_error_valid(s, i + 1);
    }
}

/// The error list's verdict agrees with the stated validity rules.
pub proof fn lemma_validation_error_iff_invalid(s: Seq<Station>)
    ensures
        validation_error(s) is None <==> stations_valid(s),
{
    lemma_first_error_valid(s, 0);
    if s.len() > 0 {
        if first_station_error(s, 0) is None {
            assert forall|i: int, j: int| 0 <= i < j < s.len() implies (
            #[trigger] s[i]).frequency_khz != (#[trigger] s[j]).frequency_khz by {
                assert(station_error(s, j) is None);
            }
            assert forall|i: int| 0 <= i < s.len() implies !all_whitespace(#[trigger] s[i].id@) by {
                assert(station_error(s, i) is None);
            }
            assert forall|i: int| 0 <= i < s.len() implies in_fm_band(
                #[trigger] s[i].frequency_khz,
            ) by {
                assert(station_error(s, i) is None);
            }
        }
        if stations_valid(s) {
            assert forall|k: int| 0 <= k < s.len() implies #[trigger] station_error(s, k) is None by {
                assert(!all_whitespace(s[k].id@));
                assert(in_fm_band(s[k].frequency_khz));
                assert forall|j: int| 0 <= j < k implies s[j].frequency_khz
                    != s[k].frequency_khz by {
                    assert(s[j].frequency_khz != s[k].frequency_khz);
                }
            }
        }
    }
}

/// Check a preset list: `Ok` when every rule holds, otherwise the complaint
/// about the first offending station.
pub fn validate_stations(stations: &[Station]) -> (r: Result<(), String>)
    ensures
        match r {
            Ok(()) => validation_error(stations@) is None,
            Err(m) => validation_error(stations@) == Some(m@),
        },
{
    if stations.len() == 0 {
        return Err(message("At least one station is required."));
    }
    let mut seen: Vec<u32> = Vec::new();
    let mut i: usize = 0;
    while i < stations.len()
        invariant
            i <= stations.len(),
            stations.len() > 0,
            seen@ == stations@.subrange(0, i as int).map_values(|st: Station| st.frequency_khz),
            first_station_error(stations@, 0) == first_station_error(stations@, i as int),
        decreases stations.len() - i,
    {
        let station = &stations[i];
        if is_blank(station.id.as_str()) {
            return Err(message("Station id cannot be empty."));
        }
        if !(FM_MIN_KHZ <= station.frequency_khz && station.frequency_khz <= FM_MAX_KHZ) {
            return Err(out_of_band_message());
        }
        let mut j: usize = 0;
        let mut dup = false;
        while j < seen.len()
            invariant
                j <= seen.len(),
                dup == exists|l: int| 0 <= l < j && seen@[l] == station.frequency_khz,
            decreases seen.len() - j,
        {
            if seen[j] == station.frequency_khz {
                dup = true;
            }
            j = j + 1;
        }
        proof {
            if dup {
                let l = choose|l: int| 0 <= l < seen.len() && seen@[l] == station.frequency_khz;
                assert(stations@[l].frequency_khz == stations@[i as int].frequency_khz);
            }
            if exists|l: int|
                0 <= l < i && stations@[l].frequency_khz == stations@[i as int].frequency_khz {
                let l = choose|l: int|
                    0 <= l < i && stations@[l].frequency_khz
                        == stations@[i as int].frequency_khz;
                assert(seen@[l] == station.frequency_khz);
            }
        }
        if dup {
            return Err(duplicate_message(station.frequency_khz));
        }
        seen.push(station.frequency_khz);
        assert(seen@ =~= stations@.subrange(0, i + 1).map_values(
            |st: Station| st.frequency_khz,
        ));
        i = i + 1;
    }
    Ok(())
}


/// Where a stable sort by frequency puts `x` among `sorted`: after every
/// station whose frequency is not above it.
pub open spec fn station_slot(sorted: Seq<Station>, x: Station) -> int
    decreases sorted.len(),
{
    if sorted.len() == 0 || sorted[0].frequency_khz > x.frequency_khz {
        0
    } else {
        1 + station_slot(sorted.drop_first(), x)
    }
}

/// Stable sort by ascending frequency (insertion in arrival order).
pub open spec fn sort_stations_spec(s: Seq<Station>) -> Seq<Station>
    decreases s.len(),
{
    if s.len() == 0 {
        Seq::empty()
    } else {
        let sorted = sort_stations_spec(s.drop_last());
        sorted.insert(station_slot(sorted, s.last()), s.last())
    }
}

pub open spec fn stations_ascending(s: Seq<Station>) -> bool {
    forall|i: int, j: int|
        0 <= i < j < s.len() ==> (#[trigger] s[i]).frequency_khz <= (#[trigger] s[j]).frequency_khz
}

proof fn lemma_station_slot(sorted: Seq<Station>, x: Station, j: int)
    requires
        0 <= j <= sorted.len(),
        forall|i: int| 0 <= i < j ==> (#[trigger] sorted[i]).frequency_khz <= x.frequency_khz,
        j == sorted.len() || sorted[j].frequency_khz > x.frequency_khz,
    ensures
        station_slot(sorted, x) == j,
    decreases j,
{
    if j > 0 {
        assert forall|i: int| 0 <= i < j - 1 implies (
        #[trigger] sorted.drop_first()[i]).frequency_khz <= x.frequency_khz by {
            assert(sorted.drop_first()[i] == sorted[i + 1]);
        }
        if j < sorted.len() {
            assert(sorted.drop_first()[j - 1] == sorted[j]);
        }
        lemma_station_slot(sorted.drop_first(), x, j - 1);
    }
}

proof fn lemma_station_slot_bounds(sorted: Seq<Station>, x: Station)
    ensures
        0 <= station_slot(sorted, x) <= sorted.len(),
        forall|j: int|
            0 <= j < station_slot(sorted, x) ==> (#[trigger] sorted[j]).frequency_khz
                <= x.frequency_khz,
        station_slot(sorted, x) < sorted.len() ==> sorted[station_slot(
            sorted,
            x,
        )].frequency_khz > x.frequency_khz,
    decreases sorted.len(),
{
    if sorted.len() > 0 && sorted[0].frequency_khz <= x.frequency_khz {
        lemma_station_slot_bounds(sorted.drop_first(), x);
        assert forall|j: int| 0 <= j < station_slot(sorted, x) implies (
        #[trigger] sorted[j]).frequency_khz <= x.frequency_khz by {
            if j > 0 {
                assert(sorted[j] == sorted.drop_first()[j - 1]);
            }
        }
    }
}

/// Sorting presets keeps every station (as a multiset) and orders them by
/// ascending frequency; stations on one frequency keep their relative order.
pub proof fn lemma_sort_stations(s: Seq<Station>)
    ensures
        sort_stations_spec(s).to_multiset() == s.to_multiset(),
        sort_stations_spec(s).len() == s.len(),
        stations_ascending(sort_stations_spec(s)),
    decreases s.len(),
{
    broadcast use vstd::seq_lib::group_to_multiset_ensures;

    if s.len() > 0 {
        let t = s.drop_last();
        let x = s.last();
        lemma_sort_stations(t);
        let sorted = sort_stations_spec(t);
        let k = station_slot(sorted, x);
        lemma_station_slot_bounds(sorted, x);
        let r = sorted.insert(k, x);
        vstd::seq_lib::to_multiset_insert(sorted, k, x);
        assert(s =~= t.push(x));
        vstd::seq_lib::to_multiset_build(t, x);
        assert forall|i: int, j: int| 0 <= i < j < r.len() implies (#[trigger] r[i]).frequency_khz
            <= (#[trigger] r[j]).frequency_khz by {
            if j < k {
                assert(r[i] == sorted[i] && r[j] == sorted[j]);
            } else if j == k {
                assert(r[i] == sorted[i]);
            } else if i < k {
                assert(r[i] == sorted[i] && r[j] == sorted[j - 1]);
            } else if i == k {
                assert(r[j] == sorted[j - 1]);
            } else {
                assert(r[i] == sorted[i - 1] && r[j] == sorted[j - 1]);
            }
        }
    }
}

/// Stable sort of presets by frequency.
pub fn sort_stations(stations: &mut Vec<Station>)
    ensures
        final(stations)@ == sort_stations_spec(old(stations)@),
{
    let ghost input = stations@;
    let mut rest: Vec<Station> = Vec::new();
    std::mem::swap(&mut rest, stations);
    let mut sorted: Vec<Station> = Vec::new();
    let mut i: usize = 0;
    let n = rest.len();
    while rest.len() > 0
        invariant
            n == input.len(),
            i + rest.len() == n,
            rest@ == input.subrange(i as int, n as int),
            sorted@ == sort_stations_spec(input.subrange(0, i as int)),
        decreases rest.len(),
    {
        let x = rest.remove(0);
        let mut j: usize = 0;
        while j < sorted.len() && sorted[j].frequency_khz <= x.frequency_khz
            invariant
                j <= sorted.len(),
                forall|l: int| 0 <= l < j ==> (#[trigger] sorted@[l]).frequency_khz
                    <= x.frequency_khz,
            decreases sorted.len() - j,
        {
            j = j + 1;
        }
        proof {
            lemma_station_slot(sorted@, x, j as int);
            assert(input.subrange(0, i + 1).drop_last() =~= input.subrange(0, i as int));
            assert(input.subrange(0, i + 1).last() == x);
        }
        sorted.insert(j, x);
        i = i + 1;
        assert(rest@ =~= input.subrange(i as int, n as int));
    }
    assert(input.subrange(0, n as int) =~= input);
    *stations = sorted;
}

/// The presets sorted by frequency.
pub fn sorted_stations(stations: Vec<Station>) -> (r: Vec<Station>)
    ensures
        r@ == sort_stations_spec(stations@),
{
    let mut stations = stations;
    sort_stations(&mut stations);
    stations
}

pub open spec fn bundled_frequency(i: int) -> u32 {
    seq![
        88_000u32,
        89_300,
        90_000,
        90_400,
        102_000,
        102_400,
        103_000,
        103_500,
        104_500,
        105_200,
        105_700,
        107_000,
        107_400,
        107_900,
    ][i]
}

pub open spec fn bundled_name(i: int) -> Seq<char> {
    seq![
        "Радіо Байрактар"@,
        "Радіо Рокс"@,
        "Радіо Релакс"@,
        "Авторадіо"@,
        "Хіт FM"@,
        "Kiss FM"@,
        "Радіо П'ятниця"@,
        "Шлягер FM"@,
        "Наше радіо"@,
        "Люкс FM"@,
        "Power FM"@,
        "Радіо NV"@,
        "Країна FM"@,
        "Мелодія FM"@,
    ][i]
}

/// Id of a bundled preset: `default-` and its frequency in kHz.
pub open spec fn default_id(khz: u32) -> Seq<char> {
    "default-"@ + decimal_seq(khz as nat)
}

/// `s` is the bundled preset list.
pub open spec fn is_bundled(s: Seq<Station>) -> bool {
    &&& s.len() == 14
    &&& forall|i: int|
        0 <= i < 14 ==> (#[trigger] s[i]).frequency_khz == bundled_frequency(i) && s[i].id@
            == default_id(bundled_frequency(i)) && s[i].name@ == bundled_name(i)
}

/// A preset with the given id, name and frequency.
pub fn default_station(id: &str, name: &str, frequency_khz: u32) -> (st: Station)
    ensures
        st.id@ == id@,
        st.name@ == name@,
        st.frequency_khz == frequency_khz,
{
    Station { id: id.to_owned(), name: name.to_owned(), frequency_khz }
}

fn bundled_station(name: &str, frequency_khz: u32) -> (st: Station)
    ensures
        st.id@ == default_id(frequency_khz),
        st.name@ == name@,
        st.frequency_khz == frequency_khz,
{
    let mut id = String::new();
    id.append("default-");
    push_decimal(&mut id, frequency_khz as u64);
    assert(id@ =~= default_id(frequency_khz));
    Station { id, name: name.to_owned(), frequency_khz }
}

proof fn lemma_default_id_not_blank(khz: u32)
    ensures
        !all_whitespace(default_id(khz)),
{
    reveal_strlit("default-");
    assert(default_id(khz)[0] == 'd');
}

/// Bundled FM presets used when no stations.json exists yet.
pub fn bundled_stations() -> (r: Vec<Station>)
    ensures
        is_bundled(r@),
        stations_valid(r@),
        validation_error(r@) is None,
{
    let names = [
        "Радіо Байрактар",
        "Радіо Рокс",
        "Радіо Релакс",
        "Авторадіо",
        "Хіт FM",
        "Kiss FM",
        "Радіо П'ятниця",
        "Шлягер FM",
        "Наше радіо",
        "Люкс FM",
        "Power FM",
        "Радіо NV",
        "Країна FM",
        "Мелодія FM",
    ];
    let freqs: [u32; 14] = [
        88_000,
        89_300,
        90_000,
        90_400,
        102_000,
        102_400,
        103_000,
        103_500,
        104_500,
        105_200,
        105_700,
        107_000,
        107_400,
        107_900,
    ];
    assert(forall|i: int| 0 <= i < 14 ==> #[trigger] names@[i]@ == bundled_name(i));
    assert(forall|i: int| 0 <= i < 14 ==> #[trigger] freqs@[i] == bundled_frequency(i));
    let mut r: Vec<Station> = Vec::new();
    let mut i: usize = 0;
    while i < 14
        invariant
            i <= 14,
            r.len() == i,
            forall|k: int| 0 <= k < 14 ==> #[trigger] names@[k]@ == bundled_name(k),
            forall|k: int| 0 <= k < 14 ==> #[trigger] freqs@[k] == bundled_frequency(k),
            forall|k: int|
                0 <= k < i ==> (#[trigger] r@[k]).frequency_khz == bundled_frequency(k)
                    && r@[k].id@ == default_id(bundled_frequency(k)) && r@[k].name@
                    == bundled_name(k),
        decreases 14 - i,
    {
        let st = bundled_station(names[i], freqs[i]);
        r.push(st);
        i = i + 1;
    }
    proof {
        assert forall|k: int| 0 <= k < r.len() implies !all_whitespace(#[trigger] r@[k].id@) by {
            lemma_default_id_not_blank(bundled_frequency(k));
        }
        assert forall|a: int, b: int| 0 <= a < b < r.len() implies (#[trigger] r@[a]).frequency_khz
            < (#[trigger] r@[b]).frequency_khz by {
            lemma_increasing(a, b);
        }
        lemma_validation_error_iff_invalid(r@);
    }
    r
}

proof fn lemma_increasing(a: int, b: int)
    requires
        0 <= a < b < 14,
    ensures
        bundled_frequency(a) < bundled_frequency(b),
{
    assert(bundled_frequency(0) == 88000);
    assert(bundled_frequency(1) == 89300);
    assert(bundled_frequency(2) == 90000);
    assert(bundled_frequency(3) == 90400);
    assert(bundled_frequency(4) == 102000);
    assert(bundled_frequency(5) == 102400);
    assert(bundled_frequency(6) == 103000);
    assert(bundled_frequency(7) == 103500);
    assert(bundled_frequency(8) == 104500);
    assert(bundled_frequency(9) == 105200);
    assert(bundled_frequency(10) == 105700);
    assert(bundled_frequency(11) == 107000);
    assert(bundled_frequency(12) == 107400);
    assert(bundled_frequency(13) == 107900);
    assert(a == 0 || a == 1 || a == 2 || a == 3 || a == 4 || a == 5 || a == 6 || a == 7 || a == 8 || a == 9 || a == 10 || a == 11 || a == 12 || a == 13);
    assert(b == 0 || b == 1 || b == 2 || b == 3 || b == 4 || b == 5 || b == 6 || b == 7 || b == 8 || b == 9 || b == 10 || b == 11 || b == 12 || b == 13);
}

/// Presets read from disk: the file's list sorted by frequency, or the
/// bundled list when there is no readable file or it holds no station.
pub fn stations_from_file(stations: Option<Vec<Station>>) -> (r: Vec<Station>)
    ensures
        match stations {
            Some(v) => if v.len() > 0 {
                r@ == sort_stations_spec(v@)
            } else {
                is_bundled(r@)
            },
            None => is_bundled(r@),
        },
{
    match stations {
        Some(v) => {
            if v.len() > 0 {
                sorted_stations(v)
            } else {
                bundled_stations()
            }
        },
        None => bundled_stations(),
    }
}

/// Presets as they are written to disk: sorted by frequency, and only when
/// the sorted list passes validation (its first complaint otherwise).
pub fn stations_to_save(stations: Vec<Station>) -> (r: Result<Vec<Station>, String>)
    ensures
        match r {
            Ok(v) => v@ == sort_stations_spec(stations@) && validation_error(v@) is None,
            Err(m) => validation_error(sort_stations_spec(stations@)) == Some(m@),
        },
{
    let sorted = sorted_stations(stations);
    match validate_stations(sorted.as_slice()) {
        Ok(()) => Ok(sorted),
        Err(m) => Err(m),
    }
}

/// Sorting a list already in frequency order changes nothing.
pub proof fn lemma_sort_stations_sorted(s: Seq<Station>)
    requires
        stations_ascending(s),
    ensures
        sort_stations_spec(s) == s,
    decreases s.len(),
{
    if s.len() > 0 {
        let t = s.drop_last();
        let x = s.last();
        assert(stations_ascending(t)) by {
            assert forall|i: int, j: int| 0 <= i < j < t.len() implies (
            #[trigger] t[i]).frequency_khz <= (#[trigger] t[j]).frequency_khz by {
                assert(t[i] == s[i] && t[j] == s[j]);
            }
        }
        lemma_sort_stations_sorted(t);
        assert forall|i: int| 0 <= i < t.len() implies (#[trigger] t[i]).frequency_khz
            <= x.frequency_khz by {
            assert(t[i] == s[i]);
        }
        lemma_station_slot(t, x, t.len() as int);
        assert(t.insert(t.len() as int, x) =~= s);
    }
}

/// Whether a station is on frequency `f`.
pub open spec fn on_frequency(f: u32) -> spec_fn(Station) -> bool {
    |st: Station| st.frequency_khz == f
}

proof fn lemma_filter_none(s: Seq<Station>, f: u32)
    requires
        forall|i: int| 0 <= i < s.len() ==> (#[trigger] s[i]).frequency_khz != f,
    ensures
        s.filter(on_frequency(f)) == Seq::<Station>::empty(),
    decreases s.len(),
{
    reveal(Seq::filter);
    if s.len() > 0 {
        assert forall|i: int| 0 <= i < s.drop_last().len() implies (
        #[trigger] s.drop_last()[i]).frequency_khz != f by {
            assert(s.drop_last()[i] == s[i]);
        }
        lemma_filter_none(s.drop_last(), f);
    }
}

/// The sort is stable: the stations on any one frequency come out in the
/// order they went in.
pub proof fn lemma_sort_stations_stable(s: Seq<Station>, f: u32)
    ensures
        sort_stations_spec(s).filter(on_frequency(f)) == s.filter(on_frequency(f)),
    decreases s.len(),
{
    let p = on_frequency(f);
    if s.len() == 0 {
        reveal(Seq::filter);
    } else {
        let t = s.drop_last();
        let x = s.last();
        lemma_sort_stations_stable(t, f);
        lemma_sort_stations(t);
        let sorted = sort_stations_spec(t);
        let k = station_slot(sorted, x);
        lemma_station_slot_bounds(sorted, x);
        let a = sorted.subrange(0, k);
        let b = sorted.subrange(k, sorted.len() as int);
        let one = seq![x];
        let r = sorted.insert(k, x);
        assert(r =~= a + one + b);
        assert(sorted =~= a + b);
        Seq::filter_distributes_over_add(a + one, b, p);
        Seq::filter_distributes_over_add(a, one, p);
        Seq::filter_distributes_over_add(a, b, p);
        assert(s.filter(p) == if p(x) { t.filter(p).push(x) } else { t.filter(p) }) by {
            reveal(Seq::filter);
        }
        assert(one.filter(p) == if p(x) { seq![x] } else { Seq::<Station>::empty() }) by {
            reveal_with_fuel(Seq::filter, 2);
            assert(one.drop_last() =~= Seq::<Station>::empty());
        }
        if p(x) {
            assert forall|i: int| 0 <= i < b.len() implies (#[trigger] b[i]).frequency_khz != f by {
                assert(b[i] == sorted[k + i]);
                if i > 0 {
                    assert(sorted[k].frequency_khz <= sorted[k + i].frequency_khz);
                }
            }
            lemma_filter_none(b, f);
            assert(a.filter(p) + b.filter(p) =~= a.filter(p));
            assert(a.filter(p) + one.filter(p) =~= a.filter(p).push(x));
        } else {
            assert(one.filter(p) =~= Seq::<Station>::empty());
            assert(a.filter(p) + one.filter(p) =~= a.filter(p));
        }
    }
}

/// What a save writes, a load gives back: the saved list is sorted, and
/// loading a non-empty list sorts it again without change.
pub proof fn lemma_save_then_load(s: Seq<Station>)
    ensures
        sort_stations_spec(sort_stations_spec(s)) == sort_stations_spec(s),
{
    lemma_sort_stations(s);
    lemma_sort_stations_sorted(sort_stations_spec(s));
}

proof fn lemma_valid_same_multiset(s: Seq<Station>, t: Seq<Station>)
    requires
        s.to_multiset() == t.to_multiset(),
        stations_valid(s),
    ensures
        stations_valid(t),
{
    broadcast use vstd::seq_lib::group_to_multiset_ensures;
    broadcast use vstd::multiset::group_multiset_axioms;

    vstd::seq_lib::to_multiset_len(s);
    vstd::seq_lib::to_multiset_len(t);
    assert forall|i: int| 0 <= i < t.len() implies s.contains(#[trigger] t[i]) by {
        assert(t.contains(t[i]));
        vstd::seq_lib::to_multiset_contains(t, t[i]);
        vstd::seq_lib::to_multiset_contains(s, t[i]);
    }
    assert forall|i: int| 0 <= i < t.len() implies !all_whitespace(#[trigger] t[i].id@) && in_fm_band(
        t[i].frequency_khz,
    ) by {
        assert(s.contains(t[i]));
        let p = choose|p: int| 0 <= p < s.len() && s[p] == t[i];
        assert(!all_whitespace(s[p].id@));
        assert(in_fm_band(s[p].frequency_khz));
    }
    assert(s.no_duplicates()) by {
        assert forall|i: int, j: int| 0 <= i < s.len() && 0 <= j < s.len() && i != j implies s[i]
            != s[j] by {
            if i < j {
                assert(s[i].frequency_khz != s[j].frequency_khz);
            } else {
                assert(s[j].frequency_khz != s[i].frequency_khz);
            }
        }
    }
    s.lemma_multiset_has_no_duplicates();
    t.lemma_multiset_has_no_duplicates_conv();
    assert forall|i: int, j: int| 0 <= i < j < t.len() implies (#[trigger] t[i]).frequency_khz
        != (#[trigger] t[j]).frequency_khz by {
        assert(t[i] != t[j]);
        let p = choose|p: int| 0 <= p < s.len() && s[p] == t[i];
        let q = choose|q: int| 0 <= q < s.len() && s[q] == t[j];
        assert(p != q);
        if p < q {
            assert(s[p].frequency_khz != s[q].frequency_khz);
        } else {
            assert(s[q].frequency_khz != s[p].frequency_khz);
        }
    }
}

/// Whether a preset list is accepted does not depend on its order: the
/// sorted list that a save checks is accepted exactly when the list given
/// to it is.
pub proof fn lemma_validation_ignores_order(s: Seq<Station>)
    ensures
        validation_error(sort_stations_spec(s)) is None <==> validation_error(s) is None,
{
    lemma_sort_stations(s);
    lemma_validation_error_iff_invalid(s);
    lemma_validation_error_iff_invalid(sort_stations_spec(s));
    if stations_valid(s) {
        lemma_valid_same_multiset(s, sort_stations_spec(s));
    }
    if stations_valid(sort_stations_spec(s)) {
        lemma_valid_same_multiset(sort_stations_spec(s), s);
    }
}
} // verus!
