//! Band-scan bookkeeping: which detected channels get an RDS dwell, and the
//! preset list a scan produces.

use vstd::prelude::*;

use std::collections::HashMap;

use crate::detect::ChannelScore;
use crate::stations::{sort_stations_spec, sorted_stations, Station};
use crate::text::{decimal_seq, push_decimal};

verus! {

/// Progress phases reported while scanning.
#[derive(Debug, Clone, Copy, PartialEq, Eq, Structural)]
pub enum ScanPhase {
    Spectrum,
    Rds,
}

/// RDS names are tried on at most this many of the strongest channels.
pub const MAX_RDS_PEAKS: usize = 15;

/// Where a stable sort by descending SNR puts channel index `x` among `order`.
pub open spec fn snr_slot(detected: Seq<ChannelScore>, order: Seq<usize>, x: usize) -> int
    decreases order.len(),
{
    if order.len() == 0 || detected[order[0] as int].snr_q < detected[x as int].snr_q {
        0
    } else {
        1 + snr_slot(detected, order.drop_first(), x)
    }
}

/// Channel indices `0..n` stably sorted by descending SNR.
pub open spec fn snr_order(detected: Seq<ChannelScore>, n: int) -> Seq<usize>
    decreases n,
{
    if n <= 0 {
        Seq::empty()
    } else {
        let order = snr_order(detected, n - 1);
        order.insert(snr_slot(detected, order, (n - 1) as usize), (n - 1) as usize)
    }
}

pub open spec fn rds_order_spec(detected: Seq<ChannelScore>) -> Seq<usize> {
    let order = snr_order(detected, detected.len() as int);
    if order.len() > MAX_RDS_PEAKS {
        order.subrange(0, MAX_RDS_PEAKS as int)
    } else {
        order
    }
}

proof fn lemma_snr_slot(detected: Seq<ChannelScore>, order: Seq<usize>, x: usize, j: int)
    requires
        0 <= j <= order.len(),
        forall|i: int|
            0 <= i < j ==> !(detected[(#[trigger] order[i]) as int].snr_q
                < detected[x as int].snr_q),
        j == order.len() || detected[order[j] as int].snr_q < detected[x as int].snr_q,
    ensures
        snr_slot(detected, order, x) == j,
    decreases j,
{
    if j > 0 {
        assert(order.drop_first()[0] == order[1] || order.len() == 1);
        assert forall|i: int| 0 <= i < j - 1 implies !(detected[(
        #[trigger] order.drop_first()[i]) as int].snr_q < detected[x as int].snr_q) by {
            assert(order.drop_first()[i] == order[i + 1]);
        }
        if j < order.len() {
            assert(order.drop_first()[j - 1] == order[j]);
        }
        lemma_snr_slot(detected, order.drop_first(), x, j - 1);
    }
}

proof fn lemma_snr_order_len(detected: Seq<ChannelScore>, n: int)
    requires
        n >= 0,
    ensures
        snr_order(detected, n).len() == n,
        forall|i: int| 0 <= i < n ==> (#[trigger] snr_order(detected, n)[i]) < n,
    decreases n,
{
    if n > 0 {
        lemma_snr_order_len(detected, n - 1);
        let order = snr_order(detected, n - 1);
        lemma_snr_slot_bounds(detected, order, (n - 1) as usize);
        let k = snr_slot(detected, order, (n - 1) as usize);
        let r = order.insert(k, (n - 1) as usize);
        assert forall|i: int| 0 <= i < n implies (#[trigger] r[i]) < n by {
            if i < k {
                assert(r[i] == order[i]);
            } else if i > k {
                assert(r[i] == order[i - 1]);
            }
        }
    }
}

proof fn lemma_snr_slot_bounds(detected: Seq<ChannelScore>, order: Seq<usize>, x: usize)
    ensures
        0 <= snr_slot(detected, order, x) <= order.len(),
    decreases order.len(),
{
    if order.len() > 0 && !(detected[order[0] as int].snr_q < detected[x as int].snr_q) {
        lemma_snr_slot_bounds(detected, order.drop_first(), x);
    }
}

/// Indices of the detected channels that get an RDS dwell: strongest SNR
/// first (ties in detection order), at most `MAX_RDS_PEAKS`.
pub fn rds_order(detected: &Vec<ChannelScore>) -> (r: Vec<usize>)
    ensures
        r@ == rds_order_spec(detected@),
{
    let n = detected.len();
    let mut order: Vec<usize> = Vec::new();
    let mut i: usize = 0;
    while i < n
        invariant
            n == detected.len(),
            i <= n,
            order@ == snr_order(detected@, i as int),
            forall|l: int| 0 <= l < order.len() ==> (#[trigger] order@[l]) < i,
        decreases n - i,
    {
        proof {
            lemma_snr_order_len(detected@, i as int);
        }
        let mut j: usize = 0;
        while j < order.len() && !(detected[order[j]].snr_q < detected[i].snr_q)
            invariant
                n == detected.len(),
                i < n,
                j <= order.len(),
                forall|l: int| 0 <= l < order.len() ==> (#[trigger] order@[l]) < i,
                forall|l: int|
                    0 <= l < j ==> !(detected@[(#[trigger] order@[l]) as int].snr_q
                        < detected@[i as int].snr_q),
            decreases order.len() - j,
        {
            j = j + 1;
        }
        proof {
            lemma_snr_slot(detected@, order@, i, j as int);
        }
        order.insert(j, i);
        i = i + 1;
        proof {
            lemma_snr_order_len(detected@, i as int);
        }
    }
    proof {
        lemma_snr_order_len(detected@, n as int);
    }
    if order.len() > MAX_RDS_PEAKS {
        order.truncate(MAX_RDS_PEAKS);
    }
    order
}

/// The error a scan ends with when the spectrum shows no station.
pub open spec fn msg_no_stations() -> Seq<char> {
    "No FM stations found. Try another antenna position or higher gain."@
}

/// The step after the spectrum sweep: a scan that detected nothing fails
/// with `msg_no_stations`; otherwise the channels to try for RDS names,
/// as `rds_order` picks them.
pub fn rds_plan(detected: &Vec<ChannelScore>) -> (r: Result<Vec<usize>, String>)
    ensures
        match r {
            Ok(order) => detected@.len() > 0 && order@ == rds_order_spec(detected@),
            Err(msg) => detected@.len() == 0 && msg@ == msg_no_stations(),
        },
{
    if detected.len() == 0 {
        Err("No FM stations found. Try another antenna position or higher gain.".to_owned())
    } else {
        Ok(rds_order(detected))
    }
}

/// Id of a preset found by scanning: `scan-` and its frequency in kHz.
pub open spec fn scan_id(khz: u32) -> Seq<char> {
    "scan-"@ + decimal_seq(khz as nat)
}

/// The name a scan gives channel `i`: its RDS name, unless an earlier
/// channel on the same frequency already took it.
pub open spec fn scan_name(freqs: Seq<u32>, names: Map<u32, String>, i: int) -> Seq<char> {
    if names.contains_key(freqs[i]) && !(exists|j: int| 0 <= j < i && freqs[j] == freqs[i]) {
        names[freqs[i]]@
    } else {
        Seq::empty()
    }
}

/// `built` holds one preset per detected channel, in detection order.
pub open spec fn scan_presets(built: Seq<Station>, freqs: Seq<u32>, names: Map<u32, String>) -> bool {
    &&& built.len() == freqs.len()
    &&& forall|i: int|
        0 <= i < freqs.len() ==> (#[trigger] built[i]).frequency_khz == freqs[i] && built[i].id@
            == scan_id(freqs[i]) && built[i].name@ == scan_name(freqs, names, i)
}

/// Presets from a scan: one per detected frequency, named from the RDS
/// results where there is one, sorted by frequency.
pub fn scan_stations(frequencies: &Vec<u32>, names: HashMap<u32, String>) -> (r: Vec<Station>)
    ensures
        exists|built: Seq<Station>|
            scan_presets(built, frequencies@, names@) && r@ == sort_stations_spec(built),
{
    broadcast use vstd::std_specs::hash::group_hash_axioms;

    let ghost all_names = names@;
    let mut names = names;
    let mut built: Vec<Station> = Vec::new();
    let mut i: usize = 0;
    while i < frequencies.len()
        invariant
            i <= frequencies.len(),
            built.len() == i,
            forall|k: int|
                0 <= k < i ==> (#[trigger] built@[k]).frequency_khz == frequencies@[k]
                    && built@[k].id@ == scan_id(frequencies@[k]) && built@[k].name@ == scan_name(
                    frequencies@,
                    all_names,
                    k,
                ),
            forall|f: u32|
                #[trigger] names@.contains_key(f) ==> all_names.contains_key(f) && names@[f]
                    == all_names[f],
            forall|f: u32|
                all_names.contains_key(f) && !(exists|j: int|
                    0 <= j < i && frequencies@[j] == f) ==> #[trigger] names@.contains_key(f),
            forall|j: int| 0 <= j < i ==> !names@.contains_key(#[trigger] frequencies@[j]),
        decreases frequencies.len() - i,
    {
        let khz = frequencies[i];
        let ghost before = names@;
        let name = match names.remove(&khz) {
            Some(n) => n,
            None => String::new(),
        };
        proof {
            if exists|j: int| 0 <= j < i && frequencies@[j] == khz {
                let j = choose|j: int| 0 <= j < i && frequencies@[j] == khz;
                assert(!before.contains_key(frequencies@[j]));
            }
        }
        let mut id = String::new();
        id.append("scan-");
        push_decimal(&mut id, khz as u64);
        assert(id@ =~= scan_id(khz));
        built.push(Station { id, name, frequency_khz: khz });
        i = i + 1;
    }
    assert(scan_presets(built@, frequencies@, all_names));
    sorted_stations(built)
}


pub open spec fn snr_descending(detected: Seq<ChannelScore>, order: Seq<usize>) -> bool {
    forall|i: int, j: int|
        0 <= i < j < order.len() ==> detected[(#[trigger] order[j]) as int].snr_q
            <= detected[(#[trigger] order[i]) as int].snr_q
}

proof fn lemma_snr_order_props(detected: Seq<ChannelScore>, n: int)
    requires
        0 <= n <= detected.len(),
        n <= usize::MAX,
    ensures
        snr_descending(detected, snr_order(detected, n)),
        snr_order(detected, n).len() == n,
        forall|u: usize| u < n ==> #[trigger] snr_order(detected, n).contains(u),
        forall|i: int| 0 <= i < n ==> (#[trigger] snr_order(detected, n)[i]) < n,
    decreases n,
{
    lemma_snr_order_len(detected, n);
    if n > 0 {
        lemma_snr_order_props(detected, n - 1);
        let order = snr_order(detected, n - 1);
        let x = (n - 1) as usize;
        let k = snr_slot(detected, order, x);
        lemma_snr_slot_facts(detected, order, x);
        let r = order.insert(k, x);
        assert(r == snr_order(detected, n));
        assert forall|i: int, j: int| 0 <= i < j < r.len() implies detected[(
        #[trigger] r[j]) as int].snr_q <= detected[(#[trigger] r[i]) as int].snr_q by {
            if j < k {
                assert(r[i] == order[i] && r[j] == order[j]);
            } else if j == k {
                assert(r[i] == order[i]);
            } else if i < k {
                assert(r[i] == order[i] && r[j] == order[j - 1]);
                if k < order.len() {
                    assert(detected[order[j - 1] as int].snr_q <= detected[order[k] as int].snr_q);
                }
            } else if i == k {
                assert(r[j] == order[j - 1]);
                if k < order.len() {
                    assert(detected[order[j - 1] as int].snr_q <= detected[order[k] as int].snr_q);
                }
            } else {
                assert(r[i] == order[i - 1] && r[j] == order[j - 1]);
            }
        }
        assert forall|y: usize| y < n implies #[trigger] r.contains(y) by {
            if y == n - 1 {
                assert(r[k] == x);
            } else {
                assert(order.contains(y));
                let q = choose|q: int| 0 <= q < order.len() && order[q] == y;
                if q < k {
                    assert(r[q] == order[q]);
                } else {
                    assert(r[q + 1] == order[q]);
                }
            }
        }
    }
}

proof fn lemma_snr_slot_facts(detected: Seq<ChannelScore>, order: Seq<usize>, x: usize)
    ensures
        0 <= snr_slot(detected, order, x) <= order.len(),
        forall|j: int|
            0 <= j < snr_slot(detected, order, x) ==> detected[x as int].snr_q <= detected[(
            #[trigger] order[j]) as int].snr_q,
        snr_slot(detected, order, x) < order.len() ==> detected[order[snr_slot(
            detected,
            order,
            x,
        )] as int].snr_q < detected[x as int].snr_q,
    decreases order.len(),
{
    if order.len() > 0 && !(detected[order[0] as int].snr_q < detected[x as int].snr_q) {
        lemma_snr_slot_facts(detected, order.drop_first(), x);
        assert forall|j: int| 0 <= j < snr_slot(detected, order, x) implies detected[x as int].snr_q
            <= detected[(#[trigger] order[j]) as int].snr_q by {
            if j > 0 {
                assert(order[j] == order.drop_first()[j - 1]);
            }
        }
    }
}

/// The RDS dwell goes to the strongest channels: at most `MAX_RDS_PEAKS`
/// of them (all when there are fewer), strongest first, and every channel
/// left out is no stronger than any channel taken.
pub proof fn lemma_rds_order_strongest(detected: Seq<ChannelScore>)
    requires
        detected.len() <= usize::MAX,
    ensures
        rds_order_spec(detected).len() == if detected.len() > MAX_RDS_PEAKS {
            MAX_RDS_PEAKS as int
        } else {
            detected.len() as int
        },
        snr_descending(detected, rds_order_spec(detected)),
        forall|i: int|
            0 <= i < rds_order_spec(detected).len() ==> (#[trigger] rds_order_spec(detected)[i])
                < detected.len(),
        forall|x: usize, i: int|
            x < detected.len() && !rds_order_spec(detected).contains(x) && 0 <= i
                < rds_order_spec(detected).len() ==> #[trigger] detected[x as int].snr_q
                <= detected[(#[trigger] rds_order_spec(detected)[i]) as int].snr_q,
{
    let n = detected.len() as int;
    lemma_snr_order_props(detected, n);
    let order = snr_order(detected, n);
    let r = rds_order_spec(detected);
    assert forall|x: usize, i: int|
        x < detected.len() && !r.contains(x) && 0 <= i < r.len() implies #[trigger] detected[x as int].snr_q
        <= detected[(#[trigger] r[i]) as int].snr_q by {
        assert(order.contains(x));
        let q = choose|q: int| 0 <= q < order.len() && order[q] == x;
        if q < r.len() {
            assert(r[q] == order[q]);
            assert(r.contains(x));
        }
        assert(r[i] == order[i]);
    }
    assert(snr_descending(detected, r)) by {
        assert forall|i: int, j: int| 0 <= i < j < r.len() implies detected[(#[trigger] r[j]) as int].snr_q
            <= detected[(#[trigger] r[i]) as int].snr_q by {
            assert(r[i] == order[i] && r[j] == order[j]);
        }
    }
}
} // verus!
