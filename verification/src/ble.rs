//! The decisions of the Bluetooth LE transport: which GATT characteristic carries SMP, how much
//! of a write goes into one notification-sized packet, how much of a received notification fits
//! the reader's buffer, and which advertised device is the one that was asked for.
//!
//! The radio work itself (connecting, subscribing, moving packets) is done by the caller.
use vstd::prelude::*;

verus! {

/// Largest number of bytes sent in one write to the SMP characteristic.
pub const MAX_MTU: usize = 252;

/// UUID (as a 128-bit integer) of the GATT characteristic that carries SMP:
/// `DA2E7828-FBCE-4E01-AE9E-261174997C48`.
pub const BLE_TRANSPORT_CHARACTERISTIC_UUID: u128 = 0xDA2E7828_FBCE_4E01_AE9E_261174997C48u128;

/// UUID (as a 128-bit integer) of the GATT service of SMP:
/// `8D53DC1D-1DB7-4CD3-868B-8A527460AA84`.
pub const BLE_TRANSPORT_SERVICE_UUID: u128 = 0x8D53DC1D_1DB7_4CD3_868B_8A527460AA84u128;

/// How many times the advertised devices are scanned before the search for a name gives up.
pub const SCAN_ROUNDS: u32 = 10;

/// The smaller of two lengths.
pub open spec fn spec_min(a: nat, b: nat) -> nat {
    if a <= b {
        a
    } else {
        b
    }
}

/// `spec_min` is the minimum: no larger than either argument and equal to one of them, for all
/// arguments however far apart.
pub proof fn lemma_min(a: nat, b: nat)
    ensures
        spec_min(a, b) <= a,
        spec_min(a, b) <= b,
        spec_min(a, b) == a || spec_min(a, b) == b,
        a > b ==> spec_min(a, b) == b,
{
}

/// The prefix kept of `data` under the bound `max`: all of `data` when it fits, otherwise exactly
/// its first `max` bytes, however long `data` is.
pub proof fn lemma_bounded_prefix_len(data: Seq<u8>, max: nat)
    ensures
        data.len() <= max ==> data.take(spec_min(data.len(), max) as int) == data,
        data.len() > max ==> data.take(spec_min(data.len(), max) as int).len() == max,
        data.len() > max ==> data.take(spec_min(data.len(), max) as int) == data.subrange(
            0,
            max as int,
        ),
{
    if data.len() <= max {
        assert(data.take(data.len() as int) =~= data);
    }
}

/// The first `max` bytes of `data`, or all of it when it is shorter.
///
/// A write sends `bounded_prefix(buf, MAX_MTU)` and reports that many bytes written; a read
/// hands the reader `bounded_prefix(notification, capacity)`, and the rest of that
/// notification is not kept.
pub fn bounded_prefix(data: &[u8], max: usize) -> (r: Vec<u8>)
    ensures
        r@ == data@.take(spec_min(data@.len(), max as nat) as int),
        r@.len() <= max,
        r@.len() == data@.len() || r@.len() == max,
        data@.len() >= max ==> r@.len() == max,
        r@ == data@.take(r@.len() as int),
{
    let n = if data.len() <= max {
        data.len()
    } else {
        max
    };
    let mut out: Vec<u8> = Vec::new();
    let mut i: usize = 0;
    while i < n
        invariant
            n <= data@.len(),
            i <= n,
            out@ == data@.take(i as int),
        decreases n - i,
    {
        out.push(data[i]);
        assert(data@.take(i + 1) =~= data@.take(i as int).push(data@[i as int]));
        i = i + 1;
    }
    out
}

/// The index of the first characteristic whose UUID is `target`, or `None` when there is none.
pub fn find_characteristic(uuids: &[u128], target: u128) -> (r: Option<usize>)
    ensures
        match r {
            Some(i) => i < uuids@.len() && uuids@[i as int] == target && forall|j: int|
                0 <= j < i ==> uuids@[j] != target,
            None => forall|j: int| 0 <= j < uuids@.len() ==> uuids@[j] != target,
        },
{
    let mut i: usize = 0;
    while i < uuids.len()
        invariant
            i <= uuids@.len(),
            forall|j: int| 0 <= j < i ==> uuids@[j] != target,
        decreases uuids@.len() - i,
    {
        if uuids[i] == target {
            return Some(i);
        }
        i = i + 1;
    }
    None
}

/// `needle` occurs in `haystack` as a contiguous run of characters.
pub open spec fn spec_contains(haystack: Seq<char>, needle: Seq<char>) -> bool {
    exists|i: int|
        0 <= i && i + needle.len() <= haystack.len() && #[trigger] haystack.subrange(
            i,
            i + needle.len(),
        ) == needle
}

/// `spec_contains` means occurring as a contiguous part: `needle` is found in `haystack` exactly
/// when `haystack` is some text, then `needle`, then some more text.
pub proof fn lemma_contains_is_infix(haystack: Seq<char>, needle: Seq<char>)
    ensures
        spec_contains(haystack, needle) <==> exists|p: Seq<char>, q: Seq<char>|
            haystack == #[trigger] (p + needle + q),
        spec_contains(haystack, needle) ==> needle.len() <= haystack.len(),
{
    if spec_contains(haystack, needle) {
        let i = choose|i: int|
            0 <= i && i + needle.len() <= haystack.len() && #[trigger] haystack.subrange(
                i,
                i + needle.len(),
            ) == needle;
        let p = haystack.take(i);
        let q = haystack.skip(i + needle.len());
        assert(haystack =~= p + needle + q);
    }
    if exists|p: Seq<char>, q: Seq<char>| haystack == #[trigger] (p + needle + q) {
        let (p, q) = choose|p: Seq<char>, q: Seq<char>| haystack == #[trigger] (p + needle + q);
        let i = p.len() as int;
        assert(haystack.subrange(i, i + needle.len()) =~= needle);
    }
}

/// `str::contains` with a `&str` pattern: whether `needle` occurs in `haystack`.
#[verifier::external_body]
fn str_contains(haystack: &str, needle: &str) -> (r: bool)
    ensures
        r == spec_contains(haystack@, needle@),
{
    haystack.contains(needle)
}

/// A device is the one searched for when it advertises a local name that contains `name`.
pub fn local_name_matches(local_name: &Option<String>, name: &str) -> (r: bool)
    ensures
        r == match local_name {
            Some(s) => spec_contains(s@, name@),
            None => false,
        },
{
    match local_name {
        Some(s) => str_contains(s.as_str(), name),
        None => false,
    }
}

/// After `rounds_done` scans without a match, whether to scan again.
pub fn scan_again(rounds_done: u32) -> (r: bool)
    ensures
        r == (rounds_done < SCAN_ROUNDS),
{
    rounds_done < SCAN_ROUNDS
}

} // verus!
