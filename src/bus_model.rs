use vstd::prelude::*;
use crate::device_search::{
    DeviceSearch, Event, Action, SearchPhase, Stage, expects, direction_spec, record_spec,
    start_state, exhausted,
};
use crate::search_state::{SearchState, bit_at, with_bit, highest_set_bit, is_highest_bit};
use crate::crc::{crc_holds, le_bytes};
use crate::triplet::{Triplet, classify};

verus! {

/// The bits below `i` (all 64 bits when `i` is 64 or more).
pub open spec fn low_mask(i: u64) -> u64 {
    if i >= 64 {
        0xFFFF_FFFF_FFFF_FFFFu64
    } else {
        ((1u64 << i) - 1u64) as u64
    }
}

/// Whether device `d` agrees with `path` on the bits below `i`, so that it
/// still takes part in a pass that has driven `path` so far.
pub open spec fn on_path(d: u64, path: u64, i: u64) -> bool {
    d & low_mask(i) == path & low_mask(i)
}

/// Whether a device of `devices` is present on the bus.
pub open spec fn present(devices: Set<u64>) -> bool {
    exists|d: u64| devices.contains(d)
}

/// The triplet outcome of an ideal bus holding `devices` at bit `i` of a pass
/// that has driven `path`: the bus reads 0 in a slot where any taking part
/// device sends 0 (the bit first, then its complement).
pub open spec fn bus_triplet(devices: Set<u64>, path: u64, i: u64, dir: bool) -> Triplet {
    let some_zero = exists|d: u64| devices.contains(d) && on_path(d, path, i) && !bit_at(d, i);
    let some_one = exists|d: u64| devices.contains(d) && on_path(d, path, i) && bit_at(d, i);
    classify(!some_zero, !some_one, dir)
}

/// Whether `e` is what an ideal bus holding `devices` answers to the last
/// action of `s`.
pub open spec fn answered_by(s: DeviceSearch, e: Event, devices: Set<u64>) -> bool {
    match s.stage {
        Stage::AwaitPresence => e matches Event::Presence(p) && (present(devices) ==> p),
        Stage::Sampling(i) => e == Event::Sampled(
            bus_triplet(devices, s.current.address, i as u64, direction_spec(s.phase, i as u64)),
        ),
        _ => true,
    }
}

/// Whether a device of `devices` still takes part in the pass that `s` is in.
pub open spec fn on_bus(s: DeviceSearch, devices: Set<u64>) -> bool {
    match s.stage {
        Stage::Sampling(i) => present(devices) ==> exists|d: u64|
            devices.contains(d) && on_path(d, s.current.address, i as u64),
        _ => true,
    }
}

proof fn lemma_on_path_start(d: u64, path: u64)
    ensures
        on_path(d, path, 0),
{
    assert(d & (((1u64 << 0u64) - 1u64) as u64) == path & (((1u64 << 0u64) - 1u64) as u64))
        by (bit_vector);
}

proof fn lemma_on_path_extend(d: u64, path: u64, i: u64, v: bool)
    requires
        i < 64,
        on_path(d, path, i),
        bit_at(d, i) == v,
    ensures
        on_path(d, with_bit(path, i, v), (i + 1) as u64),
{
    let m = low_mask(i);
    let m1 = low_mask((i + 1) as u64);
    assert(m == ((1u64 << i) - 1u64) as u64);
    if i + 1 >= 64 {
        assert(m1 == 0xFFFF_FFFF_FFFF_FFFFu64);
        if v {
            assert(d & (((1u64 << i) - 1u64) as u64) == path & (((1u64 << i) - 1u64) as u64)
                && (d >> i) & 1u64 == 1u64 && i == 63 ==> d & 0xFFFF_FFFF_FFFF_FFFFu64 == (path | (
            1u64 << i)) & 0xFFFF_FFFF_FFFF_FFFFu64) by (bit_vector);
        } else {
            assert(d & (((1u64 << i) - 1u64) as u64) == path & (((1u64 << i) - 1u64) as u64)
                && (d >> i) & 1u64 != 1u64 && i == 63 ==> d & 0xFFFF_FFFF_FFFF_FFFFu64 == (path & !(
            1u64 << i)) & 0xFFFF_FFFF_FFFF_FFFFu64) by (bit_vector);
        }
    } else {
        let j = (i + 1) as u64;
        assert(m1 == ((1u64 << j) - 1u64) as u64);
        if v {
            assert(d & (((1u64 << i) - 1u64) as u64) == path & (((1u64 << i) - 1u64) as u64)
                && (d >> i) & 1u64 == 1u64 && i < 63 && j == i + 1 ==> d & (((1u64 << j) - 1u64) as u64)
                == (path | (1u64 << i)) & (((1u64 << j) - 1u64) as u64)) by (bit_vector);
        } else {
            assert(d & (((1u64 << i) - 1u64) as u64) == path & (((1u64 << i) - 1u64) as u64)
                && (d >> i) & 1u64 != 1u64 && i < 63 && j == i + 1 ==> d & (((1u64 << j) - 1u64) as u64)
                == (path & !(1u64 << i)) & (((1u64 << j) - 1u64) as u64)) by (bit_vector);
        }
    }
}

proof fn lemma_on_path_bit(x: u64, y: u64, j: u64, k: u64)
    requires
        on_path(x, y, j),
        k < j,
        j <= 64,
    ensures
        bit_at(x, k) == bit_at(y, k),
{
    if j == 64 {
        assert(x & 0xFFFF_FFFF_FFFF_FFFFu64 == y & 0xFFFF_FFFF_FFFF_FFFFu64 && k < 64 ==> ((x >> k)
            & 1u64 == 1u64 <==> (y >> k) & 1u64 == 1u64)) by (bit_vector);
    } else {
        assert(x & (((1u64 << j) - 1u64) as u64) == y & (((1u64 << j) - 1u64) as u64) && k < j && j
            < 64 ==> ((x >> k) & 1u64 == 1u64 <==> (y >> k) & 1u64 == 1u64)) by (bit_vector);
    }
}

proof fn lemma_on_path_with_bit(e: u64, a: u64, i: u64, v: bool, j: u64)
    requires
        j <= i,
        i < 64,
    ensures
        on_path(e, with_bit(a, i, v), j) == on_path(e, a, j),
{
    assert(j < 64);
    if v {
        assert(j <= i && i < 64 ==> ((e & (((1u64 << j) - 1u64) as u64) == (a | (1u64 << i)) & (((1u64
            << j) - 1u64) as u64)) <==> (e & (((1u64 << j) - 1u64) as u64) == a & (((1u64 << j)
            - 1u64) as u64)))) by (bit_vector);
    } else {
        assert(j <= i && i < 64 ==> ((e & (((1u64 << j) - 1u64) as u64) == (a & !(1u64 << i)) & (((
        1u64 << j) - 1u64) as u64)) <==> (e & (((1u64 << j) - 1u64) as u64) == a & (((1u64 << j)
            - 1u64) as u64)))) by (bit_vector);
    }
}

proof fn lemma_with_own_bit(x: u64, i: u64)
    requires
        i < 64,
    ensures
        with_bit(x, i, bit_at(x, i)) == x,
{
    assert(i < 64 ==> ((x >> i) & 1u64 == 1u64 ==> x | (1u64 << i) == x)) by (bit_vector);
    assert(i < 64 ==> ((x >> i) & 1u64 != 1u64 ==> x & !(1u64 << i) == x)) by (bit_vector);
}

proof fn lemma_zero_bits(j: u64)
    requires
        j < 64,
    ensures
        !bit_at(0, j),
{
    assert(j < 64 ==> (0u64 >> j) & 1u64 != 1u64) by (bit_vector);
}

proof fn lemma_on_path_all(d: u64, path: u64)
    requires
        on_path(d, path, 64),
    ensures
        d == path,
{
    assert(d & 0xFFFF_FFFF_FFFF_FFFFu64 == path & 0xFFFF_FFFF_FFFF_FFFFu64 ==> d == path)
        by (bit_vector);
}

/// A pass on a bus where no device takes part ends at its first triplet.
proof fn lemma_empty_bus_step(s: DeviceSearch, e: Event, devices: Set<u64>)
    requires
        s.stage is Sampling,
        expects(s.stage, e),
        answered_by(s, e, devices),
        !present(devices),
    ensures
        s.next(e) == (s.finished_from(), Action::Done),
{
    let i = s.stage->Sampling_0 as u64;
    let path = s.current.address;
    assert(!exists|d: u64| devices.contains(d) && on_path(d, path, i) && !bit_at(d, i));
    assert(!exists|d: u64| devices.contains(d) && on_path(d, path, i) && bit_at(d, i));
}

/// On an ideal bus, a pass follows the identifier of a device on the bus at
/// every step, so it does not stop midway while a device takes part, and
/// each identifier the search yields, or rejects for its CRC byte, belongs to
/// a device on the bus.
pub proof fn lemma_found_is_on_bus(s: DeviceSearch, e: Event, devices: Set<u64>)
    requires
        s.wf(),
        expects(s.stage, e),
        on_bus(s, devices),
        answered_by(s, e, devices),
    ensures
        on_bus(s.next(e).0, devices),
        s.next(e).1 matches Action::Found(a) ==> devices.contains(a.0),
        s.next(e).1 is Failed ==> exists|d: u64| devices.contains(d) && !crc_holds(le_bytes(d)),
        s.stage is Sampling && present(devices) ==> s.next(e).1 != Action::Done,
{
    match s.stage {
        Stage::AwaitWrite => {
            let d = choose|d: u64| devices.contains(d);
            lemma_on_path_start(d, s.current.address);
        },
        Stage::Sampling(i) => if !present(devices) {
            lemma_empty_bus_step(s, e, devices);
        } else {
            let ii = i as u64;
            let path = s.current.address;
            let dir = direction_spec(s.phase, ii);
            let d0 = choose|d: u64| devices.contains(d) && on_path(d, path, ii);
            let some_zero = exists|d: u64| devices.contains(d) && on_path(d, path, ii) && !bit_at(d, ii);
            let some_one = exists|d: u64| devices.contains(d) && on_path(d, path, ii) && bit_at(d, ii);
            let t = bus_triplet(devices, path, ii, dir);
            // the value driven at bit i, and a device that agrees with it
            let v: bool = match t {
                Triplet::AllMatch(b) => b,
                Triplet::Discrepancy(b) => b,
                Triplet::NoDevicesFound => false,
            };
            assert(t != Triplet::NoDevicesFound) by {
                if bit_at(d0, ii) {
                    assert(some_one);
                } else {
                    assert(some_zero);
                }
            }
            assert(exists|d: u64| devices.contains(d) && on_path(d, path, ii) && bit_at(d, ii) == v)
                by {
                if some_zero && some_one {
                    if !v {
                        let w = choose|d: u64|
                            devices.contains(d) && on_path(d, path, ii) && !bit_at(d, ii);
                        assert(bit_at(w, ii) == v);
                    } else {
                        let w = choose|d: u64|
                            devices.contains(d) && on_path(d, path, ii) && bit_at(d, ii);
                        assert(bit_at(w, ii) == v);
                    }
                } else {
                    assert(bit_at(d0, ii) == v);
                }
            }
            let w = choose|d: u64| devices.contains(d) && on_path(d, path, ii) && bit_at(d, ii) == v;
            let st = record_spec(s.phase, s.current, ii, t).unwrap();
            assert(st.address == with_bit(path, ii, v));
            lemma_on_path_extend(w, path, ii, v);
            if i == 63 {
                lemma_on_path_all(w, st.address);
            }
        },
        _ => {},
    }
}


/// `a` comes before `b` in the order the search yields identifiers: at the
/// lowest bit where they differ, `a` has 0 and `b` has 1. This is ascending
/// order of the identifiers read with bit 0, the first on the wire, as the
/// most significant bit.
pub open spec fn precedes(a: u64, b: u64) -> bool {
    exists|j: u64| j < 64 && on_path(a, b, j) && !bit_at(a, j) && bit_at(b, j)
}

/// Each discrepancy mark of `st` below bit `i` stands at a 0 bit of its
/// address, with a device of `devices` on the same path below that bit and a
/// 1 at it: a branch still to be explored.
pub open spec fn marks_pending(st: SearchState, devices: Set<u64>, i: u64) -> bool {
    forall|j: u64|
        j < i && #[trigger] bit_at(st.discrepancies, j) ==> !bit_at(st.address, j) && exists|e: u64|
            devices.contains(e) && on_path(e, st.address, j) && bit_at(e, j)
}

/// No discrepancy mark at bit `i` or above.
pub open spec fn marks_clear_from(st: SearchState, i: u64) -> bool {
    forall|j: u64| i <= j < 64 ==> !#[trigger] bit_at(st.discrepancies, j)
}

/// What a pass that found an identifier on an ideal bus leaves behind.
pub open spec fn pass_left(st: SearchState, devices: Set<u64>) -> bool {
    devices.contains(st.address) && marks_pending(st, devices, 64)
}

/// How far a pass after `phase` has come by bit `i`, with `cur` under construction.
pub open spec fn pass_progress(phase: SearchPhase, cur: SearchState, i: u64, devices: Set<u64>) -> bool {
    match phase {
        SearchPhase::NotStarted => marks_pending(cur, devices, i) && marks_clear_from(cur, i),
        SearchPhase::InProgress(prev) => {
            let last = highest_set_bit(prev.discrepancies);
            if i <= last {
                cur == prev
            } else {
                &&& marks_pending(cur, devices, i)
                &&& marks_clear_from(cur, i)
                &&& on_path(prev.address, cur.address, last)
                &&& !bit_at(prev.address, last)
                &&& bit_at(cur.address, last)
            }
        },
    }
}

/// The invariant of a search on an ideal bus holding `devices`.
pub open spec fn search_inv(s: DeviceSearch, devices: Set<u64>) -> bool {
    &&& s.phase matches SearchPhase::InProgress(prev) ==> pass_left(prev, devices)
    &&& (s.stage is AwaitPresence || s.stage is AwaitWrite || s.stage is Sampling) ==> !exhausted(
        s.phase,
    )
    &&& (s.stage is AwaitPresence || s.stage is AwaitWrite) ==> s.current == start_state(s.phase)
    &&& s.stage matches Stage::Sampling(i) ==> pass_progress(s.phase, s.current, i as u64, devices)
}

proof fn lemma_marks_extend(
    cur: SearchState,
    next: SearchState,
    devices: Set<u64>,
    i: u64,
    b: bool,
    mark: bool,
)
    requires
        i < 64,
        marks_pending(cur, devices, i),
        marks_clear_from(cur, i),
        next.address == with_bit(cur.address, i, b),
        next.discrepancies == if mark {
            with_bit(cur.discrepancies, i, true)
        } else {
            cur.discrepancies
        },
        mark ==> !b && exists|e: u64| devices.contains(e) && on_path(e, cur.address, i) && bit_at(e, i),
    ensures
        marks_pending(next, devices, (i + 1) as u64),
        marks_clear_from(next, (i + 1) as u64),
{
    assert forall|j: u64| j < i + 1 && #[trigger] bit_at(next.discrepancies, j) implies !bit_at(
        next.address,
        j,
    ) && exists|e: u64| devices.contains(e) && on_path(e, next.address, j) && bit_at(e, j) by {
        crate::search_state::lemma_with_bit(cur.address, i, b, j);
        crate::search_state::lemma_with_bit(cur.discrepancies, i, true, j);
        if j < i {
            assert(bit_at(cur.discrepancies, j));
            let e = choose|e: u64| devices.contains(e) && on_path(e, cur.address, j) && bit_at(e, j);
            lemma_on_path_with_bit(e, cur.address, i, b, j);
        } else {
            assert(j == i);
            assert(mark);
            let e = choose|e: u64| devices.contains(e) && on_path(e, cur.address, i) && bit_at(e, i);
            lemma_on_path_with_bit(e, cur.address, i, b, j);
        }
    }
    assert forall|j: u64| i + 1 <= j < 64 implies !#[trigger] bit_at(next.discrepancies, j) by {
        crate::search_state::lemma_with_bit(cur.discrepancies, i, true, j);
        assert(!bit_at(cur.discrepancies, j));
    }
}

/// On an ideal bus, the search keeps its invariant, and each identifier it
/// finds after the first comes after the one found before it in the search
/// order: no identifier is yielded twice.
pub proof fn lemma_search_in_order(s: DeviceSearch, e: Event, devices: Set<u64>)
    requires
        s.wf(),
        expects(s.stage, e),
        on_bus(s, devices),
        search_inv(s, devices),
        answered_by(s, e, devices),
    ensures
        search_inv(s.next(e).0, devices),
        s.next(e).1 matches Action::Found(a) ==> (s.phase matches SearchPhase::InProgress(prev)
            ==> precedes(prev.address, a.0)),
{
    lemma_found_is_on_bus(s, e, devices);
    match s.stage {
        Stage::AwaitWrite => {
            match s.phase {
                SearchPhase::NotStarted => {
                    assert forall|j: u64| 0 <= j < 64 implies !#[trigger] bit_at(
                        s.current.discrepancies,
                        j,
                    ) by {
                        lemma_zero_bits(j);
                    }
                },
                SearchPhase::InProgress(prev) => {},
            }
        },
        Stage::Sampling(i) => if !present(devices) {
            lemma_empty_bus_step(s, e, devices);
        } else {
            let ii = i as u64;
            let cur = s.current;
            let path = cur.address;
            let dir = direction_spec(s.phase, ii);
            let t = bus_triplet(devices, path, ii, dir);
            let some_zero = exists|d: u64| devices.contains(d) && on_path(d, path, ii) && !bit_at(d, ii);
            let some_one = exists|d: u64| devices.contains(d) && on_path(d, path, ii) && bit_at(d, ii);
            let d0 = choose|d: u64| devices.contains(d) && on_path(d, path, ii);
            assert(t != Triplet::NoDevicesFound) by {
                if bit_at(d0, ii) {
                    assert(some_one);
                } else {
                    assert(some_zero);
                }
            }
            let st = record_spec(s.phase, cur, ii, t).unwrap();
            match s.phase {
                SearchPhase::NotStarted => {
                    match t {
                        Triplet::Discrepancy(b) => {
                            assert(some_one);
                            lemma_marks_extend(cur, st, devices, ii, b, true);
                        },
                        Triplet::AllMatch(b) => {
                            lemma_marks_extend(cur, st, devices, ii, b, false);
                        },
                        Triplet::NoDevicesFound => {},
                    }
                },
                SearchPhase::InProgress(prev) => {
                    let last = highest_set_bit(prev.discrepancies);
                    crate::search_state::lemma_highest_set_bit(prev.discrepancies);
                    assert(bit_at(prev.discrepancies, last));
                    if ii < last {
                        assert(cur == prev);
                        // prev's own address is on the path, so the bus answers with its bit
                        assert(on_path(prev.address, path, ii));
                        assert(t == Triplet::AllMatch(bit_at(prev.address, ii)) || t
                            == Triplet::Discrepancy(bit_at(prev.address, ii))) by {
                            if bit_at(prev.address, ii) {
                                assert(some_one);
                            } else {
                                assert(some_zero);
                            }
                        }
                        lemma_with_own_bit(prev.address, ii);
                        assert(st == prev);
                    } else if ii == last {
                        assert(cur == prev);
                        let w = choose|w: u64|
                            devices.contains(w) && on_path(w, prev.address, last) && bit_at(w, last);
                        assert(some_one);
                        assert(on_path(prev.address, path, ii));
                        assert(some_zero);
                        assert(t == Triplet::Discrepancy(true));
                        assert(st.address == with_bit(prev.address, last, true));
                        assert(st.discrepancies == with_bit(prev.discrepancies, last, false));
                        crate::search_state::lemma_with_bit(prev.address, last, true, last);
                        lemma_on_path_with_bit(prev.address, prev.address, last, true, last);
                        assert forall|j: u64| j < ii + 1 && #[trigger] bit_at(st.discrepancies, j)
                            implies !bit_at(st.address, j) && exists|e: u64|
                            devices.contains(e) && on_path(e, st.address, j) && bit_at(e, j) by {
                            crate::search_state::lemma_with_bit(prev.address, last, true, j);
                            crate::search_state::lemma_with_bit(prev.discrepancies, last, false, j);
                            assert(bit_at(prev.discrepancies, j));
                            let e = choose|e: u64|
                                devices.contains(e) && on_path(e, prev.address, j) && bit_at(e, j);
                            lemma_on_path_with_bit(e, prev.address, last, true, j);
                        }
                        assert forall|j: u64| ii + 1 <= j < 64 implies !#[trigger] bit_at(
                            st.discrepancies,
                            j,
                        ) by {
                            crate::search_state::lemma_with_bit(prev.discrepancies, last, false, j);
                        }
                    } else {
                        match t {
                            Triplet::Discrepancy(b) => {
                                assert(some_one);
                                lemma_marks_extend(cur, st, devices, ii, b, true);
                            },
                            Triplet::AllMatch(b) => {
                                lemma_marks_extend(cur, st, devices, ii, b, false);
                            },
                            Triplet::NoDevicesFound => {},
                        }
                        let v: bool = match t {
                            Triplet::AllMatch(b) => b,
                            Triplet::Discrepancy(b) => b,
                            Triplet::NoDevicesFound => false,
                        };
                        assert(st.address == with_bit(cur.address, ii, v));
                        crate::search_state::lemma_with_bit(cur.address, ii, v, last);
                        lemma_on_path_with_bit(prev.address, cur.address, ii, v, last);
                        assert(on_path(prev.address, st.address, last));
                    }
                    if i == 63 {
                        assert(on_path(prev.address, st.address, last));
                        assert(precedes(prev.address, st.address));
                    }
                },
            }
        },
        _ => {},
    }
}


/// Whether the path of `a` branches at bit `j`: `a` has 0 there and a device
/// of `devices` that agrees with `a` below `j` has 1.
pub open spec fn branches_at(a: u64, devices: Set<u64>, j: u64) -> bool {
    !bit_at(a, j) && exists|e: u64| devices.contains(e) && on_path(e, a, j) && bit_at(e, j)
}

/// Every branch of the path of `st` below bit `i` carries a discrepancy mark.
pub open spec fn marks_complete(st: SearchState, devices: Set<u64>, i: u64) -> bool {
    forall|j: u64| j < i && #[trigger] branches_at(st.address, devices, j) ==> bit_at(st.discrepancies, j)
}

/// `a` precedes `d` in the search order at a bit below `i`.
pub open spec fn precedes_below(a: u64, d: u64, i: u64) -> bool {
    exists|j: u64| j < i && on_path(a, d, j) && !bit_at(a, j) && bit_at(d, j)
}

/// Every device the pass may still find agrees with the path below bit `i`,
/// or comes after it.
pub open spec fn pass_minimal(phase: SearchPhase, cur: SearchState, i: u64, devices: Set<u64>) -> bool {
    match phase {
        SearchPhase::NotStarted => forall|d: u64|
            #[trigger] devices.contains(d) ==> on_path(d, cur.address, i) || precedes_below(
                cur.address,
                d,
                i,
            ),
        SearchPhase::InProgress(prev) => i <= highest_set_bit(prev.discrepancies) || forall|d: u64|
            #[trigger] devices.contains(d) && precedes(prev.address, d) ==> on_path(d, cur.address, i)
                || precedes_below(cur.address, d, i),
    }
}

/// The part of the invariant of a search on an ideal bus that makes each pass
/// find the next device in the search order.
pub open spec fn complete_inv(s: DeviceSearch, devices: Set<u64>) -> bool {
    &&& s.phase matches SearchPhase::InProgress(prev) ==> marks_complete(prev, devices, 64)
    &&& s.stage matches Stage::Sampling(i) ==> marks_complete(s.current, devices, i as u64)
        && pass_minimal(s.phase, s.current, i as u64, devices)
}

/// Whether `a` is the first device of `devices` in the search order that the
/// pass after `phase` may find.
pub open spec fn next_in_order(phase: SearchPhase, a: u64, devices: Set<u64>) -> bool {
    match phase {
        SearchPhase::NotStarted => forall|d: u64|
            #[trigger] devices.contains(d) ==> d == a || precedes(a, d),
        SearchPhase::InProgress(prev) => forall|d: u64|
            #[trigger] devices.contains(d) && precedes(prev.address, d) ==> d == a || precedes(a, d),
    }
}

proof fn lemma_step_from(
    cur: SearchState,
    st: SearchState,
    devices: Set<u64>,
    i: u64,
    v: bool,
    some_one: bool,
)
    requires
        i < 64,
        st.address == with_bit(cur.address, i, v),
        st.discrepancies == with_bit(cur.discrepancies, i, true) || st.discrepancies
            == cur.discrepancies,
        !v && some_one ==> st.discrepancies == with_bit(cur.discrepancies, i, true),
        some_one == exists|d: u64| devices.contains(d) && on_path(d, cur.address, i) && bit_at(d, i),
        marks_complete(cur, devices, i),
    ensures
        marks_complete(st, devices, (i + 1) as u64),
{
    assert forall|j: u64| j < i + 1 && #[trigger] branches_at(st.address, devices, j) implies bit_at(
        st.discrepancies,
        j,
    ) by {
        crate::search_state::lemma_with_bit(cur.address, i, v, j);
        crate::search_state::lemma_with_bit(cur.discrepancies, i, true, j);
        let e = choose|e: u64| devices.contains(e) && on_path(e, st.address, j) && bit_at(e, j);
        lemma_on_path_with_bit(e, cur.address, i, v, j);
        if j < i {
            assert(branches_at(cur.address, devices, j));
        } else {
            assert(some_one);
        }
    }
}

proof fn lemma_minimal_step(cur: SearchState, st: SearchState, d: u64, i: u64, v: bool)
    requires
        i < 64,
        st.address == with_bit(cur.address, i, v),
        on_path(d, cur.address, i) || precedes_below(cur.address, d, i),
        on_path(d, cur.address, i) && bit_at(d, i) != v ==> !v,
    ensures
        on_path(d, st.address, (i + 1) as u64) || precedes_below(st.address, d, (i + 1) as u64),
{
    crate::search_state::lemma_with_bit(cur.address, i, v, i);
    if on_path(d, cur.address, i) {
        if bit_at(d, i) == v {
            lemma_on_path_extend(d, cur.address, i, v);
        } else {
            lemma_on_path_with_bit(d, cur.address, i, v, i);
            assert(on_path(st.address, d, i) && !bit_at(st.address, i) && bit_at(d, i));
        }
    } else {
        let j = choose|j: u64| j < i && on_path(cur.address, d, j) && !bit_at(cur.address, j) && bit_at(d, j);
        lemma_on_path_with_bit(d, cur.address, i, v, j);
        crate::search_state::lemma_with_bit(cur.address, i, v, j);
        assert(on_path(st.address, d, j) && !bit_at(st.address, j) && bit_at(d, j));
    }
}

/// On an ideal bus, each pass finds the first device in the search order
/// after the one found by the pass before (the first device of all on the
/// first pass), and the discrepancy marks it leaves are exactly the branches
/// of its path still to be explored.
pub proof fn lemma_pass_finds_next(s: DeviceSearch, e: Event, devices: Set<u64>)
    requires
        s.wf(),
        expects(s.stage, e),
        on_bus(s, devices),
        search_inv(s, devices),
        complete_inv(s, devices),
        answered_by(s, e, devices),
    ensures
        complete_inv(s.next(e).0, devices),
        s.next(e).1 matches Action::Found(a) ==> next_in_order(s.phase, a.0, devices),
{
    lemma_search_in_order(s, e, devices);
    match s.stage {
        Stage::AwaitWrite => {
            if s.phase is NotStarted {
                assert forall|d: u64| #[trigger] devices.contains(d) implies on_path(
                    d,
                    s.current.address,
                    0,
                ) || precedes_below(s.current.address, d, 0) by {
                    lemma_on_path_start(d, s.current.address);
                }
            }
        },
        Stage::Sampling(i) => if !present(devices) {
            lemma_empty_bus_step(s, e, devices);
        } else {
            let ii = i as u64;
            let cur = s.current;
            let path = cur.address;
            let dir = direction_spec(s.phase, ii);
            let t = bus_triplet(devices, path, ii, dir);
            let some_zero = exists|d: u64| devices.contains(d) && on_path(d, path, ii) && !bit_at(d, ii);
            let some_one = exists|d: u64| devices.contains(d) && on_path(d, path, ii) && bit_at(d, ii);
            let d0 = choose|d: u64| devices.contains(d) && on_path(d, path, ii);
            assert(t != Triplet::NoDevicesFound) by {
                if bit_at(d0, ii) {
                    assert(some_one);
                } else {
                    assert(some_zero);
                }
            }
            let st = record_spec(s.phase, cur, ii, t).unwrap();
            let v: bool = match t {
                Triplet::AllMatch(b) => b,
                Triplet::Discrepancy(b) => b,
                Triplet::NoDevicesFound => false,
            };
            let fresh = match s.phase {
                SearchPhase::NotStarted => true,
                SearchPhase::InProgress(prev) => ii > highest_set_bit(prev.discrepancies),
            };
            if fresh {
                lemma_step_from(cur, st, devices, ii, v, some_one);
                if s.phase is NotStarted {
                    assert forall|d: u64| #[trigger] devices.contains(d) implies on_path(
                        d,
                        st.address,
                        (ii + 1) as u64,
                    ) || precedes_below(st.address, d, (ii + 1) as u64) by {
                        lemma_minimal_step(cur, st, d, ii, v);
                    }
                } else {
                    let prev = s.phase->InProgress_0;
                    assert forall|d: u64| #[trigger] devices.contains(d) && precedes(prev.address, d)
                        implies on_path(d, st.address, (ii + 1) as u64) || precedes_below(
                        st.address,
                        d,
                        (ii + 1) as u64,
                    ) by {
                        lemma_minimal_step(cur, st, d, ii, v);
                    }
                }
                if i == 63 {
                    assert forall|d: u64|
                        devices.contains(d) && (on_path(d, st.address, 64) || precedes_below(
                            st.address,
                            d,
                            64,
                        )) implies d == st.address || precedes(st.address, d) by {
                        if on_path(d, st.address, 64) {
                            lemma_on_path_all(d, st.address);
                        }
                    }
                }
            } else {
                let prev = s.phase->InProgress_0;
                let last = highest_set_bit(prev.discrepancies);
                crate::search_state::lemma_highest_set_bit(prev.discrepancies);
                if ii == last {
                    assert(st.address == with_bit(prev.address, last, true));
                    assert(st.discrepancies == with_bit(prev.discrepancies, last, false));
                    crate::search_state::lemma_with_bit(prev.address, last, true, last);
                    assert forall|j: u64| j < ii + 1 && #[trigger] branches_at(st.address, devices, j)
                        implies bit_at(st.discrepancies, j) by {
                        crate::search_state::lemma_with_bit(prev.address, last, true, j);
                        crate::search_state::lemma_with_bit(prev.discrepancies, last, false, j);
                        let w = choose|w: u64| devices.contains(w) && on_path(w, st.address, j) && bit_at(w, j);
                        lemma_on_path_with_bit(w, prev.address, last, true, j);
                        assert(branches_at(prev.address, devices, j));
                    }
                    assert forall|d: u64| #[trigger] devices.contains(d) && precedes(prev.address, d)
                        implies on_path(d, st.address, (ii + 1) as u64) || precedes_below(
                        st.address,
                        d,
                        (ii + 1) as u64,
                    ) by {
                        let j = choose|j: u64|
                            j < 64 && on_path(prev.address, d, j) && !bit_at(prev.address, j) && bit_at(d, j);
                        if j == last {
                            lemma_on_path_extend(d, prev.address, last, true);
                        } else if j < last {
                            lemma_on_path_with_bit(d, prev.address, last, true, j);
                            crate::search_state::lemma_with_bit(prev.address, last, true, j);
                            assert(on_path(st.address, d, j) && !bit_at(st.address, j) && bit_at(d, j));
                        } else {
                            assert(branches_at(prev.address, devices, j));
                            assert(bit_at(prev.discrepancies, j));
                        }
                    }
                    if i == 63 {
                        assert forall|d: u64|
                            devices.contains(d) && (on_path(d, st.address, 64) || precedes_below(
                                st.address,
                                d,
                                64,
                            )) implies d == st.address || precedes(st.address, d) by {
                            if on_path(d, st.address, 64) {
                                lemma_on_path_all(d, st.address);
                            }
                        }
                    }
                } else {
                    assert(st == prev);
                }
            }
        },
        _ => {},
    }
}

proof fn lemma_on_path_lower(x: u64, y: u64, j: u64, k: u64)
    requires
        on_path(x, y, j),
        k <= j,
        j < 64,
    ensures
        on_path(x, y, k),
{
    assert(x & (((1u64 << j) - 1u64) as u64) == y & (((1u64 << j) - 1u64) as u64) && k <= j && j
        < 64 ==> x & (((1u64 << k) - 1u64) as u64) == y & (((1u64 << k) - 1u64) as u64))
        by (bit_vector);
}

/// The search order is a strict order: nothing precedes itself, and it is
/// transitive.
pub proof fn lemma_precedes_strict(a: u64, b: u64, c: u64)
    ensures
        !precedes(a, a),
        precedes(a, b) && precedes(b, c) ==> precedes(a, c),
{
    if precedes(a, b) && precedes(b, c) {
        let j1 = choose|j: u64| j < 64 && on_path(a, b, j) && !bit_at(a, j) && bit_at(b, j);
        let j2 = choose|j: u64| j < 64 && on_path(b, c, j) && !bit_at(b, j) && bit_at(c, j);
        if j1 < j2 {
            lemma_on_path_bit(b, c, j2, j1);
            lemma_on_path_lower(b, c, j2, j1);
            assert(on_path(a, c, j1));
        } else if j2 < j1 {
            lemma_on_path_bit(a, b, j1, j2);
            lemma_on_path_lower(a, b, j1, j2);
            assert(on_path(a, c, j2));
        }
    }
}

/// The enumerator after taking `events` in turn.
pub open spec fn state_after(s: DeviceSearch, events: Seq<Event>) -> DeviceSearch
    decreases events.len(),
{
    if events.len() == 0 {
        s
    } else {
        state_after(s, events.drop_last()).next(events.last()).0
    }
}

/// The identifiers found while taking `events` in turn, in order.
pub open spec fn found_ids(s: DeviceSearch, events: Seq<Event>) -> Seq<u64>
    decreases events.len(),
{
    if events.len() == 0 {
        Seq::empty()
    } else {
        let before = found_ids(s, events.drop_last());
        match state_after(s, events.drop_last()).next(events.last()).1 {
            Action::Found(a) => before.push(a.0),
            _ => before,
        }
    }
}

/// Every event answers what the enumerator asked for, as an ideal bus holding
/// `devices` would.
pub open spec fn ideal_answers(s: DeviceSearch, events: Seq<Event>, devices: Set<u64>) -> bool {
    forall|k: int|
        0 <= k < events.len() ==> {
            let at = #[trigger] state_after(s, events.subrange(0, k));
            expects(at.stage, events[k]) && answered_by(at, events[k], devices)
        }
}

spec fn run_inv(t: DeviceSearch, found: Seq<u64>, devices: Set<u64>) -> bool {
    &&& t.wf()
    &&& on_bus(t, devices)
    &&& search_inv(t, devices)
    &&& forall|k: int| 0 <= k < found.len() ==> devices.contains(#[trigger] found[k])
    &&& forall|k1: int, k2: int|
        0 <= k1 < k2 < found.len() ==> precedes(#[trigger] found[k1], #[trigger] found[k2])
    &&& found.len() > 0 ==> (t.stage == Stage::Finished || (t.phase matches SearchPhase::InProgress(
        p
    ) && p.address == found.last()))
}

proof fn lemma_run_inv(s: DeviceSearch, events: Seq<Event>, devices: Set<u64>)
    requires
        s.stage == Stage::Ready,
        s.phase == SearchPhase::NotStarted,
        ideal_answers(s, events, devices),
    ensures
        run_inv(state_after(s, events), found_ids(s, events), devices),
    decreases events.len(),
{
    if events.len() > 0 {
        let pre = events.drop_last();
        assert forall|k: int| 0 <= k < pre.len() implies {
            let at = #[trigger] state_after(s, pre.subrange(0, k));
            expects(at.stage, pre[k]) && answered_by(at, pre[k], devices)
        } by {
            assert(pre.subrange(0, k) =~= events.subrange(0, k));
            let at = state_after(s, events.subrange(0, k));
            assert(expects(at.stage, events[k]) && answered_by(at, events[k], devices));
        }
        lemma_run_inv(s, pre, devices);
        let t = state_after(s, pre);
        let e = events.last();
        let found = found_ids(s, pre);
        assert(events.subrange(0, pre.len() as int) =~= pre);
        assert(expects(t.stage, e) && answered_by(t, e, devices));
        lemma_found_is_on_bus(t, e, devices);
        lemma_search_in_order(t, e, devices);
        match t.next(e).1 {
            Action::Found(a) => {
                let now = found.push(a.0);
                assert(t.stage != Stage::Finished);
                assert forall|k1: int, k2: int| 0 <= k1 < k2 < now.len() implies precedes(
                    #[trigger] now[k1],
                    #[trigger] now[k2],
                ) by {
                    if k2 == now.len() - 1 {
                        assert(now[k2] == a.0);
                        assert(found.len() > 0);
                        assert(precedes(found.last(), a.0));
                        if k1 < found.len() - 1 {
                            assert(precedes(found[k1], found[found.len() - 1]));
                            lemma_precedes_strict(found[k1], found.last(), a.0);
                        }
                    } else {
                        assert(now[k1] == found[k1] && now[k2] == found[k2]);
                    }
                }
                assert forall|k: int| 0 <= k < now.len() implies devices.contains(#[trigger] now[k]) by {
                    if k < found.len() {
                        assert(now[k] == found[k]);
                    }
                }
            },
            _ => {},
        }
    }
}

/// On an ideal bus holding `devices`, a search from its start yields only
/// identifiers of devices on the bus, each after the one before it in the
/// search order, so each at most once and no more of them than there are
/// devices.
pub proof fn lemma_enumeration_on_bus(s: DeviceSearch, events: Seq<Event>, devices: Set<u64>)
    requires
        s.stage == Stage::Ready,
        s.phase == SearchPhase::NotStarted,
        ideal_answers(s, events, devices),
    ensures
        forall|k: int|
            0 <= k < found_ids(s, events).len() ==> devices.contains(
                #[trigger] found_ids(s, events)[k],
            ),
        forall|k1: int, k2: int|
            0 <= k1 < k2 < found_ids(s, events).len() ==> precedes(
                #[trigger] found_ids(s, events)[k1],
                #[trigger] found_ids(s, events)[k2],
            ),
        found_ids(s, events).no_duplicates(),
        devices.finite() ==> found_ids(s, events).len() <= devices.len(),
{
    lemma_run_inv(s, events, devices);
    let found = found_ids(s, events);
    assert forall|k1: int, k2: int| 0 <= k1 < found.len() && 0 <= k2 < found.len() && k1 != k2
        implies found[k1] != found[k2] by {
        lemma_precedes_strict(found[k1], found[k1], found[k1]);
        lemma_precedes_strict(found[k2], found[k2], found[k2]);
    }
    if devices.finite() {
        found.unique_seq_to_set();
        assert(found.to_set().subset_of(devices));
        vstd::set_lib::lemma_len_subset(found.to_set(), devices);
    }
}


proof fn lemma_nothing_after(p: SearchState, devices: Set<u64>, d: u64)
    requires
        marks_complete(p, devices, 64),
        p.discrepancies == 0,
        devices.contains(d),
    ensures
        !precedes(p.address, d),
{
    if precedes(p.address, d) {
        let j = choose|j: u64| j < 64 && on_path(p.address, d, j) && !bit_at(p.address, j) && bit_at(d, j);
        assert(branches_at(p.address, devices, j));
        lemma_zero_bits(j);
    }
}

spec fn found_so_far(t: DeviceSearch, found: Seq<u64>, devices: Set<u64>) -> bool {
    &&& complete_inv(t, devices)
    &&& (t.phase is NotStarted && t.stage != Stage::Finished) ==> found.len() == 0
    &&& t.phase matches SearchPhase::InProgress(p) ==> forall|d: u64|
        found.contains(d) <==> (#[trigger] devices.contains(d) && !precedes(p.address, d))
    &&& t.stage == Stage::Finished ==> forall|d: u64| found.contains(d) <==> #[trigger] devices.contains(d)
}

proof fn lemma_found_so_far(s: DeviceSearch, events: Seq<Event>, devices: Set<u64>)
    requires
        s.stage == Stage::Ready,
        s.phase == SearchPhase::NotStarted,
        ideal_answers(s, events, devices),
        forall|d: u64| devices.contains(d) ==> crc_holds(le_bytes(d)),
    ensures
        found_so_far(state_after(s, events), found_ids(s, events), devices),
    decreases events.len(),
{
    if events.len() > 0 {
        let pre = events.drop_last();
        assert forall|k: int| 0 <= k < pre.len() implies {
            let at = #[trigger] state_after(s, pre.subrange(0, k));
            expects(at.stage, pre[k]) && answered_by(at, pre[k], devices)
        } by {
            assert(pre.subrange(0, k) =~= events.subrange(0, k));
            let at = state_after(s, events.subrange(0, k));
            assert(expects(at.stage, events[k]) && answered_by(at, events[k], devices));
        }
        lemma_found_so_far(s, pre, devices);
        lemma_run_inv(s, pre, devices);
        let t = state_after(s, pre);
        let e = events.last();
        let found = found_ids(s, pre);
        assert(events.subrange(0, pre.len() as int) =~= pre);
        assert(expects(t.stage, e) && answered_by(t, e, devices));
        lemma_found_is_on_bus(t, e, devices);
        lemma_search_in_order(t, e, devices);
        lemma_pass_finds_next(t, e, devices);
        let (n, act) = t.next(e);
        match act {
            Action::Found(a) => {
                let now = found.push(a.0);
                assert(n.phase matches SearchPhase::InProgress(q) && q.address == a.0);
                assert forall|d: u64| now.contains(d) <==> (#[trigger] devices.contains(d) && !precedes(
                    a.0,
                    d,
                )) by {
                    lemma_precedes_strict(a.0, a.0, a.0);
                    if now.contains(d) {
                        let k = choose|k: int| 0 <= k < now.len() && now[k] == d;
                        if k < found.len() {
                            assert(found.contains(d));
                            if t.phase is NotStarted {
                                assert(found.len() == 0);
                            }
                            let p = t.phase->InProgress_0;
                            lemma_precedes_strict(p.address, a.0, d);
                        }
                    }
                    if devices.contains(d) && !precedes(a.0, d) {
                        if d != a.0 {
                            assert(t.phase is InProgress);
                            let p = t.phase->InProgress_0;
                            assert(!precedes(p.address, d));
                            assert(found.contains(d));
                            let k = choose|k: int| 0 <= k < found.len() && found[k] == d;
                            assert(now[k] == d);
                        } else {
                            assert(now[found.len() as int] == d);
                        }
                    }
                }
            },
            _ => {
                if n.stage == Stage::Finished && t.stage != Stage::Finished {
                    match t.phase {
                        SearchPhase::InProgress(p) => {
                            if t.stage == Stage::Ready {
                                assert forall|d: u64| #[trigger] devices.contains(d) implies !precedes(
                                    p.address,
                                    d,
                                ) by {
                                    lemma_nothing_after(p, devices, d);
                                }
                            } else {
                                assert(devices.contains(p.address));
                                assert(present(devices));
                            }
                        },
                        SearchPhase::NotStarted => {
                            assert(t.stage is AwaitPresence || t.stage is Sampling);
                            assert(!present(devices));
                            assert(found.len() == 0);
                            assert forall|d: u64| found.contains(d) <==> #[trigger] devices.contains(d) by {
                                if devices.contains(d) {
                                    assert(present(devices));
                                }
                            }
                        },
                    }
                }
            },
        }
    }
}

/// On an ideal bus holding `devices`, each with a correct CRC byte, a search
/// from its start that has come to its end has found every device on the bus.
pub proof fn lemma_enumeration_complete(s: DeviceSearch, events: Seq<Event>, devices: Set<u64>)
    requires
        s.stage == Stage::Ready,
        s.phase == SearchPhase::NotStarted,
        ideal_answers(s, events, devices),
        forall|d: u64| devices.contains(d) ==> crc_holds(le_bytes(d)),
    ensures
        state_after(s, events).stage == Stage::Finished ==> found_ids(s, events).to_set() == devices,
{
    lemma_found_so_far(s, events, devices);
    if state_after(s, events).stage == Stage::Finished {
        assert(found_ids(s, events).to_set() =~= devices);
    }
}

} // verus!
