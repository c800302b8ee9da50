use one_wire_hal::address::Address;
use one_wire_hal::commands::{SEARCH_ALARM, SEARCH_NORMAL};
use one_wire_hal::crc::crc8;
use one_wire_hal::device_search::{Action, DeviceSearch, Event, SearchPhase, direction, record, validate};
use one_wire_hal::error::{Error, ErrorKind};
use one_wire_hal::search_state::SearchState;
use one_wire_hal::triplet::Triplet;

/// An identifier with the given low seven bytes and a correct CRC byte.
fn rom(low: u64) -> u64 {
    let low = low & 0x00FF_FFFF_FFFF_FFFF;
    let bytes = low.to_le_bytes();
    low | ((crc8(&bytes[..7]) as u64) << 56)
}

/// An ideal bus: every device answers a reset; the alarm search keeps only
/// the alarming ones.
struct SimBus {
    devices: Vec<u64>,
    alarming: Vec<u64>,
    taking_part: Vec<u64>,
    index: u32,
    resets: u32,
}

impl SimBus {
    fn new(devices: &[u64], alarming: &[u64]) -> SimBus {
        SimBus { devices: devices.to_vec(), alarming: alarming.to_vec(), taking_part: vec![], index: 0, resets: 0 }
    }

    fn answer(&mut self, action: Action) -> Event {
        match action {
            Action::Reset => {
                self.resets += 1;
                self.taking_part = self.devices.clone();
                Event::Presence(!self.devices.is_empty())
            }
            Action::WriteByte(cmd) => {
                if cmd == SEARCH_ALARM {
                    self.taking_part = self.alarming.clone();
                } else {
                    assert_eq!(cmd, SEARCH_NORMAL);
                }
                self.index = 0;
                Event::Written
            }
            Action::Triplet(dir) => {
                let i = self.index;
                let bit = self.taking_part.iter().all(|d| (d >> i) & 1 == 1);
                let complement = self.taking_part.iter().all(|d| (d >> i) & 1 == 0);
                let t = Triplet::new(bit, complement, dir);
                let driven = match t {
                    Triplet::AllMatch(b) | Triplet::Discrepancy(b) => b,
                    Triplet::NoDevicesFound => true,
                };
                self.taking_part.retain(|d| ((d >> i) & 1 == 1) == driven);
                self.index += 1;
                Event::Sampled(t)
            }
            other => panic!("not a bus action: {:?}", other),
        }
    }
}

/// Asks for one identifier: `Some(Ok)`, `Some(Err)` or `None` at the end.
fn next_id(search: &mut DeviceSearch, bus: &mut SimBus) -> Option<Result<u64, ErrorKind>> {
    let mut event = Event::Advance;
    loop {
        assert!(search.expects_event(&event));
        match search.step(event) {
            Action::Found(a) => return Some(Ok(a.0)),
            Action::Failed(k) => return Some(Err(k)),
            Action::Done => return None,
            action => event = bus.answer(action),
        }
    }
}

fn enumerate(only_alarming: bool, bus: &mut SimBus) -> Vec<Result<u64, ErrorKind>> {
    let mut search = DeviceSearch::new(only_alarming);
    let mut out = vec![];
    while let Some(r) = next_id(&mut search, bus) {
        out.push(r);
        assert!(out.len() <= 64, "the search does not end");
    }
    out
}

fn ids(results: &[Result<u64, ErrorKind>]) -> Vec<u64> {
    results.iter().map(|r| r.unwrap()).collect()
}

#[test]
fn triplet_classification() {
    assert_eq!(Triplet::new(false, true, true), Triplet::AllMatch(false));
    assert_eq!(Triplet::new(true, false, false), Triplet::AllMatch(true));
    assert_eq!(Triplet::new(false, false, true), Triplet::Discrepancy(true));
    assert_eq!(Triplet::new(false, false, false), Triplet::Discrepancy(false));
    assert_eq!(Triplet::new(true, true, false), Triplet::NoDevicesFound);
}

#[test]
fn search_state_bits() {
    let mut s = SearchState::initial();
    assert_eq!(s.address, 0);
    assert_eq!(s.last_discrepancy_index(), 0);
    s.set_addr_bit(63, true);
    s.set_addr_bit(5, true);
    assert_eq!(s.address, (1u64 << 63) | (1 << 5));
    assert!(s.addr_bit(63) && s.addr_bit(5) && !s.addr_bit(4));
    s.set_addr_bit(63, false);
    assert_eq!(s.address, 1 << 5);
    s.set_discrepancy(3);
    s.set_discrepancy(40);
    assert_eq!(s.last_discrepancy_index(), 40);
    s.unset_discrepancy(40);
    assert_eq!(s.last_discrepancy_index(), 3);
    s.set_discrepancy(0);
    s.unset_discrepancy(3);
    assert_eq!(s.discrepancies, 1);
    assert_eq!(s.last_discrepancy_index(), 0);
    assert_eq!(SearchState::set_bit(0b1010, 0, true), 0b1011);
    assert_eq!(SearchState::set_bit(0b1010, 3, false), 0b0010);
    assert!(SearchState::get_bit(0b1010, 1));
    assert!(!SearchState::get_bit(0b1010, 2));
}

#[test]
fn crc8_known_value() {
    assert_eq!(crc8(&[]), 0);
    assert_eq!(crc8(&[0x02, 0x1C, 0xB8, 0x01, 0x00, 0x00, 0x00]), 0xA2);
    assert!(validate(0xA200_0000_01B8_1C02).is_ok());
    assert_eq!(validate(0xA300_0000_01B8_1C02), Err(ErrorKind::CrcMismatch));
    assert_eq!(validate(0xA200_0000_01B8_1C02), Ok(Address(0xA200_0000_01B8_1C02)));
}

#[test]
fn direction_and_record() {
    let prev = SearchState { address: 0b0110, discrepancies: 0b0100 };
    let phase = SearchPhase::InProgress(prev);
    assert!(!direction(&SearchPhase::NotStarted, 2));
    assert!(direction(&phase, 1));
    assert!(!direction(&phase, 0));
    assert!(direction(&phase, 2));
    assert!(!direction(&phase, 3));

    let mut st = prev;
    assert!(record(&phase, &mut st, 2, Triplet::Discrepancy(true)));
    assert_eq!(st, SearchState { address: 0b0110, discrepancies: 0 });
    assert!(record(&phase, &mut st, 5, Triplet::Discrepancy(false)));
    assert_eq!(st, SearchState { address: 0b0110, discrepancies: 0b10_0000 });
    assert!(record(&phase, &mut st, 6, Triplet::AllMatch(true)));
    assert_eq!(st.address, 0b100_0110);
    let before = st;
    assert!(!record(&phase, &mut st, 7, Triplet::NoDevicesFound));
    assert_eq!(st, before);
}

#[test]
fn full_enumeration_finds_each_device_once() {
    let devices = [rom(0x28_0000_0000_0001), rom(0x28_0000_0000_0103), rom(0x10_1234_5678_9ABC), rom(0x28_0000_0000_0002), rom(0x01)];
    let mut bus = SimBus::new(&devices, &[]);
    let found = ids(&enumerate(false, &mut bus));
    let mut expected = devices.to_vec();
    expected.sort_by_key(|d| d.reverse_bits());
    assert_eq!(found, expected);
}

#[test]
fn alarm_enumeration_finds_alarming_subset() {
    let devices = [rom(0x28_0000_0000_0001), rom(0x28_0000_0000_0103), rom(0x10_1234_5678_9ABC), rom(0x28_0000_0000_0002)];
    let alarming = [devices[1], devices[3]];
    let mut bus = SimBus::new(&devices, &alarming);
    let found = ids(&enumerate(true, &mut bus));
    let mut expected = alarming.to_vec();
    expected.sort_by_key(|d| d.reverse_bits());
    assert_eq!(found, expected);
    let mut bus = SimBus::new(&devices, &[]);
    assert!(enumerate(true, &mut bus).is_empty());
}

#[test]
fn empty_bus_yields_nothing() {
    let mut bus = SimBus::new(&[], &[]);
    let mut search = DeviceSearch::new(false);
    assert_eq!(next_id(&mut search, &mut bus), None);
    assert!(search.is_finished());
    assert_eq!(next_id(&mut search, &mut bus), None);
    assert_eq!(bus.resets, 1);
}

#[test]
fn single_device_then_end() {
    let id = rom(0x28_AABB_CCDD_EEFF);
    let mut bus = SimBus::new(&[id], &[]);
    let mut search = DeviceSearch::new(false);
    assert_eq!(next_id(&mut search, &mut bus), Some(Ok(id)));
    assert_eq!(search.last_state().map(|s| s.discrepancies), Some(0));
    assert_eq!(next_id(&mut search, &mut bus), None);
    assert_eq!(bus.resets, 1);
}

#[test]
fn corrupted_identifier_reports_crc_mismatch() {
    let bad = rom(0x28_0000_0000_0001) ^ (1u64 << 60);
    let mut bus = SimBus::new(&[bad], &[]);
    let mut search = DeviceSearch::new(false);
    assert_eq!(next_id(&mut search, &mut bus), Some(Err(ErrorKind::CrcMismatch)));
    assert!(search.is_finished());
    bus.devices = vec![rom(1)];
    assert_eq!(next_id(&mut search, &mut bus), None);
}

#[test]
fn same_state_and_answers_give_same_output() {
    let devices = [rom(0x28_0000_0000_0001), rom(0x28_0000_0000_0103), rom(0x28_0000_0000_0002)];
    let mut bus = SimBus::new(&devices, &[]);
    let mut search = DeviceSearch::new(false);
    next_id(&mut search, &mut bus).unwrap().unwrap();
    let mut a = search;
    let mut b = search;
    b.current = SearchState { address: 0xDEAD, discrepancies: 0xBEEF };
    let ra = next_id(&mut a, &mut SimBus::new(&devices, &[]));
    let rb = next_id(&mut b, &mut SimBus::new(&devices, &[]));
    assert_eq!(ra, rb);
    assert_eq!(a, b);
    let first = enumerate(false, &mut SimBus::new(&devices, &[]));
    let second = enumerate(false, &mut SimBus::new(&devices, &[]));
    assert_eq!(first, second);
}

#[test]
fn two_devices_differing_at_bit_one() {
    let low = rom(0x01);
    let high = rom(0x03);
    let mut bus = SimBus::new(&[high, low], &[]);
    let mut search = DeviceSearch::new(false);
    assert_eq!(next_id(&mut search, &mut bus), Some(Ok(low)));
    assert_eq!(search.last_state().unwrap().discrepancies, 0b10);
    assert_eq!(next_id(&mut search, &mut bus), Some(Ok(high)));
    assert_eq!(search.last_state().unwrap().discrepancies, 0);
    assert_eq!(next_id(&mut search, &mut bus), None);
    assert_eq!(bus.resets, 2);
}

#[test]
fn devices_leaving_mid_scan_end_the_search() {
    let mut search = DeviceSearch::new(false);
    assert_eq!(search.step(Event::Advance), Action::Reset);
    assert_eq!(search.step(Event::Presence(true)), Action::WriteByte(SEARCH_NORMAL));
    assert_eq!(search.step(Event::Written), Action::Triplet(false));
    assert_eq!(search.step(Event::Sampled(Triplet::AllMatch(true))), Action::Triplet(false));
    assert_eq!(search.step(Event::Sampled(Triplet::NoDevicesFound)), Action::Done);
    assert!(search.is_finished());
    assert_eq!(search.last_state(), None);
}

#[test]
fn abort_is_final() {
    let mut search = DeviceSearch::new(true);
    assert_eq!(search.search_command, SEARCH_ALARM);
    assert_eq!(search.step(Event::Advance), Action::Reset);
    search.abort();
    assert!(search.is_finished());
    assert!(!search.expects_event(&Event::Written));
    assert_eq!(search.step(Event::Advance), Action::Done);
}

#[test]
fn error_kind_messages() {
    assert_eq!(ErrorKind::Bus.message(), "Bus error occurred");
    assert_eq!(ErrorKind::CrcMismatch.message(), "The CRC check failed");
    assert_eq!(ErrorKind::NoPresencePulseDetected.message(), "No presence pulse was detected");
    assert_eq!(ErrorKind::Other.kind(), ErrorKind::Other);
}
