//! Driver operations exercised against a scripted bus and chip-select
//! line: framing of every command, width handling, and failure paths.

use std::cell::RefCell;
use std::rc::Rc;

use ls7366::BusTransfer;
use ls7366::ChipSelect;
use ls7366::Error;
use ls7366::PinError;
use ls7366::TransferError;
use ls7366::LS7366;

#[derive(Default)]
struct BusState {
    sent: Vec<u8>,
    replies: Vec<u8>,
    fail_at: Option<usize>,
}

struct MockBus {
    state: Rc<RefCell<BusState>>,
}

impl BusTransfer for MockBus {
    fn transfer(&mut self, byte: u8) -> Result<u8, TransferError> {
        let mut st = self.state.borrow_mut();
        if st.fail_at == Some(st.sent.len()) {
            return Err(TransferError);
        }
        st.sent.push(byte);
        let reply = if st.replies.is_empty() { 0x00 } else { st.replies.remove(0) };
        Ok(reply)
    }
}

#[derive(Default)]
struct PinState {
    lows: usize,
    highs: usize,
    fail_low: bool,
    fail_high: bool,
}

struct MockPin {
    state: Rc<RefCell<PinState>>,
}

impl ChipSelect for MockPin {
    fn set_low(&mut self) -> Result<(), PinError> {
        let mut st = self.state.borrow_mut();
        if st.fail_low {
            return Err(PinError);
        }
        st.lows += 1;
        Ok(())
    }

    fn set_high(&mut self) -> Result<(), PinError> {
        let mut st = self.state.borrow_mut();
        if st.fail_high {
            return Err(PinError);
        }
        st.highs += 1;
        Ok(())
    }
}

type Driver = LS7366<MockBus, MockPin>;

fn new_driver() -> (Driver, Rc<RefCell<BusState>>, Rc<RefCell<PinState>>) {
    let bus_state = Rc::new(RefCell::new(BusState::default()));
    let pin_state = Rc::new(RefCell::new(PinState::default()));
    let driver = LS7366::new(
        MockBus { state: bus_state.clone() },
        MockPin { state: pin_state.clone() },
    );
    (driver, bus_state, pin_state)
}

fn check_single_command(op: fn(&mut Driver) -> Result<(), Error>, opcode: u8) {
    let (mut driver, bus, pin) = new_driver();
    assert_eq!(op(&mut driver), Ok(()));
    assert_eq!(bus.borrow().sent, vec![opcode]);
    assert_eq!(pin.borrow().lows, 1);
    assert_eq!(pin.borrow().highs, 1);
}

#[test]
fn clear_operations_send_their_opcode_once() {
    check_single_command(Driver::clear_mode_register_0, 0x08);
    check_single_command(Driver::clear_mode_register_1, 0x10);
    check_single_command(Driver::clear_counter, 0x20);
    check_single_command(Driver::clear_status_register, 0x30);
}

#[test]
fn load_operations_send_their_opcode_once() {
    check_single_command(Driver::load_counter, 0xE0);
    check_single_command(Driver::load_otr, 0xE8);
}

#[test]
fn read_mode_register_0_returns_second_reply() {
    let (mut driver, bus, pin) = new_driver();
    bus.borrow_mut().replies = vec![0xAA, 0x42];
    assert_eq!(driver.read_mode_register_0(), Ok(0x42));
    assert_eq!(bus.borrow().sent, vec![0x48, 0x00]);
    assert_eq!(pin.borrow().lows, 1);
    assert_eq!(pin.borrow().highs, 1);
}

#[test]
fn read_mode_register_1_returns_second_reply() {
    let (mut driver, bus, pin) = new_driver();
    bus.borrow_mut().replies = vec![0x00, 0x03];
    assert_eq!(driver.read_mode_register_1(), Ok(0x03));
    assert_eq!(bus.borrow().sent, vec![0x50, 0x00]);
    assert_eq!(pin.borrow().lows, 1);
    assert_eq!(pin.borrow().highs, 1);
}

#[test]
fn read_status_register_returns_second_reply() {
    let (mut driver, bus, pin) = new_driver();
    bus.borrow_mut().replies = vec![0x00, 0x80];
    assert_eq!(driver.read_status_register(), Ok(0x80));
    assert_eq!(bus.borrow().sent, vec![0x70, 0x00]);
    assert_eq!(pin.borrow().lows, 1);
    assert_eq!(pin.borrow().highs, 1);
}

#[test]
fn write_mode_register_0_sends_opcode_then_value() {
    let (mut driver, bus, pin) = new_driver();
    assert_eq!(driver.write_mode_register_0(0xAB), Ok(()));
    assert_eq!(bus.borrow().sent, vec![0x88, 0xAB]);
    assert_eq!(pin.borrow().lows, 1);
    assert_eq!(pin.borrow().highs, 1);
}

#[test]
fn write_mode_register_1_sends_opcode_then_value() {
    let (mut driver, bus, pin) = new_driver();
    assert_eq!(driver.write_mode_register_1(0x02), Ok(()));
    assert_eq!(bus.borrow().sent, vec![0x90, 0x02]);
    assert_eq!(pin.borrow().lows, 1);
    assert_eq!(pin.borrow().highs, 1);
}

/// The number of dummy bytes a counter read sends is the active width.
fn counter_read_width(driver: &mut Driver, bus: &Rc<RefCell<BusState>>) -> usize {
    bus.borrow_mut().sent.clear();
    driver.read_counter().unwrap();
    bus.borrow().sent.len() - 1
}

#[test]
fn mode_register_1_value_sets_data_width() {
    let (mut driver, bus, _pin) = new_driver();
    assert_eq!(counter_read_width(&mut driver, &bus), 4);
    for value in 0..=3u8 {
        for prior in 0..=3u8 {
            driver.write_mode_register_1(prior).unwrap();
            driver.write_mode_register_1(value).unwrap();
            assert_eq!(counter_read_width(&mut driver, &bus), (4 - (value & 0x03)) as usize);
        }
    }
    // Only the low two bits of the value govern the width.
    driver.write_mode_register_1(0xFE).unwrap();
    assert_eq!(counter_read_width(&mut driver, &bus), 2);
}

#[test]
fn read_counter_accumulates_big_endian_at_width_two() {
    let (mut driver, bus, pin) = new_driver();
    driver.write_mode_register_1(0x02).unwrap();
    bus.borrow_mut().sent.clear();
    bus.borrow_mut().replies = vec![0x00, 0x12, 0x34];
    assert_eq!(driver.read_counter(), Ok(0x0000_1234));
    assert_eq!(bus.borrow().sent, vec![0x60, 0x00, 0x00]);
    assert_eq!(pin.borrow().lows, 2);
    assert_eq!(pin.borrow().highs, 2);
    assert_eq!(driver.left_extend_msb(0x0000_1234), Ok(0x0000_1234));
}

#[test]
fn read_counter_with_msb_set_then_extended() {
    let (mut driver, bus, _pin) = new_driver();
    driver.write_mode_register_1(0x02).unwrap();
    bus.borrow_mut().replies = vec![0x00, 0x92, 0x34];
    assert_eq!(driver.read_counter(), Ok(0x0000_9234));
    assert_eq!(driver.left_extend_msb(0x0000_9234), Ok(0xFFFF_9234));
}

#[test]
fn read_counter_at_default_width_reads_four_bytes() {
    let (mut driver, bus, _pin) = new_driver();
    bus.borrow_mut().replies = vec![0x00, 0xDE, 0xAD, 0xBE, 0xEF];
    assert_eq!(driver.read_counter(), Ok(0xDEAD_BEEF));
    assert_eq!(bus.borrow().sent, vec![0x60, 0x00, 0x00, 0x00, 0x00]);
}

#[test]
fn read_otr_uses_its_own_opcode() {
    let (mut driver, bus, _pin) = new_driver();
    bus.borrow_mut().replies = vec![0x00, 0x01, 0x02, 0x03, 0x04];
    assert_eq!(driver.read_otr(), Ok(0x0102_0304));
    assert_eq!(bus.borrow().sent, vec![0x68, 0x00, 0x00, 0x00, 0x00]);
}

#[test]
fn write_data_register_drops_bytes_above_width_three() {
    let (mut driver, bus, _pin) = new_driver();
    driver.write_mode_register_1(0x01).unwrap();
    bus.borrow_mut().sent.clear();
    assert_eq!(driver.write_data_register(0xAABB_CCDD), Ok(()));
    assert_eq!(bus.borrow().sent, vec![0x98, 0xBB, 0xCC, 0xDD]);
}

#[test]
fn write_data_register_full_width_sends_all_four_bytes() {
    let (mut driver, bus, _pin) = new_driver();
    assert_eq!(driver.write_data_register(0xAABB_CCDD), Ok(()));
    assert_eq!(bus.borrow().sent, vec![0x98, 0xAA, 0xBB, 0xCC, 0xDD]);
}

#[test]
fn write_data_register_width_one_sends_lowest_byte() {
    let (mut driver, bus, _pin) = new_driver();
    driver.write_mode_register_1(0x03).unwrap();
    bus.borrow_mut().sent.clear();
    assert_eq!(driver.write_data_register(0xAABB_CCDD), Ok(()));
    assert_eq!(bus.borrow().sent, vec![0x98, 0xDD]);
}

/// Round trip through a device that loads the written data register into
/// the counter: reading back yields the low `width` bytes of the written
/// value, zero-extended.
#[test]
fn data_register_round_trips_through_counter_at_width_two() {
    let (mut driver, bus, _pin) = new_driver();
    driver.write_mode_register_1(0x02).unwrap();
    bus.borrow_mut().sent.clear();
    driver.write_data_register(0xAABB_CCDD).unwrap();
    let payload: Vec<u8> = bus.borrow().sent[1..].to_vec();
    assert_eq!(payload, vec![0xCC, 0xDD]);
    driver.load_counter().unwrap();
    let mut replies = vec![0x00];
    replies.extend(payload);
    bus.borrow_mut().replies = replies;
    assert_eq!(driver.read_counter(), Ok(0xAABB_CCDD & 0xFFFF));
}

#[test]
fn failed_chip_select_assert_reports_pin_failure() {
    let (mut driver, bus, pin) = new_driver();
    pin.borrow_mut().fail_low = true;
    assert_eq!(driver.clear_counter(), Err(Error::PinFailure));
    assert!(bus.borrow().sent.is_empty());
    assert_eq!(pin.borrow().lows, 0);
    assert_eq!(pin.borrow().highs, 0);
}

#[test]
fn failed_transfer_reports_transport_failure_and_still_deasserts() {
    let (mut driver, bus, pin) = new_driver();
    bus.borrow_mut().fail_at = Some(0);
    assert_eq!(driver.clear_counter(), Err(Error::TransportFailure));
    assert!(bus.borrow().sent.is_empty());
    assert_eq!(pin.borrow().lows, 1);
    assert_eq!(pin.borrow().highs, 1);
}

#[test]
fn failed_transfer_mid_payload_still_deasserts() {
    let (mut driver, bus, pin) = new_driver();
    bus.borrow_mut().fail_at = Some(2);
    assert_eq!(driver.read_counter(), Err(Error::TransportFailure));
    assert_eq!(bus.borrow().sent, vec![0x60, 0x00]);
    assert_eq!(pin.borrow().lows, 1);
    assert_eq!(pin.borrow().highs, 1);
}

#[test]
fn failed_chip_select_deassert_reports_pin_failure() {
    let (mut driver, bus, pin) = new_driver();
    pin.borrow_mut().fail_high = true;
    assert_eq!(driver.load_otr(), Err(Error::PinFailure));
    assert_eq!(bus.borrow().sent, vec![0xE8]);
    assert_eq!(pin.borrow().lows, 1);
    assert_eq!(pin.borrow().highs, 0);
}

#[test]
fn failed_mode_register_1_write_keeps_the_width() {
    let (mut driver, bus, pin) = new_driver();
    driver.write_mode_register_1(0x03).unwrap();
    pin.borrow_mut().fail_low = true;
    assert_eq!(driver.write_mode_register_1(0x00), Err(Error::PinFailure));
    pin.borrow_mut().fail_low = false;
    assert_eq!(counter_read_width(&mut driver, &bus), 1);
}

#[test]
fn mode_register_values_compose_from_named_constants() {
    let (mut driver, bus, _pin) = new_driver();
    driver
        .write_mode_register_0(ls7366::QUADRX4 | ls7366::FREE_RUN | ls7366::DISABLE_INDX)
        .unwrap();
    assert_eq!(bus.borrow().sent, vec![0x88, 0x03]);
    bus.borrow_mut().sent.clear();
    driver.write_mode_register_1(ls7366::BYTE_2 | ls7366::EN_CNTR).unwrap();
    assert_eq!(bus.borrow().sent, vec![0x90, 0x02]);
    assert_eq!(counter_read_width(&mut driver, &bus), 2);
}

/// One shared wire log that interleaves pin edges and byte transfers in
/// the order the driver makes them.
#[derive(Debug, PartialEq)]
enum WireEvent {
    Low,
    High,
    Sent(u8),
    Refused(u8),
}

struct OrderedBus {
    log: Rc<RefCell<Vec<WireEvent>>>,
    fail_call: Option<usize>,
    calls: usize,
}

impl BusTransfer for OrderedBus {
    fn transfer(&mut self, byte: u8) -> Result<u8, TransferError> {
        let call = self.calls;
        self.calls += 1;
        if self.fail_call == Some(call) {
            self.log.borrow_mut().push(WireEvent::Refused(byte));
            return Err(TransferError);
        }
        self.log.borrow_mut().push(WireEvent::Sent(byte));
        Ok(0x00)
    }
}

struct OrderedPin {
    log: Rc<RefCell<Vec<WireEvent>>>,
}

impl ChipSelect for OrderedPin {
    fn set_low(&mut self) -> Result<(), PinError> {
        self.log.borrow_mut().push(WireEvent::Low);
        Ok(())
    }

    fn set_high(&mut self) -> Result<(), PinError> {
        self.log.borrow_mut().push(WireEvent::High);
        Ok(())
    }
}

#[test]
fn transactions_order_select_bytes_deselect() {
    let log = Rc::new(RefCell::new(Vec::new()));
    let mut driver = LS7366::new(
        OrderedBus { log: log.clone(), fail_call: None, calls: 0 },
        OrderedPin { log: log.clone() },
    );
    driver.clear_counter().unwrap();
    driver.read_counter().unwrap();
    driver.write_mode_register_1(0x03).unwrap();
    driver.write_data_register(0xAABB_CCDD).unwrap();
    assert_eq!(
        *log.borrow(),
        vec![
            WireEvent::Low,
            WireEvent::Sent(0x20),
            WireEvent::High,
            WireEvent::Low,
            WireEvent::Sent(0x60),
            WireEvent::Sent(0x00),
            WireEvent::Sent(0x00),
            WireEvent::Sent(0x00),
            WireEvent::Sent(0x00),
            WireEvent::High,
            WireEvent::Low,
            WireEvent::Sent(0x90),
            WireEvent::Sent(0x03),
            WireEvent::High,
            WireEvent::Low,
            WireEvent::Sent(0x98),
            WireEvent::Sent(0xDD),
            WireEvent::High,
        ]
    );
}

#[test]
fn failed_transfer_is_followed_by_the_deassert_attempt() {
    let log = Rc::new(RefCell::new(Vec::new()));
    let mut driver = LS7366::new(
        OrderedBus { log: log.clone(), fail_call: Some(1), calls: 0 },
        OrderedPin { log: log.clone() },
    );
    assert_eq!(driver.read_counter(), Err(Error::TransportFailure));
    assert_eq!(
        *log.borrow(),
        vec![WireEvent::Low, WireEvent::Sent(0x60), WireEvent::Refused(0x00), WireEvent::High]
    );
}
