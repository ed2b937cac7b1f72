//! The driver against a bus in software.
//!
//! The simulated line takes what the master does to it at face value. It
//! measures how long the line is held low and tells a reset from a slot that
//! writes a zero and from the short pulse that writes a one or opens a read
//! slot. The devices follow the protocol from there: they answer a reset
//! with a presence pulse, take an opcode, and send or receive what the
//! opcode calls for, all of them at once on a wired AND.

#![allow(dead_code)]

use one_wire::commands::{
    AlarmSearch, MemoryConvert, MemoryRecall, MemoryScratchpadCopy, MemoryScratchpadRead,
    MemoryScratchpadWrite, RomMatch, RomRead, RomSearch, RomSkip,
};
use one_wire::crc8::calculate;
use one_wire::scratchpad::{Configuration, Resolution, Triggers};
use one_wire::search::{decide, step, Progress};
use one_wire::{
    Command, Commander, Delay, Error, Fault, Line, OneWireDriver, Pin, Rom, Scratchpad,
};
use std::cell::RefCell;
use std::rc::Rc;

/// The shortest low pulse that devices take for a reset.
const RESET_THRESHOLD_MICROS: u32 = 480;

/// The point in a slot at which devices sample the line: a pulse at least
/// this long writes a zero.
const DEVICE_SAMPLE_MICROS: u32 = 15;

/// How long after the start of a slot a device that sends a zero lets go of
/// the line.
const DEVICE_HOLD_MICROS: u32 = 60;

/// How long after the end of a reset pulse devices start their presence
/// pulse.
const PRESENCE_START_MICROS: u32 = 30;

/// How long after the end of a reset pulse the presence pulse is over.
const PRESENCE_END_MICROS: u32 = 150;

/// One device on the simulated bus.
#[derive(Clone, Copy, Debug)]
struct Device {
    rom: u64,
    scratchpad: [u8; 9],
    eeprom: [u8; 3],
    alarm: bool,
    active: bool,
}

/// What the devices are in the middle of.
#[derive(Clone, Copy, Debug)]
enum Phase {
    /// Waiting for a reset.
    Idle,
    /// Taking the opcode that follows a reset.
    RomCommand { bits: u8, count: u32 },
    /// Sending the identifier.
    ReadRom { index: u32 },
    /// Comparing the identifier that is being sent to them.
    MatchRom { index: u32 },
    /// Search: sending bit `index`.
    SearchValue { index: u32 },
    /// Search: sending the complement of bit `index`.
    SearchComplement { index: u32 },
    /// Search: taking the direction the master goes on with.
    SearchDirection { index: u32 },
    /// Taking the opcode that follows the addressing.
    FunctionCommand { bits: u8, count: u32 },
    /// Sending the scratchpad.
    ReadScratchpad { index: u32 },
    /// Taking the three bytes written to the scratchpad.
    WriteScratchpad { index: u32, bits: u8 },
    /// Busy for this many read slots, then done.
    Busy { slots: u32 },
}

/// What holds the line low after the master let go of it.
#[derive(Clone, Copy, Debug)]
enum Answer {
    /// Nothing: the pull-up has it.
    Nothing,
    /// A presence pulse.
    Presence,
    /// Devices that send a zero.
    Zero,
}

fn bit_of_code(code: u64, index: u32) -> bool {
    if index < 64 {
        (code >> index) & 1 == 1
    } else {
        true
    }
}

fn bit_of_scratchpad(scratchpad: &[u8; 9], index: u32) -> bool {
    let position = (index / 8) as usize;
    if position < 9 {
        (scratchpad[position] >> (index % 8)) & 1 == 1
    } else {
        true
    }
}

fn data_crc(scratchpad: &[u8; 9]) -> u8 {
    let data = [
        scratchpad[0],
        scratchpad[1],
        scratchpad[2],
        scratchpad[3],
        scratchpad[4],
        scratchpad[5],
        scratchpad[6],
        scratchpad[7],
    ];
    calculate(&data)
}

/// The devices and what they are doing, one time slot at a time.
struct Network {
    devices: Vec<Device>,
    phase: Phase,
    plugged: bool,
    unplug_in: Option<u32>,
    busy_slots: u32,
    resets: u32,
    received: Vec<bool>,
    loopback: bool,
    queue: Vec<bool>,
    head: usize,
    undecided: bool,
}

impl Network {
    fn new(loopback: bool) -> Network {
        Network {
            devices: Vec::new(),
            phase: Phase::Idle,
            plugged: true,
            unplug_in: None,
            busy_slots: 0,
            resets: 0,
            received: Vec::new(),
            loopback,
            queue: Vec::new(),
            head: 0,
            undecided: false,
        }
    }

    /// Whether any device is there to answer a reset.
    fn present(&self) -> bool {
        self.plugged && self.devices.len() > 0
    }

    /// What the line carries when every active device sends bit `index` of
    /// its identifier, or the complement of it.
    fn identifier_bit(&self, index: u32, complement: bool) -> bool {
        let mut level = true;
        let mut i: usize = 0;
        while i < self.devices.len()
        {
            let device = &self.devices[i];
            if device.active && bit_of_code(device.rom, index) == complement {
                level = false;
            }
            i += 1;
        }
        level
    }

    /// What the line carries when every active device sends bit `index` of
    /// its scratchpad.
    fn scratchpad_bit(&self, index: u32) -> bool {
        let mut level = true;
        let mut i: usize = 0;
        while i < self.devices.len()
        {
            let device = &self.devices[i];
            if device.active && !bit_of_scratchpad(&device.scratchpad, index) {
                level = false;
            }
            i += 1;
        }
        level
    }

    /// Drops the active devices whose identifier has not `taken` at `index`.
    fn select(&mut self, index: u32, taken: bool) {
        let mut i: usize = 0;
        while i < self.devices.len()
        {
            let mut device = self.devices[i];
            if bit_of_code(device.rom, index) != taken {
                device.active = false;
            }
            self.devices[i] = device;
            i += 1;
        }
    }

    /// Makes every device active that is plugged in and, if asked for, has
    /// its alarm set.
    fn activate(&mut self, alarming_only: bool) {
        let mut i: usize = 0;
        while i < self.devices.len()
        {
            let mut device = self.devices[i];
            device.active = self.plugged && (device.alarm || !alarming_only);
            self.devices[i] = device;
            i += 1;
        }
    }

    /// Stores a byte written to the scratchpad in every active device, and
    /// brings the CRC of its scratchpad up to date.
    fn store(&mut self, position: usize, byte: u8) {
        let mut i: usize = 0;
        while i < self.devices.len()
        {
            let mut device = self.devices[i];
            if device.active && position < 8 {
                device.scratchpad[position] = byte;
                device.scratchpad[8] = data_crc(&device.scratchpad);
            }
            self.devices[i] = device;
            i += 1;
        }
    }

    /// Copies triggers and configuration between scratchpad and nonvolatile
    /// memory in every active device.
    fn transfer(&mut self, recall: bool) {
        let mut i: usize = 0;
        while i < self.devices.len()
        {
            let mut device = self.devices[i];
            if device.active {
                if recall {
                    device.scratchpad[2] = device.eeprom[0];
                    device.scratchpad[3] = device.eeprom[1];
                    device.scratchpad[4] = device.eeprom[2];
                    device.scratchpad[8] = data_crc(&device.scratchpad);
                } else {
                    device.eeprom[0] = device.scratchpad[2];
                    device.eeprom[1] = device.scratchpad[3];
                    device.eeprom[2] = device.scratchpad[4];
                }
            }
            self.devices[i] = device;
            i += 1;
        }
    }

    /// A reset pulse ended.
    fn reset(&mut self) {
        if self.resets < u32::MAX {
            self.resets += 1;
        }
        self.undecided = false;
        self.activate(false);
        self.phase = if self.present() {
            Phase::RomCommand { bits: 0, count: 0 }
        } else {
            Phase::Idle
        };
    }

    fn rom_command(&mut self, opcode: u8) {
        self.phase = if opcode == 0x33 {
            Phase::ReadRom { index: 0 }
        } else if opcode == 0x55 {
            Phase::MatchRom { index: 0 }
        } else if opcode == 0xCC {
            Phase::FunctionCommand { bits: 0, count: 0 }
        } else if opcode == 0xF0 {
            Phase::SearchValue { index: 0 }
        } else if opcode == 0xEC {
            self.activate(true);
            Phase::SearchValue { index: 0 }
        } else {
            Phase::Idle
        };
    }

    fn function_command(&mut self, opcode: u8) {
        self.phase = if opcode == 0xBE {
            Phase::ReadScratchpad { index: 0 }
        } else if opcode == 0x4E {
            Phase::WriteScratchpad { index: 0, bits: 0 }
        } else if opcode == 0x44 {
            Phase::Busy { slots: self.busy_slots }
        } else if opcode == 0xB8 {
            self.transfer(true);
            Phase::Busy { slots: self.busy_slots }
        } else if opcode == 0x48 {
            self.transfer(false);
            Phase::Busy { slots: self.busy_slots }
        } else {
            Phase::Idle
        };
    }

    /// The bit at the head of the loopback queue; a one when it is empty.
    fn echo(&self) -> bool {
        if self.head < self.queue.len() {
            self.queue[self.head]
        } else {
            true
        }
    }

    /// Settles whether the last short pulse in loopback wrote a one: it did
    /// unless the line was sampled after it.
    fn settle(&mut self) {
        if self.undecided {
            self.queue.push(true);
            self.undecided = false;
        }
    }

    /// The line was sampled.
    fn sampled(&mut self) {
        if self.loopback && self.undecided {
            self.undecided = false;
            if self.head < self.queue.len() {
                self.head += 1;
            }
        }
    }

    /// A time slot: the master held the line low for a short pulse
    /// (`written` is true) or for long enough to write a zero. Answers the
    /// level the devices leave the line at for the rest of the slot.
    fn slot(&mut self, written: bool) -> bool {
        if self.loopback {
            self.settle();
            if written {
                self.undecided = true;
                return self.echo();
            }
            self.queue.push(false);
            return true;
        }
        match self.unplug_in {
            Some(0) => {
                self.plugged = false;
                self.unplug_in = None;
                self.activate(false);
                self.phase = Phase::Idle;
            },
            Some(left) => {
                self.unplug_in = Some(left - 1);
            },
            None => {},
        }
        match self.phase {
            Phase::Idle => true,
            Phase::RomCommand { bits, count } => {
                self.received.push(written);
                let bits = if written && count < 8 {
                    bits | (1u8 << count)
                } else {
                    bits
                };
                if count >= 7 {
                    self.rom_command(bits);
                } else {
                    self.phase = Phase::RomCommand { bits, count: count + 1 };
                }
                true
            },
            Phase::ReadRom { index } => {
                let level = self.identifier_bit(index, false);
                self.phase = if index >= 63 {
                    Phase::FunctionCommand { bits: 0, count: 0 }
                } else {
                    Phase::ReadRom { index: index + 1 }
                };
                level
            },
            Phase::MatchRom { index } => {
                self.received.push(written);
                self.select(index, written);
                self.phase = if index >= 63 {
                    Phase::FunctionCommand { bits: 0, count: 0 }
                } else {
                    Phase::MatchRom { index: index + 1 }
                };
                true
            },
            Phase::SearchValue { index } => {
                let level = self.identifier_bit(index, false);
                self.phase = Phase::SearchComplement { index };
                level
            },
            Phase::SearchComplement { index } => {
                let level = self.identifier_bit(index, true);
                self.phase = Phase::SearchDirection { index };
                level
            },
            Phase::SearchDirection { index } => {
                self.received.push(written);
                self.select(index, written);
                self.phase = if index >= 63 {
                    Phase::FunctionCommand { bits: 0, count: 0 }
                } else {
                    Phase::SearchValue { index: index + 1 }
                };
                true
            },
            Phase::FunctionCommand { bits, count } => {
                self.received.push(written);
                let bits = if written && count < 8 {
                    bits | (1u8 << count)
                } else {
                    bits
                };
                if count >= 7 {
                    self.function_command(bits);
                } else {
                    self.phase = Phase::FunctionCommand { bits, count: count + 1 };
                }
                true
            },
            Phase::ReadScratchpad { index } => {
                let level = self.scratchpad_bit(index);
                self.phase = if index >= 71 {
                    Phase::Idle
                } else {
                    Phase::ReadScratchpad { index: index + 1 }
                };
                level
            },
            Phase::WriteScratchpad { index, bits } => {
                self.received.push(written);
                let place = index % 8;
                let bits = if written {
                    bits | (1u8 << place)
                } else {
                    bits
                };
                if place == 7 {
                    self.store((2 + index / 8) as usize, bits);
                    self.phase = if index >= 23 {
                        Phase::Idle
                    } else {
                        Phase::WriteScratchpad { index: index + 1, bits: 0 }
                    };
                } else {
                    self.phase = Phase::WriteScratchpad { index: index + 1, bits };
                }
                true
            },
            Phase::Busy { slots } => {
                if slots > 0 {
                    self.phase = Phase::Busy { slots: slots - 1 };
                    false
                } else {
                    true
                }
            },
        }
    }
}

/// The simulated line with the simulated devices on it.
struct Bus {
    network: Network,
    low: bool,
    low_for: u32,
    since_fall: u32,
    since_release: u32,
    answer: Answer,
    elapsed: u64,
    faults_in: Option<u32>,
}

impl Bus {
    fn make(loopback: bool) -> Bus {
        Bus {
            network: Network::new(loopback),
            low: false,
            low_for: 0,
            since_fall: 0,
            since_release: 0,
            answer: Answer::Nothing,
            elapsed: 0,
            faults_in: None,
        }
    }

    /// Puts a device on the line, with the identifier and the scratchpad
    /// given. Neither is checked: a device may well send what does not
    /// check out.
    fn attach(&mut self, rom: u64, scratchpad: [u8; 9]) {
        let eeprom = [scratchpad[2], scratchpad[3], scratchpad[4]];
        self.network.devices.push(Device { rom, scratchpad, eeprom, alarm: false, active: false });
    }

    /// Sets or clears the alarm of the device attached as number `device`,
    /// counting from zero.
    fn set_alarm(&mut self, device: usize, alarm: bool) {
        if device < self.network.devices.len() {
            let mut changed = self.network.devices[device];
            changed.alarm = alarm;
            self.network.devices[device] = changed;
        }
    }

    /// Makes devices busy for `slots` read slots after an opcode that takes
    /// them time.
    fn set_busy_slots(&mut self, slots: u32) {
        self.network.busy_slots = slots;
    }

    /// Takes every device off the line once `slots` more time slots have
    /// gone by.
    fn unplug_after(&mut self, slots: u32) {
        self.network.unplug_in = Some(slots);
    }

    /// Makes the pin fail from the operation after the next `operations`
    /// on.
    fn fail_after(&mut self, operations: u32) {
        self.faults_in = Some(operations);
    }

    /// The number of reset pulses the devices have seen.
    fn resets(&self) -> u32 {
        self.network.resets
    }

    /// The time that has gone by on the line, in microseconds.
    fn elapsed_micros(&self) -> u64 {
        self.elapsed
    }

    /// Every bit the devices have taken from the master, oldest first.
    fn received(&self) -> &Vec<bool> {
        &self.network.received
    }

    /// The scratchpad of the device attached as number `device`, counting
    /// from zero.
    fn scratchpad(&self, device: usize) -> Option<[u8; 9]> {
        if device < self.network.devices.len() {
            Some(self.network.devices[device].scratchpad)
        } else {
            None
        }
    }

    /// Whether the pin goes through with one more operation.
    fn works(&mut self) -> bool {
        match self.faults_in {
            Some(0) => false,
            Some(left) => {
                self.faults_in = Some(left - 1);
                true
            },
            None => true,
        }
    }

    fn pass_time(&mut self, micros: u32) {
        self.elapsed = self.elapsed.saturating_add(micros as u64);
        self.since_fall = self.since_fall.saturating_add(micros);
        self.since_release = self.since_release.saturating_add(micros);
        if self.low {
            self.low_for = self.low_for.saturating_add(micros);
        }
    }

    fn pulse_ended(&mut self) {
        if self.low {
            self.low = false;
            self.since_release = 0;
            if self.low_for >= RESET_THRESHOLD_MICROS {
                self.network.reset();
                self.answer = if self.network.present() {
                    Answer::Presence
                } else {
                    Answer::Nothing
                };
            } else {
                let high = self.network.slot(self.low_for < DEVICE_SAMPLE_MICROS);
                self.answer = if high {
                    Answer::Nothing
                } else {
                    Answer::Zero
                };
            }
        }
    }

    fn level(&mut self) -> bool {
        if self.low {
            return false;
        }
        self.network.sampled();
        match self.answer {
            Answer::Nothing => true,
            Answer::Presence => !(PRESENCE_START_MICROS <= self.since_release
                && self.since_release < PRESENCE_END_MICROS),
            Answer::Zero => self.since_fall >= DEVICE_HOLD_MICROS,
        }
    }

    fn set_low(&mut self) -> Result<(), Fault> {
        if !self.works() {
            return Err(Fault);
        }
        if !self.low {
            self.low = true;
            self.low_for = 0;
            self.since_fall = 0;
        }
        Ok(())
    }

    fn release(&mut self) -> Result<(), Fault> {
        if !self.works() {
            return Err(Fault);
        }
        self.pulse_ended();
        Ok(())
    }

    fn is_high(&mut self) -> Result<bool, Fault> {
        if !self.works() {
            return Err(Fault);
        }
        Ok(self.level())
    }
}

/// A handle on the simulated line: to set it up, and to look at what
/// happened on it.
#[derive(Clone)]
struct SimulatedLine(Rc<RefCell<Bus>>);

impl SimulatedLine {
    /// A line with a pull-up and no device on it.
    fn new() -> SimulatedLine {
        SimulatedLine(Rc::new(RefCell::new(Bus::make(false))))
    }

    /// A line that plays back what is written to it: every bit sent in a
    /// write slot is queued, and every read slot takes the oldest bit off
    /// the queue.
    fn loopback() -> SimulatedLine {
        SimulatedLine(Rc::new(RefCell::new(Bus::make(true))))
    }

    fn attach(&self, rom: u64, scratchpad: [u8; 9]) {
        self.0.borrow_mut().attach(rom, scratchpad);
    }

    fn set_alarm(&self, device: usize, alarm: bool) {
        self.0.borrow_mut().set_alarm(device, alarm);
    }

    fn set_busy_slots(&self, slots: u32) {
        self.0.borrow_mut().set_busy_slots(slots);
    }

    fn unplug_after(&self, slots: u32) {
        self.0.borrow_mut().unplug_after(slots);
    }

    fn fail_after(&self, operations: u32) {
        self.0.borrow_mut().fail_after(operations);
    }

    fn resets(&self) -> u32 {
        self.0.borrow().resets()
    }

    fn elapsed_micros(&self) -> u64 {
        self.0.borrow().elapsed_micros()
    }

    fn received(&self) -> Vec<bool> {
        self.0.borrow().received().clone()
    }

    fn scratchpad(&self, device: usize) -> Option<[u8; 9]> {
        self.0.borrow().scratchpad(device)
    }
}

/// The pin of the simulated line.
struct SimulatedPin(SimulatedLine);

impl Pin for SimulatedPin {
    fn set_low(&mut self) -> Result<(), Fault> {
        (self.0).0.borrow_mut().set_low()
    }

    fn release(&mut self) -> Result<(), Fault> {
        (self.0).0.borrow_mut().release()
    }

    fn is_high(&mut self) -> Result<bool, Fault> {
        (self.0).0.borrow_mut().is_high()
    }
}

/// The clock of the simulated line.
struct SimulatedDelay(SimulatedLine);

impl Delay for SimulatedDelay {
    fn delay_us(&mut self, micros: u32) {
        (self.0).0.borrow_mut().pass_time(micros);
    }
}

type Driver = OneWireDriver<SimulatedPin, SimulatedDelay>;

/// The driver on a simulated line.
fn drive(line: SimulatedLine) -> Driver {
    OneWireDriver::new(SimulatedPin(line.clone()), SimulatedDelay(line))
}

/// The simulated line a driver is on.
fn line_of(driver: &Driver) -> SimulatedLine {
    driver.pin().0.clone()
}

const POWER_ON: [u8; 9] = [0x50, 0x05, 0x4B, 0x46, 0x7F, 0xFF, 0x0C, 0x10, 0x1C];

#[test]
fn reset_without_devices_finds_no_presence() {
    let mut driver = drive(SimulatedLine::new());
    assert_eq!(driver.reset(), Ok(false));
    assert_eq!(line_of(&driver).resets(), 1);
}

#[test]
fn reset_with_a_device_finds_presence() {
    let line = SimulatedLine::new();
    line.attach(0, POWER_ON);
    let mut driver = drive(line);
    assert_eq!(driver.reset(), Ok(true));
    assert_eq!(driver.reset(), Ok(true));
    assert_eq!(line_of(&driver).resets(), 2);
}

#[test]
fn reset_takes_its_standard_time() {
    let mut driver = drive(SimulatedLine::new());
    driver.reset().unwrap();
    assert_eq!(line_of(&driver).elapsed_micros(), 480 + 70 + 410);
}

#[test]
fn every_slot_takes_the_same_time() {
    let mut driver = drive(SimulatedLine::loopback());
    driver.write_bit(true).unwrap();
    assert_eq!(line_of(&driver).elapsed_micros(), 70);
    driver.write_bit(false).unwrap();
    assert_eq!(line_of(&driver).elapsed_micros(), 140);
    driver.read_bit().unwrap();
    assert_eq!(line_of(&driver).elapsed_micros(), 210);
    driver.write_byte(0xA5).unwrap();
    assert_eq!(line_of(&driver).elapsed_micros(), 210 + 8 * 70);
}

#[test]
fn wait_lets_the_time_pass_and_nothing_else() {
    let mut driver = drive(SimulatedLine::new());
    driver.wait(10_000);
    assert_eq!(line_of(&driver).elapsed_micros(), 10_000);
    assert_eq!(line_of(&driver).resets(), 0);
}

#[test]
fn written_bits_come_back_in_order() {
    let mut driver = drive(SimulatedLine::loopback());
    for bit in [true, false, false, true, true] {
        driver.write_bit(bit).unwrap();
    }
    for bit in [true, false, false, true, true] {
        assert_eq!(driver.read_bit(), Ok(bit));
    }
}

#[test]
fn written_byte_is_read_back_bit_for_bit() {
    for byte in 0..=255u8 {
        let mut driver = drive(SimulatedLine::loopback());
        driver.write_byte(byte).unwrap();
        assert_eq!(driver.read_byte(), Ok(byte));
    }
}

#[test]
fn a_byte_goes_out_least_significant_bit_first() {
    let mut driver = drive(SimulatedLine::loopback());
    driver.write_byte(0b0000_1101).unwrap();
    let expected = [true, false, true, true, false, false, false, false];
    for bit in expected {
        assert_eq!(driver.read_bit(), Ok(bit));
    }
}

#[test]
fn a_byte_is_put_together_least_significant_bit_first() {
    let mut driver = drive(SimulatedLine::loopback());
    for bit in [false, true, false, false, false, false, false, true] {
        driver.write_bit(bit).unwrap();
    }
    assert_eq!(driver.read_byte(), Ok(0b1000_0010));
}

#[test]
fn written_bytes_are_read_back_in_order() {
    let mut driver = drive(SimulatedLine::loopback());
    let sent = [0x00, 0xFF, 0x12, 0x80, 0x01, 0xA5];
    driver.write_bytes(&sent).unwrap();
    let mut received = [0u8; 6];
    driver.read_bytes(&mut received).unwrap();
    assert_eq!(received, sent);
}

#[test]
fn devices_take_the_bits_of_an_opcode_in_wire_order() {
    let line = SimulatedLine::new();
    line.attach(0, POWER_ON);
    let mut driver = drive(line);
    driver.reset().unwrap();
    driver.write_byte(0xCC).unwrap();
    driver.write_byte(0x44).unwrap();
    assert_eq!(line_of(&driver).received(), bits_of(&[0xCC, 0x44]));
}

#[test]
fn an_idle_line_reads_as_ones() {
    let mut driver = drive(SimulatedLine::new());
    driver.reset().unwrap();
    assert_eq!(driver.read_byte(), Ok(0xFF));
}

#[test]
fn a_pin_fault_is_reported_by_every_operation() {
    for good in 0..3 {
        let line = SimulatedLine::new();
        line.fail_after(good);
        let mut driver = drive(line);
        assert_eq!(driver.reset(), Err(Error::Pin));

        let line = SimulatedLine::new();
        line.fail_after(good);
        let mut driver = drive(line);
        assert_eq!(driver.read_bit(), Err(Error::Pin));
    }
    for good in 0..2 {
        let line = SimulatedLine::new();
        line.fail_after(good);
        let mut driver = drive(line);
        assert_eq!(driver.write_bit(true), Err(Error::Pin));
    }
    let line = SimulatedLine::loopback();
    line.fail_after(2 * 8 + 3 * 3);
    let mut driver = drive(line);
    assert_eq!(driver.write_byte(0x5A), Ok(()));
    assert_eq!(driver.read_byte(), Err(Error::Pin));
}

#[test]
fn the_line_hands_every_operation_on_to_pin_and_delay() {
    let bus = SimulatedLine::new();
    bus.attach(0, POWER_ON);
    let mut line = Line::new(SimulatedPin(bus.clone()), SimulatedDelay(bus.clone()));
    assert_eq!(line.sample(), Ok(true));
    // A reset pulse by hand: the device answers with its presence pulse.
    assert_eq!(line.pull_low(), Ok(()));
    assert_eq!(line.sample(), Ok(false));
    line.pause(480);
    assert_eq!(line.let_go(), Ok(()));
    line.pause(70);
    assert_eq!(line.sample(), Ok(false));
    line.pause(410);
    assert_eq!(line.sample(), Ok(true));
    assert_eq!(bus.resets(), 1);
    assert_eq!(bus.elapsed_micros(), 960);
    assert_eq!(line.pin().0.resets(), 1);
    assert_eq!(line.delay().0.elapsed_micros(), 960);
    let (pin, _delay) = line.free();
    assert_eq!(pin.0.resets(), 1);
}

#[test]
fn the_line_hands_a_fault_of_the_pin_on() {
    let bus = SimulatedLine::new();
    bus.fail_after(1);
    let mut line = Line::new(SimulatedPin(bus.clone()), SimulatedDelay(bus));
    assert_eq!(line.pull_low(), Ok(()));
    assert_eq!(line.let_go(), Err(Fault));
    assert_eq!(line.sample(), Err(Fault));
    assert_eq!(line.pull_low(), Err(Fault));
}

#[test]
fn a_pulse_too_short_for_a_reset_resets_nothing() {
    let bus = SimulatedLine::new();
    bus.attach(0, POWER_ON);
    let mut line = Line::new(SimulatedPin(bus.clone()), SimulatedDelay(bus.clone()));
    line.pull_low().unwrap();
    line.pause(479);
    line.let_go().unwrap();
    line.pause(70);
    assert_eq!(line.sample(), Ok(true));
    assert_eq!(bus.resets(), 0);
}

#[test]
fn pin_and_delay_are_given_back() {
    let mut driver = drive(SimulatedLine::new());
    driver.reset().unwrap();
    let (pin, delay) = driver.free();
    assert_eq!(pin.0.resets(), 1);
    assert_eq!(delay.0.elapsed_micros(), 960);
}

const KNOWN: [u8; 8] = [0x02, 0x1C, 0xB8, 0x01, 0x00, 0x00, 0x00, 0xA2];

fn identifier(family: u8, serial: u64) -> u64 {
    let mut bytes = [0u8; 8];
    bytes[0] = family;
    bytes[1..7].copy_from_slice(&serial.to_le_bytes()[..6]);
    bytes[7] = calculate(&bytes[..7]);
    u64::from_le_bytes(bytes)
}

fn bits_of(bytes: &[u8]) -> Vec<bool> {
    let mut bits = Vec::new();
    for byte in bytes {
        for i in 0..8 {
            bits.push((byte >> i) & 1 == 1);
        }
    }
    bits
}

fn bus(devices: &[u64]) -> Driver {
    let line = SimulatedLine::new();
    for rom in devices {
        line.attach(*rom, POWER_ON);
    }
    drive(line)
}

#[test]
fn rom_read_returns_the_identifier_of_the_one_device() {
    let mut driver = bus(&[u64::from_le_bytes(KNOWN)]);
    let rom = driver.run(RomRead).unwrap();
    assert_eq!(rom.to_bytes(), KNOWN);
    assert_eq!(rom, Rom::from_bytes(KNOWN).unwrap());
    assert_eq!(line_of(&driver).received(), bits_of(&[0x33]));
}

#[test]
fn rom_read_returns_any_identifier_exactly() {
    for serial in [0u64, 1, 0x0000_FFFF_FFFF_FFFF, 0x0000_1234_5678_9ABC, 0x0000_8000_0000_0001] {
        let code = identifier(0x28, serial);
        let mut driver = bus(&[code]);
        assert_eq!(RomRead.execute(&mut driver).unwrap().to_u64(), code);
    }
}

#[test]
fn rom_read_without_devices_reports_that_none_is_attached() {
    let mut driver = bus(&[]);
    assert_eq!(driver.reset(), Ok(false));
    assert_eq!(driver.run(RomRead), Err(Error::NoAttachedDevices));
}

#[test]
fn rom_read_refuses_an_identifier_that_does_not_check_out() {
    let mut bytes = KNOWN;
    bytes[2] ^= 0x01;
    let mut driver = bus(&[u64::from_le_bytes(bytes)]);
    assert_eq!(
        driver.run(RomRead),
        Err(Error::MismatchedCrc { crc8: calculate(&bytes) })
    );
}

#[test]
fn rom_read_with_two_devices_sees_their_wired_and() {
    let a = identifier(0x28, 0x0F0F);
    let b = identifier(0x28, 0x00FF);
    let mut driver = bus(&[a, b]);
    let collided = (a & b).to_le_bytes();
    let expected = match Rom::from_bytes(collided) {
        Ok(rom) => Ok(rom),
        Err(e) => Err(e),
    };
    assert_eq!(driver.run(RomRead), expected);
}

#[test]
fn rom_read_reports_a_pin_fault() {
    let line = SimulatedLine::new();
    line.attach(u64::from_le_bytes(KNOWN), POWER_ON);
    line.fail_after(40);
    let mut driver = drive(line);
    assert_eq!(driver.run(RomRead), Err(Error::Pin));
}

#[test]
fn rom_skip_sends_its_opcode() {
    let mut driver = bus(&[identifier(0x28, 7)]);
    driver.reset().unwrap();
    assert_eq!(driver.run(RomSkip), Ok(()));
    assert_eq!(line_of(&driver).received(), bits_of(&[0xCC]));
}

#[test]
fn rom_match_sends_its_opcode_and_the_identifier() {
    let mut driver = bus(&[u64::from_le_bytes(KNOWN)]);
    driver.reset().unwrap();
    let rom = Rom::from_bytes(KNOWN).unwrap();
    assert_eq!(driver.run(RomMatch { rom }), Ok(()));
    let mut sent = vec![0x55];
    sent.extend_from_slice(&KNOWN);
    assert_eq!(line_of(&driver).received(), bits_of(&sent));
}

#[test]
fn convert_addresses_all_devices_or_one() {
    let code = identifier(0x28, 99);
    let mut driver = bus(&[code]);
    assert_eq!(driver.run(MemoryConvert { rom: None }), Ok(()));
    assert_eq!(line_of(&driver).received(), bits_of(&[0xCC, 0x44]));
    assert_eq!(line_of(&driver).resets(), 1);

    let mut driver = bus(&[code]);
    let rom = Rom::from_u64(code).unwrap();
    assert_eq!(driver.run(MemoryConvert { rom: Some(rom) }), Ok(()));
    let mut sent = vec![0x55];
    sent.extend_from_slice(&code.to_le_bytes());
    sent.push(0x44);
    assert_eq!(line_of(&driver).received(), bits_of(&sent));
    assert_eq!(MemoryConvert::default().rom, None);
}

#[test]
fn scratchpad_read_decodes_what_the_device_holds() {
    let code = identifier(0x28, 5);
    let mut driver = bus(&[code]);
    let rom = Rom::from_u64(code).unwrap();
    assert_eq!(
        driver.run(MemoryScratchpadRead { rom }),
        Ok(Scratchpad {
            triggers: Triggers { high: 75, low: 70 },
            configuration: Configuration { resolution: Resolution::Bits12 },
        })
    );
}

#[test]
fn scratchpad_read_addresses_the_device_it_is_given() {
    let a = identifier(0x28, 1);
    let b = identifier(0x28, 2);
    let line = SimulatedLine::new();
    line.attach(a, POWER_ON);
    let mut other = [0, 0, 0xF6, 0xEC, 0x3F, 0xFF, 0x0C, 0x10, 0];
    other[8] = calculate(&other[..8]);
    line.attach(b, other);
    let mut driver = drive(line);
    assert_eq!(
        driver.run(MemoryScratchpadRead { rom: Rom::from_u64(b).unwrap() }),
        Ok(Scratchpad {
            triggers: Triggers { high: -10, low: -20 },
            configuration: Configuration { resolution: Resolution::Bits10 },
        })
    );
    assert_eq!(
        driver.run(MemoryScratchpadRead { rom: Rom::from_u64(a).unwrap() }).unwrap().triggers,
        Triggers { high: 75, low: 70 }
    );
}

#[test]
fn scratchpad_read_rejects_a_wrong_trailing_byte() {
    let code = identifier(0x28, 5);
    let mut corrupted = POWER_ON;
    corrupted[8] ^= 0x40;
    let line = SimulatedLine::new();
    line.attach(code, corrupted);
    let mut driver = drive(line);
    let rom = Rom::from_u64(code).unwrap();
    assert_eq!(
        driver.run(MemoryScratchpadRead { rom }),
        Err(Error::MismatchedCrc { crc8: calculate(&corrupted) })
    );
}

#[test]
fn scratchpad_read_rejects_corrupted_data() {
    let code = identifier(0x28, 5);
    let mut corrupted = POWER_ON;
    corrupted[2] = 0x4A;
    let line = SimulatedLine::new();
    line.attach(code, corrupted);
    let mut driver = drive(line);
    let rom = Rom::from_u64(code).unwrap();
    assert!(matches!(
        driver.run(MemoryScratchpadRead { rom }),
        Err(Error::MismatchedCrc { .. })
    ));
}

#[test]
fn scratchpad_read_reports_an_undefined_configuration() {
    let code = identifier(0x28, 5);
    let mut odd = [0x50, 0x05, 0x4B, 0x46, 0x00, 0xFF, 0x0C, 0x10, 0];
    odd[8] = calculate(&odd[..8]);
    let line = SimulatedLine::new();
    line.attach(code, odd);
    let mut driver = drive(line);
    let rom = Rom::from_u64(code).unwrap();
    assert_eq!(driver.run(MemoryScratchpadRead { rom }), Err(Error::ConfigurationRegister));
}

#[test]
fn scratchpad_read_from_an_absent_device_sees_an_idle_line() {
    let mut driver = bus(&[]);
    let rom = Rom::from_bytes(KNOWN).unwrap();
    assert_eq!(
        driver.run(MemoryScratchpadRead { rom }),
        Err(Error::MismatchedCrc { crc8: calculate(&[0xFF; 9]) })
    );
}

#[test]
fn scratchpad_write_sends_high_low_configuration() {
    let code = identifier(0x28, 5);
    let mut driver = bus(&[code]);
    let scratchpad = Scratchpad {
        triggers: Triggers { high: 30, low: -10 },
        configuration: Configuration { resolution: Resolution::Bits9 },
    };
    assert_eq!(driver.run(MemoryScratchpadWrite { rom: None, scratchpad }), Ok(()));
    assert_eq!(line_of(&driver).received(), bits_of(&[0xCC, 0x4E, 30, 0xF6, 0x1F]));
    let held = line_of(&driver).scratchpad(0).unwrap();
    assert_eq!(&held[2..5], &[30, 0xF6, 0x1F]);
}

#[test]
fn scratchpad_written_is_scratchpad_read() {
    let code = identifier(0x28, 5);
    let mut driver = bus(&[code, identifier(0x28, 6)]);
    let rom = Rom::from_u64(code).unwrap();
    let scratchpad = Scratchpad {
        triggers: Triggers { high: 125, low: -55 },
        configuration: Configuration { resolution: Resolution::Bits11 },
    };
    assert_eq!(driver.run(MemoryScratchpadWrite { rom: Some(rom), scratchpad }), Ok(()));
    assert_eq!(driver.run(MemoryScratchpadRead { rom }), Ok(scratchpad));
    // The other device was not addressed and holds what it held.
    assert_eq!(line_of(&driver).scratchpad(1), Some(POWER_ON));
}

#[test]
fn default_scratchpad_write_addresses_all_with_the_default_scratchpad() {
    let command = MemoryScratchpadWrite::default();
    assert_eq!(command.rom, None);
    assert_eq!(command.scratchpad, Scratchpad::default());
}

#[test]
fn copy_waits_for_the_device_to_finish() {
    let mut driver = bus(&[identifier(0x28, 5)]);
    assert_eq!(driver.run(MemoryScratchpadCopy { rom: None }), Ok(()));
    assert_eq!(line_of(&driver).received(), bits_of(&[0xCC, 0x48]));
    assert_eq!(line_of(&driver).elapsed_micros(), 960 + 16 * 70 + 10_000);
}

#[test]
fn copy_and_recall_bring_the_configuration_back() {
    let code = identifier(0x28, 5);
    let mut driver = bus(&[code]);
    let rom = Rom::from_u64(code).unwrap();
    let kept = Scratchpad {
        triggers: Triggers { high: 40, low: 10 },
        configuration: Configuration { resolution: Resolution::Bits10 },
    };
    driver.run(MemoryScratchpadWrite { rom: Some(rom), scratchpad: kept }).unwrap();
    driver.run(MemoryScratchpadCopy { rom: Some(rom) }).unwrap();
    driver
        .run(MemoryScratchpadWrite { rom: Some(rom), scratchpad: Scratchpad::default() })
        .unwrap();
    assert_eq!(driver.run(MemoryScratchpadRead { rom }), Ok(Scratchpad::default()));
    assert_eq!(driver.run(MemoryRecall { rom: Some(rom) }), Ok(()));
    assert_eq!(driver.run(MemoryScratchpadRead { rom }), Ok(kept));
}

#[test]
fn recall_polls_until_the_device_is_done() {
    for busy in [0u32, 1, 5, 142] {
        let line = SimulatedLine::new();
        line.attach(identifier(0x28, 5), POWER_ON);
        line.set_busy_slots(busy);
        let mut driver = drive(line);
        assert_eq!(driver.run(MemoryRecall { rom: None }), Ok(()));
        assert_eq!(
            line_of(&driver).elapsed_micros(),
            960 + 16 * 70 + (busy as u64 + 1) * 70
        );
    }
}

#[test]
fn recall_times_out_after_its_retries() {
    for busy in [143u32, 144, 1000] {
        let line = SimulatedLine::new();
        line.attach(identifier(0x28, 5), POWER_ON);
        line.set_busy_slots(busy);
        let mut driver = drive(line);
        assert_eq!(driver.run(MemoryRecall { rom: None }), Err(Error::Timeout));
        assert_eq!(line_of(&driver).elapsed_micros(), 960 + 16 * 70 + 143 * 70);
    }
}

#[test]
fn memory_commands_report_a_pin_fault() {
    let code = identifier(0x28, 5);
    let rom = Rom::from_u64(code).unwrap();
    for good in [0u32, 2, 10, 30] {
        let line = SimulatedLine::new();
        line.attach(code, POWER_ON);
        line.fail_after(good);
        let mut driver = drive(line);
        assert_eq!(driver.run(MemoryConvert { rom: Some(rom) }), Err(Error::Pin));
        assert_eq!(driver.run(MemoryRecall { rom: None }), Err(Error::Pin));
        assert_eq!(driver.run(MemoryScratchpadCopy { rom: None }), Err(Error::Pin));
        assert_eq!(driver.run(MemoryScratchpadRead { rom }), Err(Error::Pin));
        assert_eq!(
            driver.run(MemoryScratchpadWrite { rom: None, scratchpad: Scratchpad::default() }),
            Err(Error::Pin)
        );
        assert_eq!(driver.run(RomSkip), Err(Error::Pin));
        assert_eq!(driver.run(RomMatch { rom }), Err(Error::Pin));
    }
}

/// The order in which a search finds identifiers: by their bits as they come
/// off the wire, a zero before a one.
fn in_search_order(devices: &[u64]) -> Vec<u64> {
    let mut sorted = devices.to_vec();
    sorted.sort_by_key(|code| code.reverse_bits());
    sorted
}

fn codes(roms: &[Rom]) -> Vec<u64> {
    roms.iter().map(|rom| rom.to_u64()).collect()
}

fn check_enumeration(devices: &[u64]) {
    let mut driver = bus(devices);
    let found = RomSearch::enumerate(&mut driver, 64).unwrap();
    assert_eq!(found.len(), devices.len());
    assert_eq!(codes(&found), in_search_order(devices));
    for rom in &found {
        assert_eq!(calculate(&rom.to_bytes()), 0);
        assert!(devices.contains(&rom.to_u64()));
        assert_eq!(found.iter().filter(|other| *other == rom).count(), 1);
    }
    for device in devices {
        assert!(found.iter().any(|rom| rom.to_u64() == *device));
    }
    // One pass, and so one reset, for every device.
    assert_eq!(line_of(&driver).resets() as usize, devices.len());
}

#[test]
fn direction_follows_the_devices_where_they_agree() {
    for pending in [0u64, 1, 0x8000_0000_0000_0000, u64::MAX] {
        for index in [0u32, 1, 31, 63] {
            assert_eq!(decide(pending, index, true, false), Some(true));
            assert_eq!(decide(pending, index, false, true), Some(false));
            assert_eq!(decide(pending, index, true, true), None);
        }
    }
}

#[test]
fn direction_at_a_conflict_in_a_first_pass_is_zero() {
    for index in 0..64 {
        assert_eq!(decide(0, index, false, false), Some(false));
    }
}

#[test]
fn direction_at_a_conflict_repeats_and_then_turns() {
    // Pending at positions 2 and 5: the last pass took zero at both.
    let pending = 0b10_0100u64;
    // Before the last pending position the choice is repeated: zero where
    // pending, one where the zero branch is done with.
    assert_eq!(decide(pending, 0, false, false), Some(true));
    assert_eq!(decide(pending, 2, false, false), Some(false));
    assert_eq!(decide(pending, 4, false, false), Some(true));
    // At the last pending position the one branch is due.
    assert_eq!(decide(pending, 5, false, false), Some(true));
    // Beyond it, zero.
    assert_eq!(decide(pending, 6, false, false), Some(false));
    assert_eq!(decide(pending, 63, false, false), Some(false));
    // The last position can be the last pending one.
    assert_eq!(decide(1 << 63, 63, false, false), Some(true));
    assert_eq!(decide(1 << 63, 62, false, false), Some(true));
}

#[test]
fn step_records_direction_and_pending_position() {
    let start = Progress { code: 0b01, pending: 0 };
    assert_eq!(
        step(0, start, 3, true, false),
        Some((true, Progress { code: 0b1001, pending: 0 }))
    );
    assert_eq!(
        step(0, start, 3, false, true),
        Some((false, Progress { code: 0b0001, pending: 0 }))
    );
    assert_eq!(
        step(0, start, 3, false, false),
        Some((false, Progress { code: 0b0001, pending: 0b1000 }))
    );
    assert_eq!(
        step(0b1000, start, 3, false, false),
        Some((true, Progress { code: 0b1001, pending: 0 }))
    );
    assert_eq!(step(0b1000, start, 3, true, true), None);
}

#[test]
fn enumeration_of_one_device() {
    check_enumeration(&[identifier(0x28, 0x0000_1234_5678_9ABC)]);
}

#[test]
fn enumeration_of_two_devices() {
    check_enumeration(&[identifier(0x28, 1), identifier(0x28, 2)]);
    check_enumeration(&[identifier(0x28, 0), identifier(0x10, 0)]);
    // Two that differ in nothing but their last bits.
    check_enumeration(&[identifier(0x28, 0x8000_0000_0000), identifier(0x28, 0)]);
}

#[test]
fn enumeration_of_five_devices() {
    check_enumeration(&[
        identifier(0x28, 0x0000_0000_0001),
        identifier(0x28, 0x0000_0000_0002),
        identifier(0x28, 0x0000_0000_0003),
        identifier(0x10, 0xFFFF_FFFF_FFFF),
        identifier(0x22, 0x5555_AAAA_5555),
    ]);
}

#[test]
fn enumeration_of_many_devices() {
    let devices: Vec<u64> = (0..40u64)
        .map(|i| identifier(0x28, i.wrapping_mul(0x9E37_79B9_7F4A).rotate_left(i as u32) >> 16))
        .collect();
    let mut distinct = devices.clone();
    distinct.sort();
    distinct.dedup();
    check_enumeration(&distinct);
}

#[test]
fn enumeration_stops_at_the_limit() {
    let devices = [identifier(0x28, 1), identifier(0x28, 2), identifier(0x28, 3)];
    let mut driver = bus(&devices);
    let found = RomSearch::enumerate(&mut driver, 2).unwrap();
    assert_eq!(codes(&found), in_search_order(&devices)[..2]);
    let mut driver = bus(&devices);
    assert_eq!(RomSearch::enumerate(&mut driver, 0), Ok(vec![]));
    assert_eq!(line_of(&driver).resets(), 0);
}

#[test]
fn enumeration_without_devices_reports_that_none_is_attached() {
    let mut driver = bus(&[]);
    assert_eq!(RomSearch::enumerate(&mut driver, 8), Err(Error::NoAttachedDevices));
}

#[test]
fn enumeration_ends_at_once_when_nobody_answers_a_position() {
    let devices = [identifier(0x28, 1), identifier(0x28, 2)];
    for position in [0u32, 1, 7, 20, 63] {
        let line = SimulatedLine::new();
        for rom in devices {
            line.attach(rom, POWER_ON);
        }
        // The opcode takes eight slots, every position before this one three.
        line.unplug_after(8 + 3 * position);
        let mut driver = drive(line);
        assert_eq!(RomSearch::enumerate(&mut driver, 8), Err(Error::NoAttachedDevices));
        // The reset, the opcode, the positions before, and the two reads that
        // nobody answered: nothing after that.
        assert_eq!(
            line_of(&driver).elapsed_micros(),
            960 + 70 * (8 + 3 * position as u64 + 2)
        );
        assert_eq!(line_of(&driver).resets(), 1);
    }
}

#[test]
fn a_pass_ends_at_once_when_nobody_answers_in_a_later_pass() {
    let devices = [identifier(0x28, 1), identifier(0x28, 2)];
    let mut driver = bus(&devices);
    let mut cursor = RomSearch::new();
    let first = cursor.search(&mut driver).unwrap();
    assert_eq!(first.to_u64(), in_search_order(&devices)[0]);
    line_of(&driver).unplug_after(8 + 3 * 30);
    let before = cursor;
    assert_eq!(cursor.search(&mut driver), Err(Error::NoAttachedDevices));
    assert!(!cursor.is_exhausted());
    assert_eq!(format!("{:?}", cursor), format!("{:?}", before));
}

#[test]
fn enumeration_refuses_an_identifier_that_does_not_check_out() {
    let good = identifier(0x28, 1);
    let bad = identifier(0x28, 2) ^ (1 << 60);
    let mut driver = bus(&[bad]);
    assert_eq!(
        RomSearch::enumerate(&mut driver, 8),
        Err(Error::MismatchedCrc { crc8: calculate(&bad.to_le_bytes()) })
    );
    let mut driver = bus(&[good, bad]);
    assert!(matches!(
        RomSearch::enumerate(&mut driver, 8),
        Err(Error::MismatchedCrc { .. })
    ));
}

#[test]
fn enumeration_reports_a_pin_fault() {
    let line = SimulatedLine::new();
    line.attach(identifier(0x28, 1), POWER_ON);
    line.fail_after(100);
    let mut driver = drive(line);
    assert_eq!(RomSearch::enumerate(&mut driver, 8), Err(Error::Pin));
}

#[test]
fn next_yields_every_device_once_and_then_nothing() {
    let devices = [identifier(0x28, 10), identifier(0x28, 20), identifier(0x28, 30)];
    let mut driver = bus(&devices);
    let mut cursor = RomSearch::new();
    let mut found = Vec::new();
    while let Some(result) = cursor.next(&mut driver) {
        found.push(result.unwrap().to_u64());
        assert!(found.len() <= devices.len());
    }
    assert_eq!(found, in_search_order(&devices));
    assert!(cursor.is_exhausted());
    let resets = line_of(&driver).resets();
    assert_eq!(cursor.next(&mut driver), None);
    assert_eq!(line_of(&driver).resets(), resets);
}

#[test]
fn every_pass_finds_a_device_not_found_before() {
    let devices: Vec<u64> = (1..=12u64).map(|i| identifier(0x28, i * 0x0101)).collect();
    let mut driver = bus(&devices);
    let mut cursor = RomSearch::new();
    let mut found: Vec<u64> = Vec::new();
    while !cursor.is_exhausted() {
        let rom = cursor.search(&mut driver).unwrap().to_u64();
        assert!(!found.contains(&rom));
        if let Some(last) = found.last() {
            assert!(last.reverse_bits() < rom.reverse_bits());
        }
        found.push(rom);
        assert!(found.len() <= devices.len());
    }
    assert_eq!(found.len(), devices.len());
}

#[test]
fn search_on_an_exhausted_cursor_starts_over() {
    let devices = [identifier(0x28, 10), identifier(0x28, 20)];
    let mut driver = bus(&devices);
    let mut cursor = RomSearch::new();
    let first = cursor.search(&mut driver).unwrap();
    let second = cursor.search(&mut driver).unwrap();
    assert_ne!(first, second);
    assert!(cursor.is_exhausted());
    assert_eq!(cursor.search(&mut driver), Ok(first));
    assert!(!cursor.is_exhausted());
}

#[test]
fn search_as_a_command_leaves_the_cursor_alone() {
    let devices = [identifier(0x28, 10), identifier(0x28, 20)];
    let mut driver = bus(&devices);
    let cursor = RomSearch::default();
    let first = driver.run(cursor).unwrap();
    assert_eq!(first.to_u64(), in_search_order(&devices)[0]);
    assert_eq!(cursor.execute(&mut driver), Ok(first));

    let mut moving = RomSearch::new();
    assert_eq!(moving.search(&mut driver), Ok(first));
    let second = driver.run(moving).unwrap();
    assert_eq!(second.to_u64(), in_search_order(&devices)[1]);
    assert_eq!(driver.run(moving), Ok(second));
}

#[test]
fn search_of_a_single_device_agrees_with_rom_read() {
    let code = identifier(0x28, 0x0000_DEAD_BEEF_0001);
    let mut driver = bus(&[code]);
    let read = driver.run(RomRead).unwrap();
    let searched = driver.run(RomSearch::new()).unwrap();
    assert_eq!(read, searched);
    assert_eq!(read.to_u64(), code);
}

#[test]
fn alarm_search_finds_only_devices_with_an_alarm() {
    let devices = [identifier(0x28, 1), identifier(0x28, 2), identifier(0x28, 3)];
    let line = SimulatedLine::new();
    for rom in devices {
        line.attach(rom, POWER_ON);
    }
    line.set_alarm(1, true);
    let mut driver = drive(line);
    assert_eq!(driver.run(AlarmSearch).unwrap().to_u64(), devices[1]);
}

#[test]
fn alarm_search_without_an_alarm_finds_nobody() {
    let mut driver = bus(&[identifier(0x28, 1)]);
    assert_eq!(driver.run(AlarmSearch), Err(Error::NoAttachedDevices));
}
