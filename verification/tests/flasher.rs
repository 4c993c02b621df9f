use std::cell::RefCell;
use std::rc::Rc;
use std::time::Duration;

use sonixflash::error::Error;
use sonixflash::firmware::{Firmware, Section};
use sonixflash::flasher::{Flasher, RomBank};
use sonixflash::meter::Meter;
use sonixflash::stages::{
    ConnectStage, EraseStage, ReadStage, ResetStage, Step, VerifyStage, Wait, WriteStage,
};
use sonixflash::transport::{check_echo, reset_line_level, same_bytes, ResetType, Transport};

const PAGE: usize = 32;
const FLASH: usize = 0x1000;

const MAGIC: [u8; 121] = [
    0x55, 0x08, 0x29, 0x23, 0xBE, 0x84, 0xE1, 0x6C, 0xD6, 0xAE, 0x52, 0x90, 0x49, 0xF1, 0xF1, 0xBB,
    0xE9, 0xEB, 0xB3, 0xA6, 0xDB, 0x3C, 0x87, 0x0C, 0x3E, 0x99, 0x24, 0x5E, 0x0D, 0x1C, 0x06, 0xB7,
    0x47, 0xDE, 0xB3, 0x12, 0x4D, 0xC8, 0x43, 0xBB, 0x8B, 0xA6, 0x1F, 0x03, 0x5A, 0x7D, 0x09, 0x38,
    0x25, 0x1F, 0x5D, 0xD4, 0xCB, 0xFC, 0x96, 0xF5, 0x45, 0x3B, 0x13, 0x0D, 0x89, 0x0A, 0x1C, 0xDB,
    0xAE, 0x32, 0x20, 0x9A, 0x50, 0xEE, 0x40, 0x78, 0x36, 0xFD, 0x12, 0x49, 0x32, 0xF6, 0x9E, 0x7D,
    0x49, 0xDC, 0xAD, 0x4F, 0x14, 0xF2, 0x44, 0x40, 0x66, 0xD0, 0x6B, 0xC4, 0x30, 0xB7, 0x32, 0x3B,
    0xA1, 0x22, 0xF6, 0x22, 0x91, 0x9D, 0xE1, 0x8B, 0x1F, 0xDA, 0xB0, 0xCA, 0x99, 0x02, 0xB9, 0x72,
    0x9D, 0x49, 0x2C, 0x80, 0x7E, 0x6B, 0x8F, 0xD3, 0x92,
];

#[derive(Clone, Debug, PartialEq, Eq)]
enum Seen {
    Write(Vec<u8>),
    Read(usize),
    Reset(bool),
}

/// A chip as the protocol sees it: it executes the instructions loaded into
/// it and answers what is fetched.
struct Chip {
    seen: Vec<Seen>,
    ram: Vec<u8>,
    xram: Vec<u8>,
    banks: Vec<Vec<u8>>,
    acc: u8,
    dptr: u16,
    loaded: [u8; 3],
    streaming: bool,
    answers: Vec<u8>,
    chip_id: u32,
    status: u16,
    handshake: [u8; 4],
    echo_fails_at: Option<usize>,
    writes: usize,
    mute: bool,
    checks: usize,
    bad_status_at: Option<usize>,
    fetches: usize,
    silent_at: Option<usize>,
}

impl Chip {
    fn new() -> Chip {
        Chip {
            seen: Vec::new(),
            ram: vec![0; 256],
            xram: vec![0; 0x10000],
            banks: vec![vec![0xFF; FLASH], vec![0xFF; FLASH]],
            acc: 0,
            dptr: 0,
            loaded: [0; 3],
            streaming: false,
            answers: Vec::new(),
            chip_id: 0x6216,
            status: 0x015D,
            handshake: [0xFF; 4],
            echo_fails_at: None,
            writes: 0,
            mute: false,
            checks: 0,
            bad_status_at: None,
            fetches: 0,
            silent_at: None,
        }
    }

    fn bank(&self) -> usize {
        (self.xram[0xFFFC] & 1) as usize
    }

    fn execute(&mut self) {
        let [opcode, arg1, arg2] = self.loaded;
        match opcode {
            0x75 => {
                self.ram[arg1 as usize] = arg2;
                if arg1 == 0x94 {
                    self.program(arg2);
                }
            }
            0xE5 => self.acc = self.ram[arg1 as usize],
            0x90 => self.dptr = (arg1 as u16) << 8 | arg2 as u16,
            0x74 => self.acc = arg1,
            0xF0 => self.xram[self.dptr as usize] = self.acc,
            other => panic!("instruction {:02X} is not known to the chip", other),
        }
    }

    fn program(&mut self, command: u8) {
        let bank = self.bank();
        let low = self.ram[0x95];
        match command {
            0x96 => {
                assert_eq!(low, 0x0A);
                self.banks[bank] = vec![0xFF; FLASH];
            }
            0x5A => {
                assert_eq!(low & 0x1F, 0x0A);
                let page = self.ram[0x96] as usize * 8 + (low >> 5) as usize;
                let from = self.ram[0x97] as usize;
                for i in 0..PAGE {
                    self.banks[bank][page * PAGE + i] = self.ram[from + i];
                }
            }
            other => panic!("programming command {:02X} is not known to the chip", other),
        }
    }

    fn frame(&mut self, data: &[u8]) -> usize {
        assert_eq!(data[0], 0x55);
        match data[1] {
            0x08 => {
                assert_eq!(&data[..MAGIC.len()], &MAGIC[..]);
                self.answers.extend_from_slice(&self.handshake.clone());
                MAGIC.len()
            }
            0x21 => 2,
            0xA0 => {
                self.answers.extend_from_slice(&self.chip_id.to_le_bytes());
                2
            }
            0x88 => {
                if self.streaming {
                    let bank = self.bank();
                    if self.silent_at != Some(self.fetches) {
                        self.answers.push(self.banks[bank][self.dptr as usize]);
                    }
                    self.fetches += 1;
                    self.dptr = self.dptr.wrapping_add(1);
                } else {
                    self.answers.push(self.acc);
                }
                2
            }
            0x8B => {
                self.checks += 1;
                let bad = self.bad_status_at == Some(self.checks);
                let status = if bad { 0xBEEF } else { self.status };
                self.answers.extend_from_slice(&status.to_le_bytes());
                2
            }
            0x2A => {
                self.streaming = true;
                2
            }
            0x2B => {
                self.streaming = false;
                2
            }
            0x48 => {
                if data[2] == 0x05 {
                    self.acc = self.xram[self.dptr as usize];
                }
                3
            }
            0x4B => {
                if data[2] == 0x57 {
                    self.execute();
                }
                4
            }
            0x58 => {
                self.loaded = [data[4], data[3], data[2]];
                5
            }
            other => panic!("sub-command {:02X} is not known to the chip", other),
        }
    }
}

/// The transport to a chip that the test keeps a handle on.
struct Wire(Rc<RefCell<Chip>>);

impl Transport for Wire {
    fn write(&mut self, data: &[u8]) -> Result<(), Error> {
        let mut chip = self.0.borrow_mut();
        chip.seen.push(Seen::Write(data.to_vec()));
        chip.writes += 1;
        if chip.echo_fails_at == Some(chip.writes) {
            return Err(Error::WriteReadMismatch);
        }
        let mut at = 0;
        while at < data.len() {
            at += chip.frame(&data[at..]);
        }
        if chip.mute {
            chip.answers.clear();
        }
        Ok(())
    }

    fn read(&mut self, data: &mut [u8]) -> Result<(), Error> {
        let mut chip = self.0.borrow_mut();
        chip.seen.push(Seen::Read(data.len()));
        if chip.answers.len() < data.len() {
            return Err(Error::IOError(std::io::Error::from(std::io::ErrorKind::TimedOut)));
        }
        for byte in data.iter_mut() {
            *byte = chip.answers.remove(0);
        }
        Ok(())
    }

    fn set_reset(&mut self, level: bool) -> Result<(), Error> {
        self.0.borrow_mut().seen.push(Seen::Reset(level));
        Ok(())
    }

    fn set_timeout(&mut self, _value: Duration) -> Result<(), Error> {
        Ok(())
    }

    fn timeout(&self) -> Result<Duration, Error> {
        Ok(Duration::from_millis(50))
    }
}

fn bench() -> (Rc<RefCell<Chip>>, Flasher<Wire>) {
    let chip = Rc::new(RefCell::new(Chip::new()));
    let flasher = Flasher::new(Wire(chip.clone()));
    (chip, flasher)
}

fn millis(all: &[u64]) -> Vec<Wait> {
    all.iter().map(|m| Wait::Millis(*m)).collect()
}

fn written(chip: &Rc<RefCell<Chip>>) -> Vec<Vec<u8>> {
    chip.borrow()
        .seen
        .iter()
        .filter_map(|s| match s {
            Seen::Write(data) => Some(data.clone()),
            _ => None,
        })
        .collect()
}

fn exec_op(opcode: u8, arg1: u8, arg2: u8) -> Vec<Vec<u8>> {
    vec![
        vec![0x55, 0x48, 0x86],
        vec![0x55, 0x58, arg2, arg1, opcode],
        vec![0x55, 0x48, 0x80],
        vec![0x55, 0x4B, 0x57, 0x01],
    ]
}

fn write_xram(address: u16, data: u8) -> Vec<Vec<u8>> {
    let mut frames = exec_op(0x90, (address >> 8) as u8, address as u8);
    frames.extend(exec_op(0x74, data, 0x00));
    frames.extend(exec_op(0xF0, 0x00, 0x00));
    frames
}

fn read_xram(address: u16) -> Vec<Vec<u8>> {
    let mut frames = exec_op(0x90, (address >> 8) as u8, address as u8);
    for arg in [0x88, 0x05, 0x88, 0x00, 0x83] {
        frames.push(vec![0x55, 0x48, arg]);
    }
    frames.push(vec![0x55, 0x88]);
    frames
}

fn pre1() -> Vec<Vec<u8>> {
    let mut frames = write_xram(0xFFFC, 0);
    frames.extend(exec_op(0x75, 0x97, 0x00));
    frames.extend(exec_op(0x75, 0x96, 0x00));
    frames.extend(exec_op(0x75, 0x95, 0x00));
    frames.push(vec![0x55, 0x48, 0x80]);
    frames.push(vec![0x55, 0x4B, 0x75, 0x01]);
    frames
}

fn pre2() -> Vec<Vec<u8>> {
    let mut frames = vec![vec![0x55, 0x48, 0x80], vec![0x55, 0x4B, 0x55, 0x01]];
    frames.extend(write_xram(0xFFF8, 0xC3));
    frames.extend(write_xram(0xFFFB, 0xC3));
    frames
}

fn post1() -> Vec<Vec<u8>> {
    vec![vec![0x55, 0x48, 0x80], vec![0x55, 0x4B, 0x75, 0x01]]
}

fn connect(flasher: &mut Flasher<Wire>) -> Result<(u32, Vec<Wait>), Error> {
    let mut stage = ConnectStage::Assert;
    let mut waits = Vec::new();
    loop {
        match flasher.connect(stage)? {
            Step::Pause { wait, next } => {
                waits.push(wait);
                stage = next;
            }
            Step::Done(id) => return Ok((id, waits)),
        }
    }
}

fn erase(flasher: &mut Flasher<Wire>) -> Result<Vec<Wait>, Error> {
    let mut stage = EraseStage::Arm;
    let mut waits = Vec::new();
    loop {
        match flasher.erase_flash(stage)? {
            Step::Pause { wait, next } => {
                waits.push(wait);
                stage = next;
            }
            Step::Done(()) => return Ok(waits),
        }
    }
}

fn write(
    flasher: &mut Flasher<Wire>,
    firmware: &Firmware,
    progress: &dyn Fn(u64),
) -> Result<Vec<Wait>, Error> {
    let mut stage = WriteStage::Arm;
    let mut waits = Vec::new();
    let mut meter = Meter::new(progress);
    loop {
        match flasher.write_flash(firmware, &mut meter, stage)? {
            Step::Pause { wait, next } => {
                waits.push(wait);
                stage = next;
            }
            Step::Done(()) => return Ok(waits),
        }
    }
}

fn verify(
    flasher: &mut Flasher<Wire>,
    firmware: &Firmware,
    progress: &dyn Fn(u64),
) -> Result<Vec<Wait>, Error> {
    let mut stage = VerifyStage::Arm;
    let mut waits = Vec::new();
    let mut meter = Meter::new(progress);
    loop {
        match flasher.verify_flash(firmware, &mut meter, stage)? {
            Step::Pause { wait, next } => {
                waits.push(wait);
                stage = next;
            }
            Step::Done(()) => return Ok(waits),
        }
    }
}

fn read(
    flasher: &mut Flasher<Wire>,
    offset: u16,
    data: &mut [u8],
    progress: &dyn Fn(u64),
) -> Result<Vec<Wait>, Error> {
    let mut stage = ReadStage::Arm;
    let mut waits = Vec::new();
    let mut meter = Meter::new(progress);
    loop {
        match flasher.read_flash(offset, data, &mut meter, stage)? {
            Step::Pause { wait, next } => {
                waits.push(wait);
                stage = next;
            }
            Step::Done(()) => return Ok(waits),
        }
    }
}

fn image() -> Firmware {
    let mut data = Vec::new();
    for i in 0..70u32 {
        data.push((i * 7 % 251) as u8);
    }
    Firmware::from_raw_bytes(data, PAGE, 0x45).unwrap()
}

#[test]
fn new_flasher_has_the_usual_settings() {
    let (_, flasher) = bench();
    assert!(flasher.final_reset());
    assert_eq!(flasher.reset_duration_ms(), 10);
    assert_eq!(flasher.connect_duration_us(), 1666);
    assert_eq!(flasher.rom_bank(), RomBank::Main);
    assert!(!flasher.dangerous_allow_write_non_main_bank());
    assert!(!flasher.needs_final_reset());
}

#[test]
fn settings_can_be_changed() {
    let (_, mut flasher) = bench();
    flasher.set_final_reset(false);
    flasher.set_reset_duration_ms(3);
    flasher.set_connect_duration_us(7);
    flasher.set_rom_bank(RomBank::Boot);
    flasher.set_dangerous_allow_write_non_main_bank(true);
    assert!(!flasher.final_reset());
    assert_eq!(flasher.reset_duration_ms(), 3);
    assert_eq!(flasher.connect_duration_us(), 7);
    assert_eq!(flasher.rom_bank(), RomBank::Boot);
    assert!(flasher.dangerous_allow_write_non_main_bank());
}

#[test]
fn reset_pulls_the_line_waits_and_lets_go() {
    let (chip, mut flasher) = bench();
    flasher.set_reset_duration_ms(25);
    let step = flasher.reset(ResetStage::Assert).unwrap();
    assert_eq!(step, Step::Pause { wait: Wait::Millis(25), next: ResetStage::Release });
    assert_eq!(chip.borrow().seen, vec![Seen::Reset(true)]);
    let step = flasher.reset(ResetStage::Release).unwrap();
    assert_eq!(step, Step::Done(()));
    assert_eq!(chip.borrow().seen, vec![Seen::Reset(true), Seen::Reset(false)]);
}

#[test]
fn connect_shakes_hands_and_identifies_the_chip() {
    let (chip, mut flasher) = bench();
    chip.borrow_mut().chip_id = 0x1234_5678;
    let (id, waits) = connect(&mut flasher).unwrap();
    assert_eq!(id, 0x1234_5678);
    assert_eq!(waits, vec![Wait::Millis(10), Wait::Micros(1666)]);
    assert_eq!(
        chip.borrow().seen,
        vec![
            Seen::Reset(true),
            Seen::Reset(false),
            Seen::Write(MAGIC.to_vec()),
            Seen::Read(4),
            Seen::Write(vec![0x55, 0x21]),
            Seen::Write(vec![0x55, 0xA0]),
            Seen::Read(4),
            Seen::Write(vec![0x55, 0x2B]),
        ]
    );
    assert!(flasher.needs_final_reset());
}

#[test]
fn reset_ends_the_connection() {
    let (_, mut flasher) = bench();
    connect(&mut flasher).unwrap();
    assert!(flasher.needs_final_reset());
    flasher.reset(ResetStage::Assert).unwrap();
    assert!(!flasher.needs_final_reset());
}

#[test]
fn no_final_reset_is_owed_where_none_is_asked_for() {
    let (_, mut flasher) = bench();
    connect(&mut flasher).unwrap();
    flasher.set_final_reset(false);
    assert!(!flasher.needs_final_reset());
}

#[test]
fn handshake_that_is_not_accepted_ends_connecting() {
    let (chip, mut flasher) = bench();
    chip.borrow_mut().handshake = [0xFF, 0xFF, 0x00, 0xFF];
    let err = connect(&mut flasher).unwrap_err();
    assert!(matches!(err, Error::HandshakeResponseMismatch([0xFF, 0xFF, 0x00, 0xFF])));
    assert_eq!(
        chip.borrow().seen,
        vec![
            Seen::Reset(true),
            Seen::Reset(false),
            Seen::Write(MAGIC.to_vec()),
            Seen::Read(4),
        ]
    );
    assert!(!flasher.needs_final_reset());
}

#[test]
fn chip_id_is_fetched_lowest_byte_first() {
    let (chip, mut flasher) = bench();
    chip.borrow_mut().chip_id = 0x0102_0304;
    assert_eq!(flasher.chip_id().unwrap(), 0x0102_0304);
    assert_eq!(
        written(&chip),
        vec![vec![0x55, 0x21], vec![0x55, 0xA0], vec![0x55, 0x2B]]
    );
}

#[test]
fn erase_runs_its_stages_with_the_settle_times() {
    let (chip, mut flasher) = bench();
    chip.borrow_mut().banks[0][5] = 0x12;
    chip.borrow_mut().xram[0xFFFC] = 0;
    let waits = erase(&mut flasher).unwrap();
    assert_eq!(waits, millis(&[15, 15, 15, 15, 15, 15, 15]));
    assert!(chip.borrow().banks[0].iter().all(|b| *b == 0xFF));
    assert_eq!(chip.borrow().xram[0xFFF8], 0xC3);
    assert_eq!(chip.borrow().xram[0xFFFB], 0xC3);
    let mut expected = pre1();
    expected.extend(pre2());
    expected.extend(read_xram(0xFFFC));
    expected.extend(write_xram(0xFFFC, 0));
    expected.extend(exec_op(0x75, 0x95, 0x0A));
    expected.extend(exec_op(0x75, 0x94, 0x96));
    expected.push(vec![0x55, 0x48, 0x81]);
    expected.push(vec![0x55, 0x8B]);
    expected.extend(write_xram(0xFFFC, 0));
    expected.extend(write_xram(0xFFF8, 0x5A));
    expected.extend(write_xram(0xFFFB, 0xA5));
    expected.extend(post1());
    expected.extend(pre2());
    assert_eq!(written(&chip), expected);
}

#[test]
fn erase_stage_by_stage() {
    let (_, mut flasher) = bench();
    assert_eq!(
        flasher.erase_flash(EraseStage::Arm).unwrap(),
        Step::Pause { wait: Wait::Millis(15), next: EraseStage::Unlock }
    );
    assert_eq!(
        flasher.erase_flash(EraseStage::Unlock).unwrap(),
        Step::Pause { wait: Wait::Millis(15), next: EraseStage::Erase }
    );
    assert_eq!(
        flasher.erase_flash(EraseStage::Erase).unwrap(),
        Step::Pause { wait: Wait::Millis(15), next: EraseStage::Check { restore: 0 } }
    );
    assert_eq!(
        flasher.erase_flash(EraseStage::Check { restore: 7 }).unwrap(),
        Step::Pause { wait: Wait::Millis(15), next: EraseStage::Reload { restore: 7 } }
    );
    assert_eq!(
        flasher.erase_flash(EraseStage::Reload { restore: 7 }).unwrap(),
        Step::Pause { wait: Wait::Millis(15), next: EraseStage::Rearm }
    );
    assert_eq!(
        flasher.erase_flash(EraseStage::Rearm).unwrap(),
        Step::Pause { wait: Wait::Millis(15), next: EraseStage::Restore }
    );
    assert_eq!(
        flasher.erase_flash(EraseStage::Restore).unwrap(),
        Step::Pause { wait: Wait::Millis(15), next: EraseStage::End }
    );
    assert_eq!(flasher.erase_flash(EraseStage::End).unwrap(), Step::Done(()));
}

#[test]
fn erase_of_another_bank_is_refused() {
    let (chip, mut flasher) = bench();
    flasher.set_rom_bank(RomBank::Boot);
    let err = erase(&mut flasher).unwrap_err();
    assert!(matches!(err, Error::NonMainBankErase));
    assert!(chip.borrow().seen.is_empty());
    assert!(matches!(
        flasher.erase_flash(EraseStage::Erase),
        Err(Error::NonMainBankErase)
    ));
    assert!(chip.borrow().seen.is_empty());
}

#[test]
fn erase_of_another_bank_can_be_allowed() {
    let (chip, mut flasher) = bench();
    flasher.set_rom_bank(RomBank::Boot);
    flasher.set_dangerous_allow_write_non_main_bank(true);
    chip.borrow_mut().banks[0][0] = 0x11;
    chip.borrow_mut().banks[1][0] = 0x22;
    erase(&mut flasher).unwrap();
    assert_eq!(chip.borrow().banks[0][0], 0x11);
    assert_eq!(chip.borrow().banks[1][0], 0xFF);
    assert_eq!(chip.borrow().xram[0xFFFC], 0);
}

#[test]
fn erase_that_is_not_found_finished_fails_with_the_status() {
    let (chip, mut flasher) = bench();
    chip.borrow_mut().status = 0xBEEF;
    let err = erase(&mut flasher).unwrap_err();
    assert!(matches!(err, Error::WriteCheckError(0xBEEF)));
    let last = written(&chip).pop().unwrap();
    assert_eq!(last, vec![0x55, 0x8B]);
}

#[test]
fn write_of_another_bank_is_refused() {
    let (chip, mut flasher) = bench();
    flasher.set_rom_bank(RomBank::Boot);
    let err = write(&mut flasher, &image(), &|_| panic!("nothing was written")).unwrap_err();
    assert!(matches!(err, Error::NonMainBankWrite));
    assert!(chip.borrow().seen.is_empty());
}

#[test]
fn refused_write_reports_nothing_at_any_stage() {
    let (chip, mut flasher) = bench();
    flasher.set_rom_bank(RomBank::Boot);
    let firmware = image();
    let mut meter = Meter::new(|_: u64| panic!("nothing was written"));
    let stages = [
        WriteStage::Arm,
        WriteStage::Unlock,
        WriteStage::Select,
        WriteStage::Check { restore: 0, section: 0, start: 0 },
        WriteStage::Report { restore: 0, section: 0, start: 0 },
        WriteStage::Restore,
        WriteStage::End,
    ];
    for stage in stages {
        let err = flasher.write_flash(&firmware, &mut meter, stage).unwrap_err();
        assert!(matches!(err, Error::NonMainBankWrite));
    }
    assert!(chip.borrow().seen.is_empty());
}

#[test]
fn meter_hands_each_count_to_the_sink() {
    let seen = RefCell::new(Vec::new());
    let mut meter = Meter::new(|n: u64| seen.borrow_mut().push(n));
    assert!(seen.borrow().is_empty());
    meter.report(5);
    meter.report(0);
    meter.report(u64::MAX);
    assert_eq!(*seen.borrow(), vec![5, 0, u64::MAX]);
}

#[test]
fn flasher_is_idle_between_operations() {
    let (chip, mut flasher) = bench();
    assert!(flasher.is_idle());
    connect(&mut flasher).unwrap();
    assert!(flasher.is_idle());
    write(&mut flasher, &image(), &|_| {}).unwrap();
    assert!(flasher.is_idle());
    let next = chip.borrow().writes + 1;
    chip.borrow_mut().echo_fails_at = Some(next);
    erase(&mut flasher).unwrap_err();
    assert!(flasher.is_idle());
    let check = chip.borrow().checks + 1;
    chip.borrow_mut().bad_status_at = Some(check);
    write(&mut flasher, &image(), &|_| {}).unwrap_err();
    assert!(flasher.is_idle());
}

/// The numbers, counted from one, of the writes that carry a whole page.
fn page_writes(firmware: &Firmware) -> Vec<usize> {
    let (chip, mut flasher) = bench();
    write(&mut flasher, firmware, &|_| {}).unwrap();
    let all = written(&chip);
    (0..all.len()).filter(|i| all[*i].len() > 5).map(|i| i + 1).collect()
}

#[test]
fn echo_mismatch_in_a_page_write_reports_the_pages_before_it() {
    let firmware = image();
    let pages = page_writes(&firmware);
    assert_eq!(pages.len(), 3);
    for (before, failing) in pages.iter().enumerate() {
        let (chip, mut flasher) = bench();
        chip.borrow_mut().echo_fails_at = Some(*failing);
        let reported = RefCell::new(Vec::new());
        let err = write(&mut flasher, &firmware, &|n| reported.borrow_mut().push(n)).unwrap_err();
        assert!(matches!(err, Error::WriteReadMismatch));
        assert_eq!(*reported.borrow(), vec![32u64; before]);
        assert_eq!(chip.borrow().writes, *failing);
    }
}

#[test]
fn echo_mismatch_in_front_of_the_pages_reports_nothing() {
    let firmware = image();
    let first = page_writes(&firmware)[0];
    for failing in [1, 2, first / 2, first - 1] {
        let (chip, mut flasher) = bench();
        chip.borrow_mut().echo_fails_at = Some(failing);
        let err = write(&mut flasher, &firmware, &|_| panic!("no page was written")).unwrap_err();
        assert!(matches!(err, Error::WriteReadMismatch));
        assert_eq!(chip.borrow().writes, failing);
    }
}

#[test]
fn bad_status_leaves_the_reports_of_the_pages_before_it() {
    let firmware = image();
    for bad in 1..=3usize {
        let (chip, mut flasher) = bench();
        chip.borrow_mut().bad_status_at = Some(bad);
        let reported = RefCell::new(Vec::new());
        let err = write(&mut flasher, &firmware, &|n| reported.borrow_mut().push(n)).unwrap_err();
        assert!(matches!(err, Error::WriteCheckError(0xBEEF)));
        assert_eq!(*reported.borrow(), vec![32u64; bad - 1]);
        assert_eq!(chip.borrow().checks, bad);
        let last = written(&chip).pop().unwrap();
        assert_eq!(last, vec![0x55, 0x8B]);
    }
}

#[test]
fn write_reports_add_up_to_the_image() {
    for (bytes, base) in [(1usize, 0usize), (32, 0), (33, 31), (200, 0x100), (64, 0x7)] {
        let firmware = Firmware::from_raw_bytes(vec![0x3C; bytes], PAGE, base).unwrap();
        let (_, mut flasher) = bench();
        let reported = RefCell::new(Vec::new());
        write(&mut flasher, &firmware, &|n| reported.borrow_mut().push(n)).unwrap();
        let total: usize = firmware.sections().iter().map(|s| s.len()).sum();
        assert!(reported.borrow().iter().all(|n| *n == 32));
        assert_eq!(reported.borrow().iter().sum::<u64>(), total as u64);
    }
}

#[test]
fn write_puts_every_page_into_the_flash() {
    let (chip, mut flasher) = bench();
    let firmware = image();
    let reported = RefCell::new(Vec::new());
    let waits = write(&mut flasher, &firmware, &|n| reported.borrow_mut().push(n)).unwrap();
    assert_eq!(waits, millis(&[15, 15, 5, 5, 5, 5, 5, 5, 15, 15]));
    assert_eq!(*reported.borrow(), vec![32, 32, 32]);
    let flash = chip.borrow().banks[0].clone();
    assert_eq!(firmware.sections().len(), 1);
    let section = &firmware.sections()[0];
    assert_eq!(section.offset(), 0x40);
    assert_eq!(section.len(), 96);
    assert_eq!(&flash[0x40..0x40 + 96], section.data());
    assert!(flash[..0x40].iter().all(|b| *b == 0xFF));
    assert!(flash[0x40 + 96..].iter().all(|b| *b == 0xFF));
}

#[test]
fn page_write_goes_out_as_one_write() {
    let (chip, mut flasher) = bench();
    let firmware = Firmware::from_raw_bytes(vec![0xA5; 32], PAGE, 9 * 32).unwrap();
    let step = flasher.write_flash(&firmware, &mut Meter::new(|_| {}), WriteStage::Select).unwrap();
    assert_eq!(
        step,
        Step::Pause {
            wait: Wait::Millis(5),
            next: WriteStage::Check { restore: 0, section: 0, start: 0 }
        }
    );
    let mut expected = Vec::new();
    for i in 0..32u8 {
        for frame in exec_op(0x75, i, 0xA5) {
            expected.extend(frame);
        }
    }
    for frame in exec_op(0x75, 0x97, 0x00) {
        expected.extend(frame);
    }
    for frame in exec_op(0x75, 0x96, 1) {
        expected.extend(frame);
    }
    for frame in exec_op(0x75, 0x95, (1 << 5) | 0x0A) {
        expected.extend(frame);
    }
    for frame in exec_op(0x75, 0x94, 0x5A) {
        expected.extend(frame);
    }
    let last = written(&chip).pop().unwrap();
    assert_eq!(last, expected);
    assert_eq!(&chip.borrow().banks[0][9 * 32..10 * 32], &[0xA5; 32]);
}

#[test]
fn write_of_an_image_without_pages_only_enters_and_leaves() {
    let (chip, mut flasher) = bench();
    let firmware = Firmware::from_raw_bytes(Vec::new(), PAGE, 0).unwrap();
    let waits = write(&mut flasher, &firmware, &|_| panic!("no page was written")).unwrap();
    assert_eq!(waits, millis(&[15, 15, 15, 15]));
    let mut expected = pre1();
    expected.extend(pre2());
    expected.extend(read_xram(0xFFFC));
    expected.extend(write_xram(0xFFFC, 0));
    expected.extend(write_xram(0xFFFC, 0));
    expected.extend(post1());
    expected.extend(pre2());
    assert_eq!(written(&chip), expected);
}

#[test]
fn write_that_is_not_found_finished_stops_at_once() {
    let (chip, mut flasher) = bench();
    chip.borrow_mut().status = 0x0000;
    let reported = RefCell::new(Vec::new());
    let err = write(&mut flasher, &image(), &|n| reported.borrow_mut().push(n)).unwrap_err();
    assert!(matches!(err, Error::WriteCheckError(0)));
    assert!(reported.borrow().is_empty());
    let last = written(&chip).pop().unwrap();
    assert_eq!(last, vec![0x55, 0x8B]);
}

#[test]
fn verify_after_write_finds_nothing() {
    let (_, mut flasher) = bench();
    let firmware = image();
    connect(&mut flasher).unwrap();
    erase(&mut flasher).unwrap();
    write(&mut flasher, &firmware, &|_| {}).unwrap();
    let seen = RefCell::new(0u64);
    let waits = verify(&mut flasher, &firmware, &|n| *seen.borrow_mut() += n).unwrap();
    assert_eq!(waits, millis(&[15, 15, 15, 15]));
    assert_eq!(*seen.borrow(), 96);
}

#[test]
fn verify_reports_one_for_each_byte() {
    let (chip, mut flasher) = bench();
    let text = ":02000000AABB99\n:0100410011AD\n:00000001FF\n";
    let firmware = Firmware::from_intel_hex(text.as_bytes().to_vec(), 2, 0).unwrap();
    let seen = RefCell::new(Vec::new());
    let err = verify(&mut flasher, &firmware, &|n| seen.borrow_mut().push(n)).unwrap_err();
    assert!(matches!(err, Error::VerifyMismatch(_)));
    assert_eq!(*seen.borrow(), vec![1u64; 4]);
    assert_eq!(chip.borrow().fetches, 4);
}

#[test]
fn verify_that_breaks_off_has_reported_the_bytes_it_got() {
    let text = ":02000000AABB99\n:0100410011AD\n:00000001FF\n";
    let firmware = Firmware::from_intel_hex(text.as_bytes().to_vec(), 2, 0).unwrap();
    for got in 0..4usize {
        let (chip, mut flasher) = bench();
        chip.borrow_mut().silent_at = Some(got);
        let seen = RefCell::new(Vec::new());
        let err = verify(&mut flasher, &firmware, &|n| seen.borrow_mut().push(n)).unwrap_err();
        assert!(matches!(err, Error::IOError(_)));
        assert_eq!(*seen.borrow(), vec![1u64; got]);
        assert!(matches!(chip.borrow().seen.last(), Some(Seen::Read(1))));
    }
}

#[test]
fn read_that_breaks_off_has_reported_the_bytes_it_got() {
    for got in [0usize, 1, 6, 9] {
        let (chip, mut flasher) = bench();
        for i in 0..FLASH {
            chip.borrow_mut().banks[0][i] = (i % 253) as u8;
        }
        chip.borrow_mut().silent_at = Some(got);
        let mut data = vec![0xEEu8; 10];
        let seen = RefCell::new(Vec::new());
        let err = read(&mut flasher, 0x20, &mut data, &|n| seen.borrow_mut().push(n)).unwrap_err();
        assert!(matches!(err, Error::IOError(_)));
        assert_eq!(*seen.borrow(), vec![1u64; got]);
        let fetched: Vec<u8> = (0x20..0x20 + got).map(|i| (i % 253) as u8).collect();
        assert_eq!(&data[..got], &fetched[..]);
    }
}

#[test]
fn read_whose_request_is_not_echoed_has_reported_the_bytes_it_got() {
    let (clean, mut flasher) = bench();
    let mut data = vec![0u8; 4];
    read(&mut flasher, 0, &mut data, &|_| {}).unwrap();
    let all = written(&clean);
    let fetches: Vec<usize> =
        (0..all.len()).filter(|i| all[*i] == vec![0x55, 0x88]).map(|i| i + 1).collect();
    let streamed = &fetches[fetches.len() - 4..];
    for (got, failing) in streamed.iter().enumerate() {
        let (chip, mut flasher) = bench();
        chip.borrow_mut().echo_fails_at = Some(*failing);
        let seen = RefCell::new(Vec::new());
        let err = read(&mut flasher, 0, &mut data, &|n| seen.borrow_mut().push(n)).unwrap_err();
        assert!(matches!(err, Error::WriteReadMismatch));
        assert_eq!(*seen.borrow(), vec![1u64; got]);
    }
}

#[test]
fn read_reports_nothing_outside_the_transfer() {
    let (_, mut flasher) = bench();
    let mut data = vec![0u8; 4];
    let mut meter = Meter::new(|_: u64| panic!("no byte was fetched"));
    for stage in [ReadStage::Arm, ReadStage::Unlock, ReadStage::Rearm, ReadStage::Restore, ReadStage::End] {
        flasher.read_flash(0, &mut data, &mut meter, stage).unwrap();
    }
}

#[test]
fn verify_finds_every_byte_that_differs() {
    let (chip, mut flasher) = bench();
    let firmware = image();
    write(&mut flasher, &firmware, &|_| {}).unwrap();
    chip.borrow_mut().banks[0][0x47] ^= 0x01;
    chip.borrow_mut().banks[0][0x40] ^= 0x80;
    chip.borrow_mut().banks[0][0x9F] ^= 0x10;
    let before = written(&chip).len();
    let err = verify(&mut flasher, &firmware, &|_| {}).unwrap_err();
    match err {
        Error::VerifyMismatch(offsets) => assert_eq!(offsets, vec![0x40, 0x47, 0x9F]),
        other => panic!("unexpected error {:?}", other),
    }
    let since: Vec<Vec<u8>> = written(&chip).split_off(before);
    let armed = since.iter().filter(|frame| **frame == vec![0x55, 0x4B, 0x75, 0x01]).count();
    assert_eq!(armed, 1);
    let unlocked = since.iter().filter(|frame| **frame == vec![0x55, 0x4B, 0x55, 0x01]).count();
    assert_eq!(unlocked, 1);
}

#[test]
fn verify_that_finds_nothing_leaves_programming_mode() {
    let (chip, mut flasher) = bench();
    let firmware = image();
    write(&mut flasher, &firmware, &|_| {}).unwrap();
    let before = written(&chip).len();
    verify(&mut flasher, &firmware, &|_| {}).unwrap();
    let since: Vec<Vec<u8>> = written(&chip).split_off(before);
    let armed = since.iter().filter(|frame| **frame == vec![0x55, 0x4B, 0x75, 0x01]).count();
    assert_eq!(armed, 2);
    let unlocked = since.iter().filter(|frame| **frame == vec![0x55, 0x4B, 0x55, 0x01]).count();
    assert_eq!(unlocked, 2);
}

#[test]
fn verify_of_several_sections() {
    let (chip, mut flasher) = bench();
    let text = ":02000000AABB99\n:0100410011AD\n:00000001FF\n";
    let firmware = Firmware::from_intel_hex(text.as_bytes().to_vec(), 2, 0).unwrap();
    assert_eq!(
        firmware.sections(),
        &[Section::new(0, vec![0xAA, 0xBB]), Section::new(0x40, vec![0xFF, 0x11])]
    );
    chip.borrow_mut().banks[0][0] = 0xAA;
    chip.borrow_mut().banks[0][1] = 0xBB;
    chip.borrow_mut().banks[0][0x41] = 0x10;
    let err = verify(&mut flasher, &firmware, &|_| {}).unwrap_err();
    assert!(matches!(err, Error::VerifyMismatch(ref offsets) if offsets == &vec![0x41]));
    chip.borrow_mut().banks[0][0x41] = 0x11;
    verify(&mut flasher, &firmware, &|_| {}).unwrap();
}

#[test]
fn read_fetches_the_flash_byte_by_byte() {
    let (chip, mut flasher) = bench();
    for i in 0..FLASH {
        chip.borrow_mut().banks[0][i] = (i % 253) as u8;
    }
    chip.borrow_mut().ram[0x8E] = 0x33;
    chip.borrow_mut().ram[0x82] = 0x44;
    let mut data = vec![0u8; 10];
    let seen = RefCell::new(Vec::new());
    let waits = read(&mut flasher, 0x0123, &mut data, &|n| seen.borrow_mut().push(n)).unwrap();
    assert_eq!(waits, millis(&[15, 15, 15, 15, 15]));
    let expected: Vec<u8> = (0x123..0x123 + 10).map(|i| (i % 253) as u8).collect();
    assert_eq!(data, expected);
    assert_eq!(*seen.borrow(), vec![1; 10]);
    assert_eq!(chip.borrow().ram[0x8E], 0x33);
    assert_eq!(chip.borrow().ram[0x82], 0x44);
    assert_eq!(chip.borrow().ram[0x92], 0x00);
}

#[test]
fn read_of_the_other_bank() {
    let (chip, mut flasher) = bench();
    chip.borrow_mut().banks[1][0] = 0x5A;
    chip.borrow_mut().banks[0][0] = 0xA5;
    flasher.set_rom_bank(RomBank::Boot);
    let mut data = vec![0u8; 1];
    read(&mut flasher, 0, &mut data, &|_| {}).unwrap();
    assert_eq!(data, vec![0x5A]);
    assert_eq!(chip.borrow().xram[0xFFFC], 0);
}

#[test]
fn read_leaves_the_buffer_alone_outside_the_transfer() {
    let (_, mut flasher) = bench();
    let mut data = vec![7u8; 4];
    flasher.read_flash(0, &mut data, &mut Meter::new(|_| {}), ReadStage::Arm).unwrap();
    flasher.read_flash(0, &mut data, &mut Meter::new(|_| {}), ReadStage::Restore).unwrap();
    assert_eq!(flasher.read_flash(0, &mut data, &mut Meter::new(|_| {}), ReadStage::End).unwrap(), Step::Done(()));
    assert_eq!(data, vec![7u8; 4]);
}

#[test]
fn echo_mismatch_ends_the_operation_at_that_write() {
    for failing in [1usize, 2, 5, 40, 77] {
        let (chip, mut flasher) = bench();
        chip.borrow_mut().echo_fails_at = Some(failing);
        let err = erase(&mut flasher).unwrap_err();
        assert!(matches!(err, Error::WriteReadMismatch));
        assert_eq!(chip.borrow().writes, failing);
        assert!(matches!(chip.borrow().seen.last(), Some(Seen::Write(_))));
    }
}

#[test]
fn echo_mismatch_during_connect_and_write() {
    let (chip, mut flasher) = bench();
    chip.borrow_mut().echo_fails_at = Some(1);
    let err = connect(&mut flasher).unwrap_err();
    assert!(matches!(err, Error::WriteReadMismatch));
    assert_eq!(
        chip.borrow().seen,
        vec![Seen::Reset(true), Seen::Reset(false), Seen::Write(MAGIC.to_vec())]
    );
    assert!(!flasher.needs_final_reset());

    let (chip, mut flasher) = bench();
    chip.borrow_mut().echo_fails_at = Some(3);
    let err = connect(&mut flasher).unwrap_err();
    assert!(matches!(err, Error::WriteReadMismatch));
    assert_eq!(chip.borrow().writes, 3);
    assert!(flasher.needs_final_reset());

    let (chip, mut flasher) = bench();
    let pages = RefCell::new(0);
    chip.borrow_mut().echo_fails_at =
        Some(pre1().len() + pre2().len() + read_xram(0xFFFC).len() + write_xram(0xFFFC, 0).len() + 1);
    let err = write(&mut flasher, &image(), &|_| *pages.borrow_mut() += 1).unwrap_err();
    assert!(matches!(err, Error::WriteReadMismatch));
    assert_eq!(*pages.borrow(), 0);
    assert!(chip.borrow().banks[0].iter().all(|b| *b == 0xFF));
}

#[test]
fn read_failure_ends_the_operation() {
    let (chip, mut flasher) = bench();
    chip.borrow_mut().mute = true;
    let err = connect(&mut flasher).unwrap_err();
    assert!(matches!(err, Error::IOError(_)));
    assert_eq!(
        chip.borrow().seen,
        vec![
            Seen::Reset(true),
            Seen::Reset(false),
            Seen::Write(MAGIC.to_vec()),
            Seen::Read(4),
        ]
    );

    let (chip, mut flasher) = bench();
    chip.borrow_mut().mute = true;
    let mut data = vec![0x77u8; 4];
    let err = read(&mut flasher, 0, &mut data, &|_| panic!("no byte came")).unwrap_err();
    assert!(matches!(err, Error::IOError(_)));
    assert!(matches!(chip.borrow().seen.last(), Some(Seen::Read(1))));
    assert_eq!(data, vec![0x77u8; 4]);
}

#[test]
fn reset_line_follows_the_wiring() {
    assert!(reset_line_level(true, false));
    assert!(!reset_line_level(false, false));
    assert!(!reset_line_level(true, true));
    assert!(reset_line_level(false, true));
    assert_ne!(ResetType::Rts, ResetType::Dtr);
}

#[test]
fn echo_is_held_against_what_was_sent() {
    assert!(check_echo(&[1, 2, 3], &[1, 2, 3]).is_ok());
    assert!(check_echo(&[], &[]).is_ok());
    assert!(matches!(check_echo(&[1, 2, 3], &[1, 2, 4]), Err(Error::WriteReadMismatch)));
    assert!(matches!(check_echo(&[1, 2, 3], &[1, 2]), Err(Error::WriteReadMismatch)));
    assert!(same_bytes(&[9, 8], &[9, 8]));
    assert!(!same_bytes(&[9, 8], &[8, 9]));
    assert!(!same_bytes(&[9], &[9, 9]));
}

#[test]
fn connect_stage_by_stage() {
    let (chip, mut flasher) = bench();
    flasher.set_reset_duration_ms(3);
    flasher.set_connect_duration_us(700);
    assert_eq!(
        flasher.connect(ConnectStage::Assert).unwrap(),
        Step::Pause { wait: Wait::Millis(3), next: ConnectStage::Release }
    );
    assert_eq!(
        flasher.connect(ConnectStage::Release).unwrap(),
        Step::Pause { wait: Wait::Micros(700), next: ConnectStage::Handshake }
    );
    chip.borrow_mut().chip_id = 0x8410;
    assert_eq!(flasher.connect(ConnectStage::Handshake).unwrap(), Step::Done(0x8410));
}

#[test]
fn write_stage_by_stage() {
    let (_, mut flasher) = bench();
    let firmware = Firmware::from_raw_bytes(vec![1; 40], PAGE, 0).unwrap();
    let reported = RefCell::new(Vec::new());
    let mut meter = Meter::new(|n: u64| reported.borrow_mut().push(n));
    assert_eq!(
        flasher.write_flash(&firmware, &mut meter, WriteStage::Arm).unwrap(),
        Step::Pause { wait: Wait::Millis(15), next: WriteStage::Unlock }
    );
    assert_eq!(
        flasher.write_flash(&firmware, &mut meter, WriteStage::Unlock).unwrap(),
        Step::Pause { wait: Wait::Millis(15), next: WriteStage::Select }
    );
    let first = WriteStage::Check { restore: 0, section: 0, start: 0 };
    assert_eq!(
        flasher.write_flash(&firmware, &mut meter, WriteStage::Select).unwrap(),
        Step::Pause { wait: Wait::Millis(5), next: first }
    );
    assert_eq!(
        flasher.write_flash(&firmware, &mut meter, first).unwrap(),
        Step::Pause {
            wait: Wait::Millis(5),
            next: WriteStage::Report { restore: 0, section: 0, start: 0 }
        }
    );
    assert!(reported.borrow().is_empty());
    let second = WriteStage::Check { restore: 0, section: 0, start: 32 };
    assert_eq!(
        flasher
            .write_flash(&firmware, &mut meter, WriteStage::Report { restore: 0, section: 0, start: 0 })
            .unwrap(),
        Step::Pause { wait: Wait::Millis(5), next: second }
    );
    assert_eq!(*reported.borrow(), vec![32]);
    assert_eq!(
        flasher
            .write_flash(&firmware, &mut meter, WriteStage::Report { restore: 0, section: 0, start: 32 })
            .unwrap(),
        Step::Pause { wait: Wait::Millis(15), next: WriteStage::Restore }
    );
    assert_eq!(*reported.borrow(), vec![32, 32]);
    assert_eq!(
        flasher.write_flash(&firmware, &mut meter, WriteStage::Restore).unwrap(),
        Step::Pause { wait: Wait::Millis(15), next: WriteStage::End }
    );
    assert_eq!(
        flasher.write_flash(&firmware, &mut meter, WriteStage::End).unwrap(),
        Step::Done(())
    );
    assert_eq!(*reported.borrow(), vec![32, 32]);
}

#[test]
fn write_passes_over_sections_without_pages() {
    let (chip, mut flasher) = bench();
    let text = ":00002000E0\n:01004000556A\n:00000001FF\n";
    let firmware = Firmware::from_intel_hex(text.as_bytes().to_vec(), PAGE, 0).unwrap();
    assert_eq!(firmware.sections().len(), 2);
    assert!(firmware.sections()[0].is_empty());
    let reported = RefCell::new(Vec::new());
    write(&mut flasher, &firmware, &|n| reported.borrow_mut().push(n)).unwrap();
    assert_eq!(*reported.borrow(), vec![32]);
    assert_eq!(chip.borrow().banks[0][0x40], 0x55);
    assert_eq!(chip.borrow().banks[0][0x41], 0xFF);
}

#[test]
fn page_index_is_split_over_two_registers() {
    let (chip, mut flasher) = bench();
    let firmware = Firmware::from_raw_bytes(vec![7; 32], PAGE, 29 * 32).unwrap();
    write(&mut flasher, &firmware, &|_| {}).unwrap();
    assert_eq!(chip.borrow().ram[0x96], 3);
    assert_eq!(chip.borrow().ram[0x95], (5 << 5) | 0x0A);
    assert_eq!(&chip.borrow().banks[0][29 * 32..30 * 32], &[7; 32]);
}
