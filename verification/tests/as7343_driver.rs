use spectrum_panel::as7343::reply_for;
use spectrum_panel::as7343::{
    as7343_data_ready, as7343_read_18ch, as7343_set_bank, as7343_set_led_enable, cfg0_with_bank,
    decode_channels, led_with_enable, run, status_data_valid, As7343Error, Bank, BusReply,
    BusRequest, Operation, Outcome, Step, Transaction, as7343_init_default, AS7343_CHIP_ID, AS7343_I2C_ADDR,
    REG_ASTEP_H, REG_ASTEP_L, REG_ATIME, REG_CFG0, REG_CFG1, REG_CFG20, REG_DATA_0_L, REG_ENABLE,
    REG_ID, REG_LED, REG_STATUS2,
};
use spectrum_panel::bus::{I2cPort, RegisterBus};

/// A register-file model of the sensor: two banks of 256 registers, bank 1
/// selected by CFG0 bit 4 (CFG0 itself is reachable from both banks).
struct Sensor {
    bank0: [u8; 256],
    bank1: [u8; 256],
    writes: Vec<(u8, u8)>,
    reads: Vec<u8>,
    fail_at: Option<usize>,
    ops: usize,
}

impl Sensor {
    fn new() -> Self {
        let mut s = Sensor { bank0: [0; 256], bank1: [0; 256], writes: Vec::new(), reads: Vec::new(), fail_at: None, ops: 0 };
        s.bank1[REG_ID as usize] = AS7343_CHIP_ID;
        s
    }
    fn bank1(&self) -> bool {
        self.bank0[REG_CFG0 as usize] & 0x10 != 0
    }
    fn tick(&mut self) -> Result<(), &'static str> {
        let n = self.ops;
        self.ops += 1;
        if self.fail_at == Some(n) { Err("nak") } else { Ok(()) }
    }
}

impl<'a> RegisterBus for &'a mut Sensor {
    type Error = &'static str;
    fn write(&mut self, address: u8, write: &[u8]) -> Result<(), Self::Error> {
        assert_eq!(address, AS7343_I2C_ADDR);
        self.tick()?;
        let (reg, val) = (write[0], write[1]);
        self.writes.push((reg, val));
        if reg == REG_CFG0 || !self.bank1() { self.bank0[reg as usize] = val } else { self.bank1[reg as usize] = val }
        Ok(())
    }
    fn write_read(&mut self, address: u8, write: &[u8], read: &mut [u8]) -> Result<(), Self::Error> {
        assert_eq!(address, AS7343_I2C_ADDR);
        self.tick()?;
        let reg = write[0];
        self.reads.push(reg);
        for (i, b) in read.iter_mut().enumerate() {
            let r = reg as usize + i;
            *b = if reg == REG_CFG0 || !self.bank1() { self.bank0[r] } else { self.bank1[r] };
        }
        Ok(())
    }
}

#[test]
fn init_default_writes_the_measurement_setup() {
    let mut s = Sensor::new();
    s.bank0[REG_CFG0 as usize] = 0x05;
    s.bank0[REG_ENABLE as usize] = 0x40;
    s.bank0[REG_CFG1 as usize] = 0xFF;
    s.bank0[REG_CFG20 as usize] = 0x81;
    s.bank0[REG_LED as usize] = 0x9F;
    match run(&mut I2cPort::new(&mut s), Operation::InitDefault) {
        Ok(Outcome::Done) => {}
        _ => panic!("init did not complete"),
    }
    assert_eq!(
        s.writes,
        vec![
            (REG_CFG0, 0x15),
            (REG_CFG0, 0x05),
            (REG_ENABLE, 0x41),
            (REG_ATIME, 29),
            (REG_ASTEP_L, 0x57),
            (REG_ASTEP_H, 0x02),
            (REG_CFG1, 0xE9),
            (REG_CFG20, 0xE1),
            (REG_ENABLE, 0x43),
            (REG_LED, 0x20),
        ]
    );
    assert_eq!(s.reads, vec![REG_CFG0, REG_ID, REG_CFG0, REG_ENABLE, REG_CFG1, REG_CFG20]);
    assert!(!s.bank1());
}

#[test]
fn init_default_rejects_another_chip() {
    let mut s = Sensor::new();
    s.bank1[REG_ID as usize] = 0x42;
    match run(&mut I2cPort::new(&mut s), Operation::InitDefault) {
        Err(As7343Error::InvalidChipId(0x42)) => {}
        _ => panic!("expected InvalidChipId"),
    }
    assert_eq!(s.writes, vec![(REG_CFG0, 0x10)]);
}

#[test]
fn init_default_reports_a_failed_bank_select() {
    for at in 0..2 {
        let mut s = Sensor::new();
        s.fail_at = Some(at);
        match as7343_init_default(&mut I2cPort::new(&mut s)) {
            Err(As7343Error::I2cWriteRead("nak")) => assert_eq!(at, 0),
            Err(As7343Error::I2cWrite("nak")) => assert_eq!(at, 1),
            _ => panic!("expected a bus error"),
        }
        assert_eq!(s.ops, at + 1);
    }
}

#[test]
fn init_default_records_its_transactions() {
    let mut s = Sensor::new();
    assert_eq!(as7343_init_default(&mut I2cPort::new(&mut s)), Ok(()));
    assert_eq!(s.ops, 16);
}

#[test]
fn init_default_reports_later_failures() {
    let mut s = Sensor::new();
    s.fail_at = Some(2);
    assert!(matches!(run(&mut I2cPort::new(&mut s), Operation::InitDefault), Err(As7343Error::I2cWriteRead("nak"))));
    let mut s = Sensor::new();
    s.fail_at = Some(6);
    assert!(matches!(run(&mut I2cPort::new(&mut s), Operation::InitDefault), Err(As7343Error::I2cWrite("nak"))));
    assert_eq!(s.writes.len(), 2);
}

#[test]
fn set_bank_flips_only_bit_4() {
    let mut s = Sensor::new();
    s.bank0[REG_CFG0 as usize] = 0xA5;
    assert_eq!(as7343_set_bank(&mut I2cPort::new(&mut s), Bank::Bank1), Ok(()));
    assert_eq!(s.bank0[REG_CFG0 as usize], 0xB5);
    assert_eq!(as7343_set_bank(&mut I2cPort::new(&mut s), Bank::Bank0), Ok(()));
    assert_eq!(s.bank0[REG_CFG0 as usize], 0xA5);
    assert_eq!(cfg0_with_bank(0xFF, Bank::Bank0), 0xEF);
    assert_eq!(cfg0_with_bank(0x00, Bank::Bank1), 0x10);
}

#[test]
fn set_bank_failures() {
    let mut s = Sensor::new();
    s.fail_at = Some(0);
    assert_eq!(as7343_set_bank(&mut I2cPort::new(&mut s), Bank::Bank1), Err(As7343Error::I2cWriteRead("nak")));
    let mut s = Sensor::new();
    s.fail_at = Some(1);
    assert_eq!(as7343_set_bank(&mut I2cPort::new(&mut s), Bank::Bank1), Err(As7343Error::I2cWrite("nak")));
}

#[test]
fn led_enable_keeps_or_defaults_the_current() {
    let mut s = Sensor::new();
    s.bank0[REG_LED as usize] = 0x00;
    assert_eq!(as7343_set_led_enable(&mut I2cPort::new(&mut s), true), Ok(()));
    assert_eq!(s.bank0[REG_LED as usize], 0xA0);
    s.bank0[REG_LED as usize] = 0x85;
    assert_eq!(as7343_set_led_enable(&mut I2cPort::new(&mut s), false), Ok(()));
    assert_eq!(s.bank0[REG_LED as usize], 0x05);
    assert_eq!(led_with_enable(0x80, false), 0x20);
    assert_eq!(led_with_enable(0x7F, true), 0xFF);
}

#[test]
fn data_ready_follows_avalid() {
    let mut s = Sensor::new();
    s.bank0[REG_STATUS2 as usize] = 0x40;
    assert_eq!(as7343_data_ready(&mut I2cPort::new(&mut s)), Ok(true));
    s.bank0[REG_STATUS2 as usize] = 0xBF;
    assert_eq!(as7343_data_ready(&mut I2cPort::new(&mut s)), Ok(false));
    assert!(status_data_valid(0x41));
    assert!(!status_data_valid(0x01));
    s.fail_at = Some(s.ops);
    assert_eq!(as7343_data_ready(&mut I2cPort::new(&mut s)), Err(As7343Error::I2cWriteRead("nak")));
}

#[test]
fn read_18ch_decodes_little_endian_pairs() {
    let mut s = Sensor::new();
    s.bank0[REG_STATUS2 as usize] = 0x40;
    for i in 0..36usize {
        s.bank0[REG_DATA_0_L as usize + i] = i as u8 + 1;
    }
    let ch = as7343_read_18ch(&mut I2cPort::new(&mut s)).unwrap();
    assert_eq!(ch[0], 0x0201);
    assert_eq!(ch[17], 0x2423);
    assert_eq!(s.reads, vec![REG_STATUS2, REG_DATA_0_L]);
}

#[test]
fn read_18ch_not_ready_and_failures() {
    let mut s = Sensor::new();
    assert_eq!(as7343_read_18ch(&mut I2cPort::new(&mut s)), Err(As7343Error::DataNotReady));
    assert_eq!(s.reads, vec![REG_STATUS2]);
    s.bank0[REG_STATUS2 as usize] = 0x40;
    s.fail_at = Some(s.ops + 1);
    assert_eq!(as7343_read_18ch(&mut I2cPort::new(&mut s)), Err(As7343Error::I2cRead("nak")));
}

#[test]
fn decode_channels_round_trip() {
    let mut raw = [0u8; 36];
    let values: Vec<u16> = (0..18).map(|i| (i as u16) * 3001 + 7).collect();
    for (i, v) in values.iter().enumerate() {
        raw[2 * i] = (*v & 0xFF) as u8;
        raw[2 * i + 1] = (*v >> 8) as u8;
    }
    let ch = decode_channels(&raw);
    assert_eq!(ch.to_vec(), values);
}

#[test]
fn transaction_steps_through_a_bank_select() {
    let (mut t, first) = Transaction::start(Operation::SelectBank(Bank::Bank1));
    assert_eq!(first, BusRequest::Read { reg: REG_CFG0 });
    match t.resume::<()>(BusReply::Value(0x01)) {
        Step::Request(r) => assert_eq!(r, BusRequest::Write { reg: REG_CFG0, val: 0x11 }),
        _ => panic!("expected a write"),
    }
    assert!(matches!(t.resume::<()>(BusReply::Written), Step::Finished(Ok(Outcome::Done))));
}

#[test]
fn bank_select_is_idempotent_and_local() {
    for cfg0 in 0..=255u8 {
        let b1 = cfg0_with_bank(cfg0, Bank::Bank1);
        assert_eq!(b1 & 0xEF, cfg0 & 0xEF);
        assert_ne!(b1 & 0x10, 0);
        assert_eq!(cfg0_with_bank(b1, Bank::Bank1), b1);
        let b0 = cfg0_with_bank(cfg0, Bank::Bank0);
        assert_eq!(b0 & 0x10, 0);
        assert_eq!(b0 & 0xEF, cfg0 & 0xEF);
    }
}

#[test]
fn led_current_is_never_zero_and_last_request_wins() {
    for led in 0..=255u8 {
        for &a in &[false, true] {
            let l = led_with_enable(led, a);
            assert_ne!(l & 0x7F, 0);
            assert_eq!(l & 0x80 != 0, a);
            for &b in &[false, true] {
                assert_eq!(led_with_enable(l, b), led_with_enable(led, b));
            }
        }
    }
}

#[test]
fn reply_for_each_request_kind() {
    let block = [7u8; 36];
    assert!(matches!(reply_for::<u8>(BusRequest::Read { reg: 1 }, Ok(()), 9, block), BusReply::Value(9)));
    assert!(matches!(reply_for::<u8>(BusRequest::ReadBlock { reg: 1 }, Ok(()), 9, block), BusReply::Block(b) if b == block));
    assert!(matches!(reply_for::<u8>(BusRequest::Write { reg: 1, val: 2 }, Ok(()), 9, block), BusReply::Written));
    assert!(matches!(reply_for::<u8>(BusRequest::Write { reg: 1, val: 2 }, Err(5), 9, block), BusReply::Failed(5)));
}
