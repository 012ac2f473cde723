//! AS7343 18-channel spectral sensor on I2C.
//!
//! Every driver operation is a short conversation with the sensor: read a
//! register, decide, write a register. The decisions live in [`Transaction`],
//! a machine that is told what the bus answered and says what to ask next;
//! [`run`] drives it over an [`I2cPort`].

use vstd::prelude::*;
use crate::bus::{I2cEvent, I2cPort, RegisterBus};

verus! {

// ===== register map (bank 0 / bank 1) =====
pub const AS7343_I2C_ADDR: u8 = 0x39;
pub const AS7343_CHIP_ID: u8 = 0x81;

/// Bank 0: ENABLE. Bit 0 = PON, bit 1 = SP_EN.
pub const REG_ENABLE: u8 = 0x80;
/// Bank 0: STATUS2. Bit 6 = AVALID.
pub const REG_STATUS2: u8 = 0x90;
/// Bank 0: first byte of the spectral data.
pub const REG_DATA_0_L: u8 = 0x95;
/// Bank 0: CFG0. Bit 4 = REG_BANK.
pub const REG_CFG0: u8 = 0xBF;
/// Bank 0: CFG1. Bits 4:0 = AGAIN.
pub const REG_CFG1: u8 = 0xC6;
/// Bank 0: CFG20. Bits 6:5 = auto_smux.
pub const REG_CFG20: u8 = 0xD6;
/// Bank 0: ASTEP, low byte.
pub const REG_ASTEP_L: u8 = 0xD4;
/// Bank 0: ASTEP, high byte.
pub const REG_ASTEP_H: u8 = 0xD5;
/// Bank 0: ATIME.
pub const REG_ATIME: u8 = 0x81;
/// Bank 0: LED control. Bit 7 = LED on, bits 6:0 = drive current.
pub const REG_LED: u8 = 0xCD;
/// Bank 1: ID.
pub const REG_ID: u8 = 0x5A;

// ===== default measurement settings =====
/// Integration time is (ATIME + 1) * (ASTEP + 1) * 2.78 us.
pub const DEFAULT_ATIME: u8 = 29;
pub const DEFAULT_ASTEP: u16 = 599;
/// Gain 256x.
pub const DEFAULT_AGAIN: u8 = 9;
/// LED drive current (0..0x7F).
pub const DEFAULT_LED_CURRENT: u8 = 0x20;

/// Number of spectral channels, and of bytes they occupy.
pub const CHANNEL_COUNT: usize = 18;
pub const CHANNEL_BYTES: usize = 36;

/// Register bank: most registers sit in bank 0, the ID in bank 1.
#[derive(Debug, Clone, Copy, PartialEq, Eq)]
pub enum Bank {
    Bank0,
    Bank1,
}

#[derive(Debug, Clone, Copy, PartialEq, Eq)]
pub enum As7343Error<E> {
    I2cWriteRead(E),
    I2cWrite(E),
    I2cRead(E),
    InvalidChipId(u8),
    DataNotReady,
}

// ===== register values =====

/// CFG0 with REG_BANK (bit 4) selecting `bank`; the other bits kept.
pub open spec fn cfg0_for_bank(cfg0: u8, bank: Bank) -> u8 {
    match bank {
        Bank::Bank1 => cfg0 | 0x10,
        Bank::Bank0 => cfg0 & 0xEF,
    }
}

/// ENABLE with PON (bit 0) set.
pub open spec fn enable_powered(en: u8) -> u8 {
    en | 0x01
}

/// ENABLE with PON (bit 0) and SP_EN (bit 1) set.
pub open spec fn enable_measuring(en: u8) -> u8 {
    en | 0x03
}

/// CFG1 with AGAIN (bits 4:0) set to the default gain; bits 7:5 kept.
pub open spec fn cfg1_with_gain(cfg1: u8) -> u8 {
    (cfg1 & 0xE0) | DEFAULT_AGAIN
}

/// CFG20 with auto_smux (bits 6:5) set to 0b11, 18-channel mode; the other
/// bits kept.
pub open spec fn cfg20_with_auto_smux(cfg20: u8) -> u8 {
    cfg20 | 0x60
}

/// LED with the drive current defaulted when it reads zero, and the enable
/// bit (bit 7) set to `enable`.
pub open spec fn led_for(led: u8, enable: bool) -> u8 {
    let current = if led & 0x7F == 0 { (led & 0x80) | DEFAULT_LED_CURRENT } else { led };
    if enable { current | 0x80 } else { current & 0x7F }
}

/// STATUS2 reports a completed measurement (AVALID, bit 6).
pub open spec fn data_valid(st2: u8) -> bool {
    st2 & 0x40 != 0
}

/// The little-endian 16-bit value of bytes `2i` and `2i + 1`.
pub open spec fn channel_value(raw: Seq<u8>, i: int) -> int {
    raw[2 * i] as int + 256 * raw[2 * i + 1] as int
}

/// `ch` holds the 18 little-endian channel values laid out in `raw`.
pub open spec fn channels_of(raw: Seq<u8>, ch: Seq<u16>) -> bool {
    &&& raw.len() == CHANNEL_BYTES
    &&& ch.len() == CHANNEL_COUNT
    &&& forall|i: int| 0 <= i < CHANNEL_COUNT ==> #[trigger] ch[i] == channel_value(raw, i)
}

/// CFG0 rewritten to select `bank`.
pub fn cfg0_with_bank(cfg0: u8, bank: Bank) -> (res: u8)
    ensures
        res == cfg0_for_bank(cfg0, bank),
{
    match bank {
        Bank::Bank1 => cfg0 | 0x10,
        Bank::Bank0 => cfg0 & 0xEF,
    }
}

/// The LED register rewritten to turn the LED on or off.
pub fn led_with_enable(led: u8, enable: bool) -> (res: u8)
    ensures
        res == led_for(led, enable),
{
    let mut led = led;
    if (led & 0x7F) == 0 {
        led = (led & 0x80) | DEFAULT_LED_CURRENT;
    }
    if enable {
        led |= 0x80;
    } else {
        led &= 0x7F;
    }
    led
}

/// Whether STATUS2 reports a completed measurement.
pub fn status_data_valid(st2: u8) -> (res: bool)
    ensures
        res == data_valid(st2),
{
    (st2 & 0x40) != 0
}

/// The 18 channel counts from the 36 data bytes, two little-endian bytes per
/// channel.
pub fn decode_channels(raw: &[u8; 36]) -> (ch: [u16; 18])
    ensures
        channels_of(raw@, ch@),
{
    let mut ch = [0u16; 18];
    let mut i: usize = 0;
    while i < CHANNEL_COUNT
        invariant
            i <= CHANNEL_COUNT,
            raw@.len() == CHANNEL_BYTES,
            ch@.len() == CHANNEL_COUNT,
            forall|j: int| 0 <= j < i ==> #[trigger] ch@[j] == channel_value(raw@, j),
        decreases CHANNEL_COUNT - i,
    {
        let lo = raw[i * 2];
        let hi = raw[i * 2 + 1];
        ch[i] = (lo as u16) | ((hi as u16) << 8u16);
        assert(((lo as u16) | ((hi as u16) << 8u16)) == lo as u16 + 256 * (hi as u16)) by (bit_vector);
        i += 1;
    }
    ch
}


// ===== the conversation with the sensor =====

/// One bus transaction the driver asks for.
#[derive(Debug, Clone, Copy, PartialEq, Eq)]
pub enum BusRequest {
    /// Write the register address, read one byte back.
    Read { reg: u8 },
    /// Write the register address, read `CHANNEL_BYTES` bytes back.
    ReadBlock { reg: u8 },
    /// Write the register address and one value.
    Write { reg: u8, val: u8 },
}

/// What the bus answered to a request.
pub enum BusReply<E> {
    Value(u8),
    Block([u8; 36]),
    Written,
    Failed(E),
}

/// The driver operations.
#[derive(Debug, Clone, Copy, PartialEq, Eq)]
pub enum Operation {
    SelectBank(Bank),
    InitDefault,
    SetLedEnable(bool),
    DataReady,
    Read18ch,
}

/// What a completed operation yields.
pub enum Outcome {
    Done,
    Ready(bool),
    Channels([u16; 18]),
}

/// What the machine says after a reply: the next request, or the result.
pub enum Step<E> {
    Request(BusRequest),
    Finished(Result<Outcome, As7343Error<E>>),
}

/// How many requests an operation makes when every reply succeeds and no
/// check stops it early.
pub open spec fn script_len(op: Operation) -> int {
    match op {
        Operation::SelectBank(_) => 2,
        Operation::InitDefault => 16,
        Operation::SetLedEnable(_) => 2,
        Operation::DataReady => 1,
        Operation::Read18ch => 2,
    }
}

/// Request `k` of the default initialisation, given the values read so far
/// (`v[0]` CFG0 before selecting bank 1, `v[1]` ID, `v[2]` CFG0 before
/// selecting bank 0, `v[3]` ENABLE, `v[4]` CFG1, `v[5]` CFG20).
pub open spec fn init_request(k: int, v: Seq<u8>) -> BusRequest {
    if k == 0 { BusRequest::Read { reg: REG_CFG0 } }
    else if k == 1 { BusRequest::Write { reg: REG_CFG0, val: cfg0_for_bank(v[0], Bank::Bank1) } }
    else if k == 2 { BusRequest::Read { reg: REG_ID } }
    else if k == 3 { BusRequest::Read { reg: REG_CFG0 } }
    else if k == 4 { BusRequest::Write { reg: REG_CFG0, val: cfg0_for_bank(v[2], Bank::Bank0) } }
    else if k == 5 { BusRequest::Read { reg: REG_ENABLE } }
    else if k == 6 { BusRequest::Write { reg: REG_ENABLE, val: enable_powered(v[3]) } }
    else if k == 7 { BusRequest::Write { reg: REG_ATIME, val: DEFAULT_ATIME } }
    else if k == 8 { BusRequest::Write { reg: REG_ASTEP_L, val: 0x57 } }
    else if k == 9 { BusRequest::Write { reg: REG_ASTEP_H, val: 0x02 } }
    else if k == 10 { BusRequest::Read { reg: REG_CFG1 } }
    else if k == 11 { BusRequest::Write { reg: REG_CFG1, val: cfg1_with_gain(v[4]) } }
    else if k == 12 { BusRequest::Read { reg: REG_CFG20 } }
    else if k == 13 { BusRequest::Write { reg: REG_CFG20, val: cfg20_with_auto_smux(v[5]) } }
    else if k == 14 { BusRequest::Write { reg: REG_ENABLE, val: enable_measuring(v[3]) } }
    else { BusRequest::Write { reg: REG_LED, val: DEFAULT_LED_CURRENT } }
}

/// Request `k` of `op`, given the values read so far.
pub open spec fn request_at(op: Operation, k: int, v: Seq<u8>) -> BusRequest {
    match op {
        Operation::SelectBank(bank) =>
            if k == 0 { BusRequest::Read { reg: REG_CFG0 } }
            else { BusRequest::Write { reg: REG_CFG0, val: cfg0_for_bank(v[0], bank) } },
        Operation::InitDefault => init_request(k, v),
        Operation::SetLedEnable(enable) =>
            if k == 0 { BusRequest::Read { reg: REG_LED } }
            else { BusRequest::Write { reg: REG_LED, val: led_for(v[0], enable) } },
        Operation::DataReady => BusRequest::Read { reg: REG_STATUS2 },
        Operation::Read18ch =>
            if k == 0 { BusRequest::Read { reg: REG_STATUS2 } }
            else { BusRequest::ReadBlock { reg: REG_DATA_0_L } },
    }
}

/// Where the byte read by request `k` is kept.
pub open spec fn read_slot(op: Operation, k: int) -> int {
    match op {
        Operation::InitDefault =>
            if k == 2 { 1 } else if k == 3 { 2 } else if k == 5 { 3 }
            else if k == 10 { 4 } else if k == 12 { 5 } else { 0 },
        _ => 0,
    }
}

/// The values read so far, after the reply to request `k`.
pub open spec fn stored<E>(op: Operation, k: int, v: Seq<u8>, reply: BusReply<E>) -> Seq<u8> {
    match reply {
        BusReply::Value(x) => v.update(read_slot(op, k), x),
        _ => v,
    }
}

/// The reply has the shape the request calls for (or reports a failure).
pub open spec fn reply_fits<E>(req: BusRequest, reply: BusReply<E>) -> bool {
    match reply {
        BusReply::Failed(_) => true,
        BusReply::Value(_) => req is Read,
        BusReply::Written => req is Write,
        BusReply::Block(_) => req is ReadBlock,
    }
}

/// The error a failed request is reported as.
pub open spec fn failure<E>(req: BusRequest, e: E) -> As7343Error<E> {
    match req {
        BusRequest::Read { .. } => As7343Error::I2cWriteRead(e),
        BusRequest::Write { .. } => As7343Error::I2cWrite(e),
        BusRequest::ReadBlock { .. } => As7343Error::I2cRead(e),
    }
}

/// After `issued` successful requests with values `v`, the operation is over.
pub open spec fn ends_after(op: Operation, issued: int, v: Seq<u8>) -> bool {
    match op {
        Operation::InitDefault => issued == 16 || (issued == 3 && v[1] != AS7343_CHIP_ID),
        Operation::Read18ch => issued == 2 || (issued == 1 && !data_valid(v[0])),
        _ => issued == script_len(op),
    }
}

/// The result of an operation that is over after `issued` successful
/// requests with values `v`; `reply` is the last reply.
pub open spec fn ends_with<E>(
    op: Operation,
    issued: int,
    v: Seq<u8>,
    reply: BusReply<E>,
    res: Result<Outcome, As7343Error<E>>,
) -> bool {
    match op {
        Operation::InitDefault =>
            if v[1] != AS7343_CHIP_ID { res == Err::<Outcome, As7343Error<E>>(As7343Error::InvalidChipId(v[1])) }
            else { res is Ok && res->Ok_0 is Done },
        Operation::DataReady => res is Ok && res->Ok_0 == Outcome::Ready(data_valid(v[0])),
        Operation::Read18ch =>
            if !data_valid(v[0]) { res == Err::<Outcome, As7343Error<E>>(As7343Error::DataNotReady) }
            else {
                &&& reply matches BusReply::Block(raw)
                &&& res matches Ok(Outcome::Channels(ch))
                &&& channels_of(raw@, ch@)
            },
        _ => res is Ok && res->Ok_0 is Done,
    }
}

/// The state of one operation in progress.
pub struct Transaction {
    op: Operation,
    issued: usize,
    vals: [u8; 6],
}

impl Transaction {
    pub closed spec fn operation(&self) -> Operation {
        self.op
    }

    /// How many requests have been handed out.
    pub closed spec fn issued(&self) -> int {
        self.issued as int
    }

    /// The values read so far, by slot.
    pub closed spec fn values(&self) -> Seq<u8> {
        self.vals@
    }

    /// The state is one the machine can be in between two requests.
    pub open spec fn wf(&self) -> bool {
        &&& 1 <= self.issued() <= script_len(self.operation())
        &&& self.values().len() == 6
        &&& self.operation() is InitDefault && self.issued() > 3 ==> self.values()[1] == AS7343_CHIP_ID
        &&& self.operation() is Read18ch && self.issued() == 2 ==> data_valid(self.values()[0])
    }

    /// The request whose reply the machine waits for.
    pub open spec fn awaiting(&self) -> BusRequest {
        request_at(self.operation(), self.issued() - 1, self.values())
    }

    /// Starts `op`; returns the machine and its first request.
    pub fn start(op: Operation) -> (res: (Transaction, BusRequest))
        ensures
            res.0.wf(),
            res.0.operation() == op,
            res.0.issued() == 1,
            res.0.values() == fresh_values(),
            res.1 == request_at(op, 0, res.0.values()),
            res.1 == res.0.awaiting(),
    {
        let t = Transaction { op, issued: 1, vals: [0u8; 6] };
        assert(t.vals@ =~= fresh_values());
        let first = t.request(0);
        (t, first)
    }

    /// Request `k`, from the values read so far.
    fn request(&self, k: usize) -> (res: BusRequest)
        requires
            self.vals@.len() == 6,
        ensures
            res == request_at(self.op, k as int, self.vals@),
    {
        let v = &self.vals;
        proof {
            assert((599u16 & 0xFF) as u8 == 0x57u8) by (bit_vector);
            assert((599u16 >> 8u16) as u8 == 0x02u8) by (bit_vector);
            assert(0x20u8 & 0x7F == 0x20u8) by (bit_vector);
        }
        match self.op {
            Operation::SelectBank(bank) =>
                if k == 0 { BusRequest::Read { reg: REG_CFG0 } }
                else { BusRequest::Write { reg: REG_CFG0, val: cfg0_with_bank(v[0], bank) } },
            Operation::SetLedEnable(enable) =>
                if k == 0 { BusRequest::Read { reg: REG_LED } }
                else { BusRequest::Write { reg: REG_LED, val: led_with_enable(v[0], enable) } },
            Operation::DataReady => BusRequest::Read { reg: REG_STATUS2 },
            Operation::Read18ch =>
                if k == 0 { BusRequest::Read { reg: REG_STATUS2 } }
                else { BusRequest::ReadBlock { reg: REG_DATA_0_L } },
            Operation::InitDefault =>
                if k == 0 { BusRequest::Read { reg: REG_CFG0 } }
                else if k == 1 { BusRequest::Write { reg: REG_CFG0, val: cfg0_with_bank(v[0], Bank::Bank1) } }
                else if k == 2 { BusRequest::Read { reg: REG_ID } }
                else if k == 3 { BusRequest::Read { reg: REG_CFG0 } }
                else if k == 4 { BusRequest::Write { reg: REG_CFG0, val: cfg0_with_bank(v[2], Bank::Bank0) } }
                else if k == 5 { BusRequest::Read { reg: REG_ENABLE } }
                else if k == 6 { BusRequest::Write { reg: REG_ENABLE, val: v[3] | 0x01 } }
                else if k == 7 { BusRequest::Write { reg: REG_ATIME, val: DEFAULT_ATIME } }
                else if k == 8 { BusRequest::Write { reg: REG_ASTEP_L, val: (DEFAULT_ASTEP & 0xFF) as u8 } }
                else if k == 9 { BusRequest::Write { reg: REG_ASTEP_H, val: (DEFAULT_ASTEP >> 8u16) as u8 } }
                else if k == 10 { BusRequest::Read { reg: REG_CFG1 } }
                else if k == 11 { BusRequest::Write { reg: REG_CFG1, val: (v[4] & 0xE0) | DEFAULT_AGAIN } }
                else if k == 12 { BusRequest::Read { reg: REG_CFG20 } }
                else if k == 13 { BusRequest::Write { reg: REG_CFG20, val: v[5] | 0x60 } }
                else if k == 14 { BusRequest::Write { reg: REG_ENABLE, val: v[3] | 0x03 } }
                else { BusRequest::Write { reg: REG_LED, val: DEFAULT_LED_CURRENT & 0x7F } },
        }
    }

    /// Takes the reply to the awaited request and says what comes next.
    pub fn resume<E>(&mut self, reply: BusReply<E>) -> (step: Step<E>)
        requires
            old(self).wf(),
            reply_fits(old(self).awaiting(), reply),
        ensures
            final(self).operation() == old(self).operation(),
            ({
                let op = old(self).operation();
                let k = old(self).issued();
                let v = stored(op, k - 1, old(self).values(), reply);
                match reply {
                    BusReply::Failed(e) => step == Step::<E>::Finished(Err(failure(old(self).awaiting(), e))),
                    _ => if ends_after(op, k, v) {
                        step matches Step::Finished(res) && ends_with(op, k, v, reply, res)
                    } else {
                        &&& step == Step::<E>::Request(request_at(op, k, v))
                        &&& final(self).issued() == k + 1
                        &&& final(self).values() == v
                        &&& final(self).wf()
                        &&& step->Request_0 == final(self).awaiting()
                    },
                }
            }),
    {
        let k = self.issued - 1;
        let awaited = self.request(k);
        let raw = match reply {
            BusReply::Failed(e) => {
                let err = match awaited {
                    BusRequest::Read { .. } => As7343Error::I2cWriteRead(e),
                    BusRequest::Write { .. } => As7343Error::I2cWrite(e),
                    BusRequest::ReadBlock { .. } => As7343Error::I2cRead(e),
                };
                return Step::Finished(Err(err));
            },
            BusReply::Value(x) => {
                let slot: usize = match self.op {
                    Operation::InitDefault =>
                        if k == 2 { 1 } else if k == 3 { 2 } else if k == 5 { 3 }
                        else if k == 10 { 4 } else if k == 12 { 5 } else { 0 },
                    _ => 0,
                };
                self.vals[slot] = x;
                None
            },
            BusReply::Written => None,
            BusReply::Block(raw) => Some(raw),
        };
        let issued = self.issued;
        let v0 = self.vals[0];
        let v1 = self.vals[1];
        match self.op {
            Operation::InitDefault => {
                if issued == 3 && v1 != AS7343_CHIP_ID {
                    return Step::Finished(Err(As7343Error::InvalidChipId(v1)));
                }
                if issued == 16 {
                    return Step::Finished(Ok(Outcome::Done));
                }
            },
            Operation::DataReady => {
                return Step::Finished(Ok(Outcome::Ready(status_data_valid(v0))));
            },
            Operation::Read18ch => {
                if issued == 1 && !status_data_valid(v0) {
                    return Step::Finished(Err(As7343Error::DataNotReady));
                }
                if issued == 2 {
                    match raw {
                        Some(raw) => return Step::Finished(Ok(Outcome::Channels(decode_channels(&raw)))),
                        None => {},
                    }
                }
            },
            _ => {
                if issued == 2 {
                    return Step::Finished(Ok(Outcome::Done));
                }
            },
        }
        let next = self.request(issued);
        self.issued = issued + 1;
        Step::Request(next)
    }
}


/// The values slot array a fresh machine starts with.
pub open spec fn fresh_values() -> Seq<u8> {
    seq![0u8, 0u8, 0u8, 0u8, 0u8, 0u8]
}

/// The I2C transaction that carries out `req`: at the sensor's address,
/// `[reg]` then a one-byte read for `Read`, `[reg]` then a `CHANNEL_BYTES`
/// read for `ReadBlock`, and `[reg, val]` written for `Write`.
pub open spec fn carries_out<E>(req: BusRequest, ev: I2cEvent<E>) -> bool {
    match req {
        BusRequest::Read { reg } => ev matches I2cEvent::WriteRead { address, bytes, read, .. }
            && address == AS7343_I2C_ADDR && bytes == seq![reg] && read.len() == 1,
        BusRequest::ReadBlock { reg } => ev matches I2cEvent::WriteRead { address, bytes, read, .. }
            && address == AS7343_I2C_ADDR && bytes == seq![reg] && read.len() == CHANNEL_BYTES,
        BusRequest::Write { reg, val } => ev matches I2cEvent::Write { address, bytes, .. }
            && address == AS7343_I2C_ADDR && bytes == seq![reg, val],
    }
}

/// The reply a transaction gives: its failure, or the byte or block read,
/// or the acknowledgement of a write.
pub open spec fn reply_from<E>(req: BusRequest, ev: I2cEvent<E>, reply: BusReply<E>) -> bool {
    match ev {
        I2cEvent::Write { result, .. } => match result {
            Ok(_) => reply is Written,
            Err(e) => reply == BusReply::<E>::Failed(e),
        },
        I2cEvent::WriteRead { read, result, .. } => match result {
            Err(e) => reply == BusReply::<E>::Failed(e),
            Ok(_) => if req is Read {
                reply == BusReply::<E>::Value(read[0])
            } else {
                reply matches BusReply::Block(raw) && raw@ == read
            },
        },
    }
}

/// Starting with request `k - 1` awaited and values `v`, each of `events` is
/// the transaction that carries out the request the machine makes, each of
/// `replies` is what that transaction gave, and the operation ends with `res`
/// on the last of them.
pub open spec fn conversation<E>(
    op: Operation,
    k: int,
    v: Seq<u8>,
    events: Seq<I2cEvent<E>>,
    replies: Seq<BusReply<E>>,
    res: Result<Outcome, As7343Error<E>>,
) -> bool
    decreases replies.len(),
{
    if replies.len() == 0 || events.len() != replies.len() {
        false
    } else {
        let reply = replies[0];
        let req = request_at(op, k - 1, v);
        &&& carries_out(req, events[0])
        &&& reply_from(req, events[0], reply)
        &&& reply_fits(req, reply)
        &&& match reply {
            BusReply::Failed(e) => replies.len() == 1 && res == Err::<Outcome, As7343Error<E>>(failure(req, e)),
            _ => {
                let v2 = stored(op, k - 1, v, reply);
                if ends_after(op, k, v2) {
                    replies.len() == 1 && ends_with(op, k, v2, reply, res)
                } else {
                    conversation(op, k + 1, v2, events.drop_first(), replies.drop_first(), res)
                }
            },
        }
    }
}

/// `events` are the transactions of `op`, started afresh, and it ends with
/// `res` on them.
pub open spec fn performed<E>(op: Operation, events: Seq<I2cEvent<E>>, res: Result<Outcome, As7343Error<E>>) -> bool {
    exists|replies: Seq<BusReply<E>>| conversation(op, 1, fresh_values(), events, replies, res)
}

/// The transactions recorded on `after` beyond those on `before`.
pub open spec fn new_events<E>(before: Seq<I2cEvent<E>>, after: Seq<I2cEvent<E>>) -> Seq<I2cEvent<E>> {
    after.subrange(before.len() as int, after.len() as int)
}

/// `after` extends `before`.
pub open spec fn extends<E>(before: Seq<I2cEvent<E>>, after: Seq<I2cEvent<E>>) -> bool {
    before.len() <= after.len() && after.subrange(0, before.len() as int) == before
}

/// The reply to `req`, given how the bus transaction ended and what it
/// read: the failure, or the byte read, the block read, or the
/// acknowledgement, by the kind of request.
pub fn reply_for<E>(req: BusRequest, done: Result<(), E>, byte: u8, block: [u8; 36]) -> (reply: BusReply<E>)
    ensures
        reply_fits(req, reply),
        match done {
            Err(e) => reply == BusReply::<E>::Failed(e),
            Ok(()) => match req {
                BusRequest::Read { .. } => reply == BusReply::<E>::Value(byte),
                BusRequest::ReadBlock { .. } => reply == BusReply::<E>::Block(block),
                BusRequest::Write { .. } => reply == BusReply::<E>::Written,
            },
        },
{
    match done {
        Err(e) => BusReply::Failed(e),
        Ok(()) => match req {
            BusRequest::Read { .. } => BusReply::Value(byte),
            BusRequest::ReadBlock { .. } => BusReply::Block(block),
            BusRequest::Write { .. } => BusReply::Written,
        },
    }
}

/// Carries out one request on the bus and says what it gave.
fn perform<B: RegisterBus>(i2c: &mut I2cPort<B>, req: BusRequest) -> (reply: BusReply<B::Error>)
    ensures
        final(i2c).history().len() == old(i2c).history().len() + 1,
        final(i2c).history().drop_last() == old(i2c).history(),
        carries_out(req, final(i2c).history().last()),
        reply_from(req, final(i2c).history().last(), reply),
        reply_fits(req, reply),
{
    match req {
        BusRequest::Read { reg } => {
            let mut v = [0u8; 1];
            let done = i2c.write_read(AS7343_I2C_ADDR, &[reg], &mut v);
            proof { assert([reg]@ =~= seq![reg]); }
            reply_for(req, done, v[0], [0u8; 36])
        },
        BusRequest::ReadBlock { reg } => {
            let mut raw = [0u8; 36];
            let done = i2c.write_read(AS7343_I2C_ADDR, &[reg], &mut raw);
            proof { assert([reg]@ =~= seq![reg]); }
            reply_for(req, done, 0, raw)
        },
        BusRequest::Write { reg, val } => {
            let done = i2c.write(AS7343_I2C_ADDR, &[reg, val]);
            proof { assert([reg, val]@ =~= seq![reg, val]); }
            reply_for(req, done, 0, [0u8; 36])
        },
    }
}

/// Carries out `op` on the bus, one request at a time, as the
/// [`Transaction`] directs.
pub fn run<B: RegisterBus>(i2c: &mut I2cPort<B>, op: Operation) -> (res: Result<Outcome, As7343Error<B::Error>>)
    ensures
        extends(old(i2c).history(), final(i2c).history()),
        performed(op, new_events(old(i2c).history(), final(i2c).history()), res),
{
    let ghost start = i2c.history();
    let (mut t, mut req) = Transaction::start(op);
    let ghost mut past: Seq<BusReply<B::Error>> = Seq::empty();
    assert(t.values() == fresh_values());
    assert(new_events(start, i2c.history()) =~= Seq::<I2cEvent<B::Error>>::empty());
    assert(start.subrange(0, start.len() as int) =~= start);
    loop
        invariant
            t.wf(),
            t.operation() == op,
            req == t.awaiting(),
            start == old(i2c).history(),
            extends(start, i2c.history()),
            past.len() == new_events(start, i2c.history()).len(),
            forall|fe: Seq<I2cEvent<B::Error>>, future: Seq<BusReply<B::Error>>, r: Result<Outcome, As7343Error<B::Error>>|
                #[trigger] conversation(op, t.issued(), t.values(), fe, future, r)
                    ==> conversation(op, 1, fresh_values(), new_events(start, i2c.history()) + fe, past + future, r),
        decreases script_len(op) - t.issued(),
    {
        let ghost h0 = i2c.history();
        let reply = perform(i2c, req);
        let ghost ev = i2c.history().last();
        let ghost k = t.issued();
        let ghost v = t.values();
        let ghost r0 = reply;
        proof {
            assert(new_events(start, i2c.history()) =~= new_events(start, h0).push(ev));
            assert(i2c.history().subrange(0, start.len() as int) =~= h0.subrange(0, start.len() as int));
            assert(extends(start, i2c.history()));
        }
        match t.resume(reply) {
            Step::Request(next) => {
                proof {
                    assert forall|fe: Seq<I2cEvent<B::Error>>, future: Seq<BusReply<B::Error>>, r: Result<Outcome, As7343Error<B::Error>>|
                        #[trigger] conversation(op, t.issued(), t.values(), fe, future, r)
                            implies conversation(op, 1, fresh_values(), new_events(start, i2c.history()) + fe, past.push(r0) + future, r) by {
                        let f2 = seq![r0] + future;
                        let e2 = seq![ev] + fe;
                        assert(f2[0] == r0);
                        assert(e2[0] == ev);
                        assert(f2.drop_first() == future);
                        assert(e2.drop_first() == fe);
                        assert(conversation(op, k, v, e2, f2, r));
                        assert(past + f2 == past.push(r0) + future);
                        assert(new_events(start, h0) + e2 == new_events(start, i2c.history()) + fe);
                    }
                    past = past.push(r0);
                }
                req = next;
            },
            Step::Finished(out) => {
                proof {
                    let f2 = seq![r0];
                    let e2 = seq![ev];
                    assert(f2[0] == r0);
                    assert(e2[0] == ev);
                    assert(conversation(op, k, v, e2, f2, out));
                    assert(past + f2 == past.push(r0));
                    assert(new_events(start, h0) + e2 == new_events(start, i2c.history()));
                    assert(conversation(op, 1, fresh_values(), new_events(start, i2c.history()), past.push(r0), out));
                    assert(performed(op, new_events(start, i2c.history()), out));
                }
                return out;
            },
        }
    }
}

/// What an operation can end with, by kind: the outcome fits the operation,
/// a failed read is `I2cWriteRead`, a failed write `I2cWrite`, a failed block
/// read `I2cRead`, and the two checks report `InvalidChipId` (with an ID other
/// than the expected one) and `DataNotReady`.
pub open spec fn fits_operation<E>(op: Operation, res: Result<Outcome, As7343Error<E>>) -> bool {
    match res {
        Ok(o) => match op {
            Operation::DataReady => o is Ready,
            Operation::Read18ch => o is Channels,
            _ => o is Done,
        },
        Err(e) => match e {
            As7343Error::I2cWriteRead(_) => true,
            As7343Error::I2cWrite(_) => !(op is DataReady || op is Read18ch),
            As7343Error::I2cRead(_) => op is Read18ch,
            As7343Error::InvalidChipId(id) => op is InitDefault && id != AS7343_CHIP_ID,
            As7343Error::DataNotReady => op is Read18ch,
        },
    }
}

/// Every result a conversation can end with fits the operation.
pub proof fn lemma_conversation_fits<E>(
    op: Operation,
    k: int,
    v: Seq<u8>,
    events: Seq<I2cEvent<E>>,
    replies: Seq<BusReply<E>>,
    res: Result<Outcome, As7343Error<E>>,
)
    requires
        conversation(op, k, v, events, replies, res),
    ensures
        fits_operation(op, res),
    decreases replies.len(),
{
    let reply = replies[0];
    match reply {
        BusReply::Failed(e) => {},
        _ => {
            let v2 = stored(op, k - 1, v, reply);
            if !ends_after(op, k, v2) {
                lemma_conversation_fits(op, k + 1, v2, events.drop_first(), replies.drop_first(), res);
            }
        },
    }
}

/// The result of a performed operation fits it.
pub proof fn lemma_performed_fits<E>(op: Operation, events: Seq<I2cEvent<E>>, res: Result<Outcome, As7343Error<E>>)
    requires
        performed(op, events, res),
    ensures
        fits_operation(op, res),
{
    let replies = choose|replies: Seq<BusReply<E>>| conversation(op, 1, fresh_values(), events, replies, res);
    lemma_conversation_fits(op, 1, fresh_values(), events, replies, res);
}

/// The unit result of an operation that yields `Done`.
pub open spec fn unit_result<E>(out: Result<Outcome, As7343Error<E>>) -> Result<(), As7343Error<E>> {
    match out {
        Ok(_) => Ok(()),
        Err(e) => Err(e),
    }
}

/// Selects the register bank (CFG0.REG_BANK): reads CFG0, writes it back with
/// bit 4 set for bank 1 and cleared for bank 0.
pub fn as7343_set_bank<B: RegisterBus>(i2c: &mut I2cPort<B>, bank: Bank) -> (res: Result<(), As7343Error<B::Error>>)
    ensures
        extends(old(i2c).history(), final(i2c).history()),
        exists|out: Result<Outcome, As7343Error<B::Error>>| {
            &&& performed(Operation::SelectBank(bank), new_events(old(i2c).history(), final(i2c).history()), out)
            &&& res == unit_result(out)
        },
{
    let out = run(i2c, Operation::SelectBank(bank));
    let res = match out {
        Ok(_) => Ok(()),
        Err(e) => Err(e),
    };
    assert(res == unit_result(out));
    res
}

/// Minimal initialisation: checks the chip ID (bank 1), returns to bank 0,
/// powers on, sets integration time and gain, selects 18-channel auto-smux,
/// starts measuring, and sets the LED current with the LED off.
pub fn as7343_init_default<B: RegisterBus>(i2c: &mut I2cPort<B>) -> (res: Result<(), As7343Error<B::Error>>)
    ensures
        extends(old(i2c).history(), final(i2c).history()),
        exists|out: Result<Outcome, As7343Error<B::Error>>| {
            &&& performed(Operation::InitDefault, new_events(old(i2c).history(), final(i2c).history()), out)
            &&& res == unit_result(out)
        },
{
    let out = run(i2c, Operation::InitDefault);
    let res = match out {
        Ok(_) => Ok(()),
        Err(e) => Err(e),
    };
    assert(res == unit_result(out));
    res
}

/// Turns the built-in LED on or off: reads the LED register, defaults the
/// drive current when it reads zero, sets bit 7 to `enable`, writes it back.
pub fn as7343_set_led_enable<B: RegisterBus>(i2c: &mut I2cPort<B>, enable: bool) -> (res: Result<(), As7343Error<B::Error>>)
    ensures
        extends(old(i2c).history(), final(i2c).history()),
        exists|out: Result<Outcome, As7343Error<B::Error>>| {
            &&& performed(Operation::SetLedEnable(enable), new_events(old(i2c).history(), final(i2c).history()), out)
            &&& res == unit_result(out)
        },
{
    let out = run(i2c, Operation::SetLedEnable(enable));
    let res = match out {
        Ok(_) => Ok(()),
        Err(e) => Err(e),
    };
    assert(res == unit_result(out));
    res
}

/// Whether a measurement is ready (STATUS2.AVALID).
pub fn as7343_data_ready<B: RegisterBus>(i2c: &mut I2cPort<B>) -> (res: Result<bool, As7343Error<B::Error>>)
    ensures
        extends(old(i2c).history(), final(i2c).history()),
        exists|out: Result<Outcome, As7343Error<B::Error>>| {
            &&& performed(Operation::DataReady, new_events(old(i2c).history(), final(i2c).history()), out)
            &&& res is Ok <==> out is Ok
            &&& res matches Ok(b) ==> out == Ok::<Outcome, As7343Error<B::Error>>(Outcome::Ready(b))
            &&& res matches Err(e) ==> out == Err::<Outcome, As7343Error<B::Error>>(e)
        },
{
    let out = run(i2c, Operation::DataReady);
    proof { lemma_performed_fits(Operation::DataReady, new_events(old(i2c).history(), i2c.history()), out); }
    match out {
        Ok(Outcome::Ready(b)) => Ok(b),
        Ok(_) => {
            proof { assert(false); }
            Ok(false)
        },
        Err(e) => Err(e),
    }
}

/// Reads the 18 channels once; `DataNotReady` when no measurement is ready.
pub fn as7343_read_18ch<B: RegisterBus>(i2c: &mut I2cPort<B>) -> (res: Result<[u16; 18], As7343Error<B::Error>>)
    ensures
        extends(old(i2c).history(), final(i2c).history()),
        exists|out: Result<Outcome, As7343Error<B::Error>>| {
            &&& performed(Operation::Read18ch, new_events(old(i2c).history(), final(i2c).history()), out)
            &&& res is Ok <==> out is Ok
            &&& res matches Ok(ch) ==> out == Ok::<Outcome, As7343Error<B::Error>>(Outcome::Channels(ch))
            &&& res matches Err(e) ==> out == Err::<Outcome, As7343Error<B::Error>>(e)
        },
{
    let out = run(i2c, Operation::Read18ch);
    proof { lemma_performed_fits(Operation::Read18ch, new_events(old(i2c).history(), i2c.history()), out); }
    match out {
        Ok(Outcome::Channels(ch)) => Ok(ch),
        Ok(_) => {
            proof { assert(false); }
            Err(As7343Error::DataNotReady)
        },
        Err(e) => Err(e),
    }
}

// ===== laws =====

/// Selecting a bank sets CFG0 bit 4 exactly for bank 1, leaves the other
/// bits as they were, and selecting the same bank again changes nothing.
pub proof fn lemma_bank_select(cfg0: u8, bank: Bank)
    ensures
        (cfg0_for_bank(cfg0, bank) & 0x10 != 0) == (bank is Bank1),
        cfg0_for_bank(cfg0, bank) & 0xEF == cfg0 & 0xEF,
        cfg0_for_bank(cfg0_for_bank(cfg0, bank), bank) == cfg0_for_bank(cfg0, bank),
{
    assert((cfg0 | 0x10) & 0x10 != 0) by (bit_vector);
    assert((cfg0 & 0xEF) & 0x10 == 0) by (bit_vector);
    assert((cfg0 | 0x10) & 0xEF == cfg0 & 0xEF) by (bit_vector);
    assert((cfg0 & 0xEF) & 0xEF == cfg0 & 0xEF) by (bit_vector);
    assert((cfg0 | 0x10) | 0x10 == cfg0 | 0x10) by (bit_vector);
}

/// The LED register written: bit 7 is the requested state; the drive current
/// (bits 6:0) is kept when non-zero and becomes the default when zero, so it
/// is never zero; and only the last request counts.
pub proof fn lemma_led_register(led: u8, enable: bool, later: bool)
    ensures
        (led_for(led, enable) & 0x80 != 0) == enable,
        led & 0x7F != 0 ==> led_for(led, enable) & 0x7F == led & 0x7F,
        led & 0x7F == 0 ==> led_for(led, enable) & 0x7F == DEFAULT_LED_CURRENT,
        led_for(led, enable) & 0x7F != 0,
        led_for(led_for(led, enable), later) == led_for(led, later),
{
    let c = if led & 0x7F == 0 { (led & 0x80) | 0x20 } else { led };
    assert(led & 0x7F == 0 ==> ((led & 0x80) | 0x20) & 0x7F == 0x20) by (bit_vector);
    assert(c & 0x7F != 0 ==> (c | 0x80) & 0x7F == c & 0x7F && (c & 0x7F) & 0x7F == c & 0x7F) by (bit_vector);
    assert((c | 0x80) & 0x80 != 0 && (c & 0x7F) & 0x80 == 0) by (bit_vector);
    let d = led_for(led, enable);
    assert(d & 0x7F != 0 ==> ((d | 0x80) == (c | 0x80) && (d & 0x7F) == (c & 0x7F))) by (bit_vector)
        requires d == (if enable { c | 0x80 } else { c & 0x7F });
}

/// The measurement set-up values: power on keeps the other ENABLE bits,
/// starting measurement adds SP_EN on top of PON; the gain field holds the
/// default gain with the upper CFG1 bits kept; auto_smux selects 18-channel
/// mode with the other CFG20 bits kept.
pub proof fn lemma_setup_values(en: u8, cfg1: u8, cfg20: u8)
    ensures
        enable_powered(en) & 0x01 != 0,
        enable_powered(en) & 0xFE == en & 0xFE,
        enable_measuring(en) & 0x03 == 0x03,
        enable_measuring(en) & 0xFC == en & 0xFC,
        enable_measuring(en) == enable_powered(en) | 0x02,
        cfg1_with_gain(cfg1) & 0x1F == DEFAULT_AGAIN,
        cfg1_with_gain(cfg1) & 0xE0 == cfg1 & 0xE0,
        (cfg20_with_auto_smux(cfg20) >> 5u8) & 0x03 == 0x03,
        cfg20_with_auto_smux(cfg20) & 0x9F == cfg20 & 0x9F,
        DEFAULT_ASTEP == 0x02 * 256 + 0x57,
{
    assert((en | 0x01) & 0x01 != 0 && (en | 0x01) & 0xFE == en & 0xFE) by (bit_vector);
    assert((en | 0x03) & 0x03 == 0x03 && (en | 0x03) & 0xFC == en & 0xFC) by (bit_vector);
    assert((en | 0x03) == (en | 0x01) | 0x02) by (bit_vector);
    assert(((cfg1 & 0xE0) | 9) & 0x1F == 9 && ((cfg1 & 0xE0) | 9) & 0xE0 == cfg1 & 0xE0) by (bit_vector);
    assert(((cfg20 | 0x60) >> 5u8) & 0x03 == 0x03 && (cfg20 | 0x60) & 0x9F == cfg20 & 0x9F) by (bit_vector);
}

/// The little-endian byte image of 18 channel counts.
pub open spec fn channel_bytes(ch: Seq<u16>) -> Seq<u8> {
    Seq::new(CHANNEL_BYTES as nat, |j: int| {
        if j % 2 == 0 { (ch[j / 2] % 256) as u8 } else { (ch[j / 2] / 256) as u8 }
    })
}

/// Decoding the byte image of any 18 channel counts gives them back.
pub proof fn lemma_channels_round_trip(ch: Seq<u16>)
    requires
        ch.len() == CHANNEL_COUNT,
    ensures
        channels_of(channel_bytes(ch), ch),
{
    let raw = channel_bytes(ch);
    assert forall|i: int| 0 <= i < CHANNEL_COUNT implies #[trigger] ch[i] == channel_value(raw, i) by {
        assert((2 * i) % 2 == 0 && (2 * i) / 2 == i);
        assert((2 * i + 1) % 2 == 1 && (2 * i + 1) / 2 == i);
        assert(raw[2 * i] == (ch[i] % 256) as u8);
        assert(raw[2 * i + 1] == (ch[i] / 256) as u8);
    }
}

/// A successful one-byte read of `reg` that gave `x`.
pub open spec fn read_event<E>(reg: u8, x: u8) -> I2cEvent<E> {
    I2cEvent::WriteRead { address: AS7343_I2C_ADDR, bytes: seq![reg], read: seq![x], result: Ok(()) }
}

/// A successful write of `val` to `reg`.
pub open spec fn write_event<E>(reg: u8, val: u8) -> I2cEvent<E> {
    I2cEvent::Write { address: AS7343_I2C_ADDR, bytes: seq![reg, val], result: Ok(()) }
}

/// The I2C transactions of the default initialisation on a sensor whose
/// registers read as given, every transaction succeeding: CFG0 `cfg0a`, ID
/// `id`, CFG0 `cfg0b` once back in bank 0, ENABLE `en`, CFG1 `cfg1`, CFG20
/// `cfg20`.
pub open spec fn init_events<E>(cfg0a: u8, id: u8, cfg0b: u8, en: u8, cfg1: u8, cfg20: u8) -> Seq<I2cEvent<E>> {
    seq![
        read_event(REG_CFG0, cfg0a), write_event(REG_CFG0, cfg0_for_bank(cfg0a, Bank::Bank1)),
        read_event(REG_ID, id), read_event(REG_CFG0, cfg0b),
        write_event(REG_CFG0, cfg0_for_bank(cfg0b, Bank::Bank0)), read_event(REG_ENABLE, en),
        write_event(REG_ENABLE, enable_powered(en)), write_event(REG_ATIME, DEFAULT_ATIME),
        write_event(REG_ASTEP_L, 0x57), write_event(REG_ASTEP_H, 0x02),
        read_event(REG_CFG1, cfg1), write_event(REG_CFG1, cfg1_with_gain(cfg1)),
        read_event(REG_CFG20, cfg20), write_event(REG_CFG20, cfg20_with_auto_smux(cfg20)),
        write_event(REG_ENABLE, enable_measuring(en)), write_event(REG_LED, DEFAULT_LED_CURRENT),
    ]
}

/// The replies a sensor with the given register contents gives to the
/// default initialisation, every transaction succeeding.
pub open spec fn init_replies<E>(cfg0a: u8, id: u8, cfg0b: u8, en: u8, cfg1: u8, cfg20: u8) -> Seq<BusReply<E>> {
    seq![
        BusReply::Value(cfg0a), BusReply::Written, BusReply::Value(id), BusReply::Value(cfg0b),
        BusReply::Written, BusReply::Value(en), BusReply::Written, BusReply::Written,
        BusReply::Written, BusReply::Written, BusReply::Value(cfg1), BusReply::Written,
        BusReply::Value(cfg20), BusReply::Written, BusReply::Written, BusReply::Written,
    ]
}

/// With every transaction succeeding, the default initialisation of a sensor
/// that reports the expected chip ID makes exactly the sixteen transactions
/// of `init_events` and completes; one that reports another ID stops after
/// the first three (CFG0 read, bank 1 selected, ID read) with
/// `InvalidChipId`.
pub proof fn lemma_init_outcome<E>(cfg0a: u8, id: u8, cfg0b: u8, en: u8, cfg1: u8, cfg20: u8)
    ensures
        id == AS7343_CHIP_ID ==> performed(
            Operation::InitDefault,
            init_events::<E>(cfg0a, id, cfg0b, en, cfg1, cfg20),
            Ok::<Outcome, As7343Error<E>>(Outcome::Done),
        ),
        id != AS7343_CHIP_ID ==> performed(
            Operation::InitDefault,
            init_events::<E>(cfg0a, id, cfg0b, en, cfg1, cfg20).subrange(0, 3),
            Err::<Outcome, As7343Error<E>>(As7343Error::InvalidChipId(id)),
        ),
{
    let op = Operation::InitDefault;
    let rs = init_replies::<E>(cfg0a, id, cfg0b, en, cfg1, cfg20);
    let es = init_events::<E>(cfg0a, id, cfg0b, en, cfg1, cfg20);
    let v1 = fresh_values().update(0, cfg0a);
    let v3 = v1.update(1, id);
    let v4 = v3.update(2, cfg0b);
    let v6 = v4.update(3, en);
    let v11 = v6.update(4, cfg1);
    let v13 = v11.update(5, cfg20);
    if id != AS7343_CHIP_ID {
        let short = rs.subrange(0, 3);
        let short_e = es.subrange(0, 3);
        assert(conversation(op, 3, v1, short_e.drop_first().drop_first(), short.drop_first().drop_first(), Err::<Outcome, As7343Error<E>>(As7343Error::InvalidChipId(id))));
        assert(short.drop_first().drop_first() == short.subrange(2, 3));
        assert(short_e.drop_first().drop_first() == short_e.subrange(2, 3));
        assert(conversation(op, 2, v1, short_e.drop_first(), short.drop_first(), Err::<Outcome, As7343Error<E>>(As7343Error::InvalidChipId(id))));
        assert(conversation(op, 1, fresh_values(), short_e, short, Err::<Outcome, As7343Error<E>>(As7343Error::InvalidChipId(id))));
    } else {
        let ok = Ok::<Outcome, As7343Error<E>>(Outcome::Done);
        assert(conversation(op, 16, v13, es.subrange(15, 16), rs.subrange(15, 16), ok));
        assert(rs.subrange(14, 16).drop_first() == rs.subrange(15, 16));
        assert(es.subrange(14, 16).drop_first() == es.subrange(15, 16));
        assert(v13[3] == en && v13[5] == cfg20 && v13[4] == cfg1);
        assert(es.subrange(14, 16)[0] == write_event::<E>(REG_ENABLE, enable_measuring(en)));
        assert(rs.subrange(14, 16)[0] == BusReply::<E>::Written);
        assert(conversation(op, 15, v13, es.subrange(14, 16), rs.subrange(14, 16), ok));
        assert(rs.subrange(13, 16).drop_first() == rs.subrange(14, 16));
        assert(es.subrange(13, 16).drop_first() == es.subrange(14, 16));
        assert(es.subrange(13, 16)[0] == write_event::<E>(REG_CFG20, cfg20_with_auto_smux(cfg20)));
        assert(rs.subrange(13, 16)[0] == BusReply::<E>::Written);
        assert(conversation(op, 14, v13, es.subrange(13, 16), rs.subrange(13, 16), ok));
        assert(rs.subrange(12, 16).drop_first() == rs.subrange(13, 16));
        assert(es.subrange(12, 16).drop_first() == es.subrange(13, 16));
        assert(conversation(op, 13, v11, es.subrange(12, 16), rs.subrange(12, 16), ok));
        assert(rs.subrange(11, 16).drop_first() == rs.subrange(12, 16));
        assert(es.subrange(11, 16).drop_first() == es.subrange(12, 16));
        assert(conversation(op, 12, v11, es.subrange(11, 16), rs.subrange(11, 16), ok));
        assert(rs.subrange(10, 16).drop_first() == rs.subrange(11, 16));
        assert(es.subrange(10, 16).drop_first() == es.subrange(11, 16));
        assert(conversation(op, 11, v6, es.subrange(10, 16), rs.subrange(10, 16), ok));
        assert(rs.subrange(9, 16).drop_first() == rs.subrange(10, 16));
        assert(es.subrange(9, 16).drop_first() == es.subrange(10, 16));
        assert(conversation(op, 10, v6, es.subrange(9, 16), rs.subrange(9, 16), ok));
        assert(rs.subrange(8, 16).drop_first() == rs.subrange(9, 16));
        assert(es.subrange(8, 16).drop_first() == es.subrange(9, 16));
        assert(conversation(op, 9, v6, es.subrange(8, 16), rs.subrange(8, 16), ok));
        assert(rs.subrange(7, 16).drop_first() == rs.subrange(8, 16));
        assert(es.subrange(7, 16).drop_first() == es.subrange(8, 16));
        assert(conversation(op, 8, v6, es.subrange(7, 16), rs.subrange(7, 16), ok));
        assert(rs.subrange(6, 16).drop_first() == rs.subrange(7, 16));
        assert(es.subrange(6, 16).drop_first() == es.subrange(7, 16));
        assert(conversation(op, 7, v6, es.subrange(6, 16), rs.subrange(6, 16), ok));
        assert(rs.subrange(5, 16).drop_first() == rs.subrange(6, 16));
        assert(es.subrange(5, 16).drop_first() == es.subrange(6, 16));
        assert(conversation(op, 6, v4, es.subrange(5, 16), rs.subrange(5, 16), ok));
        assert(rs.subrange(4, 16).drop_first() == rs.subrange(5, 16));
        assert(es.subrange(4, 16).drop_first() == es.subrange(5, 16));
        assert(conversation(op, 5, v4, es.subrange(4, 16), rs.subrange(4, 16), ok));
        assert(rs.subrange(3, 16).drop_first() == rs.subrange(4, 16));
        assert(es.subrange(3, 16).drop_first() == es.subrange(4, 16));
        assert(conversation(op, 4, v3, es.subrange(3, 16), rs.subrange(3, 16), ok));
        assert(rs.subrange(2, 16).drop_first() == rs.subrange(3, 16));
        assert(es.subrange(2, 16).drop_first() == es.subrange(3, 16));
        assert(conversation(op, 3, v1, es.subrange(2, 16), rs.subrange(2, 16), ok));
        assert(rs.subrange(1, 16).drop_first() == rs.subrange(2, 16));
        assert(es.subrange(1, 16).drop_first() == es.subrange(2, 16));
        assert(conversation(op, 2, v1, es.subrange(1, 16), rs.subrange(1, 16), ok));
        assert(rs.drop_first() == rs.subrange(1, 16));
        assert(es.drop_first() == es.subrange(1, 16));
        assert(conversation(op, 1, fresh_values(), es, rs, ok));
        assert(performed(op, es, ok));
    }
}



/// The transactions decide the conversation: the same transactions give the
/// same replies and the same result.
pub proof fn lemma_conversation_unique<E>(
    op: Operation,
    k: int,
    v: Seq<u8>,
    events: Seq<I2cEvent<E>>,
    r1: Seq<BusReply<E>>,
    o1: Result<Outcome, As7343Error<E>>,
    r2: Seq<BusReply<E>>,
    o2: Result<Outcome, As7343Error<E>>,
)
    requires
        conversation(op, k, v, events, r1, o1),
        conversation(op, k, v, events, r2, o2),
    ensures
        o1 == o2,
    decreases r1.len(),
{
    let req = request_at(op, k - 1, v);
    match (r1[0], r2[0]) {
        (BusReply::Block(a), BusReply::Block(b)) => {
            assert(a =~= b);
        },
        _ => {},
    }
    assert(r1[0] == r2[0]);
    let reply = r1[0];
    match reply {
        BusReply::Failed(_) => {},
        _ => {
            let v2 = stored(op, k - 1, v, reply);
            if ends_after(op, k, v2) {
                if op is Read18ch && data_valid(v2[0]) {
                    let ch1 = o1->Ok_0->Channels_0;
                    let ch2 = o2->Ok_0->Channels_0;
                    assert(ch1 =~= ch2);
                }
            } else {
                lemma_conversation_unique(op, k + 1, v2, events.drop_first(), r1.drop_first(), o1, r2.drop_first(), o2);
            }
        },
    }
}

/// An operation performed by the given transactions has one result: the
/// contracts of the drivers pin their results to the transactions made.
pub proof fn lemma_performed_unique<E>(
    op: Operation,
    events: Seq<I2cEvent<E>>,
    o1: Result<Outcome, As7343Error<E>>,
    o2: Result<Outcome, As7343Error<E>>,
)
    requires
        performed(op, events, o1),
        performed(op, events, o2),
    ensures
        o1 == o2,
{
    let r1 = choose|r: Seq<BusReply<E>>| conversation(op, 1, fresh_values(), events, r, o1);
    let r2 = choose|r: Seq<BusReply<E>>| conversation(op, 1, fresh_values(), events, r, o2);
    lemma_conversation_unique(op, 1, fresh_values(), events, r1, o1, r2, o2);
}

/// `ev` is a successful one-byte read of `reg` at the sensor that gave `x`.
pub open spec fn is_read_of<E>(ev: I2cEvent<E>, reg: u8, x: u8) -> bool {
    ev matches I2cEvent::WriteRead { address, bytes, read, result }
        && address == AS7343_I2C_ADDR && bytes == seq![reg] && read == seq![x] && result is Ok
}

/// `ev` is a successful write of `val` to `reg` at the sensor.
pub open spec fn is_write_of<E>(ev: I2cEvent<E>, reg: u8, val: u8) -> bool {
    ev matches I2cEvent::Write { address, bytes, result }
        && address == AS7343_I2C_ADDR && bytes == seq![reg, val] && result is Ok
}

/// The byte a successful one-byte read brought back.
pub open spec fn byte_read<E>(ev: I2cEvent<E>) -> u8 {
    match ev {
        I2cEvent::WriteRead { read, .. } => read[0],
        _ => 0,
    }
}

/// A successful bank select, or LED switch, is exactly a read of the
/// register and a write of the rewritten value back to it; a failed one
/// stops at the failing transaction.
pub proof fn lemma_read_modify_write<E>(op: Operation, events: Seq<I2cEvent<E>>, out: Result<Outcome, As7343Error<E>>)
    requires
        op is SelectBank || op is SetLedEnable,
        performed(op, events, out),
    ensures
        out is Ok ==> {
            let x = byte_read(events[0]);
            let reg = if op is SelectBank { REG_CFG0 } else { REG_LED };
            let val = match op {
                Operation::SelectBank(bank) => cfg0_for_bank(x, bank),
                Operation::SetLedEnable(enable) => led_for(x, enable),
                _ => 0,
            };
            &&& events.len() == 2
            &&& is_read_of(events[0], reg, x)
            &&& is_write_of(events[1], reg, val)
        },
        1 <= events.len() <= 2,
{
    let replies = choose|r: Seq<BusReply<E>>| conversation(op, 1, fresh_values(), events, r, out);
    let reply = replies[0];
    if !(reply is Failed) {
        let v2 = stored(op, 0, fresh_values(), reply);
        assert(conversation(op, 2, v2, events.drop_first(), replies.drop_first(), out));
        let reply2 = replies[1];
        assert(replies.drop_first()[0] == reply2);
        assert(events.drop_first()[0] == events[1]);
        if !(reply2 is Failed) {
            match events[0] {
                I2cEvent::WriteRead { address, bytes, read, result } => {
                    assert(read =~= seq![read[0]]);
                    assert(result is Ok);
                    assert(address == AS7343_I2C_ADDR);
                    assert(bytes == seq![if op is SelectBank { REG_CFG0 } else { REG_LED }]);
                    assert(reply == BusReply::<E>::Value(read[0]));
                    assert(v2[0] == read[0]);
                },
                _ => {},
            }
            match events[1] {
                I2cEvent::Write { address, bytes, result } => {
                    assert(result is Ok);
                },
                _ => {},
            }
        }
    }
}


/// One successful step of a conversation: the transaction is the read or
/// write the machine asked for, and the conversation goes on from the next
/// request unless the operation is over.
pub proof fn lemma_success_step<E>(
    op: Operation,
    k: int,
    v: Seq<u8>,
    events: Seq<I2cEvent<E>>,
    replies: Seq<BusReply<E>>,
    out: Result<Outcome, As7343Error<E>>,
)
    requires
        conversation(op, k, v, events, replies, out),
        !(replies[0] is Failed),
    ensures
        events.len() == replies.len() >= 1,
        match request_at(op, k - 1, v) {
            BusRequest::Read { reg } => {
                &&& is_read_of(events[0], reg, byte_read(events[0]))
                &&& stored(op, k - 1, v, replies[0]) == v.update(read_slot(op, k - 1), byte_read(events[0]))
            },
            BusRequest::Write { reg, val } => {
                &&& is_write_of(events[0], reg, val)
                &&& stored(op, k - 1, v, replies[0]) == v
            },
            BusRequest::ReadBlock { .. } => true,
        },
        ends_after(op, k, stored(op, k - 1, v, replies[0])) ==> {
            &&& replies.len() == 1
            &&& ends_with(op, k, stored(op, k - 1, v, replies[0]), replies[0], out)
        },
        !ends_after(op, k, stored(op, k - 1, v, replies[0])) ==> conversation(
            op, k + 1, stored(op, k - 1, v, replies[0]), events.drop_first(), replies.drop_first(), out,
        ),
{
    match events[0] {
        I2cEvent::WriteRead { read, .. } => {
            if request_at(op, k - 1, v) is Read {
                assert(read =~= seq![read[0]]);
            }
        },
        _ => {},
    }
}

/// The transactions of a completed default initialisation are exactly these
/// sixteen, all successful, each write carrying the value made from what the
/// reads before it gave: CFG0 read and written back with bank 1 selected,
/// the ID read (it is the expected one), CFG0 read and written back with
/// bank 0 selected, ENABLE read and written with PON, ATIME, ASTEP low and
/// high written, CFG1 read and written with the default gain, CFG20 read and
/// written with 18-channel auto-smux, ENABLE written with PON and SP_EN, the
/// LED register written with the default current and the LED off. An
/// initialisation that reports `InvalidChipId(id)` made exactly the first
/// three, and `id` is the ID read.
pub proof fn lemma_init_transactions<E>(events: Seq<I2cEvent<E>>, out: Result<Outcome, As7343Error<E>>)
    requires
        performed(Operation::InitDefault, events, out),
    ensures
        out is Ok ==> {
            let x0 = byte_read(events[0]);
            let x3 = byte_read(events[3]);
            let en = byte_read(events[5]);
            let c1 = byte_read(events[10]);
            let c20 = byte_read(events[12]);
            &&& events.len() == 16
            &&& byte_read(events[2]) == AS7343_CHIP_ID
            &&& is_read_of(events[0], REG_CFG0, x0)
            &&& is_write_of(events[1], REG_CFG0, cfg0_for_bank(x0, Bank::Bank1))
            &&& is_read_of(events[2], REG_ID, AS7343_CHIP_ID)
            &&& is_read_of(events[3], REG_CFG0, x3)
            &&& is_write_of(events[4], REG_CFG0, cfg0_for_bank(x3, Bank::Bank0))
            &&& is_read_of(events[5], REG_ENABLE, en)
            &&& is_write_of(events[6], REG_ENABLE, enable_powered(en))
            &&& is_write_of(events[7], REG_ATIME, DEFAULT_ATIME)
            &&& is_write_of(events[8], REG_ASTEP_L, 0x57)
            &&& is_write_of(events[9], REG_ASTEP_H, 0x02)
            &&& is_read_of(events[10], REG_CFG1, c1)
            &&& is_write_of(events[11], REG_CFG1, cfg1_with_gain(c1))
            &&& is_read_of(events[12], REG_CFG20, c20)
            &&& is_write_of(events[13], REG_CFG20, cfg20_with_auto_smux(c20))
            &&& is_write_of(events[14], REG_ENABLE, enable_measuring(en))
            &&& is_write_of(events[15], REG_LED, DEFAULT_LED_CURRENT)
        },
        out matches Err(As7343Error::InvalidChipId(id)) ==> {
            let x0 = byte_read(events[0]);
            &&& events.len() == 3
            &&& byte_read(events[2]) == id
            &&& is_read_of(events[0], REG_CFG0, x0)
            &&& is_write_of(events[1], REG_CFG0, cfg0_for_bank(x0, Bank::Bank1))
            &&& is_read_of(events[2], REG_ID, id)
        },
{
    let op = Operation::InitDefault;
    let replies = choose|r: Seq<BusReply<E>>| conversation(op, 1, fresh_values(), events, r, out);
    let mut v = fresh_values();
    let e0 = events.subrange(0, events.len() as int);
    let r0 = replies.subrange(0, replies.len() as int);
    assert(e0 =~= events && r0 =~= replies);
    assert(conversation(op, 1, v, e0, r0, out));
    if r0[0] is Failed { return; }
    lemma_success_step(op, 1, v, e0, r0, out);
    assert(e0[0] == events[0]);
    v = stored(op, 0, v, r0[0]);
    assert(e0.drop_first() =~= events.subrange(1, events.len() as int));
    assert(r0.drop_first() =~= replies.subrange(1, replies.len() as int));
    let e1 = events.subrange(1, events.len() as int);
    let r1 = replies.subrange(1, replies.len() as int);
    assert(conversation(op, 2, v, e1, r1, out));
    if r1[0] is Failed { return; }
    lemma_success_step(op, 2, v, e1, r1, out);
    assert(e1[0] == events[1]);
    v = stored(op, 1, v, r1[0]);
    assert(e1.drop_first() =~= events.subrange(2, events.len() as int));
    assert(r1.drop_first() =~= replies.subrange(2, replies.len() as int));
    let e2 = events.subrange(2, events.len() as int);
    let r2 = replies.subrange(2, replies.len() as int);
    assert(conversation(op, 3, v, e2, r2, out));
    if r2[0] is Failed { return; }
    lemma_success_step(op, 3, v, e2, r2, out);
    assert(e2[0] == events[2]);
    v = stored(op, 2, v, r2[0]);
    if ends_after(op, 3, v) { return; }
    assert(e2.drop_first() =~= events.subrange(3, events.len() as int));
    assert(r2.drop_first() =~= replies.subrange(3, replies.len() as int));
    let e3 = events.subrange(3, events.len() as int);
    let r3 = replies.subrange(3, replies.len() as int);
    assert(conversation(op, 4, v, e3, r3, out));
    if r3[0] is Failed { return; }
    lemma_success_step(op, 4, v, e3, r3, out);
    assert(e3[0] == events[3]);
    v = stored(op, 3, v, r3[0]);
    assert(e3.drop_first() =~= events.subrange(4, events.len() as int));
    assert(r3.drop_first() =~= replies.subrange(4, replies.len() as int));
    let e4 = events.subrange(4, events.len() as int);
    let r4 = replies.subrange(4, replies.len() as int);
    assert(conversation(op, 5, v, e4, r4, out));
    if r4[0] is Failed { return; }
    lemma_success_step(op, 5, v, e4, r4, out);
    assert(e4[0] == events[4]);
    v = stored(op, 4, v, r4[0]);
    assert(e4.drop_first() =~= events.subrange(5, events.len() as int));
    assert(r4.drop_first() =~= replies.subrange(5, replies.len() as int));
    let e5 = events.subrange(5, events.len() as int);
    let r5 = replies.subrange(5, replies.len() as int);
    assert(conversation(op, 6, v, e5, r5, out));
    if r5[0] is Failed { return; }
    lemma_success_step(op, 6, v, e5, r5, out);
    assert(e5[0] == events[5]);
    v = stored(op, 5, v, r5[0]);
    assert(e5.drop_first() =~= events.subrange(6, events.len() as int));
    assert(r5.drop_first() =~= replies.subrange(6, replies.len() as int));
    let e6 = events.subrange(6, events.len() as int);
    let r6 = replies.subrange(6, replies.len() as int);
    assert(conversation(op, 7, v, e6, r6, out));
    if r6[0] is Failed { return; }
    lemma_success_step(op, 7, v, e6, r6, out);
    assert(e6[0] == events[6]);
    v = stored(op, 6, v, r6[0]);
    assert(e6.drop_first() =~= events.subrange(7, events.len() as int));
    assert(r6.drop_first() =~= replies.subrange(7, replies.len() as int));
    let e7 = events.subrange(7, events.len() as int);
    let r7 = replies.subrange(7, replies.len() as int);
    assert(conversation(op, 8, v, e7, r7, out));
    if r7[0] is Failed { return; }
    lemma_success_step(op, 8, v, e7, r7, out);
    assert(e7[0] == events[7]);
    v = stored(op, 7, v, r7[0]);
    assert(e7.drop_first() =~= events.subrange(8, events.len() as int));
    assert(r7.drop_first() =~= replies.subrange(8, replies.len() as int));
    let e8 = events.subrange(8, events.len() as int);
    let r8 = replies.subrange(8, replies.len() as int);
    assert(conversation(op, 9, v, e8, r8, out));
    if r8[0] is Failed { return; }
    lemma_success_step(op, 9, v, e8, r8, out);
    assert(e8[0] == events[8]);
    v = stored(op, 8, v, r8[0]);
    assert(e8.drop_first() =~= events.subrange(9, events.len() as int));
    assert(r8.drop_first() =~= replies.subrange(9, replies.len() as int));
    let e9 = events.subrange(9, events.len() as int);
    let r9 = replies.subrange(9, replies.len() as int);
    assert(conversation(op, 10, v, e9, r9, out));
    if r9[0] is Failed { return; }
    lemma_success_step(op, 10, v, e9, r9, out);
    assert(e9[0] == events[9]);
    v = stored(op, 9, v, r9[0]);
    assert(e9.drop_first() =~= events.subrange(10, events.len() as int));
    assert(r9.drop_first() =~= replies.subrange(10, replies.len() as int));
    let e10 = events.subrange(10, events.len() as int);
    let r10 = replies.subrange(10, replies.len() as int);
    assert(conversation(op, 11, v, e10, r10, out));
    if r10[0] is Failed { return; }
    lemma_success_step(op, 11, v, e10, r10, out);
    assert(e10[0] == events[10]);
    v = stored(op, 10, v, r10[0]);
    assert(e10.drop_first() =~= events.subrange(11, events.len() as int));
    assert(r10.drop_first() =~= replies.subrange(11, replies.len() as int));
    let e11 = events.subrange(11, events.len() as int);
    let r11 = replies.subrange(11, replies.len() as int);
    assert(conversation(op, 12, v, e11, r11, out));
    if r11[0] is Failed { return; }
    lemma_success_step(op, 12, v, e11, r11, out);
    assert(e11[0] == events[11]);
    v = stored(op, 11, v, r11[0]);
    assert(e11.drop_first() =~= events.subrange(12, events.len() as int));
    assert(r11.drop_first() =~= replies.subrange(12, replies.len() as int));
    let e12 = events.subrange(12, events.len() as int);
    let r12 = replies.subrange(12, replies.len() as int);
    assert(conversation(op, 13, v, e12, r12, out));
    if r12[0] is Failed { return; }
    lemma_success_step(op, 13, v, e12, r12, out);
    assert(e12[0] == events[12]);
    v = stored(op, 12, v, r12[0]);
    assert(e12.drop_first() =~= events.subrange(13, events.len() as int));
    assert(r12.drop_first() =~= replies.subrange(13, replies.len() as int));
    let e13 = events.subrange(13, events.len() as int);
    let r13 = replies.subrange(13, replies.len() as int);
    assert(conversation(op, 14, v, e13, r13, out));
    if r13[0] is Failed { return; }
    lemma_success_step(op, 14, v, e13, r13, out);
    assert(e13[0] == events[13]);
    v = stored(op, 13, v, r13[0]);
    assert(e13.drop_first() =~= events.subrange(14, events.len() as int));
    assert(r13.drop_first() =~= replies.subrange(14, replies.len() as int));
    let e14 = events.subrange(14, events.len() as int);
    let r14 = replies.subrange(14, replies.len() as int);
    assert(conversation(op, 15, v, e14, r14, out));
    if r14[0] is Failed { return; }
    lemma_success_step(op, 15, v, e14, r14, out);
    assert(e14[0] == events[14]);
    v = stored(op, 14, v, r14[0]);
    assert(e14.drop_first() =~= events.subrange(15, events.len() as int));
    assert(r14.drop_first() =~= replies.subrange(15, replies.len() as int));
    let e15 = events.subrange(15, events.len() as int);
    let r15 = replies.subrange(15, replies.len() as int);
    assert(conversation(op, 16, v, e15, r15, out));
    if r15[0] is Failed { return; }
    lemma_success_step(op, 16, v, e15, r15, out);
    assert(e15[0] == events[15]);
    v = stored(op, 15, v, r15[0]);
}


/// How a transaction ended.
pub open spec fn event_result<E>(ev: I2cEvent<E>) -> Result<(), E> {
    match ev {
        I2cEvent::Write { result, .. } => result,
        I2cEvent::WriteRead { result, .. } => result,
    }
}

/// The bus error an operation reports, with the kind of transaction it
/// belongs to: `I2cWriteRead` for a one-byte read, `I2cRead` for the block
/// read, `I2cWrite` for a write.
pub open spec fn bus_failure<E>(ev: I2cEvent<E>, err: As7343Error<E>) -> bool {
    match err {
        As7343Error::I2cWriteRead(e) => ev matches I2cEvent::WriteRead { read, result, .. } && read.len() == 1 && result == Err::<(), E>(e),
        As7343Error::I2cRead(e) => ev matches I2cEvent::WriteRead { read, result, .. } && read.len() == CHANNEL_BYTES && result == Err::<(), E>(e),
        As7343Error::I2cWrite(e) => ev matches I2cEvent::Write { result, .. } && result == Err::<(), E>(e),
        _ => false,
    }
}

/// An operation stops at the first failed transaction: every transaction
/// before the last succeeded, and a bus error reported is the one the last
/// transaction ended with, of its kind.
pub proof fn lemma_stops_at_failure<E>(
    op: Operation,
    k: int,
    v: Seq<u8>,
    events: Seq<I2cEvent<E>>,
    replies: Seq<BusReply<E>>,
    out: Result<Outcome, As7343Error<E>>,
)
    requires
        conversation(op, k, v, events, replies, out),
    ensures
        events.len() >= 1,
        forall|i: int| 0 <= i < events.len() - 1 ==> #[trigger] event_result(events[i]) is Ok,
        out is Err && (out->Err_0 is I2cWriteRead || out->Err_0 is I2cRead || out->Err_0 is I2cWrite)
            ==> bus_failure(events.last(), out->Err_0),
        event_result(events.last()) is Err ==> (out is Err && bus_failure(events.last(), out->Err_0)),
    decreases replies.len(),
{
    let reply = replies[0];
    match reply {
        BusReply::Failed(e) => {},
        _ => {
            let v2 = stored(op, k - 1, v, reply);
            if !ends_after(op, k, v2) {
                lemma_stops_at_failure(op, k + 1, v2, events.drop_first(), replies.drop_first(), out);
                assert forall|i: int| 0 <= i < events.len() - 1 implies #[trigger] event_result(events[i]) is Ok by {
                    if i > 0 {
                        assert(events[i] == events.drop_first()[i - 1]);
                    }
                }
                assert(events.last() == events.drop_first().last());
            } else {
                match out {
                    Err(err) => {},
                    _ => {},
                }
            }
        },
    }
}

/// A performed operation stops at its first failed transaction (see
/// `lemma_stops_at_failure`).
pub proof fn lemma_performed_stops_at_failure<E>(op: Operation, events: Seq<I2cEvent<E>>, out: Result<Outcome, As7343Error<E>>)
    requires
        performed(op, events, out),
    ensures
        events.len() >= 1,
        forall|i: int| 0 <= i < events.len() - 1 ==> #[trigger] event_result(events[i]) is Ok,
        out is Err && (out->Err_0 is I2cWriteRead || out->Err_0 is I2cRead || out->Err_0 is I2cWrite)
            ==> bus_failure(events.last(), out->Err_0),
        event_result(events.last()) is Err ==> (out is Err && bus_failure(events.last(), out->Err_0)),
{
    let replies = choose|r: Seq<BusReply<E>>| conversation(op, 1, fresh_values(), events, r, out);
    lemma_stops_at_failure(op, 1, fresh_values(), events, replies, out);
}

/// Checking for data is one read of STATUS2, and its answer is AVALID of the
/// byte read.
pub proof fn lemma_data_ready_transaction<E>(events: Seq<I2cEvent<E>>, out: Result<Outcome, As7343Error<E>>)
    requires
        performed(Operation::DataReady, events, out),
    ensures
        events.len() == 1,
        events[0] matches I2cEvent::WriteRead { address, bytes, read, .. }
            && address == AS7343_I2C_ADDR && bytes == seq![REG_STATUS2] && read.len() == 1,
        out is Ok ==> out == Ok::<Outcome, As7343Error<E>>(Outcome::Ready(data_valid(byte_read(events[0])))),
{
    let replies = choose|r: Seq<BusReply<E>>| conversation(Operation::DataReady, 1, fresh_values(), events, r, out);
    if !(replies[0] is Failed) {
        lemma_success_step(Operation::DataReady, 1, fresh_values(), events, replies, out);
    }
}

/// Reading the channels is a read of STATUS2 and, when AVALID is set, one
/// block read of `CHANNEL_BYTES` from the first data register; the channels
/// returned are the little-endian values of the block; without AVALID the
/// answer is `DataNotReady` and nothing more is read.
pub proof fn lemma_read_18ch_transactions<E>(events: Seq<I2cEvent<E>>, out: Result<Outcome, As7343Error<E>>)
    requires
        performed(Operation::Read18ch, events, out),
    ensures
        1 <= events.len() <= 2,
        events[0] matches I2cEvent::WriteRead { address, bytes, read, .. }
            && address == AS7343_I2C_ADDR && bytes == seq![REG_STATUS2] && read.len() == 1,
        out == Err::<Outcome, As7343Error<E>>(As7343Error::DataNotReady) ==> {
            &&& events.len() == 1
            &&& !data_valid(byte_read(events[0]))
        },
        out is Ok ==> {
            &&& events.len() == 2
            &&& data_valid(byte_read(events[0]))
            &&& (events[1] matches I2cEvent::WriteRead { address, bytes, result, .. }
                && address == AS7343_I2C_ADDR && bytes == seq![REG_DATA_0_L] && result is Ok)
            &&& out->Ok_0 is Channels
            &&& channels_of(events[1]->WriteRead_read, out->Ok_0->Channels_0@)
        },
{
    let op = Operation::Read18ch;
    let replies = choose|r: Seq<BusReply<E>>| conversation(op, 1, fresh_values(), events, r, out);
    if !(replies[0] is Failed) {
        lemma_success_step(op, 1, fresh_values(), events, replies, out);
        let v = stored(op, 0, fresh_values(), replies[0]);
        if !ends_after(op, 1, v) {
            let e1 = events.drop_first();
            let r1 = replies.drop_first();
            assert(e1[0] == events[1]);
            assert(r1[0] == replies[1]);
        }
    }
}


/// The ready flag is exactly STATUS2 bit 6 (AVALID): the other status bits
/// (saturation and the rest) never change the answer.
pub proof fn law_ready_is_avalid_only(st2: u8, others: u8)
    requires
        others & 0x40 == 0,
    ensures
        data_valid(st2 | others) == data_valid(st2),
        data_valid(st2 & 0x40) == data_valid(st2),
        data_valid(0x40),
        !data_valid(0),
        data_valid(0xFF),
        !data_valid(0xBF),
{
    assert((st2 | others) & 0x40 == st2 & 0x40) by (bit_vector)
        requires others & 0x40 == 0;
    assert((st2 & 0x40) & 0x40 == st2 & 0x40) by (bit_vector);
    assert(0x40u8 & 0x40 != 0 && 0u8 & 0x40 == 0 && 0xFFu8 & 0x40 != 0 && 0xBFu8 & 0x40 == 0) by (bit_vector);
}

} // verus!
