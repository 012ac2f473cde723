//! XPT2046 resistive touch controller: sampling over SPI, averaging, and the
//! mapping of raw 12-bit readings onto screen coordinates.

use vstd::prelude::*;
use crate::bus::{LevelInput, TransferBus, TransferEvent};

verus! {

/// Control byte: 12-bit, differential, X position.
pub const CMD_X: u8 = 0xD0;
/// Control byte: 12-bit, differential, Y position.
pub const CMD_Y: u8 = 0x90;

/// A reading straight from the controller, each axis 12 bits.
#[derive(Debug, Clone, Copy, PartialEq, Eq)]
pub struct RawPoint {
    pub x: u16,
    pub y: u16,
}

/// A position on the screen.
#[derive(Debug, Clone, Copy, PartialEq, Eq)]
pub struct Point {
    pub x: u16,
    pub y: u16,
}

/// How raw readings relate to the screen.
#[derive(Debug, Clone, Copy)]
pub struct Calibration {
    pub x_min: u16,
    pub x_max: u16,
    pub y_min: u16,
    pub y_max: u16,
    pub width: u16,
    pub height: u16,
    pub swap_xy: bool,
    pub invert_x: bool,
    pub invert_y: bool,
}

#[derive(Debug)]
pub enum Error<SpiE, PinE> {
    Spi(SpiE),
    Pin(PinE),
    InvalidCalibration,
}

/// `v` limited to the range `[lo, hi]`.
pub open spec fn clamped(v: int, lo: int, hi: int) -> int {
    if v < lo { lo } else if v > hi { hi } else { v }
}

/// `v`, clamped to `[in_min, in_max]`, scaled linearly onto `[0, out_max - 1]`
/// and rounded down.
pub open spec fn scaled(v: int, in_min: int, in_max: int, out_max: int) -> int {
    (clamped(v, in_min, in_max) - in_min) * (out_max - 1) / (in_max - in_min)
}

/// The calibration describes a non-empty input range on both axes and a
/// non-empty screen.
pub open spec fn calibration_valid(cal: Calibration) -> bool {
    &&& cal.x_min < cal.x_max
    &&& cal.y_min < cal.y_max
    &&& cal.width != 0
    &&& cal.height != 0
}

/// The raw value that feeds the screen's x axis (after the optional swap).
pub open spec fn raw_for_x(raw: RawPoint, cal: Calibration) -> int {
    if cal.swap_xy { raw.y as int } else { raw.x as int }
}

/// The raw value that feeds the screen's y axis (after the optional swap).
pub open spec fn raw_for_y(raw: RawPoint, cal: Calibration) -> int {
    if cal.swap_xy { raw.x as int } else { raw.y as int }
}

/// Screen x of a raw reading under a valid calibration.
pub open spec fn screen_x(raw: RawPoint, cal: Calibration) -> int {
    let x = scaled(raw_for_x(raw, cal), cal.x_min as int, cal.x_max as int, cal.width as int);
    if cal.invert_x { cal.width - 1 - x } else { x }
}

/// Screen y of a raw reading under a valid calibration.
pub open spec fn screen_y(raw: RawPoint, cal: Calibration) -> int {
    let y = scaled(raw_for_y(raw, cal), cal.y_min as int, cal.y_max as int, cal.height as int);
    if cal.invert_y { cal.height - 1 - y } else { y }
}

/// `a * m / span` stays within `[0, m]` when `a` lies in `[0, span]`.
proof fn lemma_scale_bounded(a: int, span: int, m: int)
    requires
        0 <= a <= span,
        0 < span,
        0 <= m,
    ensures
        0 <= a * m / span <= m,
{
    assert(0 <= a * m <= span * m) by (nonlinear_arith)
        requires 0 <= a <= span, 0 <= m;
    vstd::arithmetic::div_mod::lemma_div_is_ordered(a * m, span * m, span);
    vstd::arithmetic::div_mod::lemma_div_is_ordered(0, a * m, span);
    vstd::arithmetic::div_mod::lemma_div_by_multiple(m, span);
    assert(span * m == m * span) by (nonlinear_arith);
}

/// The scaled value lies on the output range.
pub proof fn lemma_scaled_in_range(v: int, in_min: int, in_max: int, out_max: int)
    requires
        in_min < in_max,
        1 <= out_max,
    ensures
        0 <= scaled(v, in_min, in_max, out_max) < out_max,
{
    lemma_scale_bounded(clamped(v, in_min, in_max) - in_min, in_max - in_min, out_max - 1);
}

/// Clamps `v` to `[in_min, in_max]` and scales it onto `[0, out_max - 1]`.
pub fn clamp_map(v: u16, in_min: u16, in_max: u16, out_max: u16) -> (res: u16)
    requires
        in_min < in_max,
        1 <= out_max,
    ensures
        res == scaled(v as int, in_min as int, in_max as int, out_max as int),
        res < out_max,
{
    let c = if v < in_min { in_min } else if v > in_max { in_max } else { v };
    proof {
        lemma_scaled_in_range(v as int, in_min as int, in_max as int, out_max as int);
        assert((c - in_min) * (out_max - 1) <= 0xffff * 0xffff) by (nonlinear_arith)
            requires 0 <= c - in_min <= 0xffff, 0 <= out_max - 1 <= 0xffff;
    }
    let num = (c - in_min) as u32 * (out_max - 1) as u32;
    let den = (in_max - in_min) as u32;
    (num / den) as u16
}


/// What `map_raw_to_screen` gives: the screen point of the reading under a
/// valid calibration, `InvalidCalibration` otherwise.
pub open spec fn map_outcome<SpiE, PinE>(raw: RawPoint, cal: Calibration) -> Result<Point, Error<SpiE, PinE>> {
    if calibration_valid(cal) {
        Ok(Point { x: screen_x(raw, cal) as u16, y: screen_y(raw, cal) as u16 })
    } else {
        Err(Error::InvalidCalibration)
    }
}

/// Maps a raw reading onto the screen: optional axis swap, clamp-and-scale
/// of each axis onto the screen size, optional inversion of each axis.
/// A calibration with an empty input range or an empty screen is refused.
pub fn map_raw_to_screen<SpiE, PinE>(raw: RawPoint, cal: &Calibration) -> (res: Result<Point, Error<SpiE, PinE>>)
    ensures
        res == map_outcome::<SpiE, PinE>(raw, *cal),
        calibration_valid(*cal) <==> res is Ok,
        res matches Err(e) ==> e is InvalidCalibration,
        res matches Ok(p) ==> {
            &&& p.x == screen_x(raw, *cal)
            &&& p.y == screen_y(raw, *cal)
            &&& p.x < cal.width
            &&& p.y < cal.height
        },
{
    if cal.x_max <= cal.x_min || cal.y_max <= cal.y_min || cal.width == 0 || cal.height == 0 {
        return Err(Error::InvalidCalibration);
    }

    let mut x = raw.x;
    let mut y = raw.y;

    if cal.swap_xy {
        core::mem::swap(&mut x, &mut y);
    }

    let x = clamp_map(x, cal.x_min, cal.x_max, cal.width);
    let y = clamp_map(y, cal.y_min, cal.y_max, cal.height);

    let x = if cal.invert_x { cal.width - 1 - x } else { x };
    let y = if cal.invert_y { cal.height - 1 - y } else { y };

    Ok(Point { x, y })
}

/// The value carried by the last two bytes of a conversion frame: bits 14..3
/// of the big-endian 16-bit word, a 12-bit reading.
pub open spec fn frame_value(hi: u8, lo: u8) -> int {
    (hi as int * 256 + lo as int) / 8 % 4096
}

/// Extracts the 12-bit reading from a three-byte conversion frame (command
/// byte, then the two bytes clocked out by the controller).
pub fn decode_frame(frame: [u8; 3]) -> (res: u16)
    ensures
        res == frame_value(frame[1], frame[2]),
        res < 4096,
{
    let hi = frame[1];
    let lo = frame[2];
    let v = (((hi as u16) << 8) | (lo as u16)) >> 3;
    let r = v & 0x0FFF;
    assert(r == ((hi as u16) * 256 + (lo as u16)) / 8 % 4096) by (bit_vector)
        requires
            v == (((hi as u16) << 8) | (lo as u16)) >> 3,
            r == v & 0x0FFF;
    r
}

/// How many conversions `read_raw_averaged(samples)` averages: at least one,
/// at most sixteen.
pub open spec fn sample_count(samples: u8) -> int {
    if samples == 0 { 1 } else if samples > 16 { 16 } else { samples as int }
}

/// Sum of the x readings of a sequence of points.
pub open spec fn sum_x(s: Seq<RawPoint>) -> int
    decreases s.len(),
{
    if s.len() == 0 { 0 } else { sum_x(s.drop_last()) + s.last().x }
}

/// Sum of the y readings of a sequence of points.
pub open spec fn sum_y(s: Seq<RawPoint>) -> int
    decreases s.len(),
{
    if s.len() == 0 { 0 } else { sum_y(s.drop_last()) + s.last().y }
}

/// Every point of the sequence has 12-bit readings.
pub open spec fn all_12_bit(s: Seq<RawPoint>) -> bool {
    forall|i: int| 0 <= i < s.len() ==> #[trigger] s[i].x < 4096 && s[i].y < 4096
}

/// The mean of a non-empty sequence of points, each axis rounded down.
pub open spec fn mean(s: Seq<RawPoint>) -> RawPoint {
    RawPoint { x: (sum_x(s) / (s.len() as int)) as u16, y: (sum_y(s) / (s.len() as int)) as u16 }
}

/// The mean of the first `n` samples, each axis rounded down.
pub fn average(samples: &[RawPoint; 16], n: usize) -> (p: RawPoint)
    requires
        1 <= n <= 16,
        all_12_bit(samples@.subrange(0, n as int)),
    ensures
        p == mean(samples@.subrange(0, n as int)),
        p.x < 4096,
        p.y < 4096,
{
    let mut sx: u32 = 0;
    let mut sy: u32 = 0;
    let mut i: usize = 0;
    while i < n
        invariant
            1 <= n <= 16,
            i <= n,
            all_12_bit(samples@.subrange(0, n as int)),
            sx == sum_x(samples@.subrange(0, i as int)),
            sy == sum_y(samples@.subrange(0, i as int)),
            sx <= 4095 * i,
            sy <= 4095 * i,
        decreases n - i,
    {
        let p = samples[i];
        proof {
            let s = samples@.subrange(0, n as int);
            assert(s[i as int] == p);
            assert(samples@.subrange(0, i + 1).drop_last() == samples@.subrange(0, i as int));
            assert(samples@.subrange(0, i + 1).last() == p);
        }
        sx += p.x as u32;
        sy += p.y as u32;
        i += 1;
    }
    proof {
        lemma_mean_12_bit(samples@.subrange(0, n as int));
    }
    RawPoint { x: (sx / n as u32) as u16, y: (sy / n as u32) as u16 }
}

/// What `is_touched` reports for a reading of the PENIRQ line: touched when
/// the line is low, a `Pin` error when the line could not be read.
pub fn touch_from_level<SpiE, PinE>(level: Result<bool, PinE>) -> (res: Result<bool, Error<SpiE, PinE>>)
    ensures
        match level {
            Ok(low) => res == Ok::<bool, Error<SpiE, PinE>>(low),
            Err(e) => res == Err::<bool, Error<SpiE, PinE>>(Error::Pin(e)),
        },
{
    match level {
        Ok(low) => Ok(low),
        Err(e) => Err(Error::Pin(e)),
    }
}

/// The frame sent for one conversion: the control byte, then two bytes
/// clocked out while the reading comes back.
pub fn command_frame(cmd: u8) -> (frame: [u8; 3])
    ensures
        frame@ == seq![cmd, 0u8, 0u8],
{
    let frame = [cmd, 0, 0];
    assert(frame@ =~= seq![cmd, 0u8, 0u8]);
    frame
}

/// The reading of one conversion, given how the transfer ended and the frame
/// it left behind: the 12-bit value of the frame, or an `Spi` error.
pub fn reading_from_transfer<SpiE, PinE>(transfer: Result<(), SpiE>, frame: [u8; 3]) -> (res: Result<u16, Error<SpiE, PinE>>)
    ensures
        match transfer {
            Ok(()) => res == Ok::<u16, Error<SpiE, PinE>>(frame_value(frame[1], frame[2]) as u16),
            Err(e) => res == Err::<u16, Error<SpiE, PinE>>(Error::Spi(e)),
        },
        res matches Ok(v) ==> v < 4096,
{
    match transfer {
        Ok(()) => Ok(decode_frame(frame)),
        Err(e) => Err(Error::Spi(e)),
    }
}

/// One conversion of the transfer record: the frame sent was `cmd`
/// followed by two zero bytes, and three bytes came back.
pub open spec fn conversion<E>(ev: TransferEvent<E>, cmd: u8) -> bool {
    ev.sent == seq![cmd, 0u8, 0u8] && ev.received.len() == 3
}

/// The 12-bit reading a conversion brought back.
pub open spec fn conversion_value<E>(ev: TransferEvent<E>) -> u16 {
    frame_value(ev.received[1], ev.received[2]) as u16
}

/// `ev` is the conversion `cmd`, and `res` is the reading or the SPI error
/// it gave.
pub open spec fn channel_read<SpiE, PinE>(ev: TransferEvent<SpiE>, cmd: u8, res: Result<u16, Error<SpiE, PinE>>) -> bool {
    &&& conversion(ev, cmd)
    &&& match ev.result {
        Ok(_) => res == Ok::<u16, Error<SpiE, PinE>>(conversion_value(ev)),
        Err(e) => res == Err::<u16, Error<SpiE, PinE>>(Error::Spi(e)),
    }
}

/// `ev` are the transfers of one raw reading and `res` its result: an X
/// conversion, then, if it succeeded, a Y conversion; the point of the two
/// readings, or the error of the first failed transfer.
pub open spec fn raw_read<SpiE, PinE>(ev: Seq<TransferEvent<SpiE>>, res: Result<RawPoint, Error<SpiE, PinE>>) -> bool {
    &&& 1 <= ev.len() <= 2
    &&& conversion(ev[0], CMD_X)
    &&& match ev[0].result {
        Err(e) => ev.len() == 1 && res == Err::<RawPoint, Error<SpiE, PinE>>(Error::Spi(e)),
        Ok(_) => {
            &&& ev.len() == 2
            &&& conversion(ev[1], CMD_Y)
            &&& match ev[1].result {
                Err(e) => res == Err::<RawPoint, Error<SpiE, PinE>>(Error::Spi(e)),
                Ok(_) => res == Ok::<RawPoint, Error<SpiE, PinE>>(
                    RawPoint { x: conversion_value(ev[0]), y: conversion_value(ev[1]) },
                ),
            }
        },
    }
}

/// Sample `i` of a run of raw readings: the readings of transfers `2i` and
/// `2i + 1`.
pub open spec fn sample_at<E>(ev: Seq<TransferEvent<E>>, i: int) -> RawPoint {
    RawPoint { x: conversion_value(ev[2 * i]), y: conversion_value(ev[2 * i + 1]) }
}

/// The first `k` samples of a run of raw readings.
pub open spec fn samples_of<E>(ev: Seq<TransferEvent<E>>, k: int) -> Seq<RawPoint> {
    Seq::new(k as nat, |i: int| sample_at(ev, i))
}

/// `ev` are exactly `k` successful raw readings.
pub open spec fn samples_read<SpiE, PinE>(ev: Seq<TransferEvent<SpiE>>, k: int) -> bool {
    &&& ev.len() == 2 * k
    &&& forall|i: int| 0 <= i < k ==> #[trigger] raw_read::<SpiE, PinE>(
        ev.subrange(2 * i, 2 * i + 2),
        Ok(sample_at(ev, i)),
    )
}

/// `ev` are the transfers of an averaged reading of `n` samples and `res` its
/// result: `n` raw readings and the mean of their samples, or the readings
/// up to the first failed one and its error.
pub open spec fn averaged_read<SpiE, PinE>(ev: Seq<TransferEvent<SpiE>>, n: int, res: Result<RawPoint, Error<SpiE, PinE>>) -> bool {
    match res {
        Ok(p) => samples_read::<SpiE, PinE>(ev, n) && p == mean(samples_of(ev, n)),
        Err(e) => exists|k: int| {
            &&& 0 <= k < n
            &&& 2 * k < ev.len()
            &&& #[trigger] samples_read::<SpiE, PinE>(ev.subrange(0, 2 * k), k)
            &&& raw_read(ev.subrange(2 * k, ev.len() as int), Err::<RawPoint, Error<SpiE, PinE>>(e))
        },
    }
}

/// What `read_point` gives for the outcome of its averaged reading.
pub open spec fn point_outcome<SpiE, PinE>(raw: Result<RawPoint, Error<SpiE, PinE>>, cal: Calibration) -> Result<Point, Error<SpiE, PinE>> {
    match raw {
        Ok(p) => map_outcome(p, cal),
        Err(e) => Err(e),
    }
}

/// What `is_touched` gives for a reading of the PENIRQ line.
pub open spec fn touch_outcome<SpiE, PinE>(level: Result<bool, PinE>) -> Result<bool, Error<SpiE, PinE>> {
    match level {
        Ok(low) => Ok(low),
        Err(e) => Err(Error::Pin(e)),
    }
}

/// A conversion reading is a 12-bit value.
pub proof fn lemma_conversion_12_bit<E>(ev: TransferEvent<E>)
    ensures
        conversion_value(ev) < 4096,
{
    assert(0 <= frame_value(ev.received[1], ev.received[2]) < 4096);
}

/// An XPT2046 on an SPI device, with its pen-interrupt (PENIRQ) line, and the
/// record of the transfers and line readings made on them.
pub struct Xpt2046<SPI: TransferBus, IRQ: LevelInput> {
    spi: SPI,
    irq: IRQ,
    transfers: Ghost<Seq<TransferEvent<SPI::Error>>>,
    levels: Ghost<Seq<Result<bool, IRQ::Error>>>,
}

impl<SPI: TransferBus, IRQ: LevelInput> Xpt2046<SPI, IRQ> {
    /// The SPI device the controller sits on.
    pub closed spec fn spi_device(&self) -> SPI {
        self.spi
    }

    /// The pen-interrupt pin.
    pub closed spec fn irq_pin(&self) -> IRQ {
        self.irq
    }

    /// The SPI transfers made so far, oldest first.
    pub closed spec fn transfers(&self) -> Seq<TransferEvent<SPI::Error>> {
        self.transfers@
    }

    /// The PENIRQ readings taken so far, oldest first.
    pub closed spec fn levels(&self) -> Seq<Result<bool, IRQ::Error>> {
        self.levels@
    }

    /// The controller on `spi`, with its PENIRQ line `irq`.
    pub fn new(spi: SPI, irq: IRQ) -> (res: Self)
        ensures
            res.spi_device() == spi,
            res.irq_pin() == irq,
            res.transfers() == Seq::<TransferEvent<SPI::Error>>::empty(),
            res.levels() == Seq::<Result<bool, IRQ::Error>>::empty(),
    {
        Xpt2046 { spi, irq, transfers: Ghost(Seq::empty()), levels: Ghost(Seq::empty()) }
    }

    /// One SPI transfer of `buf`, recorded.
    fn transfer(&mut self, buf: &mut [u8; 3]) -> (res: Result<(), SPI::Error>)
        ensures
            final(self).transfers() == old(self).transfers().push(
                TransferEvent { sent: old(buf)@, received: final(buf)@, result: res },
            ),
            final(self).levels() == old(self).levels(),
            final(self).irq_pin() == old(self).irq_pin(),
    {
        let ghost sent = buf@;
        let res = self.spi.transfer_in_place(buf);
        self.transfers = Ghost(self.transfers@.push(TransferEvent { sent, received: buf@, result: res }));
        res
    }

    /// Whether the panel is touched: PENIRQ is active low.
    pub fn is_touched(&mut self) -> (res: Result<bool, Error<SPI::Error, IRQ::Error>>)
        ensures
            final(self).levels().len() == old(self).levels().len() + 1,
            final(self).levels().drop_last() == old(self).levels(),
            res == touch_outcome::<SPI::Error, IRQ::Error>(final(self).levels().last()),
            final(self).transfers() == old(self).transfers(),
            final(self).spi_device() == old(self).spi_device(),
    {
        let level = self.irq.is_low();
        self.levels = Ghost(self.levels@.push(level));
        touch_from_level(level)
    }

    /// One X conversion followed by one Y conversion.
    pub fn read_raw(&mut self) -> (res: Result<RawPoint, Error<SPI::Error, IRQ::Error>>)
        ensures
            old(self).transfers().is_prefix_of(final(self).transfers()),
            raw_read(final(self).transfers().skip(old(self).transfers().len() as int), res),
            final(self).levels() == old(self).levels(),
            final(self).irq_pin() == old(self).irq_pin(),
            res matches Ok(p) ==> p.x < 4096 && p.y < 4096,
    {
        let ghost h0 = self.transfers();
        let x = match self.read_channel(CMD_X) {
            Ok(v) => v,
            Err(e) => {
                proof {
                    assert(self.transfers().skip(h0.len() as int) =~= seq![self.transfers().last()]);
                }
                return Err(e);
            },
        };
        let ghost h1 = self.transfers();
        let y = match self.read_channel(CMD_Y) {
            Ok(v) => v,
            Err(e) => {
                proof {
                    assert(self.transfers().skip(h0.len() as int) =~= seq![h1.last(), self.transfers().last()]);
                }
                return Err(e);
            },
        };
        proof {
            assert(self.transfers().skip(h0.len() as int) =~= seq![h1.last(), self.transfers().last()]);
            lemma_conversion_12_bit(h1.last());
            lemma_conversion_12_bit(self.transfers().last());
        }
        Ok(RawPoint { x, y })
    }

    /// The mean of `sample_count(samples)` raw readings, each axis rounded
    /// down; the error of the first reading that fails.
    pub fn read_raw_averaged(&mut self, samples: u8) -> (res: Result<RawPoint, Error<SPI::Error, IRQ::Error>>)
        ensures
            old(self).transfers().is_prefix_of(final(self).transfers()),
            averaged_read(final(self).transfers().skip(old(self).transfers().len() as int), sample_count(samples), res),
            final(self).levels() == old(self).levels(),
            final(self).irq_pin() == old(self).irq_pin(),
            res matches Ok(p) ==> p.x < 4096 && p.y < 4096,
    {
        let n: usize = if samples == 0 { 1 } else if samples > 16 { 16 } else { samples as usize };
        let mut taken = [RawPoint { x: 0, y: 0 }; 16];
        let ghost h0 = self.transfers();
        let mut i: usize = 0;
        assert(self.transfers().skip(h0.len() as int) =~= Seq::<TransferEvent<SPI::Error>>::empty());
        while i < n
            invariant
                n == sample_count(samples),
                1 <= n <= 16,
                i <= n,
                h0 == old(self).transfers(),
                h0.is_prefix_of(self.transfers()),
                samples_read::<SPI::Error, IRQ::Error>(self.transfers().skip(h0.len() as int), i as int),
                forall|j: int| 0 <= j < i ==> #[trigger] taken@[j] == sample_at(self.transfers().skip(h0.len() as int), j),
                all_12_bit(taken@.subrange(0, i as int)),
                self.levels() == old(self).levels(),
                self.irq_pin() == old(self).irq_pin(),
            decreases n - i,
        {
            let ghost before = self.transfers().skip(h0.len() as int);
            let ghost hb = self.transfers();
            let r = self.read_raw();
            let ghost delta = self.transfers().skip(hb.len() as int);
            let ghost after = self.transfers().skip(h0.len() as int);
            proof {
                assert(h0.is_prefix_of(self.transfers()));
                assert(after =~= before + delta);
                assert(after.subrange(0, 2 * i) =~= before);
                assert(after.subrange(2 * i, after.len() as int) =~= delta);
            }
            match r {
                Ok(p) => {
                    taken[i] = p;
                    proof {
                        assert forall|j: int| 0 <= j < i + 1 implies #[trigger] raw_read::<SPI::Error, IRQ::Error>(
                            after.subrange(2 * j, 2 * j + 2),
                            Ok(sample_at(after, j)),
                        ) by {
                            if j < i {
                                assert(after.subrange(2 * j, 2 * j + 2) =~= before.subrange(2 * j, 2 * j + 2));
                                assert(sample_at(after, j) == sample_at(before, j));
                            } else {
                                assert(after.subrange(2 * j, 2 * j + 2) =~= delta);
                                assert(sample_at(after, j) == p);
                            }
                        }
                        assert forall|j: int| 0 <= j < i + 1 implies #[trigger] taken@[j] == sample_at(after, j) by {
                            if j < i {
                                assert(sample_at(after, j) == sample_at(before, j));
                            } else {
                                assert(sample_at(after, j) == p);
                            }
                        }
                        assert(taken@.subrange(0, i + 1) =~= taken@.subrange(0, i as int).push(p));
                    }
                    i += 1;
                },
                Err(e) => {
                    proof {
                        assert(samples_read::<SPI::Error, IRQ::Error>(after.subrange(0, 2 * i), i as int));
                    }
                    return Err(e);
                },
            }
        }
        let p = average(&taken, n);
        proof {
            let ev = self.transfers().skip(h0.len() as int);
            assert(samples_of(ev, n as int) =~= taken@.subrange(0, n as int));
        }
        Ok(p)
    }

    /// An averaged reading of four conversions, mapped onto the screen.
    pub fn read_point(&mut self, cal: &Calibration) -> (res: Result<Point, Error<SPI::Error, IRQ::Error>>)
        ensures
            old(self).transfers().is_prefix_of(final(self).transfers()),
            exists|raw: Result<RawPoint, Error<SPI::Error, IRQ::Error>>| {
                &&& averaged_read(final(self).transfers().skip(old(self).transfers().len() as int), 4, raw)
                &&& res == point_outcome(raw, *cal)
            },
            final(self).levels() == old(self).levels(),
            final(self).irq_pin() == old(self).irq_pin(),
            res matches Ok(p) ==> p.x < cal.width && p.y < cal.height,
    {
        let raw = self.read_raw_averaged(4);
        let ghost r = raw;
        let res = match raw {
            Ok(p) => map_raw_to_screen(p, cal),
            Err(e) => Err(e),
        };
        assert(res == point_outcome(r, *cal));
        res
    }

    /// One conversion: send `cmd`, clock out the reading.
    fn read_channel(&mut self, cmd: u8) -> (res: Result<u16, Error<SPI::Error, IRQ::Error>>)
        ensures
            final(self).transfers().len() == old(self).transfers().len() + 1,
            final(self).transfers().drop_last() == old(self).transfers(),
            channel_read(final(self).transfers().last(), cmd, res),
            final(self).levels() == old(self).levels(),
            final(self).irq_pin() == old(self).irq_pin(),
            res matches Ok(v) ==> v < 4096,
    {
        let mut buf = command_frame(cmd);
        let transfer = self.transfer(&mut buf);
        reading_from_transfer(transfer, buf)
    }
}

/// Sums of 12-bit readings are below `4096` times their count.
pub proof fn lemma_sums_bounded(s: Seq<RawPoint>)
    requires
        all_12_bit(s),
    ensures
        0 <= sum_x(s) <= 4095 * s.len(),
        0 <= sum_y(s) <= 4095 * s.len(),
    decreases s.len(),
{
    if s.len() > 0 {
        assert(all_12_bit(s.drop_last()));
        lemma_sums_bounded(s.drop_last());
        assert(s[s.len() - 1].x < 4096);
    }
}

/// The mean of a non-empty run of 12-bit readings is itself 12-bit, and lies
/// between the smallest and the largest reading of each axis.
pub proof fn lemma_mean_12_bit(s: Seq<RawPoint>)
    requires
        all_12_bit(s),
        s.len() > 0,
    ensures
        0 <= sum_x(s) / (s.len() as int) < 4096,
        0 <= sum_y(s) / (s.len() as int) < 4096,
        mean(s).x == sum_x(s) / (s.len() as int),
        mean(s).y == sum_y(s) / (s.len() as int),
{
    lemma_sums_bounded(s);
    assert(4095 * s.len() == s.len() * 4095) by (nonlinear_arith);
    vstd::arithmetic::div_mod::lemma_div_is_ordered(sum_x(s), (s.len() * 4095) as int, s.len() as int);
    vstd::arithmetic::div_mod::lemma_div_is_ordered(sum_y(s), (s.len() * 4095) as int, s.len() as int);
    vstd::arithmetic::div_mod::lemma_div_multiples_vanish(4095, s.len() as int);
    vstd::arithmetic::div_mod::lemma_div_is_ordered(0, sum_x(s), s.len() as int);
    vstd::arithmetic::div_mod::lemma_div_is_ordered(0, sum_y(s), s.len() as int);
}

/// Clamp-and-scale never reverses the order of two readings.
pub proof fn lemma_scaled_monotone(v1: int, v2: int, in_min: int, in_max: int, out_max: int)
    requires
        v1 <= v2,
        in_min < in_max,
        1 <= out_max,
    ensures
        scaled(v1, in_min, in_max, out_max) <= scaled(v2, in_min, in_max, out_max),
{
    let a = clamped(v1, in_min, in_max) - in_min;
    let b = clamped(v2, in_min, in_max) - in_min;
    assert(a * (out_max - 1) <= b * (out_max - 1)) by (nonlinear_arith)
        requires a <= b, 0 <= out_max - 1;
    vstd::arithmetic::div_mod::lemma_div_is_ordered(a * (out_max - 1), b * (out_max - 1), in_max - in_min);
}

/// The ends of the input range land on the ends of the output range, and
/// readings beyond an end land where that end does.
pub proof fn lemma_scaled_ends(v: int, in_min: int, in_max: int, out_max: int)
    requires
        in_min < in_max,
        1 <= out_max,
    ensures
        scaled(in_min, in_min, in_max, out_max) == 0,
        scaled(in_max, in_min, in_max, out_max) == out_max - 1,
        v <= in_min ==> scaled(v, in_min, in_max, out_max) == 0,
        v >= in_max ==> scaled(v, in_min, in_max, out_max) == out_max - 1,
{
    assert(0 * (out_max - 1) == 0) by (nonlinear_arith);
    assert((in_max - in_min) * (out_max - 1) == (out_max - 1) * (in_max - in_min)) by (nonlinear_arith);
    vstd::arithmetic::div_mod::lemma_div_by_multiple(out_max - 1, in_max - in_min);
}

/// Under a valid calibration every raw reading lands on the screen.
pub proof fn lemma_screen_point_on_screen(raw: RawPoint, cal: Calibration)
    requires
        calibration_valid(cal),
    ensures
        0 <= screen_x(raw, cal) < cal.width,
        0 <= screen_y(raw, cal) < cal.height,
{
    lemma_scaled_in_range(raw_for_x(raw, cal), cal.x_min as int, cal.x_max as int, cal.width as int);
    lemma_scaled_in_range(raw_for_y(raw, cal), cal.y_min as int, cal.y_max as int, cal.height as int);
}


/// The sums of a run of readings lie between its length times the lowest
/// and times the highest reading of each axis.
proof fn lemma_sums_between(s: Seq<RawPoint>, lo: RawPoint, hi: RawPoint)
    requires
        forall|i: int| 0 <= i < s.len() ==> lo.x <= #[trigger] s[i].x <= hi.x && lo.y <= s[i].y <= hi.y,
    ensures
        s.len() * lo.x <= sum_x(s) <= s.len() * hi.x,
        s.len() * lo.y <= sum_y(s) <= s.len() * hi.y,
    decreases s.len(),
{
    if s.len() > 0 {
        let t = s.drop_last();
        assert forall|i: int| 0 <= i < t.len() implies lo.x <= #[trigger] t[i].x <= hi.x && lo.y <= t[i].y <= hi.y by {
            assert(t[i] == s[i]);
        }
        lemma_sums_between(t, lo, hi);
        assert(s.last() == s[s.len() - 1]);
        assert(s.len() * lo.x == t.len() * lo.x + lo.x) by (nonlinear_arith) requires s.len() == t.len() + 1;
        assert(s.len() * hi.x == t.len() * hi.x + hi.x) by (nonlinear_arith) requires s.len() == t.len() + 1;
        assert(s.len() * lo.y == t.len() * lo.y + lo.y) by (nonlinear_arith) requires s.len() == t.len() + 1;
        assert(s.len() * hi.y == t.len() * hi.y + hi.y) by (nonlinear_arith) requires s.len() == t.len() + 1;
    }
}

/// The mean lies between the lowest and the highest reading of each axis;
/// in particular the mean of equal readings is that reading.
pub proof fn lemma_mean_between(s: Seq<RawPoint>, lo: RawPoint, hi: RawPoint)
    requires
        s.len() > 0,
        forall|i: int| 0 <= i < s.len() ==> lo.x <= #[trigger] s[i].x <= hi.x && lo.y <= s[i].y <= hi.y,
    ensures
        lo.x <= mean(s).x <= hi.x,
        lo.y <= mean(s).y <= hi.y,
{
    lemma_sums_between(s, lo, hi);
    let n = s.len() as int;
    assert(n * lo.x == lo.x * n && n * hi.x == hi.x * n && n * lo.y == lo.y * n && n * hi.y == hi.y * n) by (nonlinear_arith);
    vstd::arithmetic::div_mod::lemma_div_multiples_vanish(lo.x as int, n);
    vstd::arithmetic::div_mod::lemma_div_multiples_vanish(hi.x as int, n);
    vstd::arithmetic::div_mod::lemma_div_multiples_vanish(lo.y as int, n);
    vstd::arithmetic::div_mod::lemma_div_multiples_vanish(hi.y as int, n);
    vstd::arithmetic::div_mod::lemma_div_is_ordered(n * lo.x, sum_x(s), n);
    vstd::arithmetic::div_mod::lemma_div_is_ordered(sum_x(s), n * hi.x, n);
    vstd::arithmetic::div_mod::lemma_div_is_ordered(n * lo.y, sum_y(s), n);
    vstd::arithmetic::div_mod::lemma_div_is_ordered(sum_y(s), n * hi.y, n);
}

/// No sample count means one sample, and more than sixteen mean sixteen.
pub proof fn lemma_sample_count(samples: u8)
    ensures
        1 <= sample_count(samples) <= 16,
        sample_count(0) == sample_count(1),
        samples >= 16 ==> sample_count(samples) == 16,
        1 <= samples <= 16 ==> sample_count(samples) == samples,
{
}

/// An averaged reading makes at most two transfers per sample, exactly two
/// per sample when it succeeds, and at least one.
pub proof fn lemma_averaged_transfers<SpiE, PinE>(ev: Seq<TransferEvent<SpiE>>, n: int, res: Result<RawPoint, Error<SpiE, PinE>>)
    requires
        averaged_read(ev, n, res),
        1 <= n,
    ensures
        1 <= ev.len() <= 2 * n,
        res is Ok ==> ev.len() == 2 * n,
{
    match res {
        Ok(_) => {},
        Err(e) => {
            let k = choose|k: int| {
                &&& 0 <= k < n
                &&& 2 * k < ev.len()
                &&& #[trigger] samples_read::<SpiE, PinE>(ev.subrange(0, 2 * k), k)
                &&& raw_read(ev.subrange(2 * k, ev.len() as int), Err::<RawPoint, Error<SpiE, PinE>>(e))
            };
            assert(ev.subrange(2 * k, ev.len() as int).len() == ev.len() - 2 * k);
        },
    }
}


/// A calibration is refused exactly when an input range is empty or the
/// screen has no width or no height; any other calibration, whatever its
/// aspect, maps every reading.
pub proof fn law_calibration_refused_exactly_when_empty<SpiE, PinE>(raw: RawPoint, cal: Calibration)
    ensures
        map_outcome::<SpiE, PinE>(raw, cal) is Ok <==> (
            cal.x_min < cal.x_max && cal.y_min < cal.y_max && cal.width > 0 && cal.height > 0
        ),
        !(cal.x_min < cal.x_max && cal.y_min < cal.y_max && cal.width > 0 && cal.height > 0)
            ==> map_outcome::<SpiE, PinE>(raw, cal) == Err::<Point, Error<SpiE, PinE>>(Error::InvalidCalibration),
{
}

/// Under a valid calibration each screen axis is its raw axis (after the
/// optional swap) clamped to the calibrated range and scaled onto the
/// screen, rounded down, then mirrored when that axis's own invert flag is
/// set: `invert_x` mirrors only x, `invert_y` only y.
pub proof fn law_map_axes<SpiE, PinE>(raw: RawPoint, cal: Calibration)
    requires
        cal.x_min < cal.x_max,
        cal.y_min < cal.y_max,
        cal.width > 0,
        cal.height > 0,
    ensures
        ({
            let ax: int = if cal.swap_xy { raw.y as int } else { raw.x as int };
            let ay: int = if cal.swap_xy { raw.x as int } else { raw.y as int };
            let cx: int = if ax < cal.x_min { cal.x_min as int } else if ax > cal.x_max { cal.x_max as int } else { ax };
            let cy: int = if ay < cal.y_min { cal.y_min as int } else if ay > cal.y_max { cal.y_max as int } else { ay };
            let sx: int = (cx - cal.x_min) * (cal.width - 1) / (cal.x_max - cal.x_min);
            let sy: int = (cy - cal.y_min) * (cal.height - 1) / (cal.y_max - cal.y_min);
            &&& 0 <= sx < cal.width
            &&& 0 <= sy < cal.height
            &&& map_outcome::<SpiE, PinE>(raw, cal) == Ok::<Point, Error<SpiE, PinE>>(Point {
                x: (if cal.invert_x { cal.width - 1 - sx } else { sx }) as u16,
                y: (if cal.invert_y { cal.height - 1 - sy } else { sy }) as u16,
            })
        }),
{
    lemma_screen_point_on_screen(raw, cal);
    lemma_scaled_in_range(raw_for_x(raw, cal), cal.x_min as int, cal.x_max as int, cal.width as int);
    lemma_scaled_in_range(raw_for_y(raw, cal), cal.y_min as int, cal.y_max as int, cal.height as int);
}

/// Setting `invert_x` mirrors the screen x (`x` becomes `width - 1 - x`)
/// and leaves the screen y alone; setting `invert_y` mirrors y and leaves x
/// alone.
pub proof fn law_invert_flags_mirror_their_own_axis<SpiE, PinE>(raw: RawPoint, cal: Calibration)
    requires
        cal.x_min < cal.x_max,
        cal.y_min < cal.y_max,
        cal.width > 0,
        cal.height > 0,
        !cal.invert_x,
        !cal.invert_y,
    ensures
        ({
            let plain = map_outcome::<SpiE, PinE>(raw, cal)->Ok_0;
            let flip_x = map_outcome::<SpiE, PinE>(raw, Calibration { invert_x: true, ..cal })->Ok_0;
            let flip_y = map_outcome::<SpiE, PinE>(raw, Calibration { invert_y: true, ..cal })->Ok_0;
            &&& flip_x.x == cal.width - 1 - plain.x
            &&& flip_x.y == plain.y
            &&& flip_y.y == cal.height - 1 - plain.y
            &&& flip_y.x == plain.x
        }),
{
    law_map_axes::<SpiE, PinE>(raw, cal);
    law_map_axes::<SpiE, PinE>(raw, Calibration { invert_x: true, ..cal });
    law_map_axes::<SpiE, PinE>(raw, Calibration { invert_y: true, ..cal });
}

/// The touch answer is the PENIRQ level itself (active low): a low line
/// reads as touched, a high line as not touched, and a failed reading is
/// reported as a `Pin` error carrying the pin's error.
pub proof fn law_touch_is_the_line_level<SpiE, PinE>(low: bool, e: PinE)
    ensures
        touch_outcome::<SpiE, PinE>(Ok(low)) == Ok::<bool, Error<SpiE, PinE>>(low),
        touch_outcome::<SpiE, PinE>(Ok(false)) == Ok::<bool, Error<SpiE, PinE>>(false),
        touch_outcome::<SpiE, PinE>(Err(e)) == Err::<bool, Error<SpiE, PinE>>(Error::Pin(e)),
{
}

/// Decoding a frame gives back the 12-bit value the controller clocked out
/// in bits 14..3 (the top bit of the first byte is ignored).
pub proof fn law_frame_round_trip(v: u16, top: bool)
    requires
        v < 4096,
    ensures
        frame_value((((v as int * 8) / 256) + (if top { 128int } else { 0 })) as u8, ((v as int * 8) % 256) as u8) == v,
{
}


/// The mean is the floor of the average on each axis:
/// `mean * n <= sum < (mean + 1) * n`.
pub proof fn law_mean_is_floor_average(s: Seq<RawPoint>)
    requires
        s.len() > 0,
        all_12_bit(s),
    ensures
        mean(s).x * s.len() <= sum_x(s) < (mean(s).x + 1) * s.len(),
        mean(s).y * s.len() <= sum_y(s) < (mean(s).y + 1) * s.len(),
        sum_x(s.push(RawPoint { x: 0, y: 0 })) == sum_x(s),
{
    lemma_mean_12_bit(s);
    let n = s.len() as int;
    vstd::arithmetic::div_mod::lemma_fundamental_div_mod(sum_x(s), n);
    vstd::arithmetic::div_mod::lemma_fundamental_div_mod(sum_y(s), n);
    assert(s.push(RawPoint { x: 0, y: 0 }).drop_last() == s);
    assert((sum_x(s) / n) * n == n * (sum_x(s) / n)) by (nonlinear_arith);
    assert((sum_y(s) / n) * n == n * (sum_y(s) / n)) by (nonlinear_arith);
    assert((sum_x(s) / n + 1) * n == n * (sum_x(s) / n) + n) by (nonlinear_arith);
    assert((sum_y(s) / n + 1) * n == n * (sum_y(s) / n) + n) by (nonlinear_arith);
}


/// A raw reading sends the X command (0xD0) first and the Y command (0x90)
/// second, each followed by two zero bytes; x is the 12-bit value the first
/// transfer brought back and y the one the second did.
pub proof fn law_raw_read_x_then_y<SpiE, PinE>(ev: Seq<TransferEvent<SpiE>>, res: Result<RawPoint, Error<SpiE, PinE>>)
    requires
        raw_read(ev, res),
    ensures
        ev[0].sent == seq![0xD0u8, 0u8, 0u8],
        ev.len() == 2 ==> ev[1].sent == seq![0x90u8, 0u8, 0u8],
        res is Ok ==> {
            &&& ev.len() == 2
            &&& res->Ok_0.x == (ev[0].received[1] as int * 256 + ev[0].received[2] as int) / 8 % 4096
            &&& res->Ok_0.y == (ev[1].received[1] as int * 256 + ev[1].received[2] as int) / 8 % 4096
        },
{
}

/// Each sample of an averaged reading is one raw reading, in order: sample
/// `i` has the x of transfer `2i` (an X conversion) and the y of transfer
/// `2i + 1` (a Y conversion), and the result is the floor mean of the
/// samples.
pub proof fn law_averaged_samples<SpiE, PinE>(ev: Seq<TransferEvent<SpiE>>, n: int, p: RawPoint)
    requires
        1 <= n <= 16,
        averaged_read(ev, n, Ok::<RawPoint, Error<SpiE, PinE>>(p)),
    ensures
        ev.len() == 2 * n,
        forall|i: int| 0 <= i < n ==> {
            &&& #[trigger] ev[2 * i].sent == seq![0xD0u8, 0u8, 0u8]
            &&& ev[2 * i + 1].sent == seq![0x90u8, 0u8, 0u8]
            &&& samples_of(ev, n)[i].x == (ev[2 * i].received[1] as int * 256 + ev[2 * i].received[2] as int) / 8 % 4096
            &&& samples_of(ev, n)[i].y == (ev[2 * i + 1].received[1] as int * 256 + ev[2 * i + 1].received[2] as int) / 8 % 4096
        },
        p.x * n <= sum_x(samples_of(ev, n)) < (p.x + 1) * n,
        p.y * n <= sum_y(samples_of(ev, n)) < (p.y + 1) * n,
{
    assert forall|i: int| 0 <= i < n implies {
        &&& #[trigger] ev[2 * i].sent == seq![0xD0u8, 0u8, 0u8]
        &&& ev[2 * i + 1].sent == seq![0x90u8, 0u8, 0u8]
        &&& samples_of(ev, n)[i].x == (ev[2 * i].received[1] as int * 256 + ev[2 * i].received[2] as int) / 8 % 4096
        &&& samples_of(ev, n)[i].y == (ev[2 * i + 1].received[1] as int * 256 + ev[2 * i + 1].received[2] as int) / 8 % 4096
    } by {
        let sub = ev.subrange(2 * i, 2 * i + 2);
        assert(raw_read::<SpiE, PinE>(sub, Ok(sample_at(ev, i))));
        assert(sub[0] == ev[2 * i] && sub[1] == ev[2 * i + 1]);
    }
    let s = samples_of(ev, n);
    assert forall|i: int| 0 <= i < s.len() implies #[trigger] s[i].x < 4096 && s[i].y < 4096 by {
        lemma_conversion_12_bit(ev[2 * i]);
        lemma_conversion_12_bit(ev[2 * i + 1]);
    }
    law_mean_is_floor_average(s);
}

} // verus!
