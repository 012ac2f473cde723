//! The spectrum screen: which sensor channel each row shows, its label and
//! colour, how long its bar is, where the row sits, and decimal rendering of
//! numbers for the log.

use vstd::prelude::*;
use crate::as7343::As7343Error;

verus! {

/// Left edge of the bar area.
pub const GRAPH_X: i32 = 56;
/// Width of the bar area.
pub const GRAPH_W: u32 = 248;
/// Baseline of the first row.
pub const ROW_Y0: i32 = 40;
/// Distance between rows.
pub const ROW_H: i32 = 14;
/// Number of rows shown.
pub const DISPLAY_SLOTS: usize = 11;

/// The sensor channel shown in row `slot`: F1, F2, FZ, F3, F4, F5, FXL, F6,
/// F7, F8, NIR.
pub open spec fn slot_channel(slot: int) -> u8 {
    if slot == 0 { 12 }
    else if slot == 1 { 6 }
    else if slot == 2 { 0 }
    else if slot == 3 { 7 }
    else if slot == 4 { 8 }
    else if slot == 5 { 15 }
    else if slot == 6 { 2 }
    else if slot == 7 { 9 }
    else if slot == 8 { 13 }
    else if slot == 9 { 14 }
    else { 3 }
}

/// The label of row `slot`.
pub open spec fn slot_label(slot: int) -> Seq<char> {
    if slot == 0 { seq!['F', '1', ':'] }
    else if slot == 1 { seq!['F', '2', ':'] }
    else if slot == 2 { seq!['F', 'Z', ':'] }
    else if slot == 3 { seq!['F', '3', ':'] }
    else if slot == 4 { seq!['F', '4', ':'] }
    else if slot == 5 { seq!['F', '5', ':'] }
    else if slot == 6 { seq!['F', 'X', 'L', ':'] }
    else if slot == 7 { seq!['F', '6', ':'] }
    else if slot == 8 { seq!['F', '7', ':'] }
    else if slot == 9 { seq!['F', '8', ':'] }
    else { seq!['N', 'I', 'R', ':'] }
}

/// A colour as the RGB565 channel values (red 0..31, green 0..63, blue 0..31).
#[derive(Debug, Clone, Copy, PartialEq, Eq)]
pub struct SlotColor {
    pub r: u8,
    pub g: u8,
    pub b: u8,
}

/// The bar colour of row `slot`, violet through red for the visible bands,
/// brown for F8, white for NIR and beyond.
pub open spec fn slot_color(slot: int) -> SlotColor {
    if slot == 0 { SlotColor { r: 20, g: 0, b: 20 } }
    else if slot == 1 { SlotColor { r: 0, g: 0, b: 16 } }
    else if slot == 2 { SlotColor { r: 0, g: 0, b: 31 } }
    else if slot == 3 { SlotColor { r: 0, g: 63, b: 31 } }
    else if slot == 4 { SlotColor { r: 0, g: 40, b: 20 } }
    else if slot == 5 { SlotColor { r: 18, g: 63, b: 0 } }
    else if slot == 6 { SlotColor { r: 31, g: 32, b: 0 } }
    else if slot == 7 { SlotColor { r: 31, g: 16, b: 0 } }
    else if slot == 8 { SlotColor { r: 31, g: 0, b: 0 } }
    else if slot == 9 { SlotColor { r: 15, g: 8, b: 0 } }
    else { SlotColor { r: 31, g: 63, b: 31 } }
}

/// The bar length of a reading: full scale 65535 maps onto `GRAPH_W`,
/// rounded down, except that any non-zero reading shows at least one pixel.
pub open spec fn bar_length(raw: u16) -> int {
    let w = raw as int * GRAPH_W as int / 65535;
    if w == 0 && raw > 0 { 1 } else { w }
}

/// The baseline y of row `slot` (the row number taken as an `i32`).
pub open spec fn row_baseline(slot: usize) -> int {
    ROW_Y0 + (#[verifier::truncate] (slot as i32)) * ROW_H
}

/// The sensor channel shown in row `slot`.
pub fn display_channel(slot: usize) -> (ch: u8)
    requires
        slot < DISPLAY_SLOTS,
    ensures
        ch == slot_channel(slot as int),
        ch < 18,
{
    if slot == 0 { 12 }
    else if slot == 1 { 6 }
    else if slot == 2 { 0 }
    else if slot == 3 { 7 }
    else if slot == 4 { 8 }
    else if slot == 5 { 15 }
    else if slot == 6 { 2 }
    else if slot == 7 { 9 }
    else if slot == 8 { 13 }
    else if slot == 9 { 14 }
    else { 3 }
}

/// The label of row `slot`.
pub fn display_label(slot: usize) -> (label: &'static str)
    requires
        slot < DISPLAY_SLOTS,
    ensures
        label@ == slot_label(slot as int),
{
    let label = if slot == 0 { "F1:" }
        else if slot == 1 { "F2:" }
        else if slot == 2 { "FZ:" }
        else if slot == 3 { "F3:" }
        else if slot == 4 { "F4:" }
        else if slot == 5 { "F5:" }
        else if slot == 6 { "FXL:" }
        else if slot == 7 { "F6:" }
        else if slot == 8 { "F7:" }
        else if slot == 9 { "F8:" }
        else { "NIR:" };
    proof {
        reveal_strlit("F1:");
        reveal_strlit("F2:");
        reveal_strlit("FZ:");
        reveal_strlit("F3:");
        reveal_strlit("F4:");
        reveal_strlit("F5:");
        reveal_strlit("FXL:");
        reveal_strlit("F6:");
        reveal_strlit("F7:");
        reveal_strlit("F8:");
        reveal_strlit("NIR:");
    }
    label
}

/// The bar colour of row `slot`.
pub fn color_for_slot(slot: usize) -> (c: SlotColor)
    ensures
        c == slot_color(slot as int),
{
    match slot {
        0 => SlotColor { r: 20, g: 0, b: 20 },
        1 => SlotColor { r: 0, g: 0, b: 16 },
        2 => SlotColor { r: 0, g: 0, b: 31 },
        3 => SlotColor { r: 0, g: 63, b: 31 },
        4 => SlotColor { r: 0, g: 40, b: 20 },
        5 => SlotColor { r: 18, g: 63, b: 0 },
        6 => SlotColor { r: 31, g: 32, b: 0 },
        7 => SlotColor { r: 31, g: 16, b: 0 },
        8 => SlotColor { r: 31, g: 0, b: 0 },
        9 => SlotColor { r: 15, g: 8, b: 0 },
        _ => SlotColor { r: 31, g: 63, b: 31 },
    }
}

/// The bar length of a channel reading.
pub fn bar_width(raw: u16) -> (w: u32)
    ensures
        w == bar_length(raw),
        w <= GRAPH_W,
{
    let raw = raw as u32;
    proof {
        assert(raw * GRAPH_W <= 65535 * 248) by (nonlinear_arith)
            requires raw <= 65535;
        vstd::arithmetic::div_mod::lemma_div_is_ordered((raw * GRAPH_W) as int, 65535int * 248, 65535);
    }
    let mut w = (raw * GRAPH_W) / 65535;
    if w == 0 && raw > 0 {
        w = 1;
    }
    w
}

/// The baseline y of row `slot`.
pub fn row_y(slot: usize) -> (y: i32)
    requires
        i32::MIN <= (slot as i32) * ROW_H <= i32::MAX,
        i32::MIN <= row_baseline(slot) <= i32::MAX,
    ensures
        y == row_baseline(slot),
{
    ROW_Y0 + (#[verifier::truncate] (slot as i32)) * ROW_H
}


/// The ASCII decimal digits of `n`, most significant first, without leading
/// zeros ("0" for zero).
pub open spec fn decimal(n: nat) -> Seq<u8>
    decreases n,
{
    if n < 10 {
        seq![(48 + n) as u8]
    } else {
        decimal(n / 10).push((48 + n % 10) as u8)
    }
}

/// Ten to the power `k`.
pub open spec fn pow10(k: nat) -> nat
    decreases k,
{
    if k == 0 { 1 } else { 10 * pow10((k - 1) as nat) }
}

/// Every number has at least one digit.
pub proof fn lemma_decimal_nonempty(n: nat)
    ensures
        decimal(n).len() >= 1,
    decreases n,
{
    if n >= 10 {
        lemma_decimal_nonempty(n / 10);
    }
}

/// A number below `10^k` has at most `k` digits.
pub proof fn lemma_decimal_len_below(n: nat, k: nat)
    requires
        1 <= k,
        n < pow10(k),
    ensures
        decimal(n).len() <= k,
    decreases n,
{
    if n >= 10 {
        if k == 1 {
            assert(pow10(1) == 10) by { reveal_with_fuel(pow10, 2); }
        }
        assert(n / 10 < pow10((k - 1) as nat));
        lemma_decimal_len_below(n / 10, (k - 1) as nat);
    }
}

/// A `u32` has at most ten digits.
pub proof fn lemma_decimal_u32_len(n: nat)
    requires
        n <= u32::MAX,
    ensures
        decimal(n).len() <= 10,
{
    assert(pow10(10) == 10_000_000_000) by { reveal_with_fuel(pow10, 11); }
    lemma_decimal_len_below(n, 10);
}

/// The number of decimal digits of `num`.
fn decimal_len(num: u32) -> (len: usize)
    ensures
        len == decimal(num as nat).len(),
        1 <= len <= 10,
{
    proof {
        lemma_decimal_u32_len(num as nat);
        lemma_decimal_nonempty(num as nat);
    }
    let mut m = num;
    let mut len: usize = 1;
    while m >= 10
        invariant
            decimal(num as nat).len() == decimal(m as nat).len() + len - 1,
            1 <= len <= decimal(num as nat).len(),
            decimal(num as nat).len() <= 10,
        decreases m,
    {
        proof {
            assert(decimal(m as nat) == decimal((m / 10) as nat).push((48 + m % 10) as u8));
            lemma_decimal_nonempty((m / 10) as nat);
        }
        m = m / 10;
        len += 1;
    }
    len
}

/// Writes the decimal digits of `num` to the start of `buffer` and returns
/// how many there are. The rest of `buffer` is left as it was.
pub fn u32_to_str(num: u32, buffer: &mut [u8]) -> (len: usize)
    requires
        old(buffer)@.len() >= decimal(num as nat).len(),
    ensures
        len == decimal(num as nat).len(),
        final(buffer)@.len() == old(buffer)@.len(),
        final(buffer)@.subrange(0, len as int) == decimal(num as nat),
        final(buffer)@.subrange(len as int, old(buffer)@.len() as int)
            == old(buffer)@.subrange(len as int, old(buffer)@.len() as int),
{
    let len = decimal_len(num);
    let mut m = num;
    let mut pos = len;
    loop
        invariant
            0 < pos <= len,
            len == decimal(num as nat).len(),
            len <= buffer@.len(),
            buffer@.len() == old(buffer)@.len(),
            decimal(m as nat).len() == pos,
            decimal(num as nat) == decimal(m as nat) + buffer@.subrange(pos as int, len as int),
            buffer@.subrange(len as int, buffer@.len() as int)
                == old(buffer)@.subrange(len as int, old(buffer)@.len() as int),
        decreases pos,
    {
        let ghost before = buffer@;
        pos -= 1;
        buffer[pos] = 48u8 + (m % 10) as u8;
        proof {
            assert(buffer@.subrange(len as int, buffer@.len() as int)
                =~= before.subrange(len as int, before.len() as int));
            assert(buffer@.subrange(pos as int, len as int)
                =~= seq![buffer@[pos as int]] + before.subrange(pos + 1, len as int));
        }
        if m < 10 {
            proof {
                assert(decimal(m as nat) == seq![(48 + m) as u8]);
                assert(buffer@.subrange(0, len as int) =~= buffer@.subrange(pos as int, len as int));
                assert(decimal(num as nat) =~= buffer@.subrange(0, len as int));
            }
            return len;
        }
        proof {
            assert(decimal(m as nat) == decimal((m / 10) as nat).push((48 + m % 10) as u8));
            assert(decimal(num as nat) =~= decimal((m / 10) as nat) + buffer@.subrange(pos as int, len as int));
        }
        m = m / 10;
    }
}


/// Bars fit the graph area, are empty exactly for a zero reading, and never
/// get shorter as the reading grows.
pub proof fn lemma_bar_length(raw: u16, higher: u16)
    requires
        raw <= higher,
    ensures
        0 <= bar_length(raw) <= GRAPH_W,
        bar_length(raw) == 0 <==> raw == 0,
        bar_length(65535) == GRAPH_W,
        bar_length(raw) <= bar_length(higher),
{
    assert(raw * 248 <= higher * 248);
    vstd::arithmetic::div_mod::lemma_div_is_ordered(raw * 248, higher * 248, 65535);
    vstd::arithmetic::div_mod::lemma_div_is_ordered(raw * 248, 65535int * 248, 65535);
    vstd::arithmetic::div_mod::lemma_div_is_ordered(0, raw * 248, 65535);
    vstd::arithmetic::div_mod::lemma_div_by_multiple(248, 65535);
}

/// The number written by a string of ASCII decimal digits.
pub open spec fn digits_value(s: Seq<u8>) -> int
    decreases s.len(),
{
    if s.len() == 0 { 0 } else { 10 * digits_value(s.drop_last()) + (s.last() - 48) }
}

/// The decimal rendering is all ASCII digits, starts with a non-zero digit
/// unless the number is zero, and reads back as the number.
pub proof fn lemma_decimal_round_trip(n: nat)
    ensures
        forall|i: int| 0 <= i < decimal(n).len() ==> 48 <= #[trigger] decimal(n)[i] <= 57,
        n != 0 ==> decimal(n)[0] != 48,
        digits_value(decimal(n)) == n,
    decreases n,
{
    lemma_decimal_nonempty(n);
    if n >= 10 {
        lemma_decimal_round_trip(n / 10);
        lemma_decimal_nonempty(n / 10);
        let d = decimal(n / 10);
        assert(decimal(n).drop_last() == d);
        assert(decimal(n)[0] == d[0]);
        assert(decimal(n).last() == 48 + n % 10);
        assert(digits_value(decimal(n)) == 10 * (n / 10) + n % 10);
    } else {
        assert(decimal(n).drop_last().len() == 0);
        assert(decimal(n).last() == 48 + n);
        assert(digits_value(decimal(n).drop_last()) == 0);
    }
}


// ===== the display task =====

/// The next sensor operation the display task runs.
#[derive(Debug, Clone, Copy, PartialEq, Eq)]
pub enum Command {
    InitSensor,
    CheckReady,
    ReadChannels,
}

/// Which way an initialisation attempt failed, for the log.
#[derive(Debug, Clone, Copy, PartialEq, Eq)]
pub enum InitFailure {
    I2cWriteRead,
    I2cWrite,
    I2cRead,
    InvalidChipId(u8),
    DataNotReady,
}

/// A line for the serial log.
#[derive(Debug, Clone, Copy, PartialEq, Eq)]
pub enum Report {
    InitOk,
    InitFailed(InitFailure),
    ReadFailed,
    ReadyFailed,
}

/// What to draw.
#[derive(Debug, Clone, Copy, PartialEq, Eq)]
pub enum Screen {
    Unchanged,
    /// Clear the screen, draw the title, the row labels and the empty bar
    /// backgrounds.
    Layout,
    /// Redraw every row's bar with these lengths, row by row.
    Bars([u32; 11]),
}

/// What the display task does after an operation finished: log, draw, wait,
/// then run the next operation.
#[derive(Debug, Clone, Copy, PartialEq, Eq)]
pub struct Plan {
    pub report: Option<Report>,
    pub screen: Screen,
    pub wait_ms: u32,
    pub next: Command,
}

/// How a sensor operation of the display task ended.
pub enum TaskEvent<E> {
    Initialised(Result<(), As7343Error<E>>),
    ReadyPolled(Result<bool, As7343Error<E>>),
    ChannelsRead(Result<[u16; 18], As7343Error<E>>),
}

/// The log entry of a failed initialisation.
pub open spec fn failure_kind<E>(e: As7343Error<E>) -> InitFailure {
    match e {
        As7343Error::I2cWriteRead(_) => InitFailure::I2cWriteRead,
        As7343Error::I2cWrite(_) => InitFailure::I2cWrite,
        As7343Error::I2cRead(_) => InitFailure::I2cRead,
        As7343Error::InvalidChipId(id) => InitFailure::InvalidChipId(id),
        As7343Error::DataNotReady => InitFailure::DataNotReady,
    }
}

/// `bars` holds, row by row, the bar length of the channel the row shows.
pub open spec fn bars_of(ch: Seq<u16>, bars: Seq<u32>) -> bool {
    &&& bars.len() == DISPLAY_SLOTS
    &&& forall|slot: int| 0 <= slot < DISPLAY_SLOTS ==> #[trigger] bars[slot] == bar_length(ch[slot_channel(slot) as int])
}

/// The bar length of every row for one set of channel readings.
pub fn bar_widths(ch: &[u16; 18]) -> (bars: [u32; 11])
    ensures
        bars_of(ch@, bars@),
{
    let mut bars = [0u32; 11];
    let mut slot: usize = 0;
    while slot < DISPLAY_SLOTS
        invariant
            slot <= DISPLAY_SLOTS,
            ch@.len() == 18,
            bars@.len() == DISPLAY_SLOTS,
            forall|j: int| 0 <= j < slot ==> #[trigger] bars@[j] == bar_length(ch@[slot_channel(j) as int]),
        decreases DISPLAY_SLOTS - slot,
    {
        let c = display_channel(slot);
        bars[slot] = bar_width(ch[c as usize]);
        slot += 1;
    }
    bars
}

/// What the display task does next. Initialisation is retried every 500 ms
/// until it succeeds, logging each failure; then the layout is drawn and the
/// sensor is polled every 100 ms, the bars redrawn after each read, and
/// failures logged.
pub fn plan_after<E>(event: TaskEvent<E>) -> (plan: Plan)
    ensures
        match event {
            TaskEvent::Initialised(Ok(())) =>
                plan == Plan { report: Some(Report::InitOk), screen: Screen::Layout, wait_ms: 0, next: Command::CheckReady },
            TaskEvent::Initialised(Err(e)) =>
                plan == Plan { report: Some(Report::InitFailed(failure_kind(e))), screen: Screen::Unchanged, wait_ms: 500, next: Command::InitSensor },
            TaskEvent::ReadyPolled(Ok(true)) =>
                plan == Plan { report: None, screen: Screen::Unchanged, wait_ms: 0, next: Command::ReadChannels },
            TaskEvent::ReadyPolled(Ok(false)) =>
                plan == Plan { report: None, screen: Screen::Unchanged, wait_ms: 100, next: Command::CheckReady },
            TaskEvent::ReadyPolled(Err(_)) =>
                plan == Plan { report: Some(Report::ReadyFailed), screen: Screen::Unchanged, wait_ms: 100, next: Command::CheckReady },
            TaskEvent::ChannelsRead(Ok(ch)) => {
                &&& plan.screen matches Screen::Bars(bars)
                &&& bars_of(ch@, bars@)
                &&& plan.report is None
                &&& plan.wait_ms == 100
                &&& plan.next == Command::CheckReady
            },
            TaskEvent::ChannelsRead(Err(_)) =>
                plan == Plan { report: Some(Report::ReadFailed), screen: Screen::Unchanged, wait_ms: 100, next: Command::CheckReady },
        },
{
    match event {
        TaskEvent::Initialised(Ok(())) =>
            Plan { report: Some(Report::InitOk), screen: Screen::Layout, wait_ms: 0, next: Command::CheckReady },
        TaskEvent::Initialised(Err(e)) => {
            let kind = match e {
                As7343Error::I2cWriteRead(_) => InitFailure::I2cWriteRead,
                As7343Error::I2cWrite(_) => InitFailure::I2cWrite,
                As7343Error::I2cRead(_) => InitFailure::I2cRead,
                As7343Error::InvalidChipId(id) => InitFailure::InvalidChipId(id),
                As7343Error::DataNotReady => InitFailure::DataNotReady,
            };
            Plan { report: Some(Report::InitFailed(kind)), screen: Screen::Unchanged, wait_ms: 500, next: Command::InitSensor }
        },
        TaskEvent::ReadyPolled(Ok(true)) =>
            Plan { report: None, screen: Screen::Unchanged, wait_ms: 0, next: Command::ReadChannels },
        TaskEvent::ReadyPolled(Ok(false)) =>
            Plan { report: None, screen: Screen::Unchanged, wait_ms: 100, next: Command::CheckReady },
        TaskEvent::ReadyPolled(Err(_)) =>
            Plan { report: Some(Report::ReadyFailed), screen: Screen::Unchanged, wait_ms: 100, next: Command::CheckReady },
        TaskEvent::ChannelsRead(Ok(ch)) =>
            Plan { report: None, screen: Screen::Bars(bar_widths(&ch)), wait_ms: 100, next: Command::CheckReady },
        TaskEvent::ChannelsRead(Err(_)) =>
            Plan { report: Some(Report::ReadFailed), screen: Screen::Unchanged, wait_ms: 100, next: Command::CheckReady },
    }
}


/// Each row shows its band in this order, F1, F2, FZ, F3, F4, F5, FXL, F6,
/// F7, F8, NIR, from these sensor channels; the eleven rows show eleven
/// different channels.
pub proof fn law_rows_show_the_bands()
    ensures
        forall|slot: int| 0 <= slot < DISPLAY_SLOTS ==> #[trigger] slot_channel(slot)
            == seq![12u8, 6, 0, 7, 8, 15, 2, 9, 13, 14, 3][slot],
        forall|slot: int| 0 <= slot < DISPLAY_SLOTS ==> #[trigger] slot_label(slot) == seq![
            seq!['F', '1', ':'], seq!['F', '2', ':'], seq!['F', 'Z', ':'], seq!['F', '3', ':'],
            seq!['F', '4', ':'], seq!['F', '5', ':'], seq!['F', 'X', 'L', ':'], seq!['F', '6', ':'],
            seq!['F', '7', ':'], seq!['F', '8', ':'], seq!['N', 'I', 'R', ':'],
        ][slot],
        forall|a: int, b: int| 0 <= a < b < DISPLAY_SLOTS ==> #[trigger] slot_channel(a) != #[trigger] slot_channel(b),
{
}

/// Each row's bar colour is the one of its band: violet F1, dark blue F2,
/// blue FZ, cyan F3, blue-green F4, yellow-green F5, orange FXL, red-orange
/// F6, red F7, brown F8, white NIR; every slot past the table is white.
pub proof fn law_band_colours(slot: int)
    ensures
        0 <= slot < DISPLAY_SLOTS ==> slot_color(slot) == (seq![
            SlotColor { r: 20, g: 0, b: 20 }, SlotColor { r: 0, g: 0, b: 16 },
            SlotColor { r: 0, g: 0, b: 31 }, SlotColor { r: 0, g: 63, b: 31 },
            SlotColor { r: 0, g: 40, b: 20 }, SlotColor { r: 18, g: 63, b: 0 },
            SlotColor { r: 31, g: 32, b: 0 }, SlotColor { r: 31, g: 16, b: 0 },
            SlotColor { r: 31, g: 0, b: 0 }, SlotColor { r: 15, g: 8, b: 0 },
            SlotColor { r: 31, g: 63, b: 31 },
        ][slot]),
        slot >= DISPLAY_SLOTS ==> slot_color(slot) == (SlotColor { r: 31, g: 63, b: 31 }),
        slot == 8 ==> slot_color(slot).r == 31 && slot_color(slot).g == 0 && slot_color(slot).b == 0,
        slot_color(slot).r <= 31 && slot_color(slot).g <= 63 && slot_color(slot).b <= 31,
{
}

/// A bar is the reading scaled onto the graph width and rounded down, so
/// that `length * 65535 <= raw * GRAPH_W < (length + 1) * 65535`, except that
/// a non-zero reading too small for one pixel still gets one.
pub proof fn law_bar_is_scaled_reading(raw: u16)
    ensures
        raw as int * GRAPH_W >= 65535 ==> {
            &&& bar_length(raw) * 65535 <= raw as int * GRAPH_W
            &&& raw as int * GRAPH_W < (bar_length(raw) + 1) * 65535
        },
        0 < raw as int * GRAPH_W < 65535 ==> bar_length(raw) == 1,
        raw == 0 ==> bar_length(raw) == 0,
{
    let w = raw as int * 248 / 65535;
    vstd::arithmetic::div_mod::lemma_fundamental_div_mod(raw as int * 248, 65535);
    if raw as int * 248 >= 65535 {
        vstd::arithmetic::div_mod::lemma_div_is_ordered(65535, raw as int * 248, 65535);
    }
}

/// Rows are `ROW_H` apart, the first on `ROW_Y0`.
pub proof fn law_rows_are_evenly_spaced(slot: usize)
    requires
        slot + 1 < DISPLAY_SLOTS,
    ensures
        row_baseline(0) == 40,
        row_baseline((slot + 1) as usize) == row_baseline(slot) + 14,
{
}


/// A failed initialisation is logged under its own kind, and a wrong chip
/// ID with the ID that was read.
pub proof fn law_failure_logged_as_its_kind<E>(e: E, id: u8)
    ensures
        failure_kind(As7343Error::<E>::I2cWriteRead(e)) == InitFailure::I2cWriteRead,
        failure_kind(As7343Error::<E>::I2cWrite(e)) == InitFailure::I2cWrite,
        failure_kind(As7343Error::<E>::I2cRead(e)) == InitFailure::I2cRead,
        failure_kind(As7343Error::<E>::InvalidChipId(id)) == InitFailure::InvalidChipId(id),
        failure_kind(As7343Error::<E>::DataNotReady) == InitFailure::DataNotReady,
{
}

} // verus!
