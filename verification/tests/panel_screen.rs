use spectrum_panel::panel::{
    bar_width, color_for_slot, display_channel, display_label, row_y, u32_to_str, SlotColor, DISPLAY_SLOTS,
};

#[test]
fn rows_show_the_visible_bands_and_nir() {
    let channels: Vec<u8> = (0..DISPLAY_SLOTS).map(display_channel).collect();
    assert_eq!(channels, vec![12, 6, 0, 7, 8, 15, 2, 9, 13, 14, 3]);
    let labels: Vec<&str> = (0..DISPLAY_SLOTS).map(display_label).collect();
    assert_eq!(labels, vec!["F1:", "F2:", "FZ:", "F3:", "F4:", "F5:", "FXL:", "F6:", "F7:", "F8:", "NIR:"]);
}

#[test]
fn colors_per_slot() {
    assert_eq!(color_for_slot(0), SlotColor { r: 20, g: 0, b: 20 });
    assert_eq!(color_for_slot(6), SlotColor { r: 31, g: 32, b: 0 });
    assert_eq!(color_for_slot(10), SlotColor { r: 31, g: 63, b: 31 });
    assert_eq!(color_for_slot(99), SlotColor { r: 31, g: 63, b: 31 });
}

#[test]
fn bar_width_scales_to_the_graph() {
    assert_eq!(bar_width(0), 0);
    assert_eq!(bar_width(1), 1);
    assert_eq!(bar_width(264), 1);
    assert_eq!(bar_width(32768), 124);
    assert_eq!(bar_width(65535), 248);
}

#[test]
fn row_positions() {
    assert_eq!(row_y(0), 40);
    assert_eq!(row_y(10), 180);
}

#[test]
fn decimal_rendering() {
    let mut buf = [b'x'; 12];
    let n = u32_to_str(0, &mut buf);
    assert_eq!(&buf[..n], b"0");
    assert_eq!(buf[1], b'x');
    let n = u32_to_str(129, &mut buf);
    assert_eq!(&buf[..n], b"129");
    let n = u32_to_str(u32::MAX, &mut buf);
    assert_eq!(&buf[..n], b"4294967295");
    assert_eq!(&buf[n..], b"xx");
}

use spectrum_panel::as7343::As7343Error;
use spectrum_panel::panel::{bar_widths, plan_after, Command, InitFailure, Plan, Report, Screen, TaskEvent};

#[test]
fn bar_widths_follow_the_row_channels() {
    let mut ch = [0u16; 18];
    ch[12] = 65535; // F1, row 0
    ch[3] = 1; // NIR, row 10
    ch[0] = 32768; // FZ, row 2
    let bars = bar_widths(&ch);
    assert_eq!(bars, [248, 0, 124, 0, 0, 0, 0, 0, 0, 0, 1]);
}

#[test]
fn bars_never_shrink_as_readings_grow() {
    let mut last = 0;
    for raw in (0..=65535u32).step_by(97) {
        let w = bar_width(raw as u16);
        assert!(w >= last && w <= 248);
        last = w;
    }
}

#[test]
fn plan_retries_init_every_500_ms() {
    let plan = plan_after::<u8>(TaskEvent::Initialised(Err(As7343Error::InvalidChipId(0x42))));
    assert_eq!(
        plan,
        Plan { report: Some(Report::InitFailed(InitFailure::InvalidChipId(0x42))), screen: Screen::Unchanged, wait_ms: 500, next: Command::InitSensor }
    );
    let plan = plan_after::<u8>(TaskEvent::Initialised(Err(As7343Error::I2cWrite(3))));
    assert_eq!(plan.report, Some(Report::InitFailed(InitFailure::I2cWrite)));
    let plan = plan_after::<u8>(TaskEvent::Initialised(Ok(())));
    assert_eq!(plan, Plan { report: Some(Report::InitOk), screen: Screen::Layout, wait_ms: 0, next: Command::CheckReady });
}

#[test]
fn plan_polls_every_100_ms() {
    assert_eq!(
        plan_after::<u8>(TaskEvent::ReadyPolled(Ok(true))),
        Plan { report: None, screen: Screen::Unchanged, wait_ms: 0, next: Command::ReadChannels }
    );
    assert_eq!(
        plan_after::<u8>(TaskEvent::ReadyPolled(Ok(false))),
        Plan { report: None, screen: Screen::Unchanged, wait_ms: 100, next: Command::CheckReady }
    );
    assert_eq!(plan_after::<u8>(TaskEvent::ReadyPolled(Err(As7343Error::I2cWriteRead(1)))).report, Some(Report::ReadyFailed));
    assert_eq!(plan_after::<u8>(TaskEvent::ChannelsRead(Err(As7343Error::DataNotReady))).report, Some(Report::ReadFailed));
    let mut ch = [0u16; 18];
    ch[6] = 65535; // F2, row 1
    let plan = plan_after::<u8>(TaskEvent::ChannelsRead(Ok(ch)));
    assert_eq!(plan.screen, Screen::Bars([0, 248, 0, 0, 0, 0, 0, 0, 0, 0, 0]));
    assert_eq!(plan.wait_ms, 100);
    assert_eq!(plan.next, Command::CheckReady);
}

#[test]
fn decimal_reads_back() {
    let mut buf = [0u8; 10];
    for n in [0u32, 7, 10, 99, 100, 65535, 1_000_000_007, u32::MAX] {
        let len = u32_to_str(n, &mut buf);
        let s = std::str::from_utf8(&buf[..len]).unwrap();
        assert_eq!(s.parse::<u32>().unwrap(), n);
        assert!(n == 0 || buf[0] != b'0');
    }
}
