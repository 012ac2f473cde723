use spectrum_panel::xpt2046::{average, command_frame, reading_from_transfer, touch_from_level};
use spectrum_panel::bus::{LevelInput, TransferBus};
use spectrum_panel::xpt2046::{
    clamp_map, decode_frame, map_raw_to_screen, Calibration, Error, Point, RawPoint, Xpt2046, CMD_X, CMD_Y,
};

/// Answers X commands with `x` and Y commands with `y`, as the controller
/// frames them (value in bits 14..3 of the two bytes after the command).
struct Panel {
    x: Vec<u16>,
    y: Vec<u16>,
    cmds: Vec<u8>,
    fail_after: Option<usize>,
}

impl TransferBus for Panel {
    type Error = u8;
    fn transfer_in_place(&mut self, buf: &mut [u8]) -> Result<(), u8> {
        if self.fail_after == Some(self.cmds.len()) {
            return Err(9);
        }
        let cmd = buf[0];
        self.cmds.push(cmd);
        let v = if cmd == CMD_X { self.x.remove(0) } else { self.y.remove(0) };
        let word = v << 3;
        buf[0] = 0;
        buf[1] = (word >> 8) as u8;
        buf[2] = (word & 0xFF) as u8;
        Ok(())
    }
}

struct Pen(Result<bool, i8>);

impl LevelInput for Pen {
    type Error = i8;
    fn is_low(&mut self) -> Result<bool, i8> {
        self.0
    }
}

fn cal() -> Calibration {
    Calibration { x_min: 200, x_max: 3900, y_min: 300, y_max: 3800, width: 320, height: 240, swap_xy: false, invert_x: false, invert_y: false }
}

#[test]
fn is_touched_reports_active_low() {
    let mut t = Xpt2046::new(Panel { x: vec![], y: vec![], cmds: vec![], fail_after: None }, Pen(Ok(true)));
    assert!(matches!(t.is_touched(), Ok(true)));
    let mut t = Xpt2046::new(Panel { x: vec![], y: vec![], cmds: vec![], fail_after: None }, Pen(Err(-1)));
    assert!(matches!(t.is_touched(), Err(Error::Pin(-1))));
}

#[test]
fn read_raw_reads_x_then_y() {
    let mut t = Xpt2046::new(Panel { x: vec![1234], y: vec![4095], cmds: vec![], fail_after: None }, Pen(Ok(false)));
    let p = t.read_raw().unwrap();
    assert_eq!(p, RawPoint { x: 1234, y: 4095 });
}

#[test]
fn read_raw_averaged_rounds_down_and_clamps_the_count() {
    let panel = Panel { x: vec![10, 11, 11, 11], y: vec![0, 0, 0, 3], cmds: vec![], fail_after: None };
    let mut t = Xpt2046::new(panel, Pen(Ok(false)));
    assert_eq!(t.read_raw_averaged(4).unwrap(), RawPoint { x: 10, y: 0 });

    let panel = Panel { x: vec![7], y: vec![9], cmds: vec![], fail_after: None };
    let mut t = Xpt2046::new(panel, Pen(Ok(false)));
    assert_eq!(t.read_raw_averaged(0).unwrap(), RawPoint { x: 7, y: 9 });

    let panel = Panel { x: vec![100; 16], y: vec![200; 16], cmds: vec![], fail_after: None };
    let mut t = Xpt2046::new(panel, Pen(Ok(false)));
    assert_eq!(t.read_raw_averaged(200).unwrap(), RawPoint { x: 100, y: 200 });
}

#[test]
fn read_raw_averaged_stops_at_the_first_failure() {
    let panel = Panel { x: vec![1, 1, 1], y: vec![1, 1, 1], cmds: vec![], fail_after: Some(3) };
    let mut t = Xpt2046::new(panel, Pen(Ok(false)));
    assert!(matches!(t.read_raw_averaged(3), Err(Error::Spi(9))));
}

#[test]
fn read_point_maps_the_average() {
    let panel = Panel { x: vec![3900; 4], y: vec![300; 4], cmds: vec![], fail_after: None };
    let mut t = Xpt2046::new(panel, Pen(Ok(false)));
    assert_eq!(t.read_point(&cal()).unwrap(), Point { x: 319, y: 0 });
}

#[test]
fn read_point_with_bad_calibration() {
    let panel = Panel { x: vec![5; 4], y: vec![5; 4], cmds: vec![], fail_after: None };
    let mut t = Xpt2046::new(panel, Pen(Ok(false)));
    let mut c = cal();
    c.width = 0;
    assert!(matches!(t.read_point(&c), Err(Error::InvalidCalibration)));
}

#[test]
fn map_raw_to_screen_swaps_and_inverts() {
    let mut c = cal();
    c.swap_xy = true;
    c.invert_x = true;
    c.invert_y = true;
    let p: Point = map_raw_to_screen::<(), ()>(RawPoint { x: 300, y: 200 }, &c).unwrap();
    assert_eq!(p, Point { x: 319, y: 239 });
    let p: Point = map_raw_to_screen::<(), ()>(RawPoint { x: 2050, y: 2050 }, &cal()).unwrap();
    assert_eq!(p, Point { x: 159, y: 119 });
}

#[test]
fn map_raw_to_screen_rejects_empty_ranges() {
    let mut c = cal();
    c.x_max = c.x_min;
    assert!(matches!(map_raw_to_screen::<(), ()>(RawPoint { x: 1, y: 1 }, &c), Err(Error::InvalidCalibration)));
    let mut c = cal();
    c.height = 0;
    assert!(matches!(map_raw_to_screen::<(), ()>(RawPoint { x: 1, y: 1 }, &c), Err(Error::InvalidCalibration)));
}

#[test]
fn clamp_map_values() {
    assert_eq!(clamp_map(0, 200, 3900, 320), 0);
    assert_eq!(clamp_map(5000, 200, 3900, 320), 319);
    assert_eq!(clamp_map(2050, 200, 3900, 320), 159);
    assert_eq!(clamp_map(1000, 0, 4095, 1), 0);
}

#[test]
fn decode_frame_takes_bits_14_to_3() {
    assert_eq!(decode_frame([CMD_Y, 0x7F, 0xF8]), 0x0FFF);
    assert_eq!(decode_frame([CMD_X, 0xFF, 0xFF]), 0x0FFF);
    assert_eq!(decode_frame([CMD_X, 0x00, 0x08]), 1);
    assert_eq!(decode_frame([CMD_X, 0x12, 0x34]), 0x246);
}

#[test]
fn clamp_map_is_monotone_with_fixed_ends() {
    let mut last = 0;
    for v in (0..=4095u16).step_by(13) {
        let m = clamp_map(v, 200, 3900, 320);
        assert!(m >= last && m < 320);
        last = m;
    }
    assert_eq!(clamp_map(200, 200, 3900, 320), 0);
    assert_eq!(clamp_map(3900, 200, 3900, 320), 319);
}

#[test]
fn every_point_lands_on_screen() {
    for &(swap, ix, iy) in &[(false, false, false), (true, false, true), (true, true, true)] {
        let mut c = cal();
        c.swap_xy = swap;
        c.invert_x = ix;
        c.invert_y = iy;
        for x in (0..4096u16).step_by(511) {
            for y in (0..4096u16).step_by(509) {
                let p = map_raw_to_screen::<(), ()>(RawPoint { x, y }, &c).unwrap();
                assert!(p.x < 320 && p.y < 240);
            }
        }
    }
}

#[test]
fn touch_and_reading_helpers() {
    assert!(matches!(touch_from_level::<u8, i8>(Ok(true)), Ok(true)));
    assert!(matches!(touch_from_level::<u8, i8>(Err(-2)), Err(Error::Pin(-2))));
    assert_eq!(command_frame(CMD_X), [0xD0, 0, 0]);
    assert!(matches!(reading_from_transfer::<u8, i8>(Ok(()), [CMD_Y, 0x12, 0x34]), Ok(0x246)));
    assert!(matches!(reading_from_transfer::<u8, i8>(Err(4), [CMD_Y, 0x12, 0x34]), Err(Error::Spi(4))));
}

#[test]
fn average_is_the_floor_mean_of_the_first_n() {
    let mut s = [RawPoint { x: 4095, y: 4095 }; 16];
    s[0] = RawPoint { x: 1, y: 10 };
    s[1] = RawPoint { x: 2, y: 20 };
    s[2] = RawPoint { x: 4, y: 31 };
    assert_eq!(average(&s, 3), RawPoint { x: 2, y: 20 });
    assert_eq!(average(&s, 1), RawPoint { x: 1, y: 10 });
    assert_eq!(average(&[RawPoint { x: 4095, y: 0 }; 16], 16), RawPoint { x: 4095, y: 0 });
}

#[test]
fn read_raw_averaged_makes_two_transfers_per_sample() {
    let panel = Panel { x: vec![5; 16], y: vec![6; 16], cmds: vec![], fail_after: None };
    let mut t = Xpt2046::new(panel, Pen(Ok(false)));
    assert_eq!(t.read_raw_averaged(3).unwrap(), RawPoint { x: 5, y: 6 });
    assert_eq!(t.read_raw().unwrap(), RawPoint { x: 5, y: 6 });
}
