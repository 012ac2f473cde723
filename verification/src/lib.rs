//! Drivers and display logic for a spectral sensor panel: the AS7343
//! 18-channel spectral sensor (I2C), the XPT2046 resistive touch controller
//! (SPI), and the arithmetic that turns readings into bars on a 320x240 LCD.

pub mod as7343;
pub mod bus;
pub mod panel;
pub mod xpt2046;
