# spectrum_panel

Verified drivers and display logic for a small spectrometer panel: an AS7343
18-channel spectral sensor on I2C, an XPT2046 resistive touch controller on
SPI, and an ILI9341 LCD that shows eleven of the sensor channels as bars.

- `src/bus.rs` — the bus access each driver needs (register bus, SPI
  transfer, input line) and `I2cPort`, a register bus with the record of the
  transactions made through it, which the sensor contracts speak of.
- `src/as7343.rs` — register values, the request/reply machine behind every
  sensor operation, the operations themselves, and their laws.
- `src/xpt2046.rs` — touch sampling, averaging and calibration mapping.
- `src/panel.rs` — rows, labels, colours, bar lengths, decimal rendering and
  the display task's decisions.
- `app/` — the STM32 firmware (embassy) and the adapters from embedded-hal
  to the bus traits.
