//! Byte-stuffed framing for a serial link between a sensor controller and
//! its host, together with the frame-buffer logic of a small monochrome
//! display.

pub mod byte_stuffing;
pub mod stuffing_laws;
pub mod ssd1306;
pub mod ssd1306_error;
pub mod ssd1306_registers;
pub mod bmi160;
