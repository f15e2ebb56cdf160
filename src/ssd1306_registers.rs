//! Command bytes, colours and geometry of the SSD1306 display controller.

use vstd::prelude::*;

verus! {

/// Draw 'off' pixels
pub const BLACK: u8 = 0;
/// Draw 'on' pixels
pub const WHITE: u8 = 1;
/// Invert pixels
pub const INVERSE: u8 = 2;

/// See datasheet
pub const MEMORYMODE: u8 = 0x20;
/// See datasheet
pub const COLUMNADDR: u8 = 0x21;
/// See datasheet
pub const PAGEADDR: u8 = 0x22;
/// See datasheet
pub const SETCONTRAST: u8 = 0x81;
/// See datasheet
pub const CHARGEPUMP: u8 = 0x8D;
/// See datasheet
pub const SEGREMAP: u8 = 0xA0;
/// See datasheet
pub const DISPLAYALLON_RESUME: u8 = 0xA4;
/// Not currently used
pub const DISPLAYALLON: u8 = 0xA5;
/// See datasheet
pub const NORMALDISPLAY: u8 = 0xA6;
/// See datasheet
pub const INVERTDISPLAY: u8 = 0xA7;
/// See datasheet
pub const SETMULTIPLEX: u8 = 0xA8;
/// See datasheet
pub const DISPLAYOFF: u8 = 0xAE;
/// See datasheet
pub const DISPLAYON: u8 = 0xAF;
/// Not currently used
pub const COMSCANINC: u8 = 0xC0;
/// See datasheet
pub const COMSCANDEC: u8 = 0xC8;
/// See datasheet
pub const SETDISPLAYOFFSET: u8 = 0xD3;
/// See datasheet
pub const SETDISPLAYCLOCKDIV: u8 = 0xD5;
/// See datasheet
pub const SETPRECHARGE: u8 = 0xD9;
/// See datasheet
pub const SETCOMPINS: u8 = 0xDA;
/// See datasheet
pub const SETVCOMDETECT: u8 = 0xDB;

/// Not currently used
pub const SETLOWCOLUMN: u8 = 0x00;
/// Not currently used
pub const SETHIGHCOLUMN: u8 = 0x10;
/// See datasheet
pub const SETSTARTLINE: u8 = 0x40;

/// External display voltage source
pub const EXTERNALVCC: u8 = 0x01;
/// Gen. display voltage from 3.3V
pub const SWITCHCAPVCC: u8 = 0x02;

/// Init rt scroll
pub const RIGHT_HORIZONTAL_SCROLL: u8 = 0x26;
/// Init left scroll
pub const LEFT_HORIZONTAL_SCROLL: u8 = 0x27;
/// Init diag scroll
pub const VERTICAL_AND_RIGHT_HORIZONTAL_SCROLL: u8 = 0x29;
/// Init diag scroll
pub const VERTICAL_AND_LEFT_HORIZONTAL_SCROLL: u8 = 0x2A;
/// Stop scroll
pub const DEACTIVATE_SCROLL: u8 = 0x2E;
/// Start scroll
pub const ACTIVATE_SCROLL: u8 = 0x2F;
/// Set scroll range
pub const SET_VERTICAL_SCROLL_AREA: u8 = 0xA3;

pub const LCDWIDTH: u16 = 128;
pub const LCDHEIGHT: u16 = 64;

} // verus!
