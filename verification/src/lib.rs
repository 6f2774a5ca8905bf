//! A multi-producer, multi-subscriber message bus laid out in one region of bytes.

pub mod bus;
pub mod bytes;
pub mod cli;
pub mod crc;
pub mod error;
pub mod fanout;
pub mod history;
pub mod interleave;
pub mod l2;
pub mod l2_bridge;
pub mod layout;
pub mod mac;
pub mod platform;
pub mod pow2;
pub mod protocol;
pub mod publication;
pub mod text;
pub mod usb_bridge;
pub mod usbsim;
