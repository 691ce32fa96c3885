//! Host side of the QuickTime screen-mirroring protocol spoken by iOS devices
//! over a USB bulk pipe: the byte buffer, the typed value tree, the CoreMedia
//! structures, the frame reassembler and the protocol state machine.
pub mod annexb;
pub mod bytes;
pub mod coremedia;
pub mod error;
pub mod qt;
pub mod qt_device;
pub mod qt_pkt;
pub mod qt_value;
pub mod reassembler;
pub mod usb;
pub mod wire;
