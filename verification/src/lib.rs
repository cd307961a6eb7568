//! Streams that arrive over LoRaWAN. One frame's `FRMPayload` is one stream
//! where it fits; a longer stream travels as flagged fragments on a port of
//! its own and arrives whole at the network server.
//!
//! LoRaWAN is the long-range, low-power radio of the meter in the basement
//! and the sensor in the field: a device talks up to any gateway that hears
//! it, the gateways forward to one network server, and the server talks
//! down in the device's receive windows. What is here is the MAC frame
//! (message type, device address, frame control and counter, port, the
//! `FRMPayload` under the application session key and the MIC under the
//! network session key, AES-128 as LoRaWAN uses it), confirmed
//! and unconfirmed data in both directions, and a fragmented stream.
//!
//! The radio is a trait: [`LoopbackRadio`] is a gateway and network server
//! in-process, which every box without a concentrator drives. The origin URI
//! names the radio, the device and the port:
//! `lorawan://loopback/26011b2c?port=2`.

pub mod aes;
pub mod device;
pub mod error;
pub mod frame;
pub mod loopback;
pub mod radio;
pub mod sbox;
pub mod server;
pub mod text;
pub mod transport;

pub use device::Device;
pub use error::Error;
pub use frame::Frame;
pub use frame::Keys;
pub use frame::MType;
pub use radio::LoopbackRadio;
pub use radio::Radio;
pub use server::NetworkServer;
pub use transport::Arrived;
pub use transport::LorawanTransport;
