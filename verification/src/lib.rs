//! Fountain-coded file transfer over sequences of QR frames: the Luby
//! Transform encoder and peeling decoder, the binary packet framing, the QR
//! module packing, and the sender / receiver session state machines.

pub mod rng;
pub mod xor;
pub mod lt;
pub mod peeling;
pub mod text;
pub mod packet;
pub mod qr;
pub mod session;
