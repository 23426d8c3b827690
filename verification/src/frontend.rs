pub mod bits;
pub mod e_packet;
pub mod encodings;
