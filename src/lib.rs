pub mod bits;
pub mod error_correction;
pub mod mask;
pub mod message_layout;
pub mod metadata;
pub mod patterns;
pub mod qr;
