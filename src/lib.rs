pub mod origin;
pub mod pairing;
pub mod pipeline;
pub mod relay;
pub mod round_trip;
pub mod rtsp;
pub mod session;
pub mod text;
