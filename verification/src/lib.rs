//! The verified core of a small networked helicopter game: the binary wire
//! format of the messages that players exchange, the keyboard state that
//! input events drive, and the integer outline of a bullet.

pub mod bullet;
pub mod bytes;
pub mod decimal;
pub mod ip;
pub mod serializer;
pub mod utils;

pub use bullet::{circle_fits, circle_points, RADIUS};
pub use ip::parse_ip;
pub use serializer::{deserialize_ip, serialize_ip, split_messages, Message};
pub use utils::{get_current_time, get_input, InputEvent, Key, Keyboard};
