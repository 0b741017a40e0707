//! A transit-vehicle record: its category, its speed as an exact decimal,
//! the sentence that describes it, and its JSON form.
pub mod category;
pub mod speed;
pub mod train;
pub mod codec;
pub mod json;
pub mod service;

pub use category::TrainType;
pub use codec::{DecodeError, TrainFields, TypeField, decode_fields};
pub use service::{ReadOutcome, Reply, decode, encode, fields_of, handle_query, load};
pub use speed::Speed;
pub use train::Train;
