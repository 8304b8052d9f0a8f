mod decode;
mod encode;
mod table;

pub use decode::decode;
pub use decode::InvalidInputError;
pub use encode::data_to_octets;
pub use encode::encode;
pub use table::index_of;
pub use table::value_of;
