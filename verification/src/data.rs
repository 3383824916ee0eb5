//! Data structures whose behavior does not depend on insertion order or hash
//! placement.

pub use self::arena::Index;
pub use self::coarena::Coarena;
pub use self::cool_map::CoolKey;
pub use self::cool_map::CoolMap;

pub mod arena;
pub mod coarena;
pub mod cool_map;
pub mod key_order;
mod ordered_table;
mod position_table;
