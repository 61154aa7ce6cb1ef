pub mod bitmap;
pub mod builder;
pub mod decimal;
pub mod named;
pub mod ordered_map;
pub mod pairs;
pub mod text;
