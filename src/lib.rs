//! A stylised fire effect: a heat buffer that diffuses, cools under a
//! scrolling cooling field and is re-ignited along its bottom rows.
pub mod color_maps;
pub mod cooling_maps;
pub mod engine;
pub mod fire_handler;
pub mod fire_mask;
