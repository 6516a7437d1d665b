//! A single price series kept fresh from an outside source and served in
//! resampled windows.

pub mod error;
pub mod history;
pub mod pages;
pub mod resample;
pub mod sample;
pub mod settings;
pub mod store;
pub mod updater;
