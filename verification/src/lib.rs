pub mod activity;
pub mod heat;
pub mod osmbase;
pub mod raster;
pub mod slippy;
pub mod strava;
pub mod text;
