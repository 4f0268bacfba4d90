//! Time-shift bump of a portfolio: advancing the spot date, materialising the
//! fixings that fall due between the old and the new spot date, and deciding
//! whether the valuation model can be bumped in place or must be rebuilt.
pub mod bumpspotdate;
pub mod bumptime;
pub mod dates;
pub mod dependencies;
pub mod fixings;
pub mod window;
