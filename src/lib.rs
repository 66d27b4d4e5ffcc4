//! Lottery archive crawling state and draw-history frequency analysis.
pub mod text;
pub mod numeric;
pub mod analysis;
pub mod page;
pub mod crawl;
