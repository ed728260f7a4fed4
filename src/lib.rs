//! Guillotine texture-atlas packing: free-space bookkeeping, best-area-fit
//! placement, and page rollover, with their contracts proved.

pub mod rect;
pub mod place;
pub mod pack;
pub mod rectpack;
