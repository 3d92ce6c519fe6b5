//! Shortest-path search over a hyperlink graph whose edges are only known
//! by fetching pages: the level-synchronised breadth-first scheduler, the
//! link extractor, and the plain records the front end displays.

pub mod model;
pub mod records;
pub mod shortest;
pub mod bench;
pub mod driver;
pub mod laws;
pub mod links;
