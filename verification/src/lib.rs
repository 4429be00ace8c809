//! Fixed-width text layout: classifies grapheme clusters into width-tagged
//! tokens, greedily wraps them into rows, measures the resulting grid and
//! splits the row stream into fixed-size pages.

pub mod config;
pub mod display;
pub mod geometry;
pub mod numerals;
pub mod paginate;
pub mod row;
pub mod segment;
pub mod stream;
pub mod token;
pub mod wrap;

pub use config::{parse_2d_int, parse_int, parse_positive_int, parse_uint, CharSize, Config, Param,
    DIME_AUTO};
pub use geometry::{compute_geo, page_height, Geo};
pub use numerals::{digit_count, resolve_ndigits};
pub use paginate::{paginate, Page};
pub use row::{Row, RowModel};
pub use stream::{aggregate, ScanResult};
pub use token::{Token, TokenKind};
pub use wrap::parse_line;
