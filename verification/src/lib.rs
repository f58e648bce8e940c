//! A random-access CSV reader: byte-offset row indexing, quote-aware
//! line parsing, encoding detection, cached row access, cell editing,
//! export and search, together with the pure view logic of the desktop
//! front end.
pub mod chars;
pub mod csv_line;
pub mod desktop;
pub mod edit;
pub mod encoding;
pub mod engine;
pub mod index;
pub mod search;
pub mod text;
pub mod view;
