//! Verified core of the NyxIP network scanner: address ranges, the text that
//! the scanner shows and exports, and the decisions of a scan session.

pub mod text;
pub mod ipv4;
pub mod range;
pub mod interface;
pub mod scanner;
pub mod table;
pub mod report;
pub mod session;
pub mod workbook;
