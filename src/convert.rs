//! Converters from events to output text: CSV, JSON and XML. Each turns one
//! event at a time into the text to write; the owner delivers it in order.
pub mod csv;
pub mod json;
pub mod xml;
