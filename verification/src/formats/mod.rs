//! The file formats: models, save data, string tables, and OIL exports.
pub mod player_save;
pub mod fdm;
pub mod oil;
pub mod scriptdata;
pub mod xml;
pub mod xml_writer;
pub mod font;
pub mod banksinfo;
pub mod string_table;
