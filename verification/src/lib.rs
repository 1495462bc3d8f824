//! The logic of a small HTTP/1.1 server, verified with Verus.

pub mod answers;
pub mod cgi;
pub mod clients;
pub mod config;
pub mod course;
pub mod date;
pub mod directives;
pub mod forms;
pub mod framing;
pub mod handlers;
pub mod http;
pub mod numeral;
pub mod pages;
pub mod paths;
pub mod places;
pub mod scripts;
pub mod server;
pub mod service;
pub mod sessions;
pub mod sites;
pub mod strmap;
pub mod text;
pub mod uploads;
pub mod wire;
