//! Verified core of a programming-contest platform: judgement states and
//! grading, scoreboards, access rules, form handling and password checks.

pub mod config;
pub mod encoded;
pub mod forms;
pub mod http;
pub mod judgement;
pub mod middleware;
pub mod multipart;
pub mod models;
pub mod pass;
pub mod problems;
pub mod scoreboard;
pub mod session;
pub mod submission;
pub mod text;
pub mod time;
