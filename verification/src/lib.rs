//! Timetable data handling and journey planning over HRDF (Swiss public transport
//! timetable) data.
pub mod text;
pub mod text_map;
pub mod models;
pub mod parsing;
pub mod shared;
pub mod storage;
pub mod routing;
pub mod planning;
pub mod service;
