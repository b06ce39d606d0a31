//! Game rules of Faritany (a "dots" game on a square board), the small text
//! formats the game server uses, and the decisions of its room lobby.
#![allow(non_camel_case_types)]
#![allow(non_snake_case)]

pub mod player;
pub mod point;
pub mod grid;
pub mod message;
pub mod clock;
pub mod faritany_logique;
pub mod game_logic;
pub mod lobby;
pub mod web;
