//! Rhythm-game map analysis: the discrete half of a strain-based difficulty solve
//! (hand and finger tables, chords, transitions, manipulation streaks, long-note
//! layering, time bins), the play modifiers that rewrite a map, a judgement and score
//! accumulator kept in fixed-point integers, and the byte readers that replays use.
pub mod binary_helper;
pub mod game_mode;
pub mod hand;
pub mod map;
pub mod mods;
pub mod osu;
pub mod replay;
pub mod scoring;
pub mod strain;
pub mod frames;
