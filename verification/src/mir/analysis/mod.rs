pub mod pattern;
