//! Decision logic of the vector editor's tool handlers.
#![allow(unused_imports)]

pub mod app_directory;
pub mod arrange;
pub mod bezier;
pub mod bignum;
pub mod blend;
pub mod canvas;
pub mod checkin;
pub mod checkin_plan;
pub mod checkin_reader;
pub mod connect_page;
pub mod connect_plan;
pub mod copies;
pub mod css_tree;
pub mod decimal;
pub mod diagnostic;
pub mod directory_plan;
pub mod double;
pub mod figures;
pub mod find_replace;
pub mod float;
pub mod frames;
pub mod hatch;
pub mod history;
pub mod hues;
pub mod jsx;
pub mod layouts;
pub mod literals;
pub mod order;
pub mod outlines;
pub mod page_readers;
pub mod painting;
pub mod parametric;
pub mod path_edits;
pub mod path_tools;
pub mod paths;
pub mod plan;
pub mod react_import;
pub mod recolor;
pub mod reports;
pub mod scene;
pub mod selection;
pub mod shapes;
pub mod similar;
pub mod sources;
pub mod spread;
pub mod steps;
pub mod stripped;
pub mod svg;
pub mod svg_icon;
pub mod tailwind;
pub mod text;
pub mod text_styles;
pub mod theme;
pub mod tiling;
pub mod transform;
pub mod typography;
