//! Ohm: a compiler from a small C-like language to Minecraft redstone.
pub mod ast;
pub mod bank;
pub mod bitblast;
pub mod bits;
pub mod boxmap;
pub mod circuits;
pub mod floorplan;
pub mod flop;
pub mod graph;
pub mod cli;
pub mod clocking;
pub mod controls;
pub mod deep;
pub mod gzip;
pub mod heap;
pub mod ir;
pub mod ir_values;
pub mod keepout;
pub mod layout;
pub mod lexer;
pub mod logic;
pub mod lower;
pub mod lower_types;
pub mod machine;
pub mod meaning;
pub mod memory;
pub mod nbt;
pub mod negotiate;
pub mod netlist;
pub mod ownership;
pub mod palette;
pub mod parser;
pub mod parser_types;
pub mod paths;
pub mod pins;
pub mod posmap;
pub mod printing;
pub mod reading;
pub mod redstone;
pub mod relay;
pub mod route;
pub mod running;
pub mod schem;
pub mod search;
pub mod sorting;
pub mod spelling;
pub mod steps;
pub mod structure;
pub mod tech;
pub mod text;
pub mod unpack;
pub mod wires;
pub mod wiring;
pub mod world;
