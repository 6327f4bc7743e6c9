//! A three-rotor cipher machine: wired rotors that step like an odometer,
//! a reflector and a plugboard, all built on a two-way byte table.
pub mod table;
pub mod parts;
pub mod machine;
