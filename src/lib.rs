/// Integer coordinates.
pub mod math;
/// Observable cells and their listener registries.
pub mod state;
/// Gadgets, their ownership and the tree they form.
pub mod gadget;
/// Keys, mouse buttons and modifiers.
pub mod input;
/// The focus tracker and its cycling order.
pub mod focus;
/// Font family names and text placement.
pub mod text;
/// Buttons, text boxes and layouts.
pub mod widgets;
/// Windows and the routing of their input.
pub mod window;
/// Decisions of repeating jobs.
pub mod schedule;
