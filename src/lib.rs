pub mod buffer;
pub mod color;
pub mod editor;
pub mod input;
pub mod render;
pub mod surface;

pub use buffer::{Buffer, BufferRefExtras, CosmicEditBuffer};
pub use editor::CosmicEditor;
pub use input::{InputSet, InputState};
pub use render::WidgetBufferCoordTransformation;
