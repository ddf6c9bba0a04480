//! The names that most users of the library need.

pub use crate::cssom::cascade::StyleMap;
pub use crate::cssom::parser::StyleSheetParser;
pub use crate::cssom::Color;
pub use crate::cssom::Declaration;
pub use crate::cssom::DeclarationProperty;
pub use crate::cssom::DeclarationValue;
pub use crate::cssom::Display;
pub use crate::cssom::Length;
pub use crate::cssom::Number;
pub use crate::cssom::Rule;
pub use crate::cssom::Selector;
pub use crate::cssom::StyleSheet;
pub use crate::cssom::Unit;
pub use crate::dom::attributes::ElementAttributes;
pub use crate::dom::parser::DocumentObjectParser;
pub use crate::dom::Element;
pub use crate::dom::ElementTagName;
pub use crate::dom::Node;
pub use crate::dom::NodeKey;
pub use crate::error::ErrorKind;
pub use crate::error::Expected;
pub use crate::error::Found;
pub use crate::error::ParseError;
pub use crate::render_tree::RenderObject;
