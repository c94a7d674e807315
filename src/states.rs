pub mod input;
pub mod sanitized_input;
pub mod tokens;
pub mod validated_input;
