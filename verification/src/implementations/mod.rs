pub mod buffer_content;
pub mod folder_content;
pub mod zip_identifier;
pub mod zip_extractor;
