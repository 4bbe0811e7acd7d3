pub mod css_tree;
pub mod extension;
pub mod fs;
pub mod if_condition;
pub mod import_path;
pub mod importer;
pub mod logger;
pub mod media;
pub mod moz_document;
pub mod options;
pub mod path;
pub mod selector;
