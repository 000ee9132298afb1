pub mod document;
pub mod site;
