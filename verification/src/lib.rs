pub mod text;
pub mod data;
pub mod ir;
pub mod lookup;
pub mod markdown_gen;
pub mod search;
pub mod site;
pub mod outline;
