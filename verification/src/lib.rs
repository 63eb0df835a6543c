//! Turn websites into structured records: declarative adapters, a path language over
//! JSON documents, field extraction and transforms, parameter handling, and text output.

use vstd::prelude::*;

pub mod adapter;
pub mod body;
pub mod browser;
pub mod cli;
pub mod codec;
pub mod extract;
pub mod help;
pub mod html;
pub mod hub;
pub mod json;
pub mod num;
pub mod output;
pub mod params;
pub mod registry;
pub mod resolve;
pub mod result;
pub mod settings;
pub mod suggest;
pub mod path;
pub mod pipeline;
pub mod reader;
pub mod text;
pub mod transform;
pub mod url;

verus! {

} // verus!
