pub mod text;
pub mod cg3;
pub mod num;
pub mod order;
pub mod cg3_util;
pub mod sentences;
pub mod hfst;
pub mod ssml;
pub mod ssml_check;
pub mod value;
pub mod speech;
pub mod xml_conv;
pub mod fluent;
pub mod cgspell;
pub mod unicode;
pub mod pipeline;
pub mod commands;
pub mod config;
pub mod suggest;
pub mod widen;
pub mod blanktag;
pub mod ts;
pub mod normalize;
pub mod lookup;
pub mod phon;
pub mod xml_fluent;
pub mod xml_kdl;
pub mod xml_parse;
pub mod fluent_loader;
