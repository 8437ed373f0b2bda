//! What the user configures: where the documents are and how the interface
//! looks.

use crate::theme::Theme;
use vstd::prelude::*;

verus! {

/// The configuration of the program.
#[derive(Debug)]
pub struct Config {
    /// The directories whose documents are indexed.
    pub document_directories: Vec<String>,
    /// The name of the font to draw with, if the built-in one is not wanted.
    pub font_name: Option<String>,
    /// The colors to draw with.
    pub theme: Theme,
}

impl Default for Config {
    /// The configuration with no directory, the built-in font and the default
    /// theme.
    fn default() -> (config: Self)
        ensures
            config.document_directories@ == Seq::<String>::empty(),
            config.font_name is None,
            config.theme == Theme::Default,
    {
        Config { document_directories: Vec::new(), font_name: None, theme: Theme::Default }
    }
}

impl Config {
    /// The configuration that is used where none was written yet: the default
    /// one, with the base directory as the only directory of documents.
    pub fn with_base_directory(base: String) -> (config: Self)
        ensures
            config.document_directories@ == seq![base],
            config.font_name is None,
            config.theme == Theme::Default,
    {
        let mut config = Config::default();
        config.document_directories.push(base);
        assert(config.document_directories@ =~= seq![base]);
        config
    }
}

} // verus!
