//! Run configuration, derived from already-parsed command-line values.

use vstd::prelude::*;

verus! {

/// Largest file size read in by default, in bytes.
pub const DEFAULT_MAX_FILE_SIZE: u64 = 1024 * 1024;

/// Token budget assumed for the model context when none is given.
pub const DEFAULT_MODEL_CONTEXT: usize = 200000;

/// The command-line values, as parsed by the caller.
#[derive(Debug, Clone)]
pub struct Cli {
    pub paths: Vec<String>,
    pub interactive: bool,
    pub no_clipboard: bool,
    pub stdout: bool,
    pub max_size: u64,
    pub exclude: Vec<String>,
    pub model_context: Option<usize>,
    pub no_model_context: bool,
    pub tokenizer_model: Option<String>,
    pub chunk_size: Option<usize>,
    pub chunk_index: Option<isize>,
    pub multi_step: bool,
    pub git_info: bool,
    pub escape_xml: bool,
}

/// Application configuration.
#[derive(Debug, Clone)]
pub struct Config {
    pub paths: Vec<String>,
    pub interactive: bool,
    pub no_clipboard: bool,
    pub stdout: bool,
    pub max_size: u64,
    pub exclude: Vec<String>,
    pub model_context: Option<usize>,
    pub tokenizer_model: Option<String>,
    pub chunk_size: Option<usize>,
    pub chunk_index: Option<usize>,
    /// Multi-step mode: copy only the header first and serve files on
    /// demand.
    pub multi_step: bool,
    pub git_info: bool,
    pub escape_xml: bool,
}

/// The chunk index a command line asks for: absent and negative values
/// mean none.
pub open spec fn spec_chunk_index(given: Option<isize>) -> Option<usize> {
    match given {
        None => None,
        Some(i) => if i >= 0 {
            Some(i as usize)
        } else {
            None
        },
    }
}

/// The model-context budget a command line asks for: none when switched
/// off, the default when left unset.
pub open spec fn spec_model_context(given: Option<usize>, switched_off: bool) -> Option<usize> {
    if switched_off {
        None
    } else {
        match given {
            Some(m) => Some(m),
            None => Some(DEFAULT_MODEL_CONTEXT),
        }
    }
}

impl Config {
    /// Derives the configuration from parsed command-line values.
    pub fn from_cli(cli: Cli) -> (c: Config)
        ensures
            c.paths == cli.paths,
            c.interactive == cli.interactive,
            c.no_clipboard == cli.no_clipboard,
            c.stdout == cli.stdout,
            c.max_size == cli.max_size,
            c.exclude == cli.exclude,
            c.model_context == spec_model_context(cli.model_context, cli.no_model_context),
            c.tokenizer_model == cli.tokenizer_model,
            c.chunk_size == cli.chunk_size,
            c.chunk_index == spec_chunk_index(cli.chunk_index),
            c.multi_step == cli.multi_step,
            c.git_info == cli.git_info,
            c.escape_xml == cli.escape_xml,
    {
        let chunk_index: Option<usize> = match cli.chunk_index {
            None => None,
            Some(i) => if i >= 0 {
                Some(i as usize)
            } else {
                None
            },
        };
        let model_context: Option<usize> = if cli.no_model_context {
            None
        } else {
            match cli.model_context {
                Some(m) => Some(m),
                None => Some(DEFAULT_MODEL_CONTEXT),
            }
        };
        Config {
            paths: cli.paths,
            interactive: cli.interactive,
            no_clipboard: cli.no_clipboard,
            stdout: cli.stdout,
            max_size: cli.max_size,
            exclude: cli.exclude,
            model_context,
            tokenizer_model: cli.tokenizer_model,
            chunk_size: cli.chunk_size,
            chunk_index,
            multi_step: cli.multi_step,
            git_info: cli.git_info,
            escape_xml: cli.escape_xml,
        }
    }
}

} // verus!
