//! Where the inputs of a run are.
use vstd::prelude::*;
use vstd::string::*;

verus! {

/// Configuration for the whole program
#[derive(Debug, PartialEq, Eq)]
pub struct Config {
    /// Path of the synthesized CPU HDL file
    pub hdl_path: String,
    /// Path of the "binary" (strings of 1s and 0s with each instruction on a new line)
    pub program_binary_path: String,
    /// Gate library liberty file path
    pub gate_library_path: String,
}

/// Which of the configured paths exist.
#[derive(Debug, Clone, Copy, PartialEq, Eq, Structural)]
pub struct PathsFound {
    pub hdl: bool,
    pub program_binary: bool,
    pub gate_library: bool,
}

/// Why there is no configuration.
#[derive(Debug, PartialEq, Eq)]
pub enum ConfigError {
    /// The path does not exist.
    Missing(String),
}

impl ConfigError {
    /// Says which path does not exist.
    pub fn message(&self) -> (r: String)
        ensures
            r@ == self->Missing_0@ + " does not exist"@,
    {
        match self {
            ConfigError::Missing(path) => {
                let mut text = path.clone();
                text.append(" does not exist");
                text
            },
        }
    }
}

impl Config {
    /// The configuration with the paths, or the first path that does not exist.
    pub fn new(
        hdl_path_str: String,
        program_binary_path_str: String,
        gate_library_path_str: String,
        found: PathsFound,
    ) -> (r: Result<Self, ConfigError>)
        ensures
            r is Ok <==> found.hdl && found.program_binary && found.gate_library,
            r matches Ok(config) ==> {
                &&& config.hdl_path == hdl_path_str
                &&& config.program_binary_path == program_binary_path_str
                &&& config.gate_library_path == gate_library_path_str
            },
            r matches Err(ConfigError::Missing(path)) ==> path == if !found.hdl {
                hdl_path_str
            } else if !found.program_binary {
                program_binary_path_str
            } else {
                gate_library_path_str
            },
    {
        // Make sure all paths exist (return the error if it doesn't)
        if !found.hdl {
            return Err(ConfigError::Missing(hdl_path_str));
        }
        if !found.program_binary {
            return Err(ConfigError::Missing(program_binary_path_str));
        }
        if !found.gate_library {
            return Err(ConfigError::Missing(gate_library_path_str));
        }
        // Create Config object
        Ok(
            Self {
                hdl_path: hdl_path_str,
                program_binary_path: program_binary_path_str,
                gate_library_path: gate_library_path_str,
            },
        )
    }
}

} // verus!
