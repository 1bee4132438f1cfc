//! Layers and the architectures that layer variants are written for.

use vstd::prelude::*;

verus! {

/// Identifies a layer in a library.
#[derive(Clone, Copy, Debug, PartialEq, Eq, Hash, Structural)]
pub struct LayerIdx(pub usize);

/// A target architecture.
#[derive(Clone, Copy, Debug, PartialEq, Eq, Hash, Structural)]
pub enum Architecture {
    Amd64,
    Arm64,
    Armv7,
    Armhf,
    Arm,
}

impl Architecture {
    /// The name of the architecture.
    pub open spec fn spec_name(self) -> Seq<char> {
        match self {
            Architecture::Amd64 => "amd64"@,
            Architecture::Arm64 => "arm64"@,
            Architecture::Armv7 => "armv7"@,
            Architecture::Armhf => "armhf"@,
            Architecture::Arm => "arm"@,
        }
    }

    /// The architecture with the given name.
    pub open spec fn spec_parse(s: Seq<char>) -> Option<Architecture> {
        if s == "amd64"@ {
            Some(Architecture::Amd64)
        } else if s == "arm64"@ {
            Some(Architecture::Arm64)
        } else if s == "armv7"@ {
            Some(Architecture::Armv7)
        } else if s == "armhf"@ {
            Some(Architecture::Armhf)
        } else if s == "arm"@ {
            Some(Architecture::Arm)
        } else {
            None
        }
    }

    pub fn as_str(&self) -> (r: &'static str)
        ensures
            r@ == self.spec_name(),
    {
        match self {
            Architecture::Amd64 => "amd64",
            Architecture::Arm64 => "arm64",
            Architecture::Armv7 => "armv7",
            Architecture::Armhf => "armhf",
            Architecture::Arm => "arm",
        }
    }

    /// Parses the name of an architecture.
    pub fn parse(s: &str) -> (r: Option<Architecture>)
        ensures
            r == Self::spec_parse(s@),
    {
        let s = s.to_owned();
        if s == "amd64".to_owned() {
            Some(Architecture::Amd64)
        } else if s == "arm64".to_owned() {
            Some(Architecture::Arm64)
        } else if s == "armv7".to_owned() {
            Some(Architecture::Armv7)
        } else if s == "armhf".to_owned() {
            Some(Architecture::Armhf)
        } else if s == "arm".to_owned() {
            Some(Architecture::Arm)
        } else {
            None
        }
    }
}

/// The configuration held by one layer file.
pub struct LayerConfig {
    pub source: String,
}

/// A layer: its default configuration and architecture-specific overrides.
pub struct Layer {
    /// Latest modification time over all files of the layer.
    pub modified: u64,
    pub default_config: Option<LayerConfig>,
    /// Overrides by architecture; a later entry replaces an earlier one.
    pub arch_configs: Vec<(Architecture, LayerConfig)>,
}

impl Layer {
    pub fn new(modified: u64) -> (r: Layer)
        ensures
            r.modified == modified,
            r.default_config is None,
            r.arch_configs@.len() == 0,
    {
        Layer { modified, default_config: None, arch_configs: Vec::new() }
    }
}

} // verus!
