//! The disassembly tools that can be run on a sample, and their settings.

use vstd::prelude::*;

verus! {

/// Settings for IDA.
#[derive(Clone, Debug, PartialEq, Eq)]
pub struct IdaConfig {
    /// The path of the executable.
    pub ida_path: String,
    /// Whether the output of the tool is shown.
    pub show_output: bool,
}

/// Settings for DeepDi, which runs in a container.
#[derive(Clone, Debug, PartialEq, Eq)]
pub struct DeepDiConfig {
    pub drm_key: String,
    pub image_name: String,
}

/// Settings for the identify-x86 model, which runs in a container.
#[derive(Clone, Debug, PartialEq, Eq)]
pub struct IdentifyX86Config {
    pub model_path: String,
    pub code_vocab_path: String,
    pub image_name: String,
}

/// The settings of every tool.
#[derive(Clone, Debug, PartialEq, Eq)]
pub struct DisasmToolConfig {
    pub ida: IdaConfig,
    pub deepdi: DeepDiConfig,
    pub identify_x86: IdentifyX86Config,
}

/// A tool, by name.
#[derive(Debug, Copy, Clone, PartialEq, Eq, Structural)]
pub enum DisasmToolName {
    Ida,
    Deepdi,
    IdentifyX86,
}

/// A tool that runs without a container, by name.
#[derive(Debug, Copy, Clone, PartialEq, Eq, Structural)]
pub enum DisasmTool {
    Ida,
    Deepdi,
}

/// A tool with its settings.
#[derive(Clone, Debug, PartialEq, Eq)]
pub enum DisasmToolWithConfig {
    Ida(IdaConfig),
    Deepdi(DeepDiConfig),
    IdentifyX86(IdentifyX86Config),
}

impl DisasmTool {
    /// The name of the tool among all tools.
    pub fn name(self) -> (r: DisasmToolName)
        ensures
            r == (match self {
                DisasmTool::Ida => DisasmToolName::Ida,
                DisasmTool::Deepdi => DisasmToolName::Deepdi,
            }),
    {
        match self {
            DisasmTool::Ida => DisasmToolName::Ida,
            DisasmTool::Deepdi => DisasmToolName::Deepdi,
        }
    }
}

impl DisasmToolName {
    /// Every tool, in the order in which tools are run.
    pub fn all() -> (r: Vec<DisasmToolName>)
        ensures
            r@ =~= seq![DisasmToolName::Ida, DisasmToolName::Deepdi, DisasmToolName::IdentifyX86],
    {
        let mut all: Vec<DisasmToolName> = Vec::new();
        all.push(DisasmToolName::Ida);
        all.push(DisasmToolName::Deepdi);
        all.push(DisasmToolName::IdentifyX86);
        all
    }

    /// The tool with its settings, taken from `config`.
    pub fn with_config(&self, config: &DisasmToolConfig) -> (r: DisasmToolWithConfig)
        ensures
            r == (match *self {
                DisasmToolName::Ida => DisasmToolWithConfig::Ida(config.ida),
                DisasmToolName::Deepdi => DisasmToolWithConfig::Deepdi(config.deepdi),
                DisasmToolName::IdentifyX86 => DisasmToolWithConfig::IdentifyX86(config.identify_x86),
            }),
    {
        match self {
            DisasmToolName::Ida => DisasmToolWithConfig::Ida(
                IdaConfig { ida_path: config.ida.ida_path.clone(), show_output: config.ida.show_output },
            ),
            DisasmToolName::Deepdi => DisasmToolWithConfig::Deepdi(
                DeepDiConfig {
                    drm_key: config.deepdi.drm_key.clone(),
                    image_name: config.deepdi.image_name.clone(),
                },
            ),
            DisasmToolName::IdentifyX86 => DisasmToolWithConfig::IdentifyX86(
                IdentifyX86Config {
                    model_path: config.identify_x86.model_path.clone(),
                    code_vocab_path: config.identify_x86.code_vocab_path.clone(),
                    image_name: config.identify_x86.image_name.clone(),
                },
            ),
        }
    }
}

impl DisasmToolWithConfig {
    /// The name of the tool.
    pub fn name(&self) -> (r: DisasmToolName)
        ensures
            r == (match *self {
                DisasmToolWithConfig::Ida(_) => DisasmToolName::Ida,
                DisasmToolWithConfig::Deepdi(_) => DisasmToolName::Deepdi,
                DisasmToolWithConfig::IdentifyX86(_) => DisasmToolName::IdentifyX86,
            }),
    {
        match self {
            DisasmToolWithConfig::Ida(_) => DisasmToolName::Ida,
            DisasmToolWithConfig::Deepdi(_) => DisasmToolName::Deepdi,
            DisasmToolWithConfig::IdentifyX86(_) => DisasmToolName::IdentifyX86,
        }
    }
}

} // verus!
