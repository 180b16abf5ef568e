//! The build configurations and platforms of a solution.

use vstd::prelude::*;

verus! {

/// A build configuration.
#[derive(Debug, Clone, Copy, PartialEq, Eq, Structural)]
pub enum Configuration {
    Debug,
    Release,
}

/// A target platform.
#[derive(Debug, Clone, Copy, PartialEq, Eq, Structural)]
pub enum ProcessorArchitecture {
    Any,
    X64,
    X86,
}

/// The configurations of a solution, in the order in which they are written.
pub const CONFIGURATIONS: [Configuration; 2] = [Configuration::Debug, Configuration::Release];

/// The platforms of a solution, in the order in which they are written.
pub const PROCESSOR_ARCHITECTURES: [ProcessorArchitecture; 3] = [
    ProcessorArchitecture::Any,
    ProcessorArchitecture::X64,
    ProcessorArchitecture::X86,
];

/// The name of a configuration.
pub open spec fn configuration_text(c: Configuration) -> Seq<char> {
    match c {
        Configuration::Debug => "Debug"@,
        Configuration::Release => "Release"@,
    }
}

/// The name of a platform.
pub open spec fn architecture_text(a: ProcessorArchitecture) -> Seq<char> {
    match a {
        ProcessorArchitecture::Any => "Any CPU"@,
        ProcessorArchitecture::X64 => "x64"@,
        ProcessorArchitecture::X86 => "x86"@,
    }
}

impl Configuration {
    /// The name of the configuration, as a solution writes it.
    pub fn name(&self) -> (out: &'static str)
        ensures
            out@ == configuration_text(*self),
    {
        match self {
            Configuration::Debug => "Debug",
            Configuration::Release => "Release",
        }
    }
}

impl ProcessorArchitecture {
    /// The name of the platform, as a solution writes it.
    pub fn name(&self) -> (out: &'static str)
        ensures
            out@ == architecture_text(*self),
    {
        match self {
            ProcessorArchitecture::Any => "Any CPU",
            ProcessorArchitecture::X64 => "x64",
            ProcessorArchitecture::X86 => "x86",
        }
    }
}

} // verus!
