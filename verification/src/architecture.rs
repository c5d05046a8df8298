//! The machine architectures that applications are built for.

use crate::text::{concat3, split, split_text, text_eq, texts};
use vstd::prelude::*;

verus! {

#[derive(Debug, Clone, Copy, PartialEq, Eq, Structural)]
pub enum FlatpakArchitecture {
    X86_64,
    Aarch64,
}

/// A machine, or the runtime that names one, that no application can run on.
#[derive(Debug, Clone, Copy, PartialEq, Eq, Structural)]
pub struct UnsupportedArchitecture;

/// The architecture that a machine name stands for.
pub open spec fn machine_architecture(machine: Seq<char>) -> Option<FlatpakArchitecture> {
    if machine == "amd64"@ || machine == "x86_64"@ {
        Some(FlatpakArchitecture::X86_64)
    } else if machine == "arm64"@ || machine == "aarch64"@ {
        Some(FlatpakArchitecture::Aarch64)
    } else {
        None
    }
}

/// The architecture under the name that references use.
pub open spec fn named_architecture(name: Seq<char>) -> Option<FlatpakArchitecture> {
    if name == "x86_64"@ {
        Some(FlatpakArchitecture::X86_64)
    } else if name == "aarch64"@ {
        Some(FlatpakArchitecture::Aarch64)
    } else {
        None
    }
}

/// The architecture of a runtime, which is the middle one of the three parts of its reference.
pub open spec fn runtime_architecture(runtime_ref: Seq<char>) -> Option<FlatpakArchitecture> {
    let parts = split(runtime_ref, '/');
    if parts.len() == 3 {
        named_architecture(parts[1])
    } else {
        None
    }
}

impl FlatpakArchitecture {
    pub open spec fn spec_name(self) -> Seq<char> {
        match self {
            FlatpakArchitecture::X86_64 => "x86_64"@,
            FlatpakArchitecture::Aarch64 => "aarch64"@,
        }
    }

    /// Where the libraries of a runtime lie, below its `usr`.
    pub open spec fn spec_runtime_libdir(self) -> Seq<char> {
        "lib/"@ + self.spec_name() + "-linux-gnu"@
    }

    pub fn from_host_machine(machine: &str) -> (r: Result<
        FlatpakArchitecture,
        UnsupportedArchitecture,
    >)
        ensures
            r is Ok <==> machine_architecture(machine@) is Some,
            r matches Ok(a) ==> machine_architecture(machine@) == Some(a),
    {
        if text_eq(machine, "amd64") || text_eq(machine, "x86_64") {
            Ok(FlatpakArchitecture::X86_64)
        } else if text_eq(machine, "arm64") || text_eq(machine, "aarch64") {
            Ok(FlatpakArchitecture::Aarch64)
        } else {
            Err(UnsupportedArchitecture)
        }
    }

    pub fn from_runtime_ref(runtime_ref: &str) -> (r: Result<
        FlatpakArchitecture,
        UnsupportedArchitecture,
    >)
        ensures
            r is Ok <==> runtime_architecture(runtime_ref@) is Some,
            r matches Ok(a) ==> runtime_architecture(runtime_ref@) == Some(a),
    {
        let parts = split_text(runtime_ref, '/');
        assert(texts(parts@).len() == parts@.len());
        if parts.len() != 3 {
            return Err(UnsupportedArchitecture);
        }
        assert(texts(parts@)[1] == parts@[1]@);
        if text_eq(&parts[1], "x86_64") {
            Ok(FlatpakArchitecture::X86_64)
        } else if text_eq(&parts[1], "aarch64") {
            Ok(FlatpakArchitecture::Aarch64)
        } else {
            Err(UnsupportedArchitecture)
        }
    }

    /// The name that references use.
    pub fn name(self) -> (r: &'static str)
        ensures
            r@ == self.spec_name(),
    {
        match self {
            FlatpakArchitecture::X86_64 => "x86_64",
            FlatpakArchitecture::Aarch64 => "aarch64",
        }
    }

    pub fn runtime_libdir(self) -> (r: String)
        ensures
            r@ == self.spec_runtime_libdir(),
    {
        concat3("lib/", self.name(), "-linux-gnu")
    }

    /// The file in which a Vulkan driver describes itself.
    pub fn vulkan_icd_filename(self, driver: &str) -> (r: String)
        ensures
            r@ == driver@ + "_icd."@ + self.spec_name() + ".json"@,
    {
        let mut out = concat3(driver, "_icd.", self.name());
        out.append(".json");
        out
    }
}

/// Every name that references use is the name of a machine of that architecture.
pub proof fn lemma_architecture_names(architecture: FlatpakArchitecture)
    ensures
        named_architecture(architecture.spec_name()) == Some(architecture),
        machine_architecture(architecture.spec_name()) == Some(architecture),
{
    reveal_strlit("x86_64");
    reveal_strlit("amd64");
    reveal_strlit("arm64");
    reveal_strlit("aarch64");
    assert("x86_64"@.len() == 6);
    assert("aarch64"@.len() == 7);
    assert("amd64"@.len() == 5);
    assert("arm64"@.len() == 5);
}

} // verus!
