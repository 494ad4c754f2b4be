//! The records of the formula index and the description of a platform.

use vstd::prelude::*;
use vstd::string::*;
use crate::text::{chars_of, nat_text, push_decimal, same_chars};

verus! {

/// The version of a formula: what upstream calls it, and how often the
/// formula and its bottles were revised since.
#[derive(Debug, PartialEq, Eq)]
pub struct Version {
    pub upstream: String,
    pub revision: u32,
    pub rebuild: u32,
}

/// A prebuilt artifact for the platforms that `tag` stands for.
#[derive(Debug, PartialEq, Eq)]
pub struct BottleFile {
    pub tag: String,
    pub url: String,
    pub sha256: String,
    pub rebuild: u32,
}

/// When a dependency that macOS ships itself is needed elsewhere.
#[derive(Debug, Clone, Copy, PartialEq, Eq, Structural)]
pub enum MacosUse {
    /// Whenever the formula is installed.
    Always,
    /// Only to build the formula.
    Build,
    /// Only to test the formula.
    Test,
}

/// A dependency that macOS ships itself.
#[derive(Debug, PartialEq, Eq)]
pub struct UsesFromMacos {
    pub name: String,
    pub when: MacosUse,
}

/// Why a formula is not linked into the prefix.
#[derive(Debug, PartialEq, Eq)]
pub struct KegOnly {
    pub reason: String,
}

/// What the index says of one package.
#[derive(Debug, PartialEq, Eq)]
pub struct Formula {
    /// The unique name, in lower case.
    pub name: String,
    pub version: Version,
    pub source_url: Option<String>,
    pub source_checksum: Option<String>,
    /// The bottle catalog: at most one artifact per platform tag counts,
    /// the first.
    pub bottles: Vec<BottleFile>,
    pub runtime: Vec<String>,
    pub build: Vec<String>,
    pub recommended: Vec<String>,
    pub optional: Vec<String>,
    pub test: Vec<String>,
    pub uses_from_macos: Vec<UsesFromMacos>,
    pub keg_only: Option<KegOnly>,
    pub license: Option<String>,
    pub caveats: Option<String>,
}

/// The family of an operating system.
#[derive(Debug, Clone, Copy, PartialEq, Eq, Structural)]
pub enum OsFamily {
    Macos,
    Linux,
}

/// A platform: operating system family, its version or code name, and the
/// processor architecture.
#[derive(Debug, PartialEq, Eq)]
pub struct PlatformTag {
    pub os_family: OsFamily,
    pub os_version: String,
    pub cpu_arch: String,
}

/// The platform of the host, and the version of its operating system that
/// came just before the one it runs, where that is known.
#[derive(Debug, PartialEq, Eq)]
pub struct Platform {
    pub tag: PlatformTag,
    pub previous_os_version: Option<String>,
}

/// The key under which the bottle catalog lists a platform: architecture,
/// an underscore, and the version or code name of the operating system.
pub open spec fn catalog_key_spec(cpu_arch: Seq<char>, os_version: Seq<char>) -> Seq<char> {
    cpu_arch + "_"@ + os_version
}

/// The key under which the bottle catalog lists a platform.
pub fn catalog_key(cpu_arch: &str, os_version: &str) -> (key: String)
    ensures
        key@ == catalog_key_spec(cpu_arch@, os_version@),
{
    String::from_str(cpu_arch).concat("_").concat(os_version)
}

impl PlatformTag {
    /// The key under which the bottle catalog lists this platform.
    pub open spec fn key(&self) -> Seq<char> {
        catalog_key_spec(self.cpu_arch@, self.os_version@)
    }

    /// The key under which the bottle catalog lists this platform, such as
    /// `arm64_sonoma`.
    pub fn catalog_key(&self) -> (key: String)
        ensures
            key@ == self.key(),
    {
        catalog_key(self.cpu_arch.as_str(), self.os_version.as_str())
    }
}

/// The name under which the bottle catalog lists the macOS release with
/// the major version `major`: its code name where it has one here, else the
/// number itself.
pub open spec fn macos_name_spec(major: u32) -> Seq<char> {
    if major == 11 {
        "big_sur"@
    } else if major == 12 {
        "monterey"@
    } else if major == 13 {
        "ventura"@
    } else if major == 14 {
        "sonoma"@
    } else if major == 15 {
        "sequoia"@
    } else if major == 26 {
        "tahoe"@
    } else {
        nat_text(major as nat)
    }
}

/// The major version of the macOS release that came just before the
/// release `major`, where that is known: the releases from 11 to 15 follow
/// each other, and 26 follows 15.
pub open spec fn macos_previous(major: u32) -> Option<u32> {
    if 12 <= major <= 15 {
        Some((major - 1) as u32)
    } else if major == 26 {
        Some(15u32)
    } else {
        None
    }
}

/// The name under which the bottle catalog lists the macOS release with
/// the major version `major`.
pub fn macos_name(major: u32) -> (name: String)
    ensures
        name@ == macos_name_spec(major),
{
    if major == 11 {
        String::from_str("big_sur")
    } else if major == 12 {
        String::from_str("monterey")
    } else if major == 13 {
        String::from_str("ventura")
    } else if major == 14 {
        String::from_str("sonoma")
    } else if major == 15 {
        String::from_str("sequoia")
    } else if major == 26 {
        String::from_str("tahoe")
    } else {
        let mut name = String::new();
        push_decimal(&mut name, major as u64);
        assert(name@ =~= nat_text(major as nat));
        name
    }
}

/// The name of a processor architecture in the bottle catalog: `arm64` for
/// what the machine calls `aarch64`, else what the machine calls it.
pub open spec fn arch_name_spec(arch: Seq<char>) -> Seq<char> {
    if arch == "aarch64"@ {
        "arm64"@
    } else {
        arch
    }
}

/// The platform of a machine with the operating system `os`, the
/// architecture `arch` and, where the system is macOS, its major version
/// `macos_major`. Every system but macOS counts as Linux.
pub open spec fn is_host_platform(os: Seq<char>, arch: Seq<char>, macos_major: u32, p: Platform) -> bool {
    &&& p.tag.cpu_arch@ == arch_name_spec(arch)
    &&& if os == "macos"@ {
        &&& p.tag.os_family == OsFamily::Macos
        &&& p.tag.os_version@ == macos_name_spec(macos_major)
        &&& match macos_previous(macos_major) {
            Some(before) => p.previous_os_version is Some && p.previous_os_version->0@
                == macos_name_spec(before),
            None => p.previous_os_version is None,
        }
    } else {
        &&& p.tag.os_family == OsFamily::Linux
        &&& p.tag.os_version@ == "linux"@
        &&& p.previous_os_version is None
    }
}

/// The platform of a machine, from what the machine says of itself.
pub fn host_platform(os: &str, arch: &str, macos_major: u32) -> (platform: Platform)
    ensures
        is_host_platform(os@, arch@, macos_major, platform),
{
    let a = chars_of(arch);
    let aarch64 = chars_of("aarch64");
    let cpu_arch = if same_chars(&a, &aarch64) {
        String::from_str("arm64")
    } else {
        String::from_str(arch)
    };
    let o = chars_of(os);
    let macos = chars_of("macos");
    if same_chars(&o, &macos) {
        let previous_os_version = if 12 <= macos_major && macos_major <= 15 {
            Some(macos_name(macos_major - 1))
        } else if macos_major == 26 {
            Some(macos_name(15))
        } else {
            None
        };
        Platform {
            tag: PlatformTag {
                os_family: OsFamily::Macos,
                os_version: macos_name(macos_major),
                cpu_arch,
            },
            previous_os_version,
        }
    } else {
        Platform {
            tag: PlatformTag {
                os_family: OsFamily::Linux,
                os_version: String::from_str("linux"),
                cpu_arch,
            },
            previous_os_version: None,
        }
    }
}

impl Platform {
    /// The catalog key of the same machine on the previous version of its
    /// operating system.
    pub open spec fn previous_key(&self) -> Option<Seq<char>> {
        match self.previous_os_version {
            Some(version) => Some(catalog_key_spec(self.tag.cpu_arch@, version@)),
            None => None,
        }
    }
}

} // verus!
