use vstd::prelude::*;

verus! {

/// Layout version of the data region: bits 0 to 7 of the header flags.
#[derive(Clone, Copy, Debug, PartialEq, Eq, Structural)]
pub enum DataVersion {
    V0,
    Reserved(u8),
}

/// Target architecture: bits 8 to 15 of the header flags.
#[derive(Clone, Copy, Debug, PartialEq, Eq, Structural)]
pub enum Architecture {
    /// Architecture-independent
    Independent,
    /// x86_64, base arch (x86_64-v1)
    X86_64,
    /// 32 bit x86, base arch (i586)
    X86,
    /// Aarch64, base arch (Armv8-A)
    AArch64,
    /// Riscv64, base arch (extension GC)
    RiscV64,
    Reserved(u8),
}

/// Compression of the data region: bits 16 to 23 of the header flags.
#[derive(Clone, Copy, Debug, PartialEq, Eq, Structural)]
pub enum Packaging {
    Uncompressed,
    LZMA,
    Reserved(u8),
}

/// The header's flag word.
#[derive(Clone, Copy, Debug, PartialEq, Eq, Structural)]
pub struct HeaderFlags(pub u32);

pub open spec fn version_code(v: DataVersion) -> u8 {
    match v {
        DataVersion::V0 => 0,
        DataVersion::Reserved(n) => n,
    }
}

pub open spec fn arch_code(a: Architecture) -> u8 {
    match a {
        Architecture::Independent => 0,
        Architecture::X86_64 => 1,
        Architecture::X86 => 2,
        Architecture::AArch64 => 3,
        Architecture::RiscV64 => 4,
        Architecture::Reserved(n) => n,
    }
}

pub open spec fn pkg_code(p: Packaging) -> u8 {
    match p {
        Packaging::Uncompressed => 0,
        Packaging::LZMA => 1,
        Packaging::Reserved(n) => n,
    }
}

pub open spec fn version_of(b: u8) -> DataVersion {
    if b == 0 {
        DataVersion::V0
    } else {
        DataVersion::Reserved(b)
    }
}

pub open spec fn arch_of(b: u8) -> Architecture {
    if b == 0 {
        Architecture::Independent
    } else if b == 1 {
        Architecture::X86_64
    } else if b == 2 {
        Architecture::X86
    } else if b == 3 {
        Architecture::AArch64
    } else if b == 4 {
        Architecture::RiscV64
    } else {
        Architecture::Reserved(b)
    }
}

pub open spec fn pkg_of(b: u8) -> Packaging {
    if b == 0 {
        Packaging::Uncompressed
    } else if b == 1 {
        Packaging::LZMA
    } else {
        Packaging::Reserved(b)
    }
}

/// The byte of `bits` that starts at bit `shift`.
pub open spec fn byte_at(bits: u32, shift: u32) -> u8 {
    ((bits >> shift) & 0xff) as u8
}

/// The flag word that holds three codes, in bits 0, 8 and 16.
pub open spec fn flags_word(v: u8, a: u8, p: u8) -> u32 {
    (v as u32) | ((a as u32) << 8u32) | ((p as u32) << 16u32)
}

impl HeaderFlags {
    pub fn new(version: DataVersion, arch: Architecture, pkg: Packaging) -> (r: Self)
        ensures
            r.0 == flags_word(version_code(version), arch_code(arch), pkg_code(pkg)),
    {
        let v = Self::val_version(version);
        let a = Self::val_arch(arch);
        let p = Self::val_pkg(pkg);
        HeaderFlags((v as u32) | ((a as u32) << 8u32) | ((p as u32) << 16u32))
    }

    pub fn version(&self) -> (r: DataVersion)
        ensures
            r == version_of(byte_at(self.0, 0)),
    {
        let b = ((self.0 >> 0u32) & 0xff) as u8;
        if b == 0 {
            DataVersion::V0
        } else {
            DataVersion::Reserved(b)
        }
    }

    pub fn architecture(&self) -> (r: Architecture)
        ensures
            r == arch_of(byte_at(self.0, 8)),
    {
        let b = ((self.0 >> 8u32) & 0xff) as u8;
        match b {
            0 => Architecture::Independent,
            1 => Architecture::X86_64,
            2 => Architecture::X86,
            3 => Architecture::AArch64,
            4 => Architecture::RiscV64,
            v => Architecture::Reserved(v),
        }
    }

    pub fn packaging(&self) -> (r: Packaging)
        ensures
            r == pkg_of(byte_at(self.0, 16)),
    {
        let b = ((self.0 >> 16u32) & 0xff) as u8;
        match b {
            0 => Packaging::Uncompressed,
            1 => Packaging::LZMA,
            v => Packaging::Reserved(v),
        }
    }

    fn val_version(v: DataVersion) -> (r: u8)
        ensures
            r == version_code(v),
    {
        match v {
            DataVersion::V0 => 0,
            DataVersion::Reserved(n) => n,
        }
    }

    fn val_arch(a: Architecture) -> (r: u8)
        ensures
            r == arch_code(a),
    {
        match a {
            Architecture::Independent => 0,
            Architecture::X86_64 => 1,
            Architecture::X86 => 2,
            Architecture::AArch64 => 3,
            Architecture::RiscV64 => 4,
            Architecture::Reserved(n) => n,
        }
    }

    fn val_pkg(p: Packaging) -> (r: u8)
        ensures
            r == pkg_code(p),
    {
        match p {
            Packaging::Uncompressed => 0,
            Packaging::LZMA => 1,
            Packaging::Reserved(n) => n,
        }
    }
}

impl Default for HeaderFlags {
    /// The flags of a current, architecture-independent, uncompressed archive.
    fn default() -> (r: Self)
        ensures
            r.0 == 0,
    {
        HeaderFlags(0)
    }
}

/// Each code that `new` packs is read back by its getter; reserved codes that
/// equal a named one read back as the named one.
pub proof fn lemma_flags_round_trip(v: u8, a: u8, p: u8)
    ensures
        byte_at(flags_word(v, a, p), 0) == v,
        byte_at(flags_word(v, a, p), 8) == a,
        byte_at(flags_word(v, a, p), 16) == p,
        (flags_word(v, a, p) & 0xff00_0000u32) == 0,
{
    assert(byte_at(flags_word(v, a, p), 0) == v) by (bit_vector);
    assert(byte_at(flags_word(v, a, p), 8) == a) by (bit_vector);
    assert(byte_at(flags_word(v, a, p), 16) == p) by (bit_vector);
    assert((flags_word(v, a, p) & 0xff00_0000u32) == 0) by (bit_vector);
}

/// Building flags from three fields and reading them back gives the fields,
/// up to the reserved codes that name a known one.
pub proof fn lemma_flags_fields(version: DataVersion, arch: Architecture, pkg: Packaging)
    ensures
        version_of(byte_at(flags_word(version_code(version), arch_code(arch), pkg_code(pkg)), 0))
            == version_of(version_code(version)),
        arch_of(byte_at(flags_word(version_code(version), arch_code(arch), pkg_code(pkg)), 8))
            == arch_of(arch_code(arch)),
        pkg_of(byte_at(flags_word(version_code(version), arch_code(arch), pkg_code(pkg)), 16))
            == pkg_of(pkg_code(pkg)),
        !(version is Reserved) ==> version_of(version_code(version)) == version,
        !(arch is Reserved) ==> arch_of(arch_code(arch)) == arch,
        !(pkg is Reserved) ==> pkg_of(pkg_code(pkg)) == pkg,
{
    lemma_flags_round_trip(version_code(version), arch_code(arch), pkg_code(pkg));
}

} // verus!
