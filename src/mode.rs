use vstd::prelude::*;

verus! {

/// Unix mode bits as stored in an entry: permission bits and a file kind.
/// Only those bits can be set.
#[derive(Clone, Copy, Debug, PartialEq, Eq, Structural)]
pub struct Mode {
    bits: u32,
}

/// Permission bits (user, group, other, with setuid, setgid and sticky).
pub const PERM_BITS: u32 = 0o007777;

/// Bits that give the file kind.
pub const KIND_BITS: u32 = 0o170000;

/// Kind of a regular file.
pub const FILE_BITS: u32 = 0o100000;

/// Kind of a symbolic link.
pub const SYMLINK_BITS: u32 = 0o120000;

impl Mode {
    /// No bit outside the permission and kind bits is set.
    #[verifier::type_invariant]
    spec fn inv(self) -> bool {
        Self::known_bits(self.bits)
    }

    /// Whether every set bit is a permission bit or a kind bit.
    pub open spec fn known_bits(bits: u32) -> bool {
        bits & !(PERM_BITS | KIND_BITS) == 0
    }

    pub closed spec fn spec_bits(&self) -> u32 {
        self.bits
    }

    /// The mode with exactly these bits, if all of them are known.
    pub fn from_bits(bits: u32) -> (r: Option<Mode>)
        ensures
            Self::known_bits(bits) <==> r is Some,
            r matches Some(m) ==> m.bits() == bits,
    {
        if bits & !(PERM_BITS | KIND_BITS) == 0 {
            Some(Mode { bits })
        } else {
            None
        }
    }

    /// The mode with the known bits of `bits`; the others are dropped.
    pub fn from_bits_truncate(bits: u32) -> (r: Mode)
        ensures
            r.bits() == bits & (PERM_BITS | KIND_BITS),
    {
        let b = bits & (PERM_BITS | KIND_BITS);
        assert(Self::known_bits(b)) by (bit_vector)
            requires
                b == bits & (PERM_BITS | KIND_BITS),
                PERM_BITS == 0o007777u32,
                KIND_BITS == 0o170000u32,
        ;
        Mode { bits: b }
    }

    /// The bits of this mode; only permission and kind bits can be set.
    #[verifier::when_used_as_spec(spec_bits)]
    pub fn bits(&self) -> (r: u32)
        ensures
            r == self.spec_bits(),
            Self::known_bits(r),
    {
        proof {
            use_type_invariant(self);
        }
        self.bits
    }

    /// Only the kind bits. Together with `perm` it rebuilds the mode, and the
    /// two share no bit.
    pub fn kind(self) -> (r: Mode)
        ensures
            r.bits() == self.bits() & KIND_BITS,
            r.bits() | (self.bits() & PERM_BITS) == self.bits(),
            r.bits() & (self.bits() & PERM_BITS) == 0,
    {
        let m = self.bits();
        let k = m & KIND_BITS;
        assert(k | (m & PERM_BITS) == m && k & (m & PERM_BITS) == 0 && Self::known_bits(k)) by (bit_vector)
            requires
                m & !(PERM_BITS | KIND_BITS) == 0,
                k == m & KIND_BITS,
                PERM_BITS == 0o007777u32,
                KIND_BITS == 0o170000u32,
        ;
        Mode { bits: k }
    }

    /// Only the permission bits. Together with `kind` it rebuilds the mode,
    /// and the two share no bit.
    pub fn perm(self) -> (r: Mode)
        ensures
            r.bits() == self.bits() & PERM_BITS,
            (self.bits() & KIND_BITS) | r.bits() == self.bits(),
            (self.bits() & KIND_BITS) & r.bits() == 0,
    {
        let m = self.bits();
        let p = m & PERM_BITS;
        assert((m & KIND_BITS) | p == m && (m & KIND_BITS) & p == 0 && Self::known_bits(p)) by (bit_vector)
            requires
                m & !(PERM_BITS | KIND_BITS) == 0,
                p == m & PERM_BITS,
                PERM_BITS == 0o007777u32,
                KIND_BITS == 0o170000u32,
        ;
        Mode { bits: p }
    }
}

} // verus!
