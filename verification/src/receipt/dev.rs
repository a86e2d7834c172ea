//! Device numbers: the store keeps `rdev` as eight major bits over
//! twenty-four minor bits; the C library splits its 64-bit numbers
//! differently.

use vstd::prelude::*;

verus! {

/// The major number inside a C-library device number.
pub open spec fn spec_libc_major(dev: u64) -> u64 {
    ((dev >> 8) & 0xfff) | ((dev >> 32) & 0xfffffffffffff000)
}

/// The minor number inside a C-library device number.
pub open spec fn spec_libc_minor(dev: u64) -> u64 {
    (dev & 0xff) | ((dev >> 12) & 0xffffff00)
}

/// A C-library device number built from major and minor parts.
pub open spec fn spec_libc_makedev(major: u64, minor: u64) -> u64 {
    (minor & 0xff) | ((major & 0xfff) << 8) | ((minor & 0xffffff00) << 12) | ((major
        & 0xfffffffffffff000) << 32)
}

/// The store's form: the major number in the high eight bits, the minor
/// number in the low twenty-four.
pub open spec fn spec_libc_to_bom(dev: u64) -> u32 {
    (((spec_libc_major(dev) & 0xff) << 24) | (spec_libc_minor(dev) & 0xffffff)) as u32
}

/// The C-library form of a stored device number.
pub open spec fn spec_bom_to_libc(dev: u32) -> u64 {
    spec_libc_makedev((dev >> 24) as u64, (dev & 0xffffff) as u64)
}

/// Pack a C-library device number into the stored form.
pub fn libc_dev_to_bom_dev(dev: u64) -> (r: u32)
    ensures
        r == spec_libc_to_bom(dev),
{
    let major = ((dev >> 8) & 0xfff) | ((dev >> 32) & 0xfffffffffffff000);
    let minor = (dev & 0xff) | ((dev >> 12) & 0xffffff00);
    let packed = ((major & 0xff) << 24) | (minor & 0xffffff);
    assert(packed <= 0xffffffff) by (bit_vector)
        requires
            packed == ((((dev >> 8) & 0xfff) | ((dev >> 32) & 0xfffffffffffff000)) & 0xff) << 24
                | (((dev & 0xff) | ((dev >> 12) & 0xffffff00)) & 0xffffff);
    packed as u32
}

/// Unpack a stored device number into the C-library form.
pub fn bom_dev_to_libc_dev(dev: u32) -> (r: u64)
    ensures
        r == spec_bom_to_libc(dev),
{
    let major = (dev >> 24) as u64;
    let minor = (dev & 0xffffff) as u64;
    (minor & 0xff) | ((major & 0xfff) << 8) | ((minor & 0xffffff00) << 12) | ((major
        & 0xfffffffffffff000) << 32)
}

/// Round trip through the stored form: a C-library device number whose
/// major part fits eight bits and whose minor part fits twenty-four,
/// and which carries no bits outside those fields, comes back unchanged.
/// Larger device numbers do not fit the stored form and are excluded.
pub proof fn lemma_dev_roundtrip(x: u64)
    requires
        spec_libc_major(x) <= 0xff,
        spec_libc_minor(x) <= 0xffffff,
        x == spec_libc_makedev(spec_libc_major(x), spec_libc_minor(x)),
    ensures
        spec_bom_to_libc(spec_libc_to_bom(x)) == x,
{
    let maj = spec_libc_major(x);
    let min = spec_libc_minor(x);
    let packed = spec_libc_to_bom(x);
    assert({
        let maj2 = ((((maj & 0xff) << 24) | (min & 0xffffff)) as u32 >> 24) as u64;
        let min2 = ((((maj & 0xff) << 24) | (min & 0xffffff)) as u32 & 0xffffff) as u64;
        (min2 & 0xff) | ((maj2 & 0xfff) << 8) | ((min2 & 0xffffff00) << 12) | ((maj2
            & 0xfffffffffffff000) << 32) == ((min & 0xff) | ((maj & 0xfff) << 8) | ((min
            & 0xffffff00) << 12) | ((maj & 0xfffffffffffff000) << 32))
    }) by (bit_vector)
        requires
            maj <= 0xff,
            min <= 0xffffff;
}

/// Round trip in the other direction: every stored device number maps to
/// a C-library number and back to itself, with no side condition.
pub proof fn lemma_bom_dev_roundtrip(y: u32)
    ensures
        spec_libc_to_bom(spec_bom_to_libc(y)) == y,
{
    let maj = (y >> 24) as u64;
    let min = (y & 0xffffff) as u64;
    let x = spec_libc_makedev(maj, min);
    assert({
        let dev = (min & 0xff) | ((maj & 0xfff) << 8) | ((min & 0xffffff00) << 12) | ((maj
            & 0xfffffffffffff000) << 32);
        let maj2 = ((dev >> 8) & 0xfff) | ((dev >> 32) & 0xfffffffffffff000);
        let min2 = (dev & 0xff) | ((dev >> 12) & 0xffffff00);
        ((((maj2 & 0xff) << 24) | (min2 & 0xffffff)) as u32) == y
    }) by (bit_vector)
        requires
            maj == (y >> 24) as u64,
            min == (y & 0xffffff) as u64;
}

} // verus!
