//! How the boot report writes a memory size.
use vstd::prelude::*;

verus! {

/// The unit in which a memory size is written.
#[derive(Debug, Clone, Copy, PartialEq, Eq, Structural)]
pub enum SizeUnit {
    Gigabytes,
    Megabytes,
    Kilobytes,
    Bytes,
}

impl SizeUnit {
    /// The number of bytes in one unit.
    pub open spec fn bytes(self) -> nat {
        match self {
            SizeUnit::Gigabytes => 0x4000_0000,
            SizeUnit::Megabytes => 0x10_0000,
            SizeUnit::Kilobytes => 0x400,
            SizeUnit::Bytes => 1,
        }
    }

    /// The symbol written after the number.
    pub fn symbol(self) -> (r: &'static str)
        ensures
            r@ == match self {
                SizeUnit::Gigabytes => "GB"@,
                SizeUnit::Megabytes => "MB"@,
                SizeUnit::Kilobytes => "KB"@,
                SizeUnit::Bytes => "B"@,
            },
    {
        match self {
            SizeUnit::Gigabytes => "GB",
            SizeUnit::Megabytes => "MB",
            SizeUnit::Kilobytes => "KB",
            SizeUnit::Bytes => "B",
        }
    }
}

/// A memory size in the largest unit that it reaches (bytes below 1 KiB),
/// rounded down to a whole number of that unit.
pub fn human_size(size: u64) -> (r: (u64, SizeUnit))
    ensures
        r.1 == if size >= 0x4000_0000 {
            SizeUnit::Gigabytes
        } else if size >= 0x10_0000 {
            SizeUnit::Megabytes
        } else if size >= 0x400 {
            SizeUnit::Kilobytes
        } else {
            SizeUnit::Bytes
        },
        r.0 == size as nat / r.1.bytes(),
{
    proof {
        let x = size as int;
        vstd::arithmetic::div_mod::lemma_div_denominator(x, 1024, 1024);
        vstd::arithmetic::div_mod::lemma_div_denominator(x, 0x10_0000int, 1024);
    }
    if size >= 1024 * 1024 * 1024 {
        let a = size / 1024;
        let b = a / 1024;
        let c = b / 1024;
        assert(c == size as nat / SizeUnit::Gigabytes.bytes());
        (c, SizeUnit::Gigabytes)
    } else if size >= 1024 * 1024 {
        let a = size / 1024;
        let b = a / 1024;
        assert(b == size as nat / SizeUnit::Megabytes.bytes());
        (b, SizeUnit::Megabytes)
    } else if size >= 1024 {
        let a = size / 1024;
        assert(a == size as nat / SizeUnit::Kilobytes.bytes());
        (a, SizeUnit::Kilobytes)
    } else {
        assert(size == size as nat / SizeUnit::Bytes.bytes());
        (size, SizeUnit::Bytes)
    }
}

} // verus!
