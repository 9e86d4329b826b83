//! When log files are rotated, and how rotated files are packed.
use vstd::prelude::*;

verus! {

/// Size thresholds for rotating log files in various units.
///
/// A log file that has reached the threshold is rotated, and a new file is
/// started.
#[derive(Debug, Clone, Copy, PartialEq, Eq, Structural)]
pub enum RotationSize {
    /// Raw byte count
    Bytes(u64),
    /// Kilobytes (1 KB = 1024 bytes)
    KB(u64),
    /// Megabytes (1 MB = 1024 KB = 1,048,576 bytes)
    MB(u64),
    /// Gigabytes (1 GB = 1024 MB = 1,073,741,824 bytes)
    GB(u64),
}

impl RotationSize {
    /// The threshold in bytes.
    pub open spec fn in_bytes(self) -> nat {
        match self {
            RotationSize::Bytes(b) => b as nat,
            RotationSize::KB(kb) => (kb * 1024) as nat,
            RotationSize::MB(mb) => (mb * 1048576) as nat,
            RotationSize::GB(gb) => (gb * 1073741824) as nat,
        }
    }

    /// The threshold in bytes can be counted in 64 bits.
    pub open spec fn countable(self) -> bool {
        self.in_bytes() <= u64::MAX
    }

    /// Tells whether the threshold in bytes can be counted in 64 bits.
    pub fn is_countable(&self) -> (r: bool)
        ensures
            r == self.countable(),
            r == match *self {
                RotationSize::Bytes(_) => true,
                RotationSize::KB(kb) => kb * 1024 <= u64::MAX,
                RotationSize::MB(mb) => mb * 1024 * 1024 <= u64::MAX,
                RotationSize::GB(gb) => gb * 1024 * 1024 * 1024 <= u64::MAX,
            },
    {
        let scaled: Option<u64> = match self {
            RotationSize::Bytes(b) => Some(*b),
            RotationSize::KB(kb) => kb.checked_mul(1024),
            RotationSize::MB(mb) => mb.checked_mul(1048576),
            RotationSize::GB(gb) => gb.checked_mul(1073741824),
        };
        scaled.is_some()
    }

    /// The size of the log file in bytes at which it is rotated.
    pub fn bytes(&self) -> (r: u64)
        requires
            self.countable(),
        ensures
            r == self.in_bytes(),
            match *self {
                RotationSize::Bytes(b) => r == b,
                RotationSize::KB(kb) => r == kb * 1024,
                RotationSize::MB(mb) => r == mb * 1024 * 1024,
                RotationSize::GB(gb) => r == gb * 1024 * 1024 * 1024,
            },
    {
        match self {
            RotationSize::Bytes(b) => *b,
            RotationSize::KB(kb) => *kb * 1024,
            RotationSize::MB(mb) => *mb * 1024 * 1024,
            RotationSize::GB(gb) => *gb * 1024 * 1024 * 1024,
        }
    }
}

/// Each unit is as much as 1024 of the unit before it, and the first is a byte.
pub proof fn law_units(n: u64, k: u64)
    requires
        1024 * n <= u64::MAX,
    ensures
        RotationSize::Bytes(k).in_bytes() == k,
        RotationSize::KB(n).in_bytes() == RotationSize::Bytes((1024 * n) as u64).in_bytes(),
        RotationSize::MB(n).in_bytes() == RotationSize::KB((1024 * n) as u64).in_bytes(),
        RotationSize::GB(n).in_bytes() == RotationSize::MB((1024 * n) as u64).in_bytes(),
{
}

/// The compression algorithm for rotated log files.
#[derive(Debug, Clone, Copy, PartialEq, Eq, Structural)]
pub enum Compression {
    /// Gzip compression, a good balance of compression ratio and speed.
    /// Compressed files have the `.gz` extension.
    Gzip,
    /// XZ compression: the highest compression ratio, but much slower. The
    /// level goes from `0` (fastest) to `9` (smallest output).
    XZ(u32),
}

impl Compression {
    /// The extension of a compressed log file, without its dot.
    pub open spec fn extension(self) -> Seq<char> {
        match self {
            Compression::Gzip => "gz"@,
            Compression::XZ(_) => "xz"@,
        }
    }

    /// The compression level is one that the algorithm has.
    pub open spec fn level_valid(self) -> bool {
        match self {
            Compression::Gzip => true,
            Compression::XZ(level) => level <= 9,
        }
    }

    /// Tells whether the compression level is one that the algorithm has.
    pub fn has_valid_level(&self) -> (r: bool)
        ensures
            r == self.level_valid(),
            r == (*self matches Compression::XZ(level) ==> level <= 9),
    {
        match self {
            Compression::Gzip => true,
            Compression::XZ(level) => *level <= 9,
        }
    }

    /// The extension of the compressed log file.
    pub fn get_extension(&self) -> (r: &'static str)
        ensures
            r@ == self.extension(),
            *self is Gzip ==> r@ == seq!['g', 'z'],
            *self is XZ ==> r@ == seq!['x', 'z'],
    {
        proof {
            reveal_strlit("gz");
            reveal_strlit("xz");
            assert("gz"@ =~= seq!['g', 'z']);
            assert("xz"@ =~= seq!['x', 'z']);
        }
        match self {
            Compression::Gzip => "gz",
            Compression::XZ(_) => "xz",
        }
    }
}

/// Compressed files of different algorithms have different extensions, whatever the
/// level is: `gz` and `xz`.
pub proof fn law_extensions(level: u32)
    ensures
        Compression::Gzip.extension() == seq!['g', 'z'],
        Compression::XZ(level).extension() == seq!['x', 'z'],
{
    reveal_strlit("gz");
    reveal_strlit("xz");
    assert("gz"@ =~= seq!['g', 'z']);
    assert("xz"@ =~= seq!['x', 'z']);
}

/// How often log files are rotated under age-based rotation. This also decides
/// how much of the date and time is in the names of the files.
#[derive(Debug, Clone, Copy, PartialEq, Eq, Structural)]
pub enum RotationAge {
    /// A new log file every minute: `log.2025-04-01-19-55`.
    Minutely,
    /// A new log file every hour: `log.2025-04-01-19`.
    Hourly,
    /// A new log file every day, at midnight in the configured time zone:
    /// `log.2025-04-01`.
    Daily,
}

impl RotationAge {
    /// The length of the period in seconds.
    pub open spec fn period(self) -> int {
        match self {
            RotationAge::Minutely => 60,
            RotationAge::Hourly => 3600,
            RotationAge::Daily => 86400,
        }
    }

    /// The strftime pattern of the date and time in the names of the files.
    pub open spec fn time_pattern(self) -> Seq<char> {
        match self {
            RotationAge::Minutely => "%Y-%m-%d-%H-%M"@,
            RotationAge::Hourly => "%Y-%m-%d-%H"@,
            RotationAge::Daily => "%Y-%m-%d"@,
        }
    }
}

/// The strategy for when log files are rotated.
#[derive(Debug, Clone, Copy, PartialEq, Eq, Structural)]
pub enum Rotation {
    /// Rotate a log file that has reached a size. The rotated files are
    /// numbered: `log.1` is the youngest, `log.2` the one before.
    SizeBased(RotationSize),
    /// Rotate at fixed times. Each file is named with the time at which its
    /// period begins.
    AgeBased(RotationAge),
}

impl Rotation {
    /// A size-based threshold can be counted in 64 bits.
    pub open spec fn countable(self) -> bool {
        match self {
            Rotation::SizeBased(size) => size.countable(),
            Rotation::AgeBased(_) => true,
        }
    }

    /// Tells whether a size-based threshold can be counted in 64 bits.
    pub fn is_countable(&self) -> (r: bool)
        ensures
            r == self.countable(),
    {
        match self {
            Rotation::SizeBased(size) => size.is_countable(),
            Rotation::AgeBased(_) => true,
        }
    }
}

} // verus!
