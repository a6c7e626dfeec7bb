//! Byte counts held exactly as a whole number of units plus a remainder in bytes.

use vstd::arithmetic::power::pow;
use vstd::prelude::*;
use vstd::std_specs::ops::AddSpec;

verus! {

/// A unit of storage. Each unit is 1024 times the one before it.
#[derive(Debug, Clone, Copy, PartialEq, Eq, Structural)]
pub enum Unit {
    B,
    KB,
    MB,
    GB,
    TB,
    PB,
}

impl Unit {
    /// The place of the unit in the ladder: 0 for `B` up to 5 for `PB`.
    pub open spec fn rank(self) -> nat {
        match self {
            Unit::B => 0,
            Unit::KB => 1,
            Unit::MB => 2,
            Unit::GB => 3,
            Unit::TB => 4,
            Unit::PB => 5,
        }
    }

    /// The number of bits that separate a quotient from the bytes it counts: ten per rank.
    pub open spec fn spec_shift(self) -> u64 {
        match self {
            Unit::B => 0,
            Unit::KB => 10,
            Unit::MB => 20,
            Unit::GB => 30,
            Unit::TB => 40,
            Unit::PB => 50,
        }
    }

    /// The number of bytes in one unit: 1024 raised to the unit's rank.
    pub open spec fn size(self) -> int {
        match self {
            Unit::B => 0x1,
            Unit::KB => 0x400,
            Unit::MB => 0x10_0000,
            Unit::GB => 0x4000_0000,
            Unit::TB => 0x100_0000_0000,
            Unit::PB => 0x4_0000_0000_0000,
        }
    }

    /// The largest unit that is not larger than `bytes`; `B` below 1024 bytes.
    pub open spec fn largest_within(bytes: u64) -> Unit {
        if bytes >= Unit::PB.size() {
            Unit::PB
        } else if bytes >= Unit::TB.size() {
            Unit::TB
        } else if bytes >= Unit::GB.size() {
            Unit::GB
        } else if bytes >= Unit::MB.size() {
            Unit::MB
        } else if bytes >= Unit::KB.size() {
            Unit::KB
        } else {
            Unit::B
        }
    }

    /// The text that names the unit.
    pub open spec fn spec_label(self) -> Seq<char> {
        match self {
            Unit::B => "B"@,
            Unit::KB => "KB"@,
            Unit::MB => "MB"@,
            Unit::GB => "GB"@,
            Unit::TB => "TB"@,
            Unit::PB => "PB"@,
        }
    }

    /// The number of bits by which a quotient in this unit is shifted.
    #[verifier::when_used_as_spec(spec_shift)]
    pub fn shift(self) -> (bits: u64)
        ensures
            bits == self.spec_shift(),
    {
        match self {
            Unit::B => 0,
            Unit::KB => 10,
            Unit::MB => 20,
            Unit::GB => 30,
            Unit::TB => 40,
            Unit::PB => 50,
        }
    }

    /// The number of bytes in one unit.
    pub fn bytes(self) -> (size: u64)
        ensures
            size == self.size(),
    {
        match self {
            Unit::B => 0x1,
            Unit::KB => 0x400,
            Unit::MB => 0x10_0000,
            Unit::GB => 0x4000_0000,
            Unit::TB => 0x100_0000_0000,
            Unit::PB => 0x4_0000_0000_0000,
        }
    }

    /// The unit's name as text: `"B"`, `"KB"`, `"MB"`, `"GB"`, `"TB"` or `"PB"`.
    pub fn label(self) -> (text: &'static str)
        ensures
            text@ == self.spec_label(),
    {
        match self {
            Unit::B => "B",
            Unit::KB => "KB",
            Unit::MB => "MB",
            Unit::GB => "GB",
            Unit::TB => "TB",
            Unit::PB => "PB",
        }
    }

    /// The unit's name as an owned string.
    pub fn to_string(&self) -> (text: String)
        ensures
            text@ == self.spec_label(),
    {
        self.label().to_owned()
    }
}

/// A byte count written as `quotient` whole units plus `remainder` bytes.
#[derive(Debug, Clone, Copy, PartialEq, Eq, Structural)]
pub struct Storage {
    pub quotient: u64,
    pub remainder: u64,
    pub unit: Unit,
}

impl Storage {
    /// The value that `from_bytes` gives for `bytes`: the largest unit that fits, the number of
    /// whole units of that size, and the bytes that are left over.
    pub open spec fn spec_from_bytes(bytes: u64) -> Storage {
        match Unit::largest_within(bytes) {
            Unit::B => Storage { quotient: bytes, remainder: 0, unit: Unit::B },
            Unit::KB => Storage {
                quotient: bytes / 0x400,
                remainder: bytes % 0x400,
                unit: Unit::KB,
            },
            Unit::MB => Storage {
                quotient: bytes / 0x10_0000,
                remainder: bytes % 0x10_0000,
                unit: Unit::MB,
            },
            Unit::GB => Storage {
                quotient: bytes / 0x4000_0000,
                remainder: bytes % 0x4000_0000,
                unit: Unit::GB,
            },
            Unit::TB => Storage {
                quotient: bytes / 0x100_0000_0000,
                remainder: bytes % 0x100_0000_0000,
                unit: Unit::TB,
            },
            Unit::PB => Storage {
                quotient: bytes / 0x4_0000_0000_0000,
                remainder: bytes % 0x4_0000_0000_0000,
                unit: Unit::PB,
            },
        }
    }

    /// The byte count that the three fields stand for: the quotient moved up by the unit's
    /// shift, with the remainder in the bits below.
    pub open spec fn spec_to_bytes(&self) -> u64 {
        (self.quotient << self.unit.spec_shift()) | self.remainder
    }

    /// Holds of exactly the values that `from_bytes` produces: the remainder is less than one
    /// unit, and the quotient is at least 1 and less than 1024 (for `B` only less than 1024;
    /// for `PB` at most what 64 bits can hold).
    pub open spec fn is_canonical(&self) -> bool {
        &&& self.remainder < self.unit.size()
        &&& self.unit != Unit::B ==> self.quotient >= 1
        &&& self.unit != Unit::PB ==> self.quotient < 1024
        &&& self.unit == Unit::PB ==> self.quotient < 0x4000
    }

    /// The value with these three fields, whatever they are: nothing is brought into
    /// canonical form.
    pub fn new(quotient: u64, remainder: u64, unit: Unit) -> (storage: Self)
        ensures
            storage == (Storage { quotient, remainder, unit }),
    {
        Self { quotient, remainder, unit }
    }

    /// Writes `bytes` in the largest unit that does not exceed it.
    pub fn from_bytes(bytes: u64) -> (storage: Self)
        ensures
            storage == Self::spec_from_bytes(bytes),
            storage.is_canonical(),
            storage.spec_to_bytes() == bytes,
            storage.quotient * storage.unit.size() + storage.remainder == bytes,
    {
        let unit = if bytes >= (1u64 << 50) {
            Unit::PB
        } else if bytes >= (1u64 << 40) {
            Unit::TB
        } else if bytes >= (1u64 << 30) {
            Unit::GB
        } else if bytes >= (1u64 << 20) {
            Unit::MB
        } else if bytes >= (1u64 << 10) {
            Unit::KB
        } else {
            Unit::B
        };
        proof {
            lemma_unit_sizes();
            lemma_split(bytes, unit);
        }
        let shift = unit.shift();
        let quotient = bytes >> shift;
        let remainder = bytes & ((1u64 << shift) - 1);
        Storage::new(quotient, remainder, unit)
    }

    /// The byte count that the value stands for.
    #[verifier::when_used_as_spec(spec_to_bytes)]
    pub fn to_bytes(&self) -> (bytes: u64)
        ensures
            bytes == self.spec_to_bytes(),
    {
        (self.quotient << self.unit.shift()) | self.remainder
    }

    /// The two digits after the point when the value is written in its unit: how many
    /// hundredths of a unit the remainder makes, rounded down. The text of a value is its
    /// quotient, a point, these two digits, a space and the unit's label.
    pub fn fraction_digits(&self) -> (digits: u64)
        requires
            self.remainder < self.unit.size(),
        ensures
            digits == self.remainder as int * 100 / self.unit.size(),
            digits < 100,
    {
        match self.unit {
            Unit::B => 0,
            Unit::KB => self.remainder * 100 / 0x400,
            Unit::MB => self.remainder * 100 / 0x10_0000,
            Unit::GB => self.remainder * 100 / 0x4000_0000,
            Unit::TB => self.remainder * 100 / 0x100_0000_0000,
            Unit::PB => self.remainder * 100 / 0x4_0000_0000_0000,
        }
    }

    /// The number of whole units.
    pub fn quotient(&self) -> (quotient: u64)
        ensures
            quotient == self.quotient,
    {
        self.quotient
    }

    /// The bytes beyond the whole units.
    pub fn remainder(&self) -> (remainder: u64)
        ensures
            remainder == self.remainder,
    {
        self.remainder
    }

    /// The unit that the quotient counts.
    pub fn unit(&self) -> (unit: Unit)
        ensures
            unit == self.unit,
    {
        self.unit
    }
}

impl vstd::std_specs::ops::AddSpecImpl<Storage> for Storage {
    open spec fn obeys_add_spec() -> bool {
        true
    }

    /// The sum of the two byte counts has to fit in 64 bits.
    open spec fn add_req(self, rhs: Storage) -> bool {
        self.spec_to_bytes() + rhs.spec_to_bytes() <= u64::MAX
    }

    /// The sum of the two byte counts, written in the largest unit that fits it.
    open spec fn add_spec(self, rhs: Storage) -> Storage {
        Storage::spec_from_bytes((self.spec_to_bytes() + rhs.spec_to_bytes()) as u64)
    }
}

/// Adds the byte counts of two values and writes the sum in the largest unit that fits.
/// The fields are never added to each other. A sum beyond 64 bits is not handled: callers
/// keep the sum within that range.
impl std::ops::Add<Storage> for Storage {
    type Output = Storage;

    fn add(self, other: Storage) -> (sum: Storage) {
        let total_bytes = self.to_bytes() + other.to_bytes();
        Storage::from_bytes(total_bytes)
    }
}

impl vstd::std_specs::ops::AddSpecImpl<&Storage> for Storage {
    open spec fn obeys_add_spec() -> bool {
        true
    }

    open spec fn add_req(self, rhs: &Storage) -> bool {
        self.spec_to_bytes() + rhs.spec_to_bytes() <= u64::MAX
    }

    open spec fn add_spec(self, rhs: &Storage) -> Storage {
        Storage::spec_from_bytes((self.spec_to_bytes() + rhs.spec_to_bytes()) as u64)
    }
}

impl std::ops::Add<&Storage> for Storage {
    type Output = Storage;

    fn add(self, other: &Storage) -> (sum: Storage) {
        let total_bytes = self.to_bytes() + other.to_bytes();
        Storage::from_bytes(total_bytes)
    }
}

impl vstd::std_specs::ops::AddSpecImpl<Storage> for &Storage {
    open spec fn obeys_add_spec() -> bool {
        true
    }

    open spec fn add_req(self, rhs: Storage) -> bool {
        self.spec_to_bytes() + rhs.spec_to_bytes() <= u64::MAX
    }

    open spec fn add_spec(self, rhs: Storage) -> Storage {
        Storage::spec_from_bytes((self.spec_to_bytes() + rhs.spec_to_bytes()) as u64)
    }
}

impl std::ops::Add<Storage> for &Storage {
    type Output = Storage;

    fn add(self, other: Storage) -> (sum: Storage) {
        let total_bytes = self.to_bytes() + other.to_bytes();
        Storage::from_bytes(total_bytes)
    }
}

impl vstd::std_specs::ops::AddSpecImpl<&Storage> for &Storage {
    open spec fn obeys_add_spec() -> bool {
        true
    }

    open spec fn add_req(self, rhs: &Storage) -> bool {
        self.spec_to_bytes() + rhs.spec_to_bytes() <= u64::MAX
    }

    open spec fn add_spec(self, rhs: &Storage) -> Storage {
        Storage::spec_from_bytes((self.spec_to_bytes() + rhs.spec_to_bytes()) as u64)
    }
}

impl std::ops::Add<&Storage> for &Storage {
    type Output = Storage;

    fn add(self, other: &Storage) -> (sum: Storage) {
        let total_bytes = self.to_bytes() + other.to_bytes();
        Storage::from_bytes(total_bytes)
    }
}

/// Every unit's size is 1024 raised to the unit's rank.
pub proof fn lemma_size_is_power_of_1024(unit: Unit)
    ensures
        unit.size() == pow(1024, unit.rank()),
{
    reveal_with_fuel(pow, 6);
}

/// Round trip: turning a byte count into a `Storage` and back gives the byte count again,
/// for every 64-bit value.
pub proof fn lemma_round_trip(bytes: u64)
    ensures
        Storage::spec_from_bytes(bytes).spec_to_bytes() == bytes,
        Storage::spec_from_bytes(bytes).is_canonical(),
{
    let unit = Unit::largest_within(bytes);
    lemma_split(bytes, unit);
}

/// Largest unit: `from_bytes` uses `B` exactly below 1024 bytes, and otherwise the unit whose
/// size the byte count has reached while staying below 1024 times that size. A byte count
/// of 1024 `PB` or more has no larger unit to move to, so the upper bound is stated below
/// that.
pub proof fn lemma_largest_unit(bytes: u64)
    requires
        bytes < 1024 * Unit::PB.size(),
    ensures
        ({
            let unit = Storage::spec_from_bytes(bytes).unit;
            &&& unit == Unit::B <==> bytes < 1024
            &&& unit != Unit::B ==> pow(1024, unit.rank()) <= bytes < pow(1024, unit.rank() + 1)
        }),
{
    reveal_with_fuel(pow, 7);
}

/// No unit that the byte count has reached is larger than the one `from_bytes` picks, and
/// the picked one has been reached (or is `B`). This holds of every 64-bit value.
pub proof fn lemma_unit_is_maximal(bytes: u64, other: Unit)
    ensures
        ({
            let unit = Storage::spec_from_bytes(bytes).unit;
            &&& unit != Unit::B ==> unit.size() <= bytes
            &&& other.size() <= bytes ==> other.rank() <= unit.rank()
        }),
{
}

/// Additive consistency: where the sum fits in 64 bits, the byte count of a sum is the sum
/// of the byte counts.
pub proof fn lemma_add_is_exact(a: Storage, b: Storage)
    requires
        a.spec_to_bytes() + b.spec_to_bytes() <= u64::MAX,
    ensures
        a.add_spec(b).spec_to_bytes() == a.spec_to_bytes() + b.spec_to_bytes(),
        a.add_spec(b).is_canonical(),
{
    lemma_round_trip((a.spec_to_bytes() + b.spec_to_bytes()) as u64);
}

/// A canonical value stands for `quotient * size + remainder` bytes, and `from_bytes` of
/// that count is the value itself: the canonical values are exactly what `from_bytes` gives.
pub proof fn lemma_canonical_is_exact(storage: Storage)
    requires
        storage.is_canonical(),
    ensures
        storage.spec_to_bytes() == storage.quotient * storage.unit.size() + storage.remainder,
        Storage::spec_from_bytes(storage.spec_to_bytes()) == storage,
{
    let q = storage.quotient;
    let r = storage.remainder;
    match storage.unit {
        Unit::B => {
            assert((q << 0) | r == q) by (bit_vector)
                requires
                    r == 0,
            ;
            assert(q as int / 1 == q);
            assert(q as int % 1 == 0);
        },
        Unit::KB => {
            assert((q << 10) | r == q * 0x400 + r) by (bit_vector)
                requires
                    q < 1024,
                    r < 0x400,
            ;
        },
        Unit::MB => {
            assert((q << 20) | r == q * 0x10_0000 + r) by (bit_vector)
                requires
                    q < 1024,
                    r < 0x10_0000,
            ;
        },
        Unit::GB => {
            assert((q << 30) | r == q * 0x4000_0000 + r) by (bit_vector)
                requires
                    q < 1024,
                    r < 0x4000_0000,
            ;
        },
        Unit::TB => {
            assert((q << 40) | r == q * 0x100_0000_0000 + r) by (bit_vector)
                requires
                    q < 1024,
                    r < 0x100_0000_0000,
            ;
        },
        Unit::PB => {
            assert((q << 50) | r == q * 0x4_0000_0000_0000 + r) by (bit_vector)
                requires
                    q < 0x4000,
                    r < 0x4_0000_0000_0000,
            ;
        },
    }
}

/// Shifting right by ten bits is dividing by 1024, masking the low ten bits is taking the
/// rest, and putting the two halves together again gives the number back.
proof fn lemma_split_kb(bytes: u64)
    by (bit_vector)
    ensures
        1u64 << 10 == 0x400,
        bytes >> 10 == bytes / 0x400,
        bytes & (((1u64 << 10) - 1) as u64) == bytes % 0x400,
        ((bytes >> 10) << 10) | (bytes & (((1u64 << 10) - 1) as u64)) == bytes,
{
}

/// The same for twenty bits and 1024 * 1024.
proof fn lemma_split_mb(bytes: u64)
    by (bit_vector)
    ensures
        1u64 << 20 == 0x10_0000,
        bytes >> 20 == bytes / 0x10_0000,
        bytes & (((1u64 << 20) - 1) as u64) == bytes % 0x10_0000,
        ((bytes >> 20) << 20) | (bytes & (((1u64 << 20) - 1) as u64)) == bytes,
{
}

/// The same for thirty bits.
proof fn lemma_split_gb(bytes: u64)
    by (bit_vector)
    ensures
        1u64 << 30 == 0x4000_0000,
        bytes >> 30 == bytes / 0x4000_0000,
        bytes & (((1u64 << 30) - 1) as u64) == bytes % 0x4000_0000,
        ((bytes >> 30) << 30) | (bytes & (((1u64 << 30) - 1) as u64)) == bytes,
{
}

/// The same for forty bits.
proof fn lemma_split_tb(bytes: u64)
    by (bit_vector)
    ensures
        1u64 << 40 == 0x100_0000_0000,
        bytes >> 40 == bytes / 0x100_0000_0000,
        bytes & (((1u64 << 40) - 1) as u64) == bytes % 0x100_0000_0000,
        ((bytes >> 40) << 40) | (bytes & (((1u64 << 40) - 1) as u64)) == bytes,
{
}

/// The same for fifty bits.
proof fn lemma_split_pb(bytes: u64)
    by (bit_vector)
    ensures
        1u64 << 50 == 0x4_0000_0000_0000,
        bytes >> 50 == bytes / 0x4_0000_0000_0000,
        bytes & (((1u64 << 50) - 1) as u64) == bytes % 0x4_0000_0000_0000,
        ((bytes >> 50) << 50) | (bytes & (((1u64 << 50) - 1) as u64)) == bytes,
{
}

/// With no shift the quotient is the number itself and nothing is left over.
proof fn lemma_split_b(bytes: u64)
    by (bit_vector)
    ensures
        1u64 << 0 == 1,
        bytes >> 0 == bytes,
        bytes & (((1u64 << 0) - 1) as u64) == 0,
        ((bytes >> 0) << 0) | (bytes & (((1u64 << 0) - 1) as u64)) == bytes,
{
}

/// The thresholds that `from_bytes` compares with are the unit sizes.
proof fn lemma_unit_sizes()
    ensures
        1u64 << 10 == 0x400,
        1u64 << 20 == 0x10_0000,
        1u64 << 30 == 0x4000_0000,
        1u64 << 40 == 0x100_0000_0000,
        1u64 << 50 == 0x4_0000_0000_0000,
{
    lemma_split_kb(0);
    lemma_split_mb(0);
    lemma_split_gb(0);
    lemma_split_tb(0);
    lemma_split_pb(0);
}

/// What `from_bytes` computes with shifts and masks is the quotient and the rest of a
/// division by the unit's size, and the two make up `bytes` again.
proof fn lemma_split(bytes: u64, unit: Unit)
    requires
        unit == Unit::largest_within(bytes),
    ensures
        (1u64 << unit.spec_shift()) == unit.size(),
        bytes >> unit.spec_shift() == bytes as int / unit.size(),
        bytes & (((1u64 << unit.spec_shift()) - 1) as u64) == bytes as int % unit.size(),
        ((bytes >> unit.spec_shift()) << unit.spec_shift()) | (bytes & (((1u64
            << unit.spec_shift()) - 1) as u64)) == bytes,
        (Storage {
            quotient: bytes >> unit.spec_shift(),
            remainder: bytes & (((1u64 << unit.spec_shift()) - 1) as u64),
            unit,
        }).is_canonical(),
        (bytes as int / unit.size()) * unit.size() + bytes as int % unit.size() == bytes,
{
    match unit {
        Unit::B => lemma_split_b(bytes),
        Unit::KB => lemma_split_kb(bytes),
        Unit::MB => lemma_split_mb(bytes),
        Unit::GB => lemma_split_gb(bytes),
        Unit::TB => lemma_split_tb(bytes),
        Unit::PB => lemma_split_pb(bytes),
    }
}

} // verus!
