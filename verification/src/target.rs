//! The ATSAM4E8C: its memory map, identity and flash geometry.
use crate::error;
use crate::error::{AppError, AppResult, Failure};
use crate::text;
use crate::text::{cat3, hex8_text};
use vstd::prelude::*;

verus! {

/// Where flash starts.
pub const FLASH_BASE: u32 = 0x0040_0000;

/// Where SRAM starts.
pub const SRAM_BASE: u32 = 0x2000_0000;

/// The extension identity of the ATSAM4E8C.
pub const SAM4E8C_EXID: u32 = 0x0012_0209;

/// The flash address that a number stands for: an offset if it lies below the start of flash.
pub open spec fn flash_address(value: nat) -> Result<u32, Failure> {
    let address = if value < FLASH_BASE {
        value + FLASH_BASE as nat
    } else {
        value
    };
    if address <= u32::MAX {
        Ok(address as u32)
    } else {
        Err(Failure::Usage("address is too large"@))
    }
}

/// The flash address that a number stands for. A number below the start of flash is an offset.
pub fn normalize_flash_addr(value: u64) -> (result: AppResult<u32>)
    ensures
        error::agrees(result, flash_address(value as nat)),
{
    let address: u64 = if value < FLASH_BASE as u64 {
        value + FLASH_BASE as u64
    } else {
        value
    };
    if address <= u32::MAX as u64 {
        Ok(address as u32)
    } else {
        Err(AppError::Usage("address is too large".to_owned()))
    }
}

/// The flash geometry that the controller reports.
#[derive(Debug, Clone, Copy, PartialEq, Eq)]
pub struct FlashDescriptor {
    pub id: u32,
    pub size: u32,
    pub page_size: u32,
    pub planes: u32,
    pub lock_regions: u32,
    pub lock_size: u32,
}

impl FlashDescriptor {
    /// Whether the flash has data, fits the address space, and is made of whole pages and whole
    /// lock regions of whole pages.
    pub open spec fn wf(self) -> bool {
        &&& 0 < self.size
        &&& FLASH_BASE + self.size <= u32::MAX
        &&& 0 < self.page_size
        &&& self.size as int % self.page_size as int == 0
        &&& 0 < self.lock_regions
        &&& 0 < self.lock_size
        &&& self.lock_size as int % self.page_size as int == 0
        &&& self.lock_regions * self.lock_size == self.size
        &&& 1 <= self.planes <= 8
    }
}

/// The sum of some words.
pub open spec fn total(words: Seq<u32>) -> nat
    decreases words.len(),
{
    if words.len() == 0 {
        0
    } else {
        total(words.drop_last()) + words.last() as nat
    }
}

/// The geometry that the words of a descriptor give: an identity, the size, the page size, the
/// number of planes, the size of each plane, and the number and size of the lock regions.
pub open spec fn described(words: Seq<u32>) -> FlashDescriptor {
    let locks = 4 + words[3] as int;
    FlashDescriptor {
        id: words[0],
        size: words[1],
        page_size: words[2],
        planes: words[3],
        lock_regions: words[locks],
        lock_size: words[locks + 1],
    }
}

/// The geometry in a descriptor, or what is wrong with it.
pub open spec fn descriptor(words: Seq<u32>) -> Result<FlashDescriptor, Failure> {
    if words.len() < 7 {
        Err(Failure::Runtime("EEFC flash descriptor is too short"@))
    } else if !(1 <= words[3] <= 8) || 4 + words[3] + 1 >= words.len() {
        Err(Failure::Runtime("invalid EEFC flash descriptor"@))
    } else if described(words).wf() && total(words.subrange(4, 4 + words[3] as int)) == words[1] {
        Ok(described(words))
    } else {
        Err(Failure::Runtime("invalid EEFC flash geometry"@))
    }
}

/// Adds up `words[from..to]`.
fn sum_words(words: &[u32], from: usize, to: usize) -> (sum: u64)
    requires
        from <= to <= words@.len(),
        to - from <= 8,
    ensures
        sum == total(words@.subrange(from as int, to as int)),
{
    let mut sum: u64 = 0;
    let mut at: usize = from;
    while at < to
        invariant
            from <= at <= to <= words@.len(),
            to - from <= 8,
            sum == total(words@.subrange(from as int, at as int)),
            sum <= (at - from) * 0xffff_ffff,
        decreases to - at,
    {
        assert(words@.subrange(from as int, at + 1).drop_last() =~= words@.subrange(
            from as int,
            at as int,
        ));
        sum = sum + words[at] as u64;
        at = at + 1;
    }
    sum
}

/// Reads the words of a flash descriptor.
pub fn parse_descriptor(words: &[u32]) -> (result: AppResult<FlashDescriptor>)
    ensures
        error::agrees(result, descriptor(words@)),
{
    let len: usize = words.len();
    if len < 7 {
        return Err(AppError::Runtime("EEFC flash descriptor is too short".to_owned()));
    }
    let planes: u32 = words[3];
    if planes == 0 || planes > 8 {
        return Err(AppError::Runtime("invalid EEFC flash descriptor".to_owned()));
    }
    let locks: usize = 4 + planes as usize;
    if locks + 1 >= len {
        return Err(AppError::Runtime("invalid EEFC flash descriptor".to_owned()));
    }
    let found = FlashDescriptor {
        id: words[0],
        size: words[1],
        page_size: words[2],
        planes,
        lock_regions: words[locks],
        lock_size: words[locks + 1],
    };
    let plane_bytes: u64 = sum_words(words, 4, locks);
    proof {
        let regions = found.lock_regions as u64;
        let size = found.lock_size as u64;
        assert(0 <= regions * size <= 0xffff_ffff * 0xffff_ffff) by (nonlinear_arith)
            requires
                0 <= regions <= 0xffff_ffff,
                0 <= size <= 0xffff_ffff,
        ;
    }
    if found.size == 0 || found.size > u32::MAX - FLASH_BASE || found.page_size == 0 || found.size
        % found.page_size != 0 || found.lock_regions == 0 || found.lock_size == 0 || found.lock_size
        % found.page_size != 0 || found.lock_regions as u64 * found.lock_size as u64
        != found.size as u64 || plane_bytes != found.size as u64 {
        return Err(AppError::Runtime("invalid EEFC flash geometry".to_owned()));
    }
    Ok(found)
}

/// What is known of the chip behind the probe.
#[derive(Debug, Clone, Copy)]
pub struct ChipInfo {
    pub cidr: u32,
    pub exid: u32,
    pub flash: FlashDescriptor,
}

impl View for ChipInfo {
    type V = ChipInfo;

    open spec fn view(&self) -> ChipInfo {
        *self
    }
}

/// The flash size in KB that a chip identity stands for.
pub open spec fn flash_kb(cidr: u32) -> u32 {
    match (cidr / 0x100) % 16 {
        1 => 8,
        2 => 16,
        3 => 32,
        5 => 64,
        7 => 128,
        8 => 160,
        9 => 256,
        10 => 512,
        12 => 1024,
        14 => 2048,
        _ => 0,
    }
}

/// The SRAM size in KB that a chip identity stands for.
pub open spec fn sram_size_kb(cidr: u32) -> u32 {
    let sizes = seq![
        48u32,
        192u32,
        384u32,
        6u32,
        24u32,
        4u32,
        80u32,
        160u32,
        8u32,
        16u32,
        32u32,
        64u32,
        128u32,
        256u32,
        96u32,
        512u32,
    ];
    sizes[(cidr as int / 0x1_0000) % 16]
}

/// What a chip is called.
pub open spec fn chip_name(exid: u32) -> Seq<char> {
    if exid == SAM4E8C_EXID {
        "SAM4E8C"@
    } else {
        "unsupported (EXID "@ + text::hex8(exid as nat) + ")"@
    }
}

/// Whether an extension identity is that of the supported chip.
pub open spec fn identity(exid: u32) -> Result<(), Failure> {
    if exid == SAM4E8C_EXID {
        Ok(())
    } else {
        Err(
            Failure::Runtime(
                "target is not an ATSAM4E8C (EXID "@ + text::hex8(exid as nat) + ")"@,
            ),
        )
    }
}

/// Accepts the identity of the supported chip and no other.
pub fn require_identity(exid: u32) -> (result: AppResult<()>)
    ensures
        error::agrees(result, identity(exid)),
{
    if exid == SAM4E8C_EXID {
        Ok(())
    } else {
        let shown = hex8_text(exid as u64);
        Err(AppError::Runtime(cat3("target is not an ATSAM4E8C (EXID ", shown.as_str(), ")")))
    }
}

impl ChipInfo {
    /// The name of the chip.
    pub fn name(&self) -> (name: String)
        ensures
            name@ == chip_name(self.exid),
    {
        if self.exid == SAM4E8C_EXID {
            "SAM4E8C".to_owned()
        } else {
            let shown = hex8_text(self.exid as u64);
            cat3("unsupported (EXID ", shown.as_str(), ")")
        }
    }

    /// Accepts the supported chip and no other.
    pub fn require_sam4e8c(&self) -> (result: AppResult<()>)
        ensures
            error::agrees(result, identity(self.exid)),
    {
        require_identity(self.exid)
    }

    /// The flash size in KB by the chip identity.
    pub fn cidr_flash_kb(&self) -> (kb: u32)
        ensures
            kb == flash_kb(self.cidr),
    {
        match (self.cidr / 0x100) % 16 {
            1 => 8,
            2 => 16,
            3 => 32,
            5 => 64,
            7 => 128,
            8 => 160,
            9 => 256,
            10 => 512,
            12 => 1024,
            14 => 2048,
            _ => 0,
        }
    }

    /// The SRAM size in KB by the chip identity.
    pub fn sram_kb(&self) -> (kb: u32)
        ensures
            kb == sram_size_kb(self.cidr),
    {
        match (self.cidr / 0x1_0000) % 16 {
            0 => 48,
            1 => 192,
            2 => 384,
            3 => 6,
            4 => 24,
            5 => 4,
            6 => 80,
            7 => 160,
            8 => 8,
            9 => 16,
            10 => 32,
            11 => 64,
            12 => 128,
            13 => 256,
            14 => 96,
            _ => 512,
        }
    }

    /// The number of flash pages.
    pub fn pages(&self) -> (pages: u32)
        requires
            self.flash.page_size != 0,
        ensures
            pages == self.flash.size as int / self.flash.page_size as int,
    {
        self.flash.size / self.flash.page_size
    }

    /// The address behind the last byte of flash.
    pub fn flash_end(&self) -> (end: u32)
        requires
            FLASH_BASE + self.flash.size <= u32::MAX,
        ensures
            end == FLASH_BASE + self.flash.size,
    {
        FLASH_BASE + self.flash.size
    }
}

/// The two GPNVM bits of the chip.
#[derive(Debug, Clone, Copy, PartialEq, Eq)]
pub struct Gpnvm {
    pub security: u8,
    pub boot_mode: u8,
}

impl View for Gpnvm {
    type V = Gpnvm;

    open spec fn view(&self) -> Gpnvm {
        *self
    }
}

impl Gpnvm {
    /// The value of bit 0 or of another bit.
    pub open spec fn bit(self, bit: u8) -> u8 {
        if bit == 0 {
            self.security
        } else {
            self.boot_mode
        }
    }

    /// The value of bit 0 or of another bit.
    pub fn get(&self, bit: u8) -> (value: u8)
        ensures
            value == self.bit(bit),
    {
        if bit == 0 {
            self.security
        } else {
            self.boot_mode
        }
    }
}

/// The bits in the word that the flash controller reports.
pub open spec fn gpnvm_of(word: u32) -> Gpnvm {
    Gpnvm { security: (word as int % 2) as u8, boot_mode: ((word as int / 2) % 2) as u8 }
}

/// Reads the word that the flash controller reports.
pub fn gpnvm_bits(word: u32) -> (bits: Gpnvm)
    ensures
        bits == gpnvm_of(word),
{
    Gpnvm { security: (word % 2) as u8, boot_mode: ((word / 2) % 2) as u8 }
}

/// The value of a bit in words.
pub open spec fn gpnvm_text(bits: Gpnvm) -> Seq<char> {
    "GPNVM\n  0  security   "@ + text::decimal(bits.security as nat) + "  "@ + (if bits.security == 1 {
        "debug access disabled"@
    } else {
        "unlocked"@
    }) + "\n  1  boot_mode  "@ + text::decimal(bits.boot_mode as nat) + "  "@ + (if bits.boot_mode
        == 1 {
        "boot from Flash"@
    } else {
        "boot from ROM (SAM-BA)"@
    })
}

/// Shows the bits.
pub fn print_gpnvm(bits: Gpnvm) -> (shown: String)
    ensures
        shown@ == gpnvm_text(bits),
{
    let mut shown = cat3(
        "GPNVM\n  0  security   ",
        text::decimal_text(bits.security as u64).as_str(),
        "  ",
    );
    shown.append(
        if bits.security == 1 {
            "debug access disabled"
        } else {
            "unlocked"
        },
    );
    shown.append("\n  1  boot_mode  ");
    shown.append(text::decimal_text(bits.boot_mode as u64).as_str());
    shown.append("  ");
    shown.append(
        if bits.boot_mode == 1 {
            "boot from Flash"
        } else {
            "boot from ROM (SAM-BA)"
        },
    );
    shown
}

/// A descriptor that is accepted describes whole pages and whole lock regions: the lock regions
/// hold as many pages as the flash.
pub proof fn law_flash_is_made_of_whole_lock_regions(words: Seq<u32>)
    ensures
        descriptor(words) matches Ok(flash) ==> flash.wf() && flash.size as int / flash.page_size as int
            == flash.lock_regions * (flash.lock_size as int / flash.page_size as int),
{
    if let Ok(flash) = descriptor(words) {
        let page = flash.page_size as int;
        let per_region = flash.lock_size as int / page;
        let regions = flash.lock_regions as int;
        assert(flash.lock_size == per_region * page) by (nonlinear_arith)
            requires
                page > 0,
                flash.lock_size as int % page == 0,
                per_region == flash.lock_size as int / page,
        ;
        assert(flash.size as int == (regions * per_region) * page) by (nonlinear_arith)
            requires
                flash.size == regions * flash.lock_size,
                flash.lock_size == per_region * page,
        ;
        assert(flash.size as int / page == regions * per_region) by (nonlinear_arith)
            requires
                flash.size as int == (regions * per_region) * page,
                page > 0,
        ;
    }
}

/// Whether bits are those of a word: the security bit counts least, and the bit for the boot source
/// comes next.
pub open spec fn are_bits_of(bits: Gpnvm, word: u32) -> bool {
    &&& bits.security <= 1
    &&& bits.boot_mode <= 1
    &&& bits.bit(0) == bits.security
    &&& bits.bit(1) == bits.boot_mode
    &&& (word as int - bits.security - 2 * bits.boot_mode) % 4 == 0
}

/// The bits in a word of the flash controller are its two lowest bits.
pub proof fn law_gpnvm_bits_are_the_lowest(word: u32)
    ensures
        are_bits_of(gpnvm_of(word), word),
{
    let n = word as int;
    assert((n - n % 2 - 2 * ((n / 2) % 2)) % 4 == 0);
}

} // verus!
