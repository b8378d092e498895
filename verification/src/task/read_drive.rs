use vstd::prelude::*;

verus! {

use vstd::string::StringSliceAdditionalSpecFns;

/// Number of sectors that the free-sector search looks at.
pub const MAX_LBA: u32 = 100;

/// ATA primary bus: data register.
pub const ATA_DATA: u16 = 0x1F0;

/// ATA primary bus: error register.
pub const ATA_ERROR: u16 = 0x1F1;

/// ATA primary bus: sector count register.
pub const ATA_SECCOUNT0: u16 = 0x1F2;

/// ATA primary bus: LBA bits 0..8.
pub const ATA_LBA0: u16 = 0x1F3;

/// ATA primary bus: LBA bits 8..16.
pub const ATA_LBA1: u16 = 0x1F4;

/// ATA primary bus: LBA bits 16..24.
pub const ATA_LBA2: u16 = 0x1F5;

/// ATA primary bus: drive/head register.
pub const ATA_DRIVE: u16 = 0x1F6;

/// ATA primary bus: command register (write).
pub const ATA_COMMAND: u16 = 0x1F7;

/// ATA primary bus: status register (read).
pub const ATA_STATUS: u16 = 0x1F7;

/// Command: read sectors with PIO.
pub const ATA_CMD_READ_PIO: u8 = 0x20;

/// Command: write sectors with PIO.
pub const ATA_CMD_WRITE_PIO: u8 = 0x30;

/// Command: identify the drive.
pub const ATA_CMD_IDENTIFY: u8 = 0xEC;

/// The register values that select sector `lba` in 28-bit LBA mode on the master drive.
#[derive(Debug, Clone, Copy, PartialEq, Eq, Structural)]
pub struct AtaLbaRegisters {
    /// `0xF0` with LBA bits 24..28 in the low nibble.
    pub drive: u8,
    /// LBA bits 0..8.
    pub lba_low: u8,
    /// LBA bits 8..16.
    pub lba_mid: u8,
    /// LBA bits 16..24.
    pub lba_high: u8,
}

/// Computes the drive/head and LBA register values for sector `lba`.
pub fn ata_lba_registers(lba: u32) -> (regs: AtaLbaRegisters)
    ensures
        regs.drive == 0xF0 + (lba / 0x100_0000) % 16,
        regs.lba_low == lba % 256,
        regs.lba_mid == (lba / 256) % 256,
        regs.lba_high == (lba / 0x1_0000) % 256,
{
    let drive = 0xF0u8 | ((lba >> 24) & 0x0F) as u8;
    let lba_low = (lba & 0xFF) as u8;
    let lba_mid = ((lba >> 8) & 0xFF) as u8;
    let lba_high = ((lba >> 16) & 0xFF) as u8;
    assert(0xF0u8 | ((lba >> 24) & 0x0F) as u8 == 0xF0 + (lba / 0x100_0000) % 16) by (bit_vector);
    assert((lba & 0xFF) as u8 == lba % 256) by (bit_vector);
    assert(((lba >> 8) & 0xFF) as u8 == (lba / 256) % 256) by (bit_vector);
    assert(((lba >> 16) & 0xFF) as u8 == (lba / 0x1_0000) % 256) by (bit_vector);
    AtaLbaRegisters { drive, lba_low, lba_mid, lba_high }
}

/// The status byte reports the drive busy (bit 7).
pub fn ata_busy(status: u8) -> (busy: bool)
    ensures
        busy == (status >= 0x80),
{
    assert((status & 0x80 != 0) == (status >= 0x80)) by (bit_vector);
    status & 0x80 != 0
}

/// The status byte reports data ready to transfer (bit 3).
pub fn ata_data_requested(status: u8) -> (ready: bool)
    ensures
        ready == ((status / 8) % 2 == 1),
{
    assert((status & 0x08 != 0) == ((status / 8) % 2 == 1)) by (bit_vector);
    status & 0x08 != 0
}

/// The status byte of a drive that is present is not zero.
pub fn ata_drive_present(status: u8) -> (present: bool)
    ensures
        present == (status != 0),
{
    status != 0
}

/// The bytes of a sector as the drive transfers them: each 16-bit word gives
/// its low byte, then its high byte.
pub open spec fn bytes_of_words(words: Seq<u16>) -> Seq<u8> {
    Seq::new(
        2 * words.len(),
        |i: int|
            if i % 2 == 0 {
                (words[i / 2] % 256) as u8
            } else {
                (words[i / 2] / 256) as u8
            },
    )
}

/// The 16-bit words that carry the bytes of a sector: byte `2i` is the low
/// half of word `i`, byte `2i + 1` its high half.
pub open spec fn words_of_bytes(bytes: Seq<u8>) -> Seq<u16> {
    Seq::new(bytes.len() / 2, |i: int| (bytes[2 * i] + 256 * bytes[2 * i + 1]) as u16)
}

/// Lays out the 256 words read from the data register as the 512 bytes of
/// the sector.
pub fn sector_from_words(words: &[u16; 256]) -> (buffer: [u8; 512])
    ensures
        buffer@ == bytes_of_words(words@),
{
    let mut buffer = [0u8; 512];
    let mut i: usize = 0;
    while i < 256
        invariant
            i <= 256,
            buffer@.len() == 512,
            forall|j: int|
                0 <= j < 2 * i ==> #[trigger] buffer@[j] == bytes_of_words(words@)[j],
        decreases 256 - i,
    {
        let word = words[i];
        let lo = (word & 0xFF) as u8;
        let hi = (word >> 8) as u8;
        assert((word & 0xFF) as u8 == word % 256) by (bit_vector);
        assert((word >> 8) as u8 == word / 256) by (bit_vector);
        buffer[i * 2] = lo;
        buffer[i * 2 + 1] = hi;
        proof {
            assert(bytes_of_words(words@)[2 * i] == lo);
            assert(bytes_of_words(words@)[2 * i + 1] == hi);
        }
        i = i + 1;
    }
    assert(buffer@ =~= bytes_of_words(words@));
    buffer
}

/// Packs the 512 bytes of a sector into the 256 words written to the data register.
pub fn sector_to_words(buffer: &[u8; 512]) -> (words: [u16; 256])
    ensures
        words@ == words_of_bytes(buffer@),
{
    let mut words = [0u16; 256];
    let mut i: usize = 0;
    while i < 256
        invariant
            i <= 256,
            words@.len() == 256,
            buffer@.len() == 512,
            forall|j: int| 0 <= j < i ==> #[trigger] words@[j] == words_of_bytes(buffer@)[j],
        decreases 256 - i,
    {
        let lo = buffer[i * 2] as u16;
        let hi = buffer[i * 2 + 1] as u16;
        let word = lo | (hi << 8);
        assert(lo < 256 && hi < 256 ==> lo | (hi << 8) == lo + 256 * hi) by (bit_vector);
        words[i] = word;
        proof {
            assert(words_of_bytes(buffer@)[i as int] == word);
        }
        i = i + 1;
    }
    assert(words@ =~= words_of_bytes(buffer@));
    words
}

/// Writing a sector and reading it back gives the same bytes: packing bytes
/// into words and laying the words out again is the identity.
pub proof fn lemma_sector_round_trip(bytes: Seq<u8>)
    requires
        bytes.len() % 2 == 0,
    ensures
        bytes_of_words(words_of_bytes(bytes)) == bytes,
{
    let words = words_of_bytes(bytes);
    assert forall|i: int| 0 <= i < bytes.len() implies #[trigger] bytes_of_words(words)[i]
        == bytes[i] by {
        let k = i / 2;
        let lo = bytes[2 * k];
        let hi = bytes[2 * k + 1];
        assert(words[k] == lo + 256 * hi);
        assert((lo + 256 * hi) % 256 == lo) by (nonlinear_arith)
            requires
                0 <= lo < 256,
                0 <= hi < 256,
        ;
        assert((lo + 256 * hi) / 256 == hi) by (nonlinear_arith)
            requires
                0 <= lo < 256,
                0 <= hi < 256,
        ;
    }
    assert(bytes_of_words(words) =~= bytes);
}

/// Reading words and writing them back gives the same words.
pub proof fn lemma_word_round_trip(words: Seq<u16>)
    ensures
        words_of_bytes(bytes_of_words(words)) == words,
{
    let bytes = bytes_of_words(words);
    assert forall|i: int| 0 <= i < words.len() implies #[trigger] words_of_bytes(bytes)[i]
        == words[i] by {
        let w = words[i];
        assert((2 * i) / 2 == i);
        assert((2 * i + 1) / 2 == i);
        assert((2 * i) % 2 == 0);
        assert((2 * i + 1) % 2 == 1);
        assert((w % 256) + 256 * (w / 256) == w) by (nonlinear_arith)
            requires
                0 <= w,
        ;
    }
    assert(words_of_bytes(bytes) =~= words);
}


/// How a field of a directory listing is shown: fields come in groups of three.
#[derive(Debug, Clone, Copy, PartialEq, Eq, Structural)]
pub enum DirFieldKind {
    FileType,
    FileName,
    FilePointer,
}

/// The kind of the `k`-th field of a directory, counting from 0.
pub open spec fn field_kind(k: int) -> DirFieldKind {
    if k % 3 == 0 {
        DirFieldKind::FileType
    } else if k % 3 == 1 {
        DirFieldKind::FileName
    } else {
        DirFieldKind::FilePointer
    }
}

/// One field of a directory sector: the bytes between a zero byte and the next one.
#[derive(Debug, PartialEq, Eq)]
pub struct DirField {
    pub kind: DirFieldKind,
    pub data: Vec<u8>,
}

/// What listing a directory sector finds.
#[derive(Debug, PartialEq, Eq)]
pub struct DirectoryListing {
    /// The fields, in the order they stand in the sector.
    pub fields: Vec<DirField>,
    /// Whether a double zero byte ended the listing before the sector's end.
    pub reached_end: bool,
}

/// The fields of a listing as plain values.
pub open spec fn fields_view(fields: Seq<DirField>) -> Seq<(DirFieldKind, Seq<u8>)> {
    fields.map_values(|f: DirField| (f.kind, f.data@))
}

/// The first position at or after `i` that holds a zero byte, or the length of `b`.
pub open spec fn next_zero(b: Seq<u8>, i: int) -> int
    decreases b.len() - i,
{
    if i >= b.len() {
        b.len() as int
    } else if b[i] == 0 {
        i
    } else {
        next_zero(b, i + 1)
    }
}

/// Where the next zero byte at or after `i` lies.
pub proof fn lemma_next_zero_bounds(b: Seq<u8>, i: int)
    requires
        0 <= i <= b.len(),
    ensures
        i <= next_zero(b, i) <= b.len(),
        next_zero(b, i) < b.len() ==> b[next_zero(b, i)] == 0,
        forall|j: int| i <= j < next_zero(b, i) ==> b[j] != 0,
    decreases b.len() - i,
{
    if i < b.len() && b[i] != 0 {
        lemma_next_zero_bounds(b, i + 1);
    }
}

/// The fields found when listing `b` from position `i`, `k` fields having
/// been found before, and whether a double zero byte ends the listing.
/// A field starts at each zero byte that is not followed by another one and
/// runs up to the next zero byte (or the sector's end).
pub open spec fn scan_directory(b: Seq<u8>, i: int, k: int) -> (Seq<(DirFieldKind, Seq<u8>)>, bool)
    decreases b.len() - i,
{
    if i < 0 || i >= b.len() {
        (Seq::empty(), false)
    } else if i + 1 < b.len() && b[i] == 0 && b[i + 1] == 0 {
        (Seq::empty(), true)
    } else if b[i] == 0 {
        let j = next_zero(b, i + 1);
        proof {
            lemma_next_zero_bounds(b, i + 1);
        }
        let rest = scan_directory(b, j, k + 1);
        (seq![(field_kind(k), b.subrange(i + 1, j))] + rest.0, rest.1)
    } else {
        scan_directory(b, i + 1, k)
    }
}

/// What listing the directory sector `b` shows.
pub open spec fn directory_listing(b: Seq<u8>) -> (Seq<(DirFieldKind, Seq<u8>)>, bool) {
    scan_directory(b, 0, 0)
}

/// The kind of the field with index `k`.
fn kind_of_field(k: usize) -> (kind: DirFieldKind)
    ensures
        kind == field_kind(k as int),
{
    if k % 3 == 0 {
        DirFieldKind::FileType
    } else if k % 3 == 1 {
        DirFieldKind::FileName
    } else {
        DirFieldKind::FilePointer
    }
}

/// Lists a directory sector: the fields it holds and whether it is ended by a
/// double zero byte.
pub fn parse_directory(buffer: &[u8; 512]) -> (listing: DirectoryListing)
    ensures
        (fields_view(listing.fields@), listing.reached_end) == directory_listing(buffer@),
{
    let ghost b = buffer@;
    let mut fields: Vec<DirField> = Vec::new();
    let mut reached_end = false;
    let mut index: usize = 0;
    let mut field_index: usize = 0;
    while index < 512
        invariant_except_break
            b == buffer@,
            b.len() == 512,
            index <= 512,
            field_index <= index,
            !reached_end,
            directory_listing(b).0 == fields_view(fields@) + scan_directory(
                b,
                index as int,
                field_index as int,
            ).0,
            directory_listing(b).1 == scan_directory(b, index as int, field_index as int).1,
        ensures
            (fields_view(fields@), reached_end) == directory_listing(b),
        decreases 512 - index,
    {
        let ghost before = fields@;
        if index + 1 < 512 && buffer[index] == 0 && buffer[index + 1] == 0 {
            reached_end = true;
            assert(fields_view(fields@) + Seq::empty() =~= fields_view(fields@));
            break;
        }
        if buffer[index] == 0 {
            let mut field_data: Vec<u8> = Vec::new();
            let mut read_index = index + 1;
            while read_index < 512 && buffer[read_index] != 0
                invariant
                    b == buffer@,
                    b.len() == 512,
                    index < read_index <= 512,
                    field_data@ == b.subrange(index + 1, read_index as int),
                    forall|j: int| index + 1 <= j < read_index ==> b[j] != 0,
                decreases 512 - read_index,
            {
                field_data.push(buffer[read_index]);
                assert(field_data@ =~= b.subrange(index + 1, read_index + 1));
                read_index = read_index + 1;
            }
            proof {
                lemma_next_zero_bounds(b, index + 1);
                let j = next_zero(b, index + 1);
                if j < read_index {
                    assert(b[j] != 0);
                }
                if read_index < j {
                    assert(b[read_index as int] == 0);
                }
                assert(j == read_index);
            }
            let kind = kind_of_field(field_index);
            fields.push(DirField { kind, data: field_data });
            proof {
                let rest = scan_directory(b, read_index as int, field_index + 1);
                let field = (field_kind(field_index as int), b.subrange(index + 1, read_index as int));
                assert(fields_view(fields@) =~= fields_view(before).push(field));
                assert(scan_directory(b, index as int, field_index as int).0 == seq![field]
                    + rest.0);
                assert(fields_view(before) + (seq![field] + rest.0) =~= fields_view(fields@)
                    + rest.0);
            }
            field_index = field_index + 1;
            index = read_index;
        } else {
            index = index + 1;
        }
    }
    proof {
        if !reached_end {
            assert(fields_view(fields@) + Seq::empty() =~= fields_view(fields@));
        }
    }
    DirectoryListing { fields, reached_end }
}


/// The byte that separates a file's type from its name: `.`.
pub const NAME_SEPARATOR: u8 = 0x2E;

/// Position `i` of `b` starts a double zero byte.
pub open spec fn double_zero_at(b: Seq<u8>, i: int) -> bool {
    b[i] == 0 && b[i + 1] == 0
}

/// The first position from `i` on that starts a double zero byte, or 511
/// when there is none before it.
pub open spec fn entries_end_from(b: Seq<u8>, i: int) -> int
    decreases 511 - i,
{
    if i >= 511 {
        511
    } else if double_zero_at(b, i) {
        i
    } else {
        entries_end_from(b, i + 1)
    }
}

/// Where new entries go in the directory sector `b`.
pub open spec fn entries_end(b: Seq<u8>) -> int {
    entries_end_from(b, 0)
}

/// Finds where new directory entries go: the first position that starts a
/// double zero byte, or 511 when there is none before it.
pub fn find_entries_end(buffer: &[u8; 512]) -> (end: usize)
    ensures
        end == entries_end(buffer@),
        end <= 511,
        forall|j: int| 0 <= j < end ==> !double_zero_at(buffer@, j),
        end < 511 ==> double_zero_at(buffer@, end as int),
{
    let mut read_index: usize = 0;
    while read_index < 511 && !(buffer[read_index] == 0 && buffer[read_index + 1] == 0)
        invariant
            read_index <= 511,
            buffer@.len() == 512,
            forall|j: int| 0 <= j < read_index ==> !double_zero_at(buffer@, j),
            entries_end_from(buffer@, read_index as int) == entries_end(buffer@),
        decreases 511 - read_index,
    {
        read_index = read_index + 1;
    }
    read_index
}

/// How often `x` occurs in `s`.
pub open spec fn count_byte(s: Seq<u8>, x: u8) -> nat
    decreases s.len(),
{
    if s.len() == 0 {
        0
    } else {
        count_byte(s.drop_last(), x) + if s.last() == x {
            1nat
        } else {
            0nat
        }
    }
}

proof fn lemma_count_byte_zero(s: Seq<u8>, x: u8)
    ensures
        count_byte(s, x) == 0 <==> !s.contains(x),
    decreases s.len(),
{
    if s.len() > 0 {
        lemma_count_byte_zero(s.drop_last(), x);
        if s.drop_last().contains(x) {
            let j = choose|j: int| 0 <= j < s.drop_last().len() && s.drop_last()[j] == x;
            assert(s[j] == x);
        }
        if s.contains(x) && s.last() != x {
            let j = choose|j: int| 0 <= j < s.len() && s[j] == x;
            assert(s.drop_last()[j] == x);
        }
    }
}

proof fn lemma_count_byte_concat(a: Seq<u8>, b: Seq<u8>, x: u8)
    ensures
        count_byte(a + b, x) == count_byte(a, x) + count_byte(b, x),
    decreases b.len(),
{
    if b.len() == 0 {
        assert(a + b =~= a);
    } else {
        lemma_count_byte_concat(a, b.drop_last(), x);
        assert((a + b).drop_last() =~= a + b.drop_last());
    }
}

/// Splits a file name written `type.name` into its type and its name, as
/// bytes. `None` unless the name holds exactly one `.`.
pub fn split_file_name(name: &str) -> (parts: Option<(Vec<u8>, Vec<u8>)>)
    ensures
        parts is Some <==> count_byte(name.spec_bytes(), NAME_SEPARATOR) == 1,
        parts matches Some((file_type, file_name)) ==> {
            &&& name.spec_bytes() == file_type@ + seq![NAME_SEPARATOR] + file_name@
            &&& !file_type@.contains(NAME_SEPARATOR)
            &&& !file_name@.contains(NAME_SEPARATOR)
        },
{
    let bytes = name.as_bytes();
    let ghost b = bytes@;
    let mut file_type: Vec<u8> = Vec::new();
    let mut file_name: Vec<u8> = Vec::new();
    let mut dots: usize = 0;
    let mut i: usize = 0;
    while i < bytes.len()
        invariant
            b == bytes@,
            b == name.spec_bytes(),
            i <= b.len(),
            dots <= 1,
            dots == 0 ==> file_type@ == b.take(i as int) && !file_type@.contains(NAME_SEPARATOR),
            dots == 0 ==> file_name@.len() == 0,
            dots == 0 ==> count_byte(b.take(i as int), NAME_SEPARATOR) == 0,
            dots == 1 ==> count_byte(b.take(i as int), NAME_SEPARATOR) == 1,
            dots == 1 ==> b.take(i as int) == file_type@ + seq![NAME_SEPARATOR] + file_name@,
            dots == 1 ==> !file_type@.contains(NAME_SEPARATOR) && !file_name@.contains(
                NAME_SEPARATOR,
            ),
        decreases b.len() - i,
    {
        let c = bytes[i];
        let ghost prefix = b.take(i as int);
        assert(b.take(i + 1) =~= prefix.push(c));
        assert(b.take(i + 1).drop_last() =~= prefix);
        if c == NAME_SEPARATOR {
            if dots == 1 {
                proof {
                    lemma_count_byte_concat(b.take(i + 1), b.skip(i + 1), NAME_SEPARATOR);
                    assert(b.take(i + 1) + b.skip(i + 1) =~= b);
                }
                return None;
            }
            dots = 1;
            assert(prefix.push(c) =~= file_type@ + seq![NAME_SEPARATOR] + file_name@);
        } else if dots == 0 {
            file_type.push(c);
            assert(file_type@ =~= prefix.push(c));
            proof {
                lemma_count_byte_zero(file_type@, NAME_SEPARATOR);
            }
        } else {
            let ghost before = file_name@;
            file_name.push(c);
            assert(prefix.push(c) =~= file_type@ + seq![NAME_SEPARATOR] + file_name@);
            assert(!file_name@.contains(NAME_SEPARATOR)) by {
                if file_name@.contains(NAME_SEPARATOR) {
                    let j = choose|j: int| 0 <= j < file_name@.len() && file_name@[j] == NAME_SEPARATOR;
                    if j < before.len() {
                        assert(before[j] == NAME_SEPARATOR);
                    }
                }
            }
        }
        i = i + 1;
    }
    assert(b.take(b.len() as int) =~= b);
    if dots == 1 {
        Some((file_type, file_name))
    } else {
        None
    }
}


/// The sector `b` after a new entry's name and type are written at `at`:
/// a zero byte, the name, a zero byte, the type. The byte after the type is
/// left as it was.
pub open spec fn entry_names_written(b: Seq<u8>, at: int, file_name: Seq<u8>, file_type: Seq<u8>) -> Seq<u8> {
    b.take(at) + seq![0u8] + file_name + seq![0u8] + file_type + b.skip(
        at + 2 + file_name.len() + file_type.len(),
    )
}

/// The four bytes of `v`, least significant first.
pub open spec fn le_bytes(v: u32) -> Seq<u8> {
    seq![
        (v % 0x100) as u8,
        ((v / 0x100) % 0x100) as u8,
        ((v / 0x1_0000) % 0x100) as u8,
        ((v / 0x100_0000) % 0x100) as u8,
    ]
}

/// The sector `b` after a new entry's sector pointer is written at `at`:
/// the pointer's four bytes, least significant first, then a double zero
/// byte that ends the directory.
pub open spec fn entry_pointer_written(b: Seq<u8>, at: int, pointer: u32) -> Seq<u8> {
    b.take(at) + le_bytes(pointer) + seq![0u8, 0u8] + b.skip(at + 6)
}

/// Writes a new entry's name and type into a directory sector at `at` and
/// returns where its sector pointer goes: one byte past the end of the type.
pub fn write_entry_names(
    buffer: &mut [u8; 512],
    at: usize,
    file_name: &[u8],
    file_type: &[u8],
) -> (pointer_at: usize)
    requires
        at + 2 + file_name@.len() + file_type@.len() <= 512,
    ensures
        final(buffer)@ == entry_names_written(old(buffer)@, at as int, file_name@, file_type@),
        pointer_at == at + 3 + file_name@.len() + file_type@.len(),
{
    let ghost b = buffer@;
    let ghost expected = entry_names_written(b, at as int, file_name@, file_type@);
    let mut read_index = at;
    buffer[read_index] = 0;
    read_index = read_index + 1;
    let mut i: usize = 0;
    while i < file_name.len()
        invariant
            at + 2 + file_name@.len() + file_type@.len() <= 512,
            i <= file_name@.len(),
            read_index == at + 1 + i,
            buffer@.len() == 512,
            b.len() == 512,
            forall|j: int| 0 <= j < at || at + 1 + i <= j < 512 ==> buffer@[j] == b[j],
            buffer@[at as int] == 0,
            forall|j: int| 0 <= j < i ==> buffer@[at + 1 + j] == file_name@[j],
        decreases file_name@.len() - i,
    {
        buffer[read_index] = file_name[i];
        read_index = read_index + 1;
        i = i + 1;
    }
    buffer[read_index] = 0;
    read_index = read_index + 1;
    let mut i: usize = 0;
    while i < file_type.len()
        invariant
            at + 2 + file_name@.len() + file_type@.len() <= 512,
            i <= file_type@.len(),
            read_index == at + 2 + file_name@.len() + i,
            buffer@.len() == 512,
            b.len() == 512,
            forall|j: int| 0 <= j < at || at + 2 + file_name@.len() + i <= j < 512 ==> buffer@[j] == b[j],
            buffer@[at as int] == 0,
            forall|j: int| 0 <= j < file_name@.len() ==> buffer@[at + 1 + j] == file_name@[j],
            buffer@[at + 1 + file_name@.len()] == 0,
            forall|j: int| 0 <= j < i ==> buffer@[at + 2 + file_name@.len() + j] == file_type@[j],
        decreases file_type@.len() - i,
    {
        buffer[read_index] = file_type[i];
        read_index = read_index + 1;
        i = i + 1;
    }
    read_index = read_index + 1;
    proof {
        let n = file_name@.len() as int;
        let t = file_type@.len() as int;
        assert forall|j: int| 0 <= j < 512 implies buffer@[j] == expected[j] by {
            if j < at {
            } else if j == at {
            } else if j < at + 1 + n {
                assert(buffer@[at + 1 + (j - at - 1)] == file_name@[j - at - 1]);
            } else if j == at + 1 + n {
            } else if j < at + 2 + n + t {
                assert(buffer@[at + 2 + n + (j - at - 2 - n)] == file_type@[j - at - 2 - n]);
            } else {
            }
        }
        assert(buffer@ =~= expected);
    }
    read_index
}

/// Writes a new entry's sector pointer at `at`, least significant byte
/// first, followed by the double zero byte that ends the directory.
pub fn write_entry_pointer(buffer: &mut [u8; 512], at: usize, pointer: u32)
    requires
        at + 6 <= 512,
    ensures
        final(buffer)@ == entry_pointer_written(old(buffer)@, at as int, pointer),
{
    let ghost b = buffer@;
    let b0 = (pointer & 0xFF) as u8;
    let b1 = ((pointer >> 8) & 0xFF) as u8;
    let b2 = ((pointer >> 16) & 0xFF) as u8;
    let b3 = ((pointer >> 24) & 0xFF) as u8;
    assert((pointer & 0xFF) as u8 == pointer % 0x100) by (bit_vector);
    assert(((pointer >> 8) & 0xFF) as u8 == (pointer / 0x100) % 0x100) by (bit_vector);
    assert(((pointer >> 16) & 0xFF) as u8 == (pointer / 0x1_0000) % 0x100) by (bit_vector);
    assert(((pointer >> 24) & 0xFF) as u8 == (pointer / 0x100_0000) % 0x100) by (bit_vector);
    buffer[at] = b0;
    buffer[at + 1] = b1;
    buffer[at + 2] = b2;
    buffer[at + 3] = b3;
    let mut read_index = at + 4;
    buffer[read_index] = 0;
    read_index = read_index + 1;
    buffer[read_index] = 0;
    assert(buffer@ =~= entry_pointer_written(b, at as int, pointer));
}


/// The position of the first `x` in `s`, or its length when there is none.
pub open spec fn first_index(s: Seq<u8>, x: u8) -> int
    decreases s.len(),
{
    if s.len() == 0 {
        0
    } else if s[0] == x {
        0
    } else {
        1 + first_index(s.drop_first(), x)
    }
}

/// The type part of a name written `type.name`: the bytes before the `.`.
pub open spec fn type_part(name: Seq<u8>) -> Seq<u8> {
    name.take(first_index(name, NAME_SEPARATOR))
}

/// The name part of a name written `type.name`: the bytes after the `.`.
pub open spec fn name_part(name: Seq<u8>) -> Seq<u8> {
    name.skip(first_index(name, NAME_SEPARATOR) + 1)
}

proof fn lemma_first_index_split(t: Seq<u8>, x: u8, n: Seq<u8>)
    requires
        !t.contains(x),
    ensures
        first_index(t + seq![x] + n, x) == t.len(),
    decreases t.len(),
{
    if t.len() > 0 {
        assert(t[0] != x) by {
            if t[0] == x {
                assert(t.contains(x));
            }
        }
        assert(!t.drop_first().contains(x)) by {
            if t.drop_first().contains(x) {
                let j = choose|j: int| 0 <= j < t.drop_first().len() && t.drop_first()[j] == x;
                assert(t[j + 1] == x);
            }
        }
        lemma_first_index_split(t.drop_first(), x, n);
        assert((t + seq![x] + n).drop_first() =~= t.drop_first() + seq![x] + n);
    }
}

/// Why a file entry cannot be planned.
#[derive(Debug, Clone, Copy, PartialEq, Eq, Structural)]
pub enum EntryError {
    /// The name is not written `type.name` with exactly one `.`.
    InvalidName,
    /// The name and type run past the end of the sector.
    NameDoesNotFit,
}

/// A directory sector with a new entry's name and type written, waiting for
/// the entry's sector pointer.
#[derive(Debug, PartialEq, Eq)]
pub struct EntryPlan {
    /// Where the entry starts: the end of the entries before it.
    pub entries_end: usize,
    /// The sector with the name and type written.
    pub sector: [u8; 512],
    /// Where the sector pointer goes.
    pub pointer_at: usize,
}

/// Plans a new file entry `name` (written `type.name`) in a directory
/// sector: finds where the entries end and writes the name and the type
/// there. The sector pointer comes later, from `complete_entry`.
pub fn plan_entry(sector: &[u8; 512], name: &str) -> (plan: Result<EntryPlan, EntryError>)
    ensures
        ({
            let b = name.spec_bytes();
            let at = entries_end(sector@);
            if count_byte(b, NAME_SEPARATOR) != 1 {
                plan == Err::<EntryPlan, EntryError>(EntryError::InvalidName)
            } else if at + b.len() + 1 > 512 {
                plan == Err::<EntryPlan, EntryError>(EntryError::NameDoesNotFit)
            } else {
                &&& plan is Ok
                &&& plan->Ok_0.entries_end == at
                &&& plan->Ok_0.pointer_at == at + 2 + b.len()
                &&& plan->Ok_0.sector@ == entry_names_written(
                    sector@,
                    at,
                    name_part(b),
                    type_part(b),
                )
            }
        }),
{
    let at = find_entries_end(sector);
    let parts = split_file_name(name);
    match parts {
        None => Err(EntryError::InvalidName),
        Some((file_type, file_name)) => {
            proof {
                let b = name.spec_bytes();
                lemma_first_index_split(file_type@, NAME_SEPARATOR, file_name@);
                assert(b.take(file_type@.len() as int) =~= file_type@);
                assert(b.skip(file_type@.len() as int + 1) =~= file_name@);
            }
            let room = 512 - at;
            let fits = room >= 2 && file_name.len() <= room - 2 && file_type.len() <= room - 2
                - file_name.len();
            if !fits {
                return Err(EntryError::NameDoesNotFit);
            }
            let mut written = *sector;
            let pointer_at = write_entry_names(&mut written, at, &file_name, &file_type);
            Ok(EntryPlan { entries_end: at, sector: written, pointer_at })
        },
    }
}

/// Completes a planned entry with its sector pointer and the double zero
/// byte that ends the directory. `None` when they run past the sector's end.
pub fn complete_entry(plan: &EntryPlan, pointer: u32) -> (sector: Option<[u8; 512]>)
    ensures
        sector is None <==> plan.pointer_at + 6 > 512,
        sector matches Some(s) ==> s@ == entry_pointer_written(
            plan.sector@,
            plan.pointer_at as int,
            pointer,
        ),
{
    if plan.pointer_at > 506 {
        return None;
    }
    let mut written = plan.sector;
    write_entry_pointer(&mut written, plan.pointer_at, pointer);
    Some(written)
}

/// The two bytes that mark a sector as in use.
pub const USED_MARK: u8 = 0x11;

/// A sector counts as unused unless it starts with the two bytes `0x11 0x11`.
pub open spec fn block_empty(b: Seq<u8>) -> bool {
    !(b[0] == USED_MARK && b[1] == USED_MARK)
}

/// Whether a sector is unused: it does not start with `0x11 0x11`.
pub fn is_block_empty(buffer: &[u8; 512]) -> (empty: bool)
    ensures
        empty == block_empty(buffer@),
{
    !(buffer[0] == USED_MARK && buffer[1] == USED_MARK)
}

/// The sector `b` marked as in use.
pub open spec fn marked_used(b: Seq<u8>) -> Seq<u8> {
    b.update(0, USED_MARK).update(1, USED_MARK)
}

/// Marks a sector as in use: its first two bytes become `0x11 0x11`.
pub fn mark_block_used(buffer: &mut [u8; 512])
    ensures
        final(buffer)@ == marked_used(old(buffer)@),
        !block_empty(final(buffer)@),
{
    buffer[0] = USED_MARK;
    buffer[1] = USED_MARK;
}

/// What the search for a free sector does next.
#[derive(Debug, Clone, Copy, PartialEq, Eq, Structural)]
pub enum FreeSectorStep {
    /// Read this sector and hand it to `free_sector_search_next`.
    ReadSector(u32),
    /// The sector just read is free: mark it used, write it back, and answer this sector.
    Claim(u32),
    /// No free sector in the range: answer `None`.
    NotFound,
}

/// The step after looking at sector `lba` of the range ending before `max_lba`.
pub open spec fn next_search_step(lba: u32, max_lba: u32) -> FreeSectorStep {
    if lba + 1 < max_lba {
        FreeSectorStep::ReadSector((lba + 1) as u32)
    } else {
        FreeSectorStep::NotFound
    }
}

/// Starts the search for a free sector among `start_lba..max_lba`.
pub fn free_sector_search_start(start_lba: u32, max_lba: u32) -> (step: FreeSectorStep)
    ensures
        step == if start_lba < max_lba {
            FreeSectorStep::ReadSector(start_lba)
        } else {
            FreeSectorStep::NotFound
        },
{
    if start_lba < max_lba {
        FreeSectorStep::ReadSector(start_lba)
    } else {
        FreeSectorStep::NotFound
    }
}

/// Decides the next step once sector `lba` has been read into `sector`:
/// claim it if it is unused, else go on with the next sector of the range.
pub fn free_sector_search_next(lba: u32, max_lba: u32, sector: &[u8; 512]) -> (step: FreeSectorStep)
    requires
        lba < max_lba,
    ensures
        step == if block_empty(sector@) {
            FreeSectorStep::Claim(lba)
        } else {
            next_search_step(lba, max_lba)
        },
{
    if is_block_empty(sector) {
        FreeSectorStep::Claim(lba)
    } else if lba + 1 < max_lba {
        FreeSectorStep::ReadSector(lba + 1)
    } else {
        FreeSectorStep::NotFound
    }
}

/// The contents of a fresh root directory sector: the in-use mark, then an
/// empty directory (a double zero byte), then zeroes.
pub open spec fn root_directory(b: Seq<u8>) -> bool {
    &&& b.len() == 512
    &&& b[0] == USED_MARK
    &&& b[1] == USED_MARK
    &&& forall|i: int| 2 <= i < 512 ==> b[i] == 0
}

/// Builds the sector of a fresh, empty root directory.
pub fn root_directory_sector() -> (buffer: [u8; 512])
    ensures
        root_directory(buffer@),
{
    let mut buffer = [0u8; 512];
    buffer[0] = USED_MARK;
    buffer[1] = USED_MARK;
    buffer[2] = 0x00;
    buffer[3] = 0x00;
    buffer
}


/// The sector that the search starting at `lba` claims, when `disk[l]` is
/// what sector `l` holds: steps as `free_sector_search_next` decides.
pub open spec fn search_from(disk: Seq<Seq<u8>>, lba: u32, max_lba: u32) -> Option<u32>
    decreases max_lba - lba,
{
    if lba >= max_lba {
        None
    } else if block_empty(disk[lba as int]) {
        Some(lba)
    } else {
        match next_search_step(lba, max_lba) {
            FreeSectorStep::ReadSector(next) => search_from(disk, next, max_lba),
            _ => None,
        }
    }
}

/// The search for a free sector claims the lowest unused sector of the range
/// `start..max_lba`, and finds none only when every sector there is in use.
pub proof fn lemma_search_finds_first_free(disk: Seq<Seq<u8>>, start: u32, max_lba: u32)
    requires
        max_lba <= disk.len(),
    ensures
        match search_from(disk, start, max_lba) {
            Some(l) => {
                &&& start <= l < max_lba
                &&& block_empty(disk[l as int])
                &&& forall|s: int| start <= s < l ==> !block_empty(#[trigger] disk[s])
            },
            None => forall|s: int| start <= s < max_lba ==> !block_empty(#[trigger] disk[s]),
        },
    decreases max_lba - start,
{
    if start < max_lba && !block_empty(disk[start as int]) {
        if start + 1 < max_lba {
            lemma_search_finds_first_free(disk, (start + 1) as u32, max_lba);
        }
    }
}

/// A sector is never handed out twice: after a search claims sector `l1`
/// and marks it used, the same search again claims a later sector or none.
pub proof fn lemma_claimed_sector_not_found_again(disk: Seq<Seq<u8>>, start: u32, max_lba: u32, l1: u32)
    requires
        max_lba <= disk.len(),
        search_from(disk, start, max_lba) == Some(l1),
        disk[l1 as int].len() >= 2,
    ensures
        match search_from(disk.update(l1 as int, marked_used(disk[l1 as int])), start, max_lba) {
            Some(l2) => l2 > l1,
            None => true,
        },
{
    let after = disk.update(l1 as int, marked_used(disk[l1 as int]));
    lemma_search_finds_first_free(disk, start, max_lba);
    lemma_search_finds_first_free(after, start, max_lba);
    assert(!block_empty(after[l1 as int]));
    match search_from(after, start, max_lba) {
        Some(l2) => {
            if l2 < l1 {
                assert(after[l2 as int] == disk[l2 as int]);
                assert(!block_empty(disk[l2 as int]));
            }
        },
        None => {},
    }
}

/// The first zero byte at or after `i` is at `j` when all bytes from `i`
/// up to `j` are non-zero and `b[j]` is zero.
proof fn lemma_next_zero_is(b: Seq<u8>, i: int, j: int)
    requires
        0 <= i <= j < b.len(),
        b[j] == 0,
        forall|k: int| i <= k < j ==> b[k] != 0,
    ensures
        next_zero(b, i) == j,
    decreases j - i,
{
    if i < j {
        lemma_next_zero_is(b, i + 1, j);
    }
}

/// Listing skips bytes that are not zero.
proof fn lemma_scan_skips_nonzero(b: Seq<u8>, i: int, j: int, k: int)
    requires
        0 <= i <= j < b.len(),
        forall|m: int| i <= m < j ==> b[m] != 0,
    ensures
        scan_directory(b, i, k) == scan_directory(b, j, k),
    decreases j - i,
{
    if i < j {
        lemma_scan_skips_nonzero(b, i + 1, j, k);
    }
}

/// A fresh root directory is in use and lists no file.
pub proof fn lemma_root_lists_nothing(root: Seq<u8>)
    requires
        root_directory(root),
    ensures
        !block_empty(root),
        directory_listing(root) == (Seq::<(DirFieldKind, Seq<u8>)>::empty(), true),
{
    lemma_scan_skips_nonzero(root, 0, 2, 0);
}

/// Where the entries of `b` end, read from position `i` on.
proof fn lemma_entries_end_from(b: Seq<u8>, i: int)
    requires
        0 <= i <= 511,
    ensures
        i <= entries_end_from(b, i) <= 511,
        forall|j: int| i <= j < entries_end_from(b, i) ==> !double_zero_at(b, j),
        entries_end_from(b, i) < 511 ==> double_zero_at(b, entries_end_from(b, i)),
    decreases 511 - i,
{
    if i < 511 && !double_zero_at(b, i) {
        lemma_entries_end_from(b, i + 1);
    }
}

/// Listing a sector that differs from `old` only after position `at`, where
/// `old` holds its first double zero byte: up to `at` both list the same
/// fields, which are all that `old` lists.
proof fn lemma_scan_prefix(old: Seq<u8>, new: Seq<u8>, i: int, k: int, at: int)
    requires
        0 <= i <= at,
        at + 1 < old.len(),
        old.len() == new.len(),
        double_zero_at(old, at),
        forall|j: int| 0 <= j < at ==> !double_zero_at(old, j),
        forall|j: int| i <= j <= at ==> new[j] == old[j],
    ensures
        scan_directory(old, i, k).1,
        scan_directory(new, i, k) == (
            scan_directory(old, i, k).0 + scan_directory(
                new,
                at,
                k + scan_directory(old, i, k).0.len(),
            ).0,
            scan_directory(new, at, k + scan_directory(old, i, k).0.len()).1,
        ),
    decreases at - i,
{
    if i == at {
        assert(scan_directory(old, i, k).0 =~= Seq::<(DirFieldKind, Seq<u8>)>::empty());
        assert(Seq::<(DirFieldKind, Seq<u8>)>::empty() + scan_directory(new, at, k).0
            =~= scan_directory(new, at, k).0);
    } else {
        assert(!double_zero_at(old, i));
        assert(new[i] == old[i] && new[i + 1] == old[i + 1]);
        if old[i] == 0 {
            lemma_next_zero_bounds(old, i + 1);
            let j = next_zero(old, i + 1);
            assert(j <= at) by {
                if j > at {
                    assert(old[at] != 0);
                }
            }
            assert(old[j] == 0);
            assert(new[j] == 0);
            assert forall|m: int| i + 1 <= m < j implies new[m] != 0 by {
                assert(old[m] != 0);
            }
            lemma_next_zero_is(new, i + 1, j);
            assert(new.subrange(i + 1, j) =~= old.subrange(i + 1, j));
            lemma_scan_prefix(old, new, j, k + 1, at);
            let field = (field_kind(k), old.subrange(i + 1, j));
            let rest_old = scan_directory(old, j, k + 1).0;
            assert(scan_directory(old, i, k).0 == seq![field] + rest_old);
            assert(seq![field] + rest_old + scan_directory(new, at, k + 1 + rest_old.len()).0
                =~= seq![field] + (rest_old + scan_directory(new, at, k + 1 + rest_old.len()).0));
        } else {
            lemma_scan_prefix(old, new, i + 1, k, at);
        }
    }
}

/// A file created in a directory shows up when the directory is listed.
/// When the directory's entries end at `at` (a double zero byte) and the
/// byte just past the new type is zero, writing the name, the type and a
/// sector pointer below 256 there makes the listing show the fields listed
/// before, then the name, the type, and the pointer's byte when it is not
/// zero, and then end. The name comes first in its group of three fields,
/// which is labelled the type.
pub proof fn lemma_created_file_is_listed(
    dir: Seq<u8>,
    file_name: Seq<u8>,
    file_type: Seq<u8>,
    pointer: u32,
)
    requires
        dir.len() == 512,
        entries_end(dir) < 511,
        file_name.len() > 0,
        file_type.len() > 0,
        !file_name.contains(0u8),
        !file_type.contains(0u8),
        entries_end(dir) + 9 + file_name.len() + file_type.len() <= 512,
        dir[entries_end(dir) + 2 + file_name.len() + file_type.len()] == 0,
        pointer < 256,
    ensures
        directory_listing(dir).1,
        ({
            let at = entries_end(dir);
            let n = file_name.len() as int;
            let t = file_type.len() as int;
            let named = entry_names_written(dir, at, file_name, file_type);
            let created = entry_pointer_written(named, at + 3 + n + t, pointer);
            let before = directory_listing(dir).0;
            let k = before.len() as int;
            let shown = before + seq![
                (field_kind(k), file_name),
                (field_kind(k + 1), file_type),
            ];
            if pointer == 0 {
                directory_listing(created) == (shown, true)
            } else {
                directory_listing(created) == (
                    shown.push((field_kind(k + 2), seq![pointer as u8])),
                    true,
                )
            }
        }),
{
    let at = entries_end(dir);
    lemma_entries_end_from(dir, 0);
    let n = file_name.len() as int;
    let t = file_type.len() as int;
    let named = entry_names_written(dir, at, file_name, file_type);
    let b = entry_pointer_written(named, at + 3 + n + t, pointer);
    assert(named.len() == 512);
    assert(b.len() == 512);
    assert forall|j: int| 0 <= j < at implies b[j] == dir[j] by {
        assert(named[j] == dir[j]);
    }
    assert(b[at] == 0);
    assert forall|m: int| 0 <= m < n implies b[at + 1 + m] == file_name[m] && b[at + 1 + m]
        != 0 by {
        assert(named[at + 1 + m] == file_name[m]);
        assert(file_name.contains(file_name[m]));
    }
    assert(b[at + 1 + n] == 0);
    assert forall|m: int| 0 <= m < t implies b[at + 2 + n + m] == file_type[m] && b[at + 2 + n
        + m] != 0 by {
        assert(named[at + 2 + n + m] == file_type[m]);
        assert(file_type.contains(file_type[m]));
    }
    assert(named[at + 2 + n + t] == dir[at + 2 + n + t]);
    assert(b[at + 2 + n + t] == 0);
    assert(b[at + 3 + n + t] == (pointer % 0x100) as u8);
    assert(b[at + 4 + n + t] == 0);
    assert(b[at + 5 + n + t] == 0);
    assert(b[at + 6 + n + t] == 0);
    // Up to `at`, the new sector lists what the directory listed.
    assert(dir[at] == 0);
    lemma_scan_prefix(dir, b, 0, 0, at);
    let before = directory_listing(dir).0;
    let k = before.len() as int;
    // The name.
    assert(b[at + 1] == file_name[0]);
    lemma_next_zero_is(b, at + 1, at + 1 + n);
    assert(b.subrange(at + 1, at + 1 + n) =~= file_name);
    // The type.
    assert(b[at + 2 + n] == file_type[0]);
    lemma_next_zero_is(b, at + 2 + n, at + 2 + n + t);
    assert(b.subrange(at + 2 + n, at + 2 + n + t) =~= file_type);
    let rest2 = scan_directory(b, at + 2 + n + t, k + 2);
    if pointer == 0 {
        assert(rest2 == (Seq::<(DirFieldKind, Seq<u8>)>::empty(), true));
    } else {
        lemma_next_zero_is(b, at + 3 + n + t, at + 4 + n + t);
        assert(b.subrange(at + 3 + n + t, at + 4 + n + t) =~= seq![pointer as u8]);
        assert(scan_directory(b, at + 4 + n + t, k + 3) == (
            Seq::<(DirFieldKind, Seq<u8>)>::empty(),
            true,
        ));
    }
    let s_at = scan_directory(b, at, k);
    let s_type = scan_directory(b, at + 1 + n, k + 1);
    assert(s_type.0 == seq![(field_kind(k + 1), file_type)] + rest2.0);
    assert(s_at.0 == seq![(field_kind(k), file_name)] + s_type.0);
    let shown = before + seq![(field_kind(k), file_name), (field_kind(k + 1), file_type)];
    if pointer == 0 {
        assert(before + s_at.0 =~= shown);
    } else {
        assert(before + s_at.0 =~= shown.push((field_kind(k + 2), seq![pointer as u8])));
    }
}

/// A file created in a fresh root directory is the only one it lists: the
/// entries of a fresh root end at position 2.
pub proof fn lemma_created_file_in_root(root: Seq<u8>, file_name: Seq<u8>, file_type: Seq<u8>, pointer: u32)
    requires
        root_directory(root),
        file_name.len() > 0,
        file_type.len() > 0,
        !file_name.contains(0u8),
        !file_type.contains(0u8),
        11 + file_name.len() + file_type.len() <= 512,
        0 < pointer < 256,
    ensures
        entries_end(root) == 2,
        ({
            let n = file_name.len() as int;
            let t = file_type.len() as int;
            let created = entry_pointer_written(
                entry_names_written(root, 2, file_name, file_type),
                5 + n + t,
                pointer,
            );
            directory_listing(created) == (
                seq![
                    (DirFieldKind::FileType, file_name),
                    (DirFieldKind::FileName, file_type),
                    (DirFieldKind::FilePointer, seq![pointer as u8]),
                ],
                true,
            )
        }),
{
    assert(!double_zero_at(root, 0) && !double_zero_at(root, 1) && double_zero_at(root, 2));
    assert(entries_end_from(root, 2) == 2);
    assert(entries_end_from(root, 1) == 2);
    lemma_root_lists_nothing(root);
    lemma_created_file_is_listed(root, file_name, file_type, pointer);
    let shown = Seq::<(DirFieldKind, Seq<u8>)>::empty() + seq![
        (field_kind(0), file_name),
        (field_kind(1), file_type),
    ];
    assert(shown.push((field_kind(2), seq![pointer as u8])) =~= seq![
        (DirFieldKind::FileType, file_name),
        (DirFieldKind::FileName, file_type),
        (DirFieldKind::FilePointer, seq![pointer as u8]),
    ]);
}

/// Field labels go round in threes: the first field is a file type, the
/// next a file name, the next a file pointer, and then the round starts over.
pub proof fn lemma_field_kinds_cycle(k: int)
    requires
        k >= 0,
    ensures
        field_kind(0) == DirFieldKind::FileType,
        field_kind(1) == DirFieldKind::FileName,
        field_kind(2) == DirFieldKind::FilePointer,
        field_kind(k + 3) == field_kind(k),
        field_kind(k) == field_kind(k % 3),
{
    assert((k + 3) % 3 == k % 3);
    assert((k % 3) % 3 == k % 3);
}

/// The `j`-th field found from position `i`, `k` fields having come before,
/// is labelled as field `k + j`.
proof fn lemma_scan_kinds(b: Seq<u8>, i: int, k: int)
    ensures
        forall|j: int|
            0 <= j < scan_directory(b, i, k).0.len() ==> (#[trigger] scan_directory(b, i, k).0[j]).0
                == field_kind(k + j),
    decreases b.len() - i,
{
    if i < 0 || i >= b.len() {
    } else if i + 1 < b.len() && b[i] == 0 && b[i + 1] == 0 {
    } else if b[i] == 0 {
        lemma_next_zero_bounds(b, i + 1);
        let j = next_zero(b, i + 1);
        lemma_scan_kinds(b, j, k + 1);
        let rest = scan_directory(b, j, k + 1).0;
        let all = scan_directory(b, i, k).0;
        assert(all == seq![(field_kind(k), b.subrange(i + 1, j))] + rest);
        assert forall|m: int| 0 <= m < all.len() implies (#[trigger] all[m]).0 == field_kind(k + m) by {
            if m > 0 {
                assert(all[m] == rest[m - 1]);
            }
        }
    } else {
        lemma_scan_kinds(b, i + 1, k);
    }
}

/// In every directory listing the fields are labelled file type, file name,
/// file pointer, file type, ... in turn: the label of field `j` is fixed by
/// `j % 3` alone.
pub proof fn lemma_listing_labels(b: Seq<u8>)
    ensures
        forall|j: int|
            0 <= j < directory_listing(b).0.len() ==> (#[trigger] directory_listing(b).0[j]).0 == if j
                % 3 == 0 {
                DirFieldKind::FileType
            } else if j % 3 == 1 {
                DirFieldKind::FileName
            } else {
                DirFieldKind::FilePointer
            },
{
    lemma_scan_kinds(b, 0, 0);
    assert forall|j: int| 0 <= j < directory_listing(b).0.len() implies (
    #[trigger] directory_listing(b).0[j]).0 == if j % 3 == 0 {
        DirFieldKind::FileType
    } else if j % 3 == 1 {
        DirFieldKind::FileName
    } else {
        DirFieldKind::FilePointer
    } by {
        lemma_field_kinds_cycle(j);
        lemma_field_kinds_cycle(j % 3);
        assert(field_kind(0 + j) == field_kind(j));
        if j % 3 == 1 {
            assert(field_kind(j) == field_kind(1));
        } else if j % 3 == 2 {
            assert(field_kind(j) == field_kind(2));
        } else {
            assert(field_kind(j) == field_kind(0));
        }
    }
}

/// A sector counts as in use exactly when its first two bytes are both
/// `0x11`: any other first byte, or any other second byte, leaves it unused,
/// and marking a sector always makes it used.
pub proof fn lemma_block_use(b: Seq<u8>)
    requires
        b.len() >= 2,
    ensures
        !block_empty(b) <==> (b[0] == 0x11u8 && b[1] == 0x11u8),
        b[0] != 0x11u8 ==> block_empty(b),
        b[1] != 0x11u8 ==> block_empty(b),
        !block_empty(marked_used(b)),
        marked_used(b)[0] == 0x11u8 && marked_used(b)[1] == 0x11u8,
{
}

/// The drive transfers each 16-bit word low byte first: byte `2i` plus 256
/// times byte `2i + 1` of a sector gives back word `i`.
pub proof fn lemma_words_little_endian(words: Seq<u16>)
    ensures
        bytes_of_words(words).len() == 2 * words.len(),
        forall|i: int|
            0 <= i < words.len() ==> bytes_of_words(words)[2 * i] + 256 * bytes_of_words(words)[2 * i
                + 1] == #[trigger] words[i],
{
    assert forall|i: int| 0 <= i < words.len() implies bytes_of_words(words)[2 * i] + 256
        * bytes_of_words(words)[2 * i + 1] == #[trigger] words[i] by {
        let w = words[i];
        assert((2 * i) / 2 == i);
        assert((2 * i + 1) / 2 == i);
        assert((2 * i) % 2 == 0);
        assert((2 * i + 1) % 2 == 1);
        assert((w % 256) + 256 * (w / 256) == w) by (nonlinear_arith)
            requires
                0 <= w,
        ;
    }
}

/// A sector pointer is stored least significant byte first: its four bytes,
/// weighted by 1, 256, 65536 and 16777216, add up to the pointer.
pub proof fn lemma_pointer_little_endian(v: u32)
    ensures
        le_bytes(v).len() == 4,
        le_bytes(v)[0] + 0x100 * le_bytes(v)[1] + 0x1_0000 * le_bytes(v)[2] + 0x100_0000 * le_bytes(
            v,
        )[3] == v,
{
    let b0 = v % 0x100;
    let b1 = (v / 0x100) % 0x100;
    let b2 = (v / 0x1_0000) % 0x100;
    let b3 = (v / 0x100_0000) % 0x100;
    assert(b0 + 0x100 * b1 + 0x1_0000 * b2 + 0x100_0000 * b3 == v) by (nonlinear_arith)
        requires
            b0 == v % 0x100,
            b1 == (v / 0x100) % 0x100,
            b2 == (v / 0x1_0000) % 0x100,
            b3 == (v / 0x100_0000) % 0x100,
            0 <= v < 0x1_0000_0000,
    ;
}

} // verus!
