//! A stored (uncompressed) zip archive built in memory: a local header and
//! the data of each file, then the central directory and its end record.
use vstd::prelude::*;
use vstd::utf8::encode_utf8;
use crate::text::concat2;

verus! {

/// `v` as two little-endian bytes.
pub open spec fn le16(v: u16) -> Seq<u8> {
    seq![(v & 0xff) as u8, (v >> 8) as u8]
}

/// `v` as four little-endian bytes.
pub open spec fn le32(v: u32) -> Seq<u8> {
    seq![(v & 0xff) as u8, ((v >> 8) & 0xff) as u8, ((v >> 16) & 0xff) as u8, (v >> 24) as u8]
}

/// One shift of the reflected CRC-32 register (polynomial 0xEDB88320).
pub open spec fn crc_shift(c: u32) -> u32 {
    if c & 1 == 1 {
        (c >> 1) ^ 0xedb8_8320
    } else {
        c >> 1
    }
}

pub open spec fn crc_shifts(c: u32, n: nat) -> u32
    decreases n,
{
    if n == 0 {
        c
    } else {
        crc_shift(crc_shifts(c, (n - 1) as nat))
    }
}

/// The register after feeding `bytes`, starting from all ones.
pub open spec fn crc_register(bytes: Seq<u8>) -> u32
    decreases bytes.len(),
{
    if bytes.len() == 0 {
        0xffff_ffff
    } else {
        crc_shifts(crc_register(bytes.drop_last()) ^ (bytes.last() as u32), 8)
    }
}

/// The CRC-32 of `bytes` (as zip and PNG use it).
pub open spec fn crc32(bytes: Seq<u8>) -> u32 {
    !crc_register(bytes)
}

/// The DOS date 1980-01-01 that every entry carries.
pub open spec fn zip_date() -> u16 {
    33
}

/// The fixed 30 bytes of a local file header.
pub open spec fn local_header_fixed(crc: u32, size: u32, name_len: u16) -> Seq<u8> {
    le32(0x0403_4b50) + le16(20) + le16(0) + le16(0) + le16(0) + le16(zip_date()) + le32(crc) + le32(
        size,
    ) + le32(size) + le16(name_len) + le16(0)
}

/// The fixed 46 bytes of a central directory entry.
pub open spec fn central_fixed(crc: u32, size: u32, name_len: u16, offset: u32) -> Seq<u8> {
    le32(0x0201_4b50) + le16(20) + le16(20) + le16(0) + le16(0) + le16(0) + le16(zip_date()) + le32(
        crc,
    ) + le32(size) + le32(size) + le16(name_len) + le16(0) + le16(0) + le16(0) + le16(0) + le32(0)
        + le32(offset)
}

/// The end-of-central-directory record.
pub open spec fn end_record(count: u16, cd_size: u32, cd_offset: u32) -> Seq<u8> {
    le32(0x0605_4b50) + le16(0) + le16(0) + le16(count) + le16(count) + le32(cd_size) + le32(cd_offset)
        + le16(0)
}

/// One file recorded in the archive.
pub struct SimpleZipEntry {
    pub name: String,
    pub crc32: u32,
    pub size: u32,
    pub local_header_offset: u32,
}

/// An archive being written: the bytes so far and the files recorded.
pub struct SimpleZipWriter {
    pub bytes: Vec<u8>,
    pub entries: Vec<SimpleZipEntry>,
}

/// The UTF-8 bytes of an entry's name.
pub open spec fn name_bytes(e: SimpleZipEntry) -> Seq<u8> {
    encode_utf8(e.name@)
}

/// Entry `e` is in `bytes`: its local header at its offset, then its name,
/// then data of its size whose CRC-32 is the recorded one.
pub open spec fn entry_located(bytes: Seq<u8>, e: SimpleZipEntry) -> bool {
    let off = e.local_header_offset as int;
    let nb = name_bytes(e);
    let data = off + 30 + nb.len();
    &&& nb.len() <= 65535
    &&& data + e.size <= bytes.len()
    &&& bytes.subrange(off, off + 30) == local_header_fixed(e.crc32, e.size, nb.len() as u16)
    &&& bytes.subrange(off + 30, data) == nb
    &&& crc32(bytes.subrange(data, data + e.size)) == e.crc32
}

/// Every recorded entry is where the central directory will say it is.
pub open spec fn zip_well_formed(w: SimpleZipWriter) -> bool {
    forall|k: int| 0 <= k < w.entries@.len() ==> entry_located(w.bytes@, #[trigger] w.entries@[k])
}

pub open spec fn too_large_message() -> Seq<char> {
    "runtime backup zip is too large for zip32 format"@
}

/// Why a file cannot be added at `offset`, if it cannot.
pub open spec fn start_file_error(name: Seq<char>, size: int, offset: int) -> Option<Seq<char>> {
    if encode_utf8(name).len() > 65535 {
        Some("runtime backup zip entry name is too long: "@ + name)
    } else if size > 0xffff_ffff {
        Some("runtime backup file is too large for zip32 entry: "@ + name)
    } else if offset > 0xffff_ffff {
        Some(too_large_message())
    } else {
        None
    }
}

/// An entry as values: name, CRC-32, size, offset of its local header.
pub open spec fn entry_view(e: SimpleZipEntry) -> (Seq<char>, u32, u32, u32) {
    (e.name@, e.crc32, e.size, e.local_header_offset)
}

pub open spec fn entries_view(es: Seq<SimpleZipEntry>) -> Seq<(Seq<char>, u32, u32, u32)> {
    es.map_values(|e: SimpleZipEntry| entry_view(e))
}

/// The central directory record of one entry.
pub open spec fn central_record(e: (Seq<char>, u32, u32, u32)) -> Seq<u8> {
    central_fixed(e.1, e.2, encode_utf8(e.0).len() as u16, e.3) + encode_utf8(e.0)
}

/// The central directory of the entries.
pub open spec fn central_directory(entries: Seq<(Seq<char>, u32, u32, u32)>) -> Seq<u8>
    decreases entries.len(),
{
    if entries.len() == 0 {
        Seq::empty()
    } else {
        central_directory(entries.drop_last()) + central_record(entries.last())
    }
}

/// Why an archive of these bytes and entries cannot be finished, if it
/// cannot.
pub open spec fn finish_error_of(bytes: Seq<u8>, entries: Seq<(Seq<char>, u32, u32, u32)>) -> Option<Seq<char>> {
    if bytes.len() > 0xffff_ffff {
        Some(too_large_message())
    } else if entries.len() > 65535 {
        Some("runtime backup zip has too many entries"@)
    } else if bytes.len() + central_directory(entries).len() > 0xffff_ffff {
        Some(too_large_message())
    } else {
        None
    }
}

/// The finished archive: the bytes written, the central directory, the end
/// record.
pub open spec fn finished_archive_of(bytes: Seq<u8>, entries: Seq<(Seq<char>, u32, u32, u32)>) -> Seq<u8> {
    let cd = central_directory(entries);
    bytes + cd + end_record(entries.len() as u16, cd.len() as u32, bytes.len() as u32)
}

pub open spec fn finish_error(w: SimpleZipWriter) -> Option<Seq<char>> {
    finish_error_of(w.bytes@, entries_view(w.entries@))
}

pub open spec fn finished_archive(w: SimpleZipWriter) -> Seq<u8> {
    finished_archive_of(w.bytes@, entries_view(w.entries@))
}

fn write_u16(bytes: &mut Vec<u8>, v: u16)
    ensures
        final(bytes)@ == old(bytes)@ + le16(v),
{
    bytes.push((v & 0xff) as u8);
    bytes.push((v >> 8) as u8);
    proof {
        assert(final(bytes)@ =~= old(bytes)@ + le16(v));
    }
}

fn write_u32(bytes: &mut Vec<u8>, v: u32)
    ensures
        final(bytes)@ == old(bytes)@ + le32(v),
{
    bytes.push((v & 0xff) as u8);
    bytes.push(((v >> 8) & 0xff) as u8);
    bytes.push(((v >> 16) & 0xff) as u8);
    bytes.push((v >> 24) as u8);
    proof {
        assert(final(bytes)@ =~= old(bytes)@ + le32(v));
    }
}

fn write_bytes(bytes: &mut Vec<u8>, src: &[u8])
    ensures
        final(bytes)@ == old(bytes)@ + src@,
{
    let mut i: usize = 0;
    while i < src.len()
        invariant
            0 <= i <= src@.len(),
            bytes@ == old(bytes)@ + src@.take(i as int),
        decreases src@.len() - i,
    {
        bytes.push(src[i]);
        proof {
            assert(src@.take(i + 1) =~= src@.take(i as int).push(src@[i as int]));
        }
        i = i + 1;
    }
    proof {
        assert(src@.take(i as int) =~= src@);
    }
}

/// The CRC-32 of the bytes.
pub fn calculate_crc32(contents: &[u8]) -> (r: u32)
    ensures
        r == crc32(contents@),
{
    let mut crc: u32 = 0xffff_ffff;
    let mut i: usize = 0;
    proof {
        assert(contents@.take(0) =~= Seq::<u8>::empty());
    }
    while i < contents.len()
        invariant
            0 <= i <= contents@.len(),
            crc == crc_register(contents@.take(i as int)),
        decreases contents@.len() - i,
    {
        let ghost x = crc ^ (contents@[i as int] as u32);
        crc = crc ^ (contents[i] as u32);
        let mut k: u32 = 0;
        while k < 8
            invariant
                0 <= k <= 8,
                crc == crc_shifts(x, k as nat),
            decreases 8 - k,
        {
            if crc & 1 == 1 {
                crc = (crc >> 1) ^ 0xedb8_8320;
            } else {
                crc = crc >> 1;
            }
            k = k + 1;
        }
        proof {
            assert(contents@.take(i + 1).drop_last() =~= contents@.take(i as int));
            assert(contents@.take(i + 1).last() == contents@[i as int]);
        }
        i = i + 1;
    }
    proof {
        assert(contents@.take(i as int) =~= contents@);
    }
    !crc
}

proof fn lemma_append_keeps_located(bytes: Seq<u8>, extra: Seq<u8>, e: SimpleZipEntry)
    requires
        entry_located(bytes, e),
    ensures
        entry_located(bytes + extra, e),
{
    let off = e.local_header_offset as int;
    let nb = name_bytes(e);
    let data = off + 30 + nb.len();
    let all = bytes + extra;
    assert(all.subrange(off, off + 30) =~= bytes.subrange(off, off + 30));
    assert(all.subrange(off + 30, data) =~= bytes.subrange(off + 30, data));
    assert(all.subrange(data, data + e.size) =~= bytes.subrange(data, data + e.size));
}

/// Appends the central directory entry of `entry`.
fn write_central_entry(bytes: &mut Vec<u8>, entry: &SimpleZipEntry)
    requires
        name_bytes(*entry).len() <= 65535,
    ensures
        final(bytes)@ == old(bytes)@ + central_record(entry_view(*entry)),
{
    let nb = entry.name.as_str().as_bytes();
    let name_length = nb.len() as u16;
    let ghost before = bytes@;
    write_u32(bytes, 0x0201_4b50);
    write_u16(bytes, 20);
    write_u16(bytes, 20);
    write_u16(bytes, 0);
    write_u16(bytes, 0);
    write_u16(bytes, 0);
    write_u16(bytes, 33);
    write_u32(bytes, entry.crc32);
    write_u32(bytes, entry.size);
    write_u32(bytes, entry.size);
    write_u16(bytes, name_length);
    write_u16(bytes, 0);
    write_u16(bytes, 0);
    write_u16(bytes, 0);
    write_u16(bytes, 0);
    write_u32(bytes, 0);
    write_u32(bytes, entry.local_header_offset);
    let ghost fixed = bytes@;
    proof {
        assert(fixed =~= before + central_fixed(entry.crc32, entry.size, name_length, entry.local_header_offset));
    }
    write_bytes(bytes, nb);
}

impl SimpleZipWriter {
    /// An empty archive.
    pub fn new() -> (w: Self)
        ensures
            w.bytes@.len() == 0,
            w.entries@.len() == 0,
            zip_well_formed(w),
    {
        SimpleZipWriter { bytes: Vec::new(), entries: Vec::new() }
    }

    /// Adds a stored file: its local header, name and data.
    pub fn start_file(&mut self, name: &str, contents: &[u8]) -> (r: Result<(), String>)
        requires
            zip_well_formed(*old(self)),
        ensures
            zip_well_formed(*final(self)),
            match start_file_error(name@, contents@.len() as int, old(self).bytes@.len() as int) {
                Some(m) => r is Err && r->Err_0@ == m && final(self).bytes@ == old(self).bytes@
                    && final(self).entries@ == old(self).entries@,
                None => {
                    &&& r is Ok
                    &&& final(self).bytes@ == old(self).bytes@ + local_header_fixed(
                        crc32(contents@),
                        contents@.len() as u32,
                        encode_utf8(name@).len() as u16,
                    ) + encode_utf8(name@) + contents@
                    &&& final(self).entries@.len() == old(self).entries@.len() + 1
                    &&& final(self).entries@.drop_last() == old(self).entries@
                    &&& final(self).entries@.last().name@ == name@
                    &&& final(self).entries@.last().crc32 == crc32(contents@)
                    &&& final(self).entries@.last().size == contents@.len()
                    &&& final(self).entries@.last().local_header_offset == old(self).bytes@.len()
                },
            },
    {
        let nb = name.as_bytes();
        if nb.len() > 65535 {
            return Err(concat2("runtime backup zip entry name is too long: ", name));
        }
        let name_length = nb.len() as u16;
        if contents.len() as u64 > 0xffff_ffffu64 {
            return Err(concat2("runtime backup file is too large for zip32 entry: ", name));
        }
        let size = contents.len() as u32;
        if self.bytes.len() as u64 > 0xffff_ffffu64 {
            return Err("runtime backup zip is too large for zip32 format".to_owned());
        }
        let local_header_offset = self.bytes.len() as u32;
        let crc = calculate_crc32(contents);
        let ghost before = self.bytes@;
        write_u32(&mut self.bytes, 0x0403_4b50);
        write_u16(&mut self.bytes, 20);
        write_u16(&mut self.bytes, 0);
        write_u16(&mut self.bytes, 0);
        write_u16(&mut self.bytes, 0);
        write_u16(&mut self.bytes, 33);
        write_u32(&mut self.bytes, crc);
        write_u32(&mut self.bytes, size);
        write_u32(&mut self.bytes, size);
        write_u16(&mut self.bytes, name_length);
        write_u16(&mut self.bytes, 0);
        let ghost header = local_header_fixed(crc, size, name_length);
        proof {
            assert(self.bytes@ =~= before + header);
        }
        write_bytes(&mut self.bytes, nb);
        write_bytes(&mut self.bytes, contents);
        let ghost added = header + nb@ + contents@;
        proof {
            assert(self.bytes@ =~= before + added);
            assert forall|k: int| 0 <= k < self.entries@.len() implies entry_located(
                self.bytes@,
                #[trigger] self.entries@[k],
            ) by {
                lemma_append_keeps_located(before, added, self.entries@[k]);
            }
        }
        let entry = SimpleZipEntry { name: name.to_owned(), crc32: crc, size, local_header_offset };
        proof {
            let off = local_header_offset as int;
            let all = self.bytes@;
            assert(header.len() == 30);
            assert(all.subrange(off, off + 30) =~= header);
            assert(all.subrange(off + 30, off + 30 + nb@.len()) =~= nb@);
            assert(all.subrange(off + 30 + nb@.len(), off + 30 + nb@.len() + size) =~= contents@);
            assert(name_bytes(entry) == nb@);
            assert(entry_located(all, entry));
        }
        let ghost entries_before = self.entries@;
        self.entries.push(entry);
        proof {
            assert(self.entries@.drop_last() =~= entries_before);
            assert forall|k: int| 0 <= k < self.entries@.len() implies entry_located(
                self.bytes@,
                #[trigger] self.entries@[k],
            ) by {
                if k < entries_before.len() {
                    assert(self.entries@[k] == entries_before[k]);
                }
            }
        }
        Ok(())
    }

    /// Writes the central directory and the end record, giving the archive.
    pub fn finish(self) -> (r: Result<Vec<u8>, String>)
        requires
            zip_well_formed(self),
        ensures
            match finish_error(self) {
                Some(m) => r is Err && r->Err_0@ == m,
                None => r is Ok && r->Ok_0@ == finished_archive(self),
            },
    {
        let mut bytes = self.bytes;
        let entries = self.entries;
        if bytes.len() as u64 > 0xffff_ffffu64 {
            return Err("runtime backup zip is too large for zip32 format".to_owned());
        }
        let central_directory_offset = bytes.len() as u32;
        if entries.len() > 65535 {
            return Err("runtime backup zip has too many entries".to_owned());
        }
        let entry_count = entries.len() as u16;
        let ghost start = bytes@;
        let mut i: usize = 0;
        proof {
            assert(entries_view(entries@.take(0)) =~= Seq::<(Seq<char>, u32, u32, u32)>::empty());
            assert(bytes@ =~= start + central_directory(entries_view(entries@.take(0))));
        }
        while i < entries.len()
            invariant
                0 <= i <= entries@.len(),
                entries@ == self.entries@,
                zip_well_formed(self),
                bytes@ == start + central_directory(entries_view(entries@.take(i as int))),
            decreases entries@.len() - i,
        {
            let entry = &entries[i];
            proof {
                assert(entry_located(self.bytes@, self.entries@[i as int]));
            }
            let ghost before = bytes@;
            write_central_entry(&mut bytes, entry);
            proof {
                assert(entries_view(entries@.take(i + 1)).drop_last() =~= entries_view(entries@.take(i as int)));
                assert(entries_view(entries@.take(i + 1)).last() == entry_view(entries@[i as int]));
                assert(bytes@ =~= start + central_directory(entries_view(entries@.take(i + 1))));
            }
            i = i + 1;
        }
        proof {
            assert(entries@.take(i as int) =~= entries@);
        }
        if bytes.len() as u64 > 0xffff_ffffu64 {
            return Err("runtime backup zip is too large for zip32 format".to_owned());
        }
        let central_directory_size = (bytes.len() as u32) - central_directory_offset;
        let ghost before = bytes@;
        write_u32(&mut bytes, 0x0605_4b50);
        write_u16(&mut bytes, 0);
        write_u16(&mut bytes, 0);
        write_u16(&mut bytes, entry_count);
        write_u16(&mut bytes, entry_count);
        write_u32(&mut bytes, central_directory_size);
        write_u32(&mut bytes, central_directory_offset);
        write_u16(&mut bytes, 0);
        proof {
            assert(bytes@ =~= before + end_record(entry_count, central_directory_size, central_directory_offset));
        }
        Ok(bytes)
    }
}

} // verus!
