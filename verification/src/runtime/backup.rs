//! The zip backup of a bundle: its name, the archive path of each file, and
//! the archive built from the files' contents.
use vstd::prelude::*;
use vstd::utf8::encode_utf8;
use crate::runtime::zip::{
    SimpleZipWriter, zip_well_formed, start_file_error, finish_error_of, finished_archive_of,
    local_header_fixed, crc32, entries_view,
};
use crate::text::{concat2, concat3, trim, trim_str, nat_decimal, u64_to_decimal};

verus! {

/// A file to archive: its path inside the archive and its contents.
pub struct BackupFile {
    pub zip_path: String,
    pub contents: Vec<u8>,
}

pub open spec fn file_view(f: BackupFile) -> (Seq<char>, Seq<u8>) {
    (f.zip_path@, f.contents@)
}

pub open spec fn files_view(fs: Seq<BackupFile>) -> Seq<(Seq<char>, Seq<u8>)> {
    fs.map_values(|f: BackupFile| file_view(f))
}

/// The local records of the files one after another.
pub open spec fn archive_body(files: Seq<(Seq<char>, Seq<u8>)>) -> Seq<u8>
    decreases files.len(),
{
    if files.len() == 0 {
        Seq::empty()
    } else {
        let (n, c) = files.last();
        archive_body(files.drop_last()) + local_header_fixed(
            crc32(c),
            c.len() as u32,
            encode_utf8(n).len() as u16,
        ) + encode_utf8(n) + c
    }
}

/// The entries the central directory lists for the files.
pub open spec fn archive_entries(files: Seq<(Seq<char>, Seq<u8>)>) -> Seq<(Seq<char>, u32, u32, u32)>
    decreases files.len(),
{
    if files.len() == 0 {
        Seq::empty()
    } else {
        let (n, c) = files.last();
        archive_entries(files.drop_last()).push(
            (n, crc32(c), c.len() as u32, archive_body(files.drop_last()).len() as u32),
        )
    }
}

/// The first file that cannot be added, and why.
pub open spec fn add_error(files: Seq<(Seq<char>, Seq<u8>)>) -> Option<Seq<char>>
    decreases files.len(),
{
    if files.len() == 0 {
        None
    } else {
        match add_error(files.drop_last()) {
            Some(m) => Some(m),
            None => start_file_error(
                files.last().0,
                files.last().1.len() as int,
                archive_body(files.drop_last()).len() as int,
            ),
        }
    }
}

/// The archive of the files in order, or why it cannot be built.
pub open spec fn spec_backup_zip(files: Seq<(Seq<char>, Seq<u8>)>) -> Result<Seq<u8>, Seq<char>> {
    match add_error(files) {
        Some(m) => Err(m),
        None => match finish_error_of(archive_body(files), archive_entries(files)) {
            Some(m) => Err(m),
            None => Ok(finished_archive_of(archive_body(files), archive_entries(files))),
        },
    }
}

pub open spec fn bytes_result_view(r: Result<Vec<u8>, String>) -> Result<Seq<u8>, Seq<char>> {
    match r {
        Ok(b) => Ok(b@),
        Err(e) => Err(e@),
    }
}

/// The stored zip archive of the files, in order.
pub fn build_runtime_backup_zip(files: &Vec<BackupFile>) -> (r: Result<Vec<u8>, String>)
    ensures
        bytes_result_view(r) == spec_backup_zip(files_view(files@)),
{
    let ghost fv = files_view(files@);
    let mut writer = SimpleZipWriter::new();
    let mut i: usize = 0;
    proof {
        assert(fv.take(0) =~= Seq::<(Seq<char>, Seq<u8>)>::empty());
        assert(entries_view(writer.entries@) =~= Seq::<(Seq<char>, u32, u32, u32)>::empty());
    }
    while i < files.len()
        invariant
            0 <= i <= files@.len(),
            fv == files_view(files@),
            zip_well_formed(writer),
            add_error(fv.take(i as int)) is None,
            writer.bytes@ == archive_body(fv.take(i as int)),
            entries_view(writer.entries@) == archive_entries(fv.take(i as int)),
        decreases files@.len() - i,
    {
        let file = &files[i];
        let ghost before = writer;
        proof {
            assert(fv.take(i + 1).drop_last() =~= fv.take(i as int));
            assert(fv.take(i + 1).last() == file_view(files@[i as int]));
        }
        match writer.start_file(file.zip_path.as_str(), file.contents.as_slice()) {
            Ok(()) => {},
            Err(e) => {
                proof {
                    lemma_add_error_stays(fv, i as int + 1);
                }
                return Err(e);
            },
        }
        proof {
            assert(entries_view(writer.entries@) =~= entries_view(before.entries@).push(
                (file.zip_path@, crc32(file.contents@), file.contents@.len() as u32, before.bytes@.len() as u32),
            )) by {
                assert(writer.entries@ =~= before.entries@.push(writer.entries@.last()));
            }
        }
        i = i + 1;
    }
    proof {
        assert(fv.take(i as int) =~= fv);
    }
    writer.finish()
}

/// Once a file cannot be added, the whole list cannot.
proof fn lemma_add_error_stays(files: Seq<(Seq<char>, Seq<u8>)>, k: int)
    requires
        0 <= k <= files.len(),
        add_error(files.take(k)) is Some,
    ensures
        add_error(files) == add_error(files.take(k)),
    decreases files.len() - k,
{
    if k < files.len() {
        assert(files.take(k + 1).drop_last() =~= files.take(k));
        lemma_add_error_stays(files, k + 1);
    } else {
        assert(files.take(k) =~= files);
    }
}

/// The folder name that heads the archive paths: the bundle folder's own
/// name unless it is blank or unknown.
pub open spec fn spec_zip_root_name(folder_name: Option<Seq<char>>) -> Seq<char> {
    match folder_name {
        Some(n) => if trim(n).len() > 0 {
            n
        } else {
            "System-I2-runtime"@
        },
        None => "System-I2-runtime"@,
    }
}

pub fn zip_root_name(folder_name: Option<String>) -> (r: String)
    ensures
        r@ == spec_zip_root_name(match folder_name {
            Some(n) => Some(n@),
            None => None,
        }),
{
    match folder_name {
        Some(n) => {
            let t = trim_str(n.as_str());
            if t.as_str().is_empty() {
                "System-I2-runtime".to_owned()
            } else {
                n
            }
        },
        None => "System-I2-runtime".to_owned(),
    }
}

/// The path with each `\` turned into `/`.
pub open spec fn forward_slashes(path: Seq<char>) -> Seq<char> {
    path.map_values(|c: char| if c == '\\' { '/' } else { c })
}

/// An archive path with forward slashes only.
pub fn zip_entry_name(path: &str) -> (r: String)
    ensures
        r@ == forward_slashes(path@),
{
    let n = path.unicode_len();
    let mut out = String::new();
    let mut i: usize = 0;
    proof {
        assert(out@ =~= forward_slashes(path@.take(0)));
    }
    while i < n
        invariant
            0 <= i <= n,
            n == path@.len(),
            out@ == forward_slashes(path@.take(i as int)),
        decreases n - i,
    {
        let c = path.get_char(i);
        let d = if c == '\\' { '/' } else { c };
        let piece = crate::text::char_to_string(d);
        out = concat2(out.as_str(), piece.as_str());
        proof {
            assert(forward_slashes(path@.take(i + 1)) =~= forward_slashes(path@.take(i as int)).push(d));
        }
        i = i + 1;
    }
    proof {
        assert(path@.take(i as int) =~= path@);
    }
    out
}

/// The backup's file name for a timestamp.
pub open spec fn backup_file_name(timestamp: nat) -> Seq<char> {
    "System-I2-runtime-backup-"@ + nat_decimal(timestamp) + ".zip"@
}

/// The name the backup is written under before it is moved into place.
pub open spec fn temp_backup_file_name(timestamp: nat, process_id: nat) -> Seq<char> {
    ".System-I2-runtime-backup-"@ + nat_decimal(timestamp) + "."@ + nat_decimal(process_id) + ".tmp"@
}

/// The final and the temporary name of a backup.
pub fn backup_file_names(timestamp: u64, process_id: u32) -> (r: (String, String))
    ensures
        r.0@ == backup_file_name(timestamp as nat),
        r.1@ == temp_backup_file_name(timestamp as nat, process_id as nat),
{
    let ts = u64_to_decimal(timestamp);
    let pid = u64_to_decimal(process_id as u64);
    let final_name = concat3("System-I2-runtime-backup-", ts.as_str(), ".zip");
    let a = concat3(".System-I2-runtime-backup-", ts.as_str(), ".");
    let temp_name = concat3(a.as_str(), pid.as_str(), ".tmp");
    (final_name, temp_name)
}

/// The local record of one file: header, name, contents.
pub open spec fn local_record(f: (Seq<char>, Seq<u8>)) -> Seq<u8> {
    local_header_fixed(crc32(f.1), f.1.len() as u32, encode_utf8(f.0).len() as u16) + encode_utf8(f.0) + f.1
}

proof fn lemma_body_step(files: Seq<(Seq<char>, Seq<u8>)>, i: int)
    requires
        0 <= i < files.len(),
    ensures
        archive_body(files.take(i + 1)) == archive_body(files.take(i)) + local_record(files[i]),
        archive_entries(files.take(i + 1)) == archive_entries(files.take(i)).push(
            (files[i].0, crc32(files[i].1), files[i].1.len() as u32, archive_body(files.take(i)).len() as u32),
        ),
        add_error(files.take(i + 1)) == match add_error(files.take(i)) {
            Some(m) => Some(m),
            None => start_file_error(files[i].0, files[i].1.len() as int, archive_body(files.take(i)).len() as int),
        },
{
    assert(files.take(i + 1).drop_last() =~= files.take(i));
    assert(files.take(i + 1).last() == files[i]);
}

proof fn lemma_body_prefix(files: Seq<(Seq<char>, Seq<u8>)>, j: int, i: int)
    requires
        0 <= j <= i <= files.len(),
    ensures
        archive_body(files.take(j)).len() <= archive_body(files.take(i)).len(),
        archive_body(files.take(i)).subrange(0, archive_body(files.take(j)).len() as int) == archive_body(files.take(j)),
    decreases i - j,
{
    if j < i {
        lemma_body_prefix(files, j, i - 1);
        lemma_body_step(files, i - 1);
        let a = archive_body(files.take(i - 1));
        let b = archive_body(files.take(j));
        assert((a + local_record(files[i - 1])).subrange(0, b.len() as int) =~= a.subrange(0, b.len() as int));
    } else {
        assert(archive_body(files.take(i)).subrange(0, archive_body(files.take(i)).len() as int) =~= archive_body(files.take(i)));
    }
}

proof fn lemma_entries_at(files: Seq<(Seq<char>, Seq<u8>)>, k: int, i: int)
    requires
        0 <= k < i <= files.len(),
    ensures
        archive_entries(files.take(i)).len() == i,
        archive_entries(files.take(i))[k] == (
            files[k].0,
            crc32(files[k].1),
            files[k].1.len() as u32,
            archive_body(files.take(k)).len() as u32,
        ),
    decreases i,
{
    lemma_body_step(files, i - 1);
    if k < i - 1 {
        lemma_entries_at(files, k, i - 1);
    } else {
        lemma_entries_len(files, i - 1);
    }
}

proof fn lemma_entries_len(files: Seq<(Seq<char>, Seq<u8>)>, i: int)
    requires
        0 <= i <= files.len(),
    ensures
        archive_entries(files.take(i)).len() == i,
    decreases i,
{
    if i > 0 {
        lemma_entries_len(files, i - 1);
        lemma_body_step(files, i - 1);
    } else {
        assert(files.take(0) =~= Seq::<(Seq<char>, Seq<u8>)>::empty());
    }
}

proof fn lemma_no_add_error_prefix(files: Seq<(Seq<char>, Seq<u8>)>, i: int)
    requires
        0 <= i <= files.len(),
        add_error(files) is None,
    ensures
        add_error(files.take(i)) is None,
{
    if add_error(files.take(i)) is Some {
        lemma_add_error_stays(files, i);
    }
}

proof fn lemma_record_in_body(files: Seq<(Seq<char>, Seq<u8>)>, k: int)
    requires
        0 <= k < files.len(),
    ensures
        ({
            let off = archive_body(files.take(k)).len() as int;
            let nb = encode_utf8(files[k].0);
            let c = files[k].1;
            let body = archive_body(files);
            &&& off + 30 + nb.len() + c.len() <= body.len()
            &&& body.subrange(off + 30, off + 30 + nb.len()) == nb
            &&& body.subrange(off + 30 + nb.len(), off + 30 + nb.len() + c.len()) == c
        }),
{
    lemma_body_step(files, k);
    assert(files.take(files.len() as int) =~= files);
    lemma_body_prefix(files, k + 1, files.len() as int);
    let before = archive_body(files.take(k));
    let with = archive_body(files.take(k + 1));
    let body = archive_body(files);
    let nb = encode_utf8(files[k].0);
    let c = files[k].1;
    let head = local_header_fixed(crc32(c), c.len() as u32, nb.len() as u16);
    assert(head.len() == 30);
    let off = before.len() as int;
    assert(with == before + head + nb + c);
    assert(with.subrange(off + 30, off + 30 + nb.len()) =~= nb);
    assert(with.subrange(off + 30 + nb.len(), off + 30 + nb.len() + c.len()) =~= c);
    assert(body.subrange(0, with.len() as int) == with);
    assert(body.subrange(off + 30, off + 30 + nb.len()) =~= with.subrange(off + 30, off + 30 + nb.len()));
    assert(body.subrange(off + 30 + nb.len(), off + 30 + nb.len() + c.len()) =~= with.subrange(
        off + 30 + nb.len(),
        off + 30 + nb.len() + c.len(),
    ));
}

proof fn lemma_subrange_of_prefix(a: Seq<u8>, b: Seq<u8>, i: int, j: int)
    requires
        0 <= i <= j <= a.len(),
    ensures
        (a + b).subrange(i, j) == a.subrange(i, j),
{
    assert((a + b).subrange(i, j) =~= a.subrange(i, j));
}

/// What the backup archive holds can be read back: at the offset the
/// central directory records for the `k`-th file stand its name and then
/// exactly its contents, with its size.
pub proof fn law_backup_archive_holds_each_file(files: Seq<(Seq<char>, Seq<u8>)>, k: int)
    requires
        0 <= k < files.len(),
        spec_backup_zip(files) is Ok,
    ensures
        ({
            let bytes = spec_backup_zip(files)->Ok_0;
            let e = archive_entries(files)[k];
            let off = e.3 as int;
            let nb = encode_utf8(files[k].0);
            &&& e.0 == files[k].0
            &&& e.2 == files[k].1.len()
            &&& e.1 == crc32(files[k].1)
            &&& bytes.subrange(off + 30, off + 30 + nb.len()) == nb
            &&& bytes.subrange(off + 30 + nb.len(), off + 30 + nb.len() + e.2) == files[k].1
        }),
{
    let bytes = spec_backup_zip(files)->Ok_0;
    lemma_no_add_error_prefix(files, k + 1);
    lemma_no_add_error_prefix(files, k);
    lemma_body_step(files, k);
    assert(files.take(files.len() as int) =~= files);
    lemma_entries_at(files, k, files.len() as int);
    lemma_record_in_body(files, k);
    let before = archive_body(files.take(k));
    let body = archive_body(files);
    let nb = encode_utf8(files[k].0);
    let c = files[k].1;
    assert(start_file_error(files[k].0, c.len() as int, before.len() as int) is None);
    let off = before.len() as int;
    let rest = crate::runtime::zip::central_directory(archive_entries(files)) + crate::runtime::zip::end_record(
        archive_entries(files).len() as u16,
        crate::runtime::zip::central_directory(archive_entries(files)).len() as u32,
        body.len() as u32,
    );
    assert(bytes =~= body + rest);
    lemma_subrange_of_prefix(body, rest, off + 30, off + 30 + nb.len());
    lemma_subrange_of_prefix(body, rest, off + 30 + nb.len(), off + 30 + nb.len() + c.len());
}

} // verus!
