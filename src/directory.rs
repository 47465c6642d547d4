use vstd::prelude::*;
use vstd::utf8::{decode_utf8, valid_utf8};

use crate::codec::{as_u16, as_u32, le16, le32};
use crate::error::FsError;
use crate::inode::{file_type_of_hint, FileType};

verus! {

/// One named entry of a directory.
#[derive(Debug)]
pub struct DirEntry {
    pub inode: u32,
    pub file_type: FileType,
    pub name: String,
}

impl View for DirEntry {
    type V = (u32, FileType, Seq<char>);

    open spec fn view(&self) -> (u32, FileType, Seq<char>) {
        (self.inode, self.file_type, self.name@)
    }
}

/// Length of a directory record's fixed header.
pub const DIR_RECORD_HEADER: usize = 8;

/// `prefix` followed by what `rest` holds, or the error in `rest`.
pub open spec fn prepend<T>(prefix: Seq<T>, rest: Result<Seq<T>, FsError>) -> Result<
    Seq<T>,
    FsError,
> {
    match rest {
        Ok(s) => Ok(prefix + s),
        Err(e) => Err(e),
    }
}

/// The entries of the directory records in `data` from offset `off` on:
/// `{inode u32, rec_len u16, name_len u8, type hint u8, name}`, each
/// `rec_len` bytes apart, skipping records whose inode is 0; or the first
/// error met.
pub open spec fn dir_records(data: Seq<u8>, off: int) -> Result<
    Seq<(u32, FileType, Seq<char>)>,
    FsError,
>
    decreases data.len() - off,
{
    if off < 0 || off >= data.len() {
        Ok(Seq::empty())
    } else if off + 8 > data.len() {
        Err(FsError::CorruptDirectory)
    } else {
        let ino = le32(data, off);
        let rec_len = le16(data, off + 4) as int;
        let name_len = data[off + 6] as int;
        let hint = data[off + 7];
        let name = data.subrange(off + 8, off + 8 + name_len);
        if rec_len < 8 + name_len || off + rec_len > data.len() {
            Err(FsError::CorruptDirectory)
        } else if ino == 0 {
            dir_records(data, off + rec_len)
        } else if !valid_utf8(name) {
            Err(FsError::BadUtf8)
        } else if file_type_of_hint(hint) is None {
            Err(FsError::BadMode)
        } else {
            prepend(
                seq![(ino, file_type_of_hint(hint)->Some_0, decode_utf8(name))],
                dir_records(data, off + rec_len),
            )
        }
    }
}

/// Relies on `std::str::from_utf8`: it accepts exactly the byte strings that
/// are valid UTF-8, and the text it returns is the characters they encode.
#[verifier::external_body]
pub(crate) fn utf8_string(b: &[u8]) -> (r: Option<String>)
    ensures
        r is Some <==> valid_utf8(b@),
        r matches Some(s) ==> s@ == decode_utf8(b@),
{
    match std::str::from_utf8(b) {
        Ok(s) => Some(s.to_string()),
        Err(_) => None,
    }
}

/// Decodes the records of a directory's contents into its entries.
pub fn parse_directory(data: &[u8]) -> (r: Result<Vec<DirEntry>, FsError>)
    ensures
        match dir_records(data@, 0) {
            Ok(entries) => r matches Ok(v) && v@.map_values(|e: DirEntry| e@) == entries,
            Err(e) => r matches Err(x) && x == e,
        },
{
    let total = data.len();
    let mut dirs: Vec<DirEntry> = Vec::new();
    let mut off: usize = 0;
    proof {
        assert(dir_records(data@, 0) == prepend(
            dirs@.map_values(|e: DirEntry| e@),
            dir_records(data@, 0),
        )) by {
            if dir_records(data@, 0) is Ok {
                assert(dirs@.map_values(|e: DirEntry| e@) + dir_records(data@, 0)->Ok_0
                    =~= dir_records(data@, 0)->Ok_0);
            }
        }
    }
    while off < total
        invariant
            total == data@.len(),
            off <= total,
            dir_records(data@, 0) == prepend(
                dirs@.map_values(|e: DirEntry| e@),
                dir_records(data@, off as int),
            ),
        decreases total - off,
    {
        if total - off < DIR_RECORD_HEADER {
            return Err(FsError::CorruptDirectory);
        }
        let child_inode = as_u32(data, off);
        let rec_len = as_u16(data, off + 4) as usize;
        let name_len = data[off + 6] as usize;
        let file_type = data[off + 7];
        if rec_len < DIR_RECORD_HEADER + name_len || rec_len > total - off {
            return Err(FsError::CorruptDirectory);
        }
        if 0 != child_inode {
            let name = match utf8_string(&data[off + 8..off + 8 + name_len]) {
                Some(name) => name,
                None => {
                    return Err(FsError::BadUtf8);
                },
            };
            let file_type = match FileType::from_dir_hint(file_type) {
                Some(t) => t,
                None => {
                    return Err(FsError::BadMode);
                },
            };
            let ghost before = dirs@.map_values(|e: DirEntry| e@);
            let entry = DirEntry { inode: child_inode, name, file_type };
            let ghost ev = entry@;
            dirs.push(entry);
            proof {
                assert(dirs@.map_values(|e: DirEntry| e@) =~= before.push(ev));
                let rest = dir_records(data@, (off + rec_len) as int);
                if rest is Ok {
                    assert(before + (seq![ev] + rest->Ok_0) =~= before.push(ev) + rest->Ok_0);
                }
            }
        }
        off = off + rec_len;
    }
    proof {
        assert(dirs@.map_values(|e: DirEntry| e@) + Seq::<(u32, FileType, Seq<char>)>::empty()
            =~= dirs@.map_values(|e: DirEntry| e@));
    }
    Ok(dirs)
}

} // verus!
