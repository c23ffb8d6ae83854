//! The operations a user asks for, and what they compute.
use vstd::prelude::*;
use vstd::utf8::encode_utf8;

use crate::codec::{create_index_entry, EntryView, FileStat};
use crate::error::IndexError;
use crate::hasher::object_id;
use crate::hexfmt::is_lower_hex;
use crate::index::{bytes_view, index_holds, update_index, updated_index};
use crate::object::{compress_and_store, object_bytes, object_dir, object_file, StoredObject};

verus! {

/// An operation on a repository.
pub enum Command {
    /// Initialize a repository.
    Init(Init),
    /// Add a file to the staging area.
    Add(Add),
    /// Report the state of the staging area.
    Status,
}

/// Arguments of `Init`.
pub struct Init {
    /// Name of the directory to create.
    pub name: String,
}

/// Arguments of `Add`.
pub struct Add {
    /// Name of the file to add to the staging area.
    pub file_name: String,
}

/// The kind of every object that `Add` stores.
pub open spec fn blob_kind() -> Seq<u8> {
    seq![98u8, 108u8, 111u8, 98u8]
}

/// What adding a file writes: the object, and the new bytes of the index.
pub struct AddOutcome {
    pub object: StoredObject,
    pub index: Vec<u8>,
}

/// The entry that adding the file `name` with this metadata and content
/// records.
pub open spec fn added_entry(name: Seq<char>, stat: FileStat, content: Seq<u8>) -> EntryView {
    EntryView {
        ctime_sec: stat.ctime as u32,
        ctime_nsec: stat.ctime_nsec as u32,
        mtime_sec: stat.mtime as u32,
        mtime_nsec: stat.mtime_nsec as u32,
        dev: stat.dev as u32,
        ino: stat.ino as u32,
        mode: 0o100644,
        uid: stat.uid,
        gid: stat.gid,
        size: stat.size as u32,
        hash: object_id(blob_kind(), content),
        name: name,
        stage: 0,
    }
}

/// Adds the file `name` with the given content and metadata: stores its
/// content as a blob and records it in the index `existing` (or in a new
/// index when there is none). It fails exactly when the index update does.
pub fn add_file(name: String, content: &[u8], stat: &FileStat, existing: Option<&[u8]>) -> (r:
    Result<AddOutcome, IndexError>)
    ensures
        match r {
            Ok(out) => {
                &&& out.object.id@ == object_id(blob_kind(), content@)
                &&& out.object.id@.len() == 40
                &&& is_lower_hex(out.object.id@)
                &&& out.object.dir@ == object_dir(blob_kind(), content@)
                &&& out.object.file@ == object_file(blob_kind(), content@)
                &&& out.object.data@ == object_bytes(blob_kind(), content@)
                &&& updated_index(bytes_view(existing), added_entry(name@, *stat, content@))
                    == Ok::<Seq<u8>, IndexError>(out.index@)
            },
            Err(x) => updated_index(bytes_view(existing), added_entry(name@, *stat, content@))
                == Err::<Seq<u8>, IndexError>(x),
        },
        existing is None && r is Ok ==> index_holds(
            r->Ok_0.index@,
            seq![added_entry(name@, *stat, content@)],
        ),
        forall|es: Seq<EntryView>|
            existing is Some && r is Ok && #[trigger] index_holds(existing->Some_0@, es)
                ==> index_holds(r->Ok_0.index@, es.push(added_entry(name@, *stat, content@))),
{
    let kind = "blob";
    proof {
        reveal_strlit("blob");
        vstd::utf8::is_ascii_chars_encode_utf8(kind@);
        assert(encode_utf8(kind@) =~= blob_kind());
    }
    let object = compress_and_store(kind, content);
    let hash = object.id.clone();
    let entry = create_index_entry(name, stat, hash);
    match update_index(existing, &entry) {
        Ok(index) => Ok(AddOutcome { object, index }),
        Err(x) => Err(x),
    }
}

} // verus!
