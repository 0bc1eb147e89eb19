//! What the host writes to bring the backing file up to date with a store.
use vstd::prelude::*;

use crate::store::Store;

verus! {

/// A write to the backing file.
#[derive(Clone, Copy, Debug, PartialEq, Eq, Structural)]
pub enum SyncAction {
    /// The file already holds the image.
    Nothing,
    /// Append the image from this position on.
    Append(usize),
    /// Replace the whole file, atomically, by the image.
    Rewrite,
}

/// The file `disk` after the host performs `action` for `image`.
pub open spec fn after_sync(disk: Seq<u8>, action: SyncAction, image: Seq<u8>) -> Seq<u8> {
    match action {
        SyncAction::Nothing => disk,
        SyncAction::Append(from) => disk + image.subrange(from as int, image.len() as int),
        SyncAction::Rewrite => image,
    }
}

/// What brings a file written up to `synced_len` bytes, while the store was
/// at `generation`, up to the store's image. As long as the generation stays,
/// the image only grew, so the new bytes are appended; after a rewrite the
/// file is replaced. Either way the file ends equal to the image.
pub fn sync_action(store: &Store, synced_len: usize, generation: u64) -> (r: SyncAction)
    ensures
        forall|disk: Seq<u8>|
            disk.len() == synced_len && (store.generation_view() == generation && synced_len
                <= store.image().len() ==> disk == store.image().subrange(0, synced_len as int))
                ==> #[trigger] after_sync(disk, r, store.image()) == store.image(),
        r == SyncAction::Rewrite <==> store.generation_view() != generation || synced_len
            > store.image().len(),
        r == SyncAction::Nothing <==> store.generation_view() == generation && synced_len
            == store.image().len(),
{
    let len = store.log().len();
    if store.generation() != generation || synced_len > len {
        SyncAction::Rewrite
    } else if synced_len == len {
        assert forall|disk: Seq<u8>|
            disk.len() == synced_len && disk == store.image().subrange(0, synced_len as int)
                implies disk == store.image() by {
            assert(store.image().subrange(0, synced_len as int) =~= store.image());
        }
        SyncAction::Nothing
    } else {
        assert forall|disk: Seq<u8>|
            disk.len() == synced_len && disk == store.image().subrange(0, synced_len as int)
                implies disk + store.image().subrange(synced_len as int, len as int)
                == store.image() by {
            assert(disk + store.image().subrange(synced_len as int, len as int) =~= store.image());
        }
        SyncAction::Append(synced_len)
    }
}

} // verus!
