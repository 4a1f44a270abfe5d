//! Cursor compositing decisions: which image to draw over a frame, and
//! the cache holding one imported texture per distinct cursor bitmap.

use vstd::prelude::*;

verus! {

/// The externally owned current-cursor value.
#[derive(Clone, Copy, Debug, PartialEq, Eq, Structural)]
pub enum CursorImage {
    /// The built-in system cursor bitmap.
    SystemDefault,
    /// A client-provided cursor surface.
    ClientSurface,
}

/// The image to composite: a client-provided cursor surface is used while
/// it is still alive; once the surface is destroyed the cursor resets to
/// the default system image.
pub fn effective_cursor(status: CursorImage, client_alive: bool) -> (r: CursorImage)
    ensures
        r == (if status is ClientSurface && !client_alive {
            CursorImage::SystemDefault
        } else {
            status
        }),
{
    match status {
        CursorImage::ClientSurface => {
            if client_alive {
                CursorImage::ClientSurface
            } else {
                CursorImage::SystemDefault
            }
        },
        CursorImage::SystemDefault => CursorImage::SystemDefault,
    }
}

/// The texture imported for a cursor bitmap, if one is cached.  Entries
/// pair a bitmap identity (its pixel content's key) with the imported
/// texture handle.
pub fn cached_texture(cache: &Vec<(u64, u64)>, key: u64) -> (r: Option<u64>)
    ensures
        match r {
            Some(t) => exists|i: int|
                0 <= i < cache@.len() && (#[trigger] cache@[i]).0 == key && cache@[i].1 == t && (
                forall|j: int| 0 <= j < i ==> (#[trigger] cache@[j]).0 != key),
            None => forall|i: int| 0 <= i < cache@.len() ==> (#[trigger] cache@[i]).0 != key,
        },
{
    let mut i: usize = 0;
    while i < cache.len()
        invariant
            i <= cache@.len(),
            forall|j: int| 0 <= j < i ==> (#[trigger] cache@[j]).0 != key,
        decreases cache@.len() - i,
    {
        let e = cache[i];
        if e.0 == key {
            return Some(e.1);
        }
        i = i + 1;
    }
    None
}

/// Records the texture imported for a bitmap that was not cached yet, so
/// each distinct bitmap is imported once.
pub fn remember_texture(cache: &mut Vec<(u64, u64)>, key: u64, texture: u64)
    ensures
        final(cache)@ == old(cache)@.push((key, texture)),
{
    cache.push((key, texture));
}

} // verus!
