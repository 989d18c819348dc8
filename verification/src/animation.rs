//! The animation packer: several frames in one container.
//!
//! A container is one byte that holds the number of frames minus one; then
//! each frame behind its length in two bytes, high byte first; then a
//! trailer of one pair `[index, 0]` per frame. The second byte of a pair is
//! reserved. The frames are taken as they are: nothing is compressed here.
//!
//! The length field has sixteen bits. Of a frame of 65536 bytes or more it
//! holds the length modulo 65536, and a reader cannot find the next frame.

use vstd::prelude::*;
use crate::error::EncodeError;

verus! {

/// The most frames a container can hold.
pub const MAX_FRAMES: usize = 256;

/// The two bytes that stand before a frame of `len` bytes: the low sixteen
/// bits of `len`, high byte first.
pub open spec fn length_prefix(len: nat) -> Seq<u8> {
    seq![((len / 256) % 256) as u8, (len % 256) as u8]
}

/// The frames one after the other, each behind its length prefix.
pub open spec fn framed(frames: Seq<Seq<u8>>) -> Seq<u8>
    decreases frames.len(),
{
    if frames.len() == 0 {
        Seq::empty()
    } else {
        framed(frames.drop_last()) + (length_prefix(frames.last().len()) + frames.last())
    }
}

/// The trailer for `count` frames: the pair `[i, 0]` for each index `i`.
pub open spec fn trailer(count: nat) -> Seq<u8> {
    Seq::new(
        2 * count,
        |i: int|
            if i % 2 == 0 {
                (i / 2) as u8
            } else {
                0u8
            },
    )
}

/// The container of `frames`.
pub open spec fn container_bytes(frames: Seq<Seq<u8>>) -> Seq<u8> {
    seq![(frames.len() - 1) as u8] + framed(frames) + trailer(frames.len())
}

/// The bytes of each frame of a list.
pub open spec fn frame_views(frames: Seq<Vec<u8>>) -> Seq<Seq<u8>> {
    Seq::new(frames.len(), |k: int| frames[k]@)
}

/// Packs `frames`, in order, into one container. Fails with `TooManyFrames`
/// where there is no frame, or more than 256.
pub fn pack_animation(frames: &Vec<Vec<u8>>) -> (res: Result<Vec<u8>, EncodeError>)
    ensures
        frames.len() == 0 || frames.len() > MAX_FRAMES ==> res == Err::<Vec<u8>, EncodeError>(
            EncodeError::TooManyFrames,
        ),
        1 <= frames.len() <= MAX_FRAMES ==> res.is_ok() && res.unwrap()@ == container_bytes(
            frame_views(frames@),
        ),
{
    let count = frames.len();
    if count == 0 || count > MAX_FRAMES {
        return Err(EncodeError::TooManyFrames);
    }
    let ghost views = frame_views(frames@);
    let mut out: Vec<u8> = Vec::new();
    out.push((count - 1) as u8);
    assert(views.take(0) =~= Seq::<Seq<u8>>::empty());
    assert(out@ =~= seq![(count - 1) as u8] + framed(views.take(0)));
    for k in 0..count
        invariant
            count == frames.len(),
            views == frame_views(frames@),
            out@ == seq![(count - 1) as u8] + framed(views.take(k as int)),
    {
        let frame = &frames[k];
        let len = frame.len();
        let ghost before = out@;
        out.push((len / 256 % 256) as u8);
        out.push((len % 256) as u8);
        let mut j: usize = 0;
        while j < len
            invariant
                j <= len,
                len == frame@.len(),
                out@ == before + length_prefix(len as nat) + frame@.take(j as int),
            decreases len - j,
        {
            out.push(frame[j]);
            assert(frame@.take(j + 1) =~= frame@.take(j as int).push(frame@[j as int]));
            j += 1;
        }
        proof {
            assert(frame@.take(len as int) =~= frame@);
            let now = views.take(k + 1);
            assert(now.drop_last() =~= views.take(k as int));
            assert(now.last() == frame@);
            assert(out@ =~= seq![(count - 1) as u8] + framed(now));
        }
    }
    assert(views.take(count as int) =~= views);
    let ghost packed = out@;
    for i in 0..count
        invariant
            count <= MAX_FRAMES,
            out@ == packed + trailer(i as nat),
    {
        out.push(i as u8);
        out.push(0);
        assert(out@ =~= packed + trailer((i + 1) as nat));
    }
    Ok(out)
}

} // verus!
