//! Line framing of the persisted files: every record is one line, ended by a
//! newline.

use crate::encoding::{newline_free, NEWLINE};
use vstd::prelude::*;

verus! {

/// What stands behind the last newline of `content`: the beginning of a line
/// whose end was never written, or nothing.
pub open spec fn tail_of(content: Seq<u8>) -> Seq<u8>
    decreases content.len(),
{
    if content.len() == 0 {
        Seq::empty()
    } else if content.last() == NEWLINE {
        Seq::empty()
    } else {
        tail_of(content.drop_last()).push(content.last())
    }
}

/// The complete lines of `content`, each without the newline that ends it.
pub open spec fn frames_of(content: Seq<u8>) -> Seq<Seq<u8>>
    decreases content.len(),
{
    if content.len() == 0 {
        Seq::empty()
    } else if content.last() == NEWLINE {
        frames_of(content.drop_last()).push(tail_of(content.drop_last()))
    } else {
        frames_of(content.drop_last())
    }
}

/// The number of lines of `content`: the complete ones, and one more where
/// bytes stand behind the last newline.
pub open spec fn line_count(content: Seq<u8>) -> nat {
    if tail_of(content).len() > 0 {
        frames_of(content).len() + 1
    } else {
        frames_of(content).len()
    }
}

/// The frames written out: each followed by a newline.
pub open spec fn framed(frames: Seq<Seq<u8>>) -> Seq<u8>
    decreases frames.len(),
{
    if frames.len() == 0 {
        Seq::empty()
    } else {
        framed(frames.drop_last()) + (frames.last() + seq![NEWLINE])
    }
}

/// The frames as byte sequences.
pub open spec fn frame_views(frames: Seq<Vec<u8>>) -> Seq<Seq<u8>> {
    Seq::new(frames.len(), |i: int| frames[i]@)
}

/// Content is its complete lines written out, followed by what stands behind
/// the last newline; neither the lines nor that rest hold a newline.
pub proof fn lemma_content_is_framed(content: Seq<u8>)
    ensures
        content == framed(frames_of(content)) + tail_of(content),
        newline_free(tail_of(content)),
        forall|i: int|
            0 <= i < frames_of(content).len() ==> newline_free(#[trigger] frames_of(content)[i]),
    decreases content.len(),
{
    if content.len() > 0 {
        let init = content.drop_last();
        lemma_content_is_framed(init);
        if content.last() == NEWLINE {
            let frames = frames_of(content);
            assert(frames.drop_last() =~= frames_of(init));
            assert(content =~= init + seq![NEWLINE]);
        } else {
            assert(content =~= init.push(content.last()));
        }
    }
}

/// Bytes without a newline behind written-out frames do not change the
/// frames, and are what stands behind the last newline.
pub proof fn lemma_frames_of_framed(frames: Seq<Seq<u8>>, rest: Seq<u8>)
    requires
        forall|i: int| 0 <= i < frames.len() ==> newline_free(#[trigger] frames[i]),
        newline_free(rest),
    ensures
        frames_of(framed(frames) + rest) == frames,
        tail_of(framed(frames) + rest) == rest,
    decreases frames.len(), rest.len(),
{
    let content = framed(frames) + rest;
    if rest.len() > 0 {
        let shorter = rest.drop_last();
        assert(content.drop_last() =~= framed(frames) + shorter);
        lemma_frames_of_framed(frames, shorter);
    } else if frames.len() > 0 {
        let earlier = frames.drop_last();
        let line = frames.last();
        assert(content.drop_last() =~= framed(earlier) + line);
        lemma_frames_of_framed(earlier, line);
    }
}

/// Splits `content` into its complete lines and what stands behind the last
/// newline.
pub fn split_frames(content: &[u8]) -> (parts: (Vec<Vec<u8>>, Vec<u8>))
    ensures
        frame_views(parts.0@) == frames_of(content@),
        parts.1@ == tail_of(content@),
{
    let mut frames: Vec<Vec<u8>> = Vec::new();
    let mut current: Vec<u8> = Vec::new();
    let mut i: usize = 0;
    while i < content.len()
        invariant
            i <= content@.len(),
            frame_views(frames@) == frames_of(content@.take(i as int)),
            current@ == tail_of(content@.take(i as int)),
        decreases content@.len() - i,
    {
        let ghost upto = content@.take(i + 1);
        assert(upto.drop_last() =~= content@.take(i as int));
        let b = content[i];
        if b == NEWLINE {
            frames.push(current);
            current = Vec::new();
        } else {
            current.push(b);
        }
        i = i + 1;
    }
    assert(content@.take(content@.len() as int) =~= content@);
    (frames, current)
}

/// The number of lines of `content`.
pub fn count_lines(content: &[u8]) -> (n: usize)
    ensures
        n == line_count(content@),
{
    let mut lines: usize = 0;
    let mut open: bool = false;
    let mut i: usize = 0;
    while i < content.len()
        invariant
            i <= content@.len(),
            lines == frames_of(content@.take(i as int)).len(),
            lines <= i,
            open == (tail_of(content@.take(i as int)).len() > 0),
        decreases content@.len() - i,
    {
        let ghost upto = content@.take(i + 1);
        assert(upto.drop_last() =~= content@.take(i as int));
        if content[i] == NEWLINE {
            lines = lines + 1;
            open = false;
        } else {
            open = true;
        }
        i = i + 1;
    }
    assert(content@.take(content@.len() as int) =~= content@);
    if open {
        proof {
            lemma_lines_within_content(content@);
        }
        lines + 1
    } else {
        lines
    }
}

/// Content has no more lines, complete or not, than bytes.
pub proof fn lemma_lines_within_content(content: Seq<u8>)
    ensures
        frames_of(content).len() + tail_of(content).len() <= content.len(),
    decreases content.len(),
{
    if content.len() > 0 {
        lemma_lines_within_content(content.drop_last());
    }
}

} // verus!
