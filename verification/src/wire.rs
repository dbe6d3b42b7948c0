//! Reading a directory's frames: a big-endian length in four bytes, then the
//! body.
//!
//! A length over the limit is refused before a byte of the body is read, and a
//! large request must open like a publish before the rest is read.

use vstd::prelude::*;

use crate::envelope::from_be;
use crate::ids::bytes_same;
use crate::text::{decimal, decimal_text};

verus! {

/// Bytes of a frame's length.
pub const PREFIX_LEN: usize = 4;

/// How long one dial may take, in seconds.
pub const DIAL_TIMEOUT: u64 = 5;

/// How long one frame may take, in seconds.
pub const FRAME_TIMEOUT: u64 = 10;

/// What frames a stream may bring.
#[derive(Debug)]
#[allow(inconsistent_fields)]
pub enum FrameKind {
    /// A body of at most `max` bytes.
    Capped { max: usize },
    /// A request: at most `small` bytes, or up to `large` where the body opens
    /// with `opening`.
    Request { small: usize, large: usize, opening: Vec<u8> },
}

impl FrameKind {
    /// The limits fit in memory, and a large request is longer than its opening.
    pub open spec fn wf(&self) -> bool {
        match *self {
            FrameKind::Capped { max } => max + PREFIX_LEN <= usize::MAX,
            FrameKind::Request { small, large, opening } => opening@.len() <= small && small
                <= large && large + PREFIX_LEN <= usize::MAX,
        }
    }

    /// The longest body there may be.
    pub open spec fn limit(&self) -> usize {
        match *self {
            FrameKind::Capped { max } => max,
            FrameKind::Request { large, .. } => large,
        }
    }
}

/// What to do with what was read of a frame so far.
#[derive(Clone, Copy, Debug, PartialEq, Eq)]
#[allow(inconsistent_fields)]
pub enum NextRead {
    /// Read this many bytes more.
    More(usize),
    /// The frame is whole.
    Whole,
    /// Its body would be over the limit.
    TooLong { len: usize, max: usize },
    /// It is large, and does not open like a publish.
    BadOpening,
}

/// The length a frame says its body has.
pub open spec fn body_len(read: Seq<u8>) -> nat {
    from_be(read.take(PREFIX_LEN as int))
}

/// Whether a body opens with `opening`.
pub open spec fn opens_with(read: Seq<u8>, opening: Seq<u8>) -> bool {
    read.subrange(PREFIX_LEN as int, PREFIX_LEN + opening.len()) == opening
}

/// Read on to the end of the body.
pub open spec fn rest_of(read: Seq<u8>) -> NextRead {
    if read.len() < PREFIX_LEN + body_len(read) {
        NextRead::More((PREFIX_LEN + body_len(read) - read.len()) as usize)
    } else {
        NextRead::Whole
    }
}

/// What to do with what was read of a frame so far.
pub open spec fn read_next(kind: FrameKind, read: Seq<u8>) -> NextRead {
    if read.len() < PREFIX_LEN {
        NextRead::More((PREFIX_LEN - read.len()) as usize)
    } else if body_len(read) > kind.limit() {
        NextRead::TooLong { len: body_len(read) as usize, max: kind.limit() }
    } else {
        match kind {
            FrameKind::Capped { .. } => rest_of(read),
            FrameKind::Request { small, opening, .. } => if body_len(read) <= small {
                rest_of(read)
            } else if read.len() < PREFIX_LEN + opening@.len() {
                NextRead::More((PREFIX_LEN + opening@.len() - read.len()) as usize)
            } else if !opens_with(read, opening@) {
                NextRead::BadOpening
            } else {
                rest_of(read)
            },
        }
    }
}

/// The number that the first four bytes write.
fn prefix_number(read: &Vec<u8>) -> (n: u32)
    requires
        read@.len() >= PREFIX_LEN,
    ensures
        n == body_len(read@),
{
    proof {
        let p = read@.take(4);
        reveal_with_fuel(from_be, 5);
        assert(p.drop_last() =~= read@.take(3));
        assert(read@.take(3).drop_last() =~= read@.take(2));
        assert(read@.take(2).drop_last() =~= read@.take(1));
        assert(read@.take(1).drop_last() =~= read@.take(0));
        assert(from_be(read@.take(0)) == 0);
        assert(from_be(read@.take(1)) == read@[0] as nat);
        assert(from_be(read@.take(2)) == read@[0] * 256 + read@[1]);
        assert(from_be(read@.take(3)) == (read@[0] * 256 + read@[1]) * 256 + read@[2]);
    }
    ((read[0] as u32 * 256 + read[1] as u32) * 256 + read[2] as u32) * 256 + read[3] as u32
}

/// Read on to the end of the body.
fn to_the_end(read: &Vec<u8>, len: usize) -> (next: NextRead)
    requires
        read@.len() >= PREFIX_LEN,
        len == body_len(read@),
        len + PREFIX_LEN <= usize::MAX,
    ensures
        next == rest_of(read@),
{
    let whole: usize = PREFIX_LEN + len;
    if read.len() < whole {
        NextRead::More(whole - read.len())
    } else {
        NextRead::Whole
    }
}

/// What to do with what was read of a frame so far.
pub fn next_read(kind: &FrameKind, read: &Vec<u8>) -> (next: NextRead)
    requires
        kind.wf(),
    ensures
        next == read_next(*kind, read@),
{
    let have: usize = read.len();
    if have < PREFIX_LEN {
        return NextRead::More(PREFIX_LEN - have);
    }
    let len: u32 = prefix_number(read);
    let max: usize = match kind {
        FrameKind::Capped { max } => *max,
        FrameKind::Request { large, .. } => *large,
    };
    let len: usize = len as usize;
    if len > max {
        return NextRead::TooLong { len, max };
    }
    match kind {
        FrameKind::Capped { .. } => to_the_end(read, len),
        FrameKind::Request { small, opening, .. } => {
            if len <= *small {
                return to_the_end(read, len);
            }
            let needed: usize = PREFIX_LEN + opening.len();
            if have < needed {
                return NextRead::More(needed - have);
            }
            let start = vstd::slice::slice_subrange(read.as_slice(), PREFIX_LEN, needed);
            if !bytes_same(start, opening.as_slice()) {
                return NextRead::BadOpening;
            }
            to_the_end(read, len)
        },
    }
}

/// What a stream that ends says of the frame that was being read.
#[derive(Clone, Copy, Debug, PartialEq, Eq)]
pub enum Ending {
    /// There was no frame.
    Clean,
    /// The frame was not whole.
    Truncated,
}

/// What a stream that ends after `have` bytes of a frame says: before its length
/// is whole, there was no frame.
pub fn ending(have: usize) -> (ending: Ending)
    ensures
        ending == if have < PREFIX_LEN {
            Ending::Clean
        } else {
            Ending::Truncated
        },
{
    if have < PREFIX_LEN {
        Ending::Clean
    } else {
        Ending::Truncated
    }
}

/// What a frame over the limit reads as.
pub open spec fn too_long_said(len: usize, max: usize) -> Seq<char> {
    "a "@ + decimal(len as nat) + "-byte directory frame (at most "@ + decimal(max as nat) + ")"@
}

/// What a frame over the limit reads as.
pub fn too_long_text(len: usize, max: usize) -> (text: String)
    ensures
        text@ == too_long_said(len, max),
{
    let mut text = "a ".to_owned();
    text.append(decimal_text(len as u64).as_str());
    text.append("-byte directory frame (at most ");
    text.append(decimal_text(max as u64).as_str());
    text.append(")");
    text
}

/// No read is sized past the limit, and none past the end of the frame.
pub proof fn no_read_goes_past_the_limit(kind: FrameKind, read: Seq<u8>)
    requires
        kind.wf(),
        read_next(kind, read) is More,
    ensures
        read.len() + (read_next(kind, read)->More_0) <= PREFIX_LEN + kind.limit() || read.len()
            < PREFIX_LEN,
        read.len() < PREFIX_LEN ==> read.len() + (read_next(kind, read)->More_0) == PREFIX_LEN,
{
}

/// A large request is read past its opening only once it opens like a publish.
pub proof fn a_large_request_must_open_as_a_publish(kind: FrameKind, read: Seq<u8>)
    requires
        kind.wf(),
        kind is Request,
        read.len() >= PREFIX_LEN,
        body_len(read) > kind->small,
        read_next(kind, read) matches NextRead::More(n) && read.len() + n > PREFIX_LEN
            + kind->opening@.len(),
    ensures
        opens_with(read, kind->opening@),
{
}

/// Reading what is asked for reaches the end: once the body's bytes are all
/// there, nothing more is asked.
pub proof fn a_whole_frame_is_recognized(kind: FrameKind, read: Seq<u8>)
    requires
        kind.wf(),
        read.len() >= PREFIX_LEN,
        read.len() == PREFIX_LEN + body_len(read),
    ensures
        !(read_next(kind, read) is More),
{
}

/// The length in front of a frame is four bytes, the first of which counts most.
proof fn body_len_reads_four_bytes(read: Seq<u8>)
    requires
        read.len() >= 4,
    ensures
        body_len(read) == 0x100_0000 * read[0] + 0x1_0000 * read[1] + 0x100 * read[2] + read[3],
{
    let p = read.take(4);
    crate::envelope::the_last_byte_counts_least(Seq::empty(), read[0]);
    crate::envelope::the_last_byte_counts_least(seq![read[0]], read[1]);
    crate::envelope::the_last_byte_counts_least(seq![read[0], read[1]], read[2]);
    crate::envelope::the_last_byte_counts_least(seq![read[0], read[1], read[2]], read[3]);
    assert(Seq::<u8>::empty().push(read[0]) =~= seq![read[0]]);
    assert(seq![read[0]].push(read[1]) =~= seq![read[0], read[1]]);
    assert(seq![read[0], read[1]].push(read[2]) =~= seq![read[0], read[1], read[2]]);
    assert(seq![read[0], read[1], read[2]].push(read[3]) =~= p);
}

/// What is read next: the four bytes of the length first; nothing of a frame that is
/// longer than its kind allows; of a large request the opening, which must be the one
/// that is due; and else exactly what is missing, until the frame is whole.
pub proof fn a_frame_is_read_by_its_length(kind: FrameKind, read: Seq<u8>)
    requires
        kind.wf(),
    ensures
        ({
            let next = read_next(kind, read);
            let len = 0x100_0000 * read[0] + 0x1_0000 * read[1] + 0x100 * read[2] + read[3];
            let max = match kind {
                FrameKind::Capped { max } => max,
                FrameKind::Request { large, .. } => large,
            };
            let guarded = kind is Request && len > kind->small;
            let opening = kind->opening@;
            let differs = exists|i: int|
                0 <= i < opening.len() && #[trigger] read[4 + i] != opening[i];
            &&& read.len() < 4 ==> (next matches NextRead::More(n) && n == 4 - read.len())
            &&& read.len() >= 4 && len > max ==> (next matches NextRead::TooLong {
                len: said,
                max: most,
            } && said == len && most == max)
            &&& read.len() >= 4 && len <= max && guarded && read.len() < 4 + opening.len() ==> (
            next matches NextRead::More(n) && n == 4 + opening.len() - read.len())
            &&& read.len() >= 4 && len <= max && guarded && read.len() >= 4 + opening.len()
                && differs ==> next is BadOpening
            &&& read.len() >= 4 && len <= max && (!guarded || (read.len() >= 4 + opening.len()
                && !differs)) ==> if read.len() < 4 + len {
                next matches NextRead::More(n) && n == 4 + len - read.len()
            } else {
                next is Whole
            }
        }),
{
    if read.len() >= 4 {
        body_len_reads_four_bytes(read);
        if kind is Request {
            let opening = kind->opening@;
            if read.len() >= 4 + opening.len() {
                let start = read.subrange(4, 4 + opening.len() as int);
                if opens_with(read, opening) {
                    assert forall|i: int| 0 <= i < opening.len() implies #[trigger] read[4 + i]
                        == opening[i] by {
                        assert(start[i] == opening[i]);
                    }
                } else {
                    if forall|i: int| 0 <= i < opening.len() ==> #[trigger] read[4 + i] == opening[i] {
                        assert forall|i: int| 0 <= i < opening.len() implies start[i]
                            == opening[i] by {
                            assert(read[4 + i] == opening[i]);
                        }
                        assert(start =~= opening);
                    }
                }
            }
        }
    }
}

/// What is said of a frame that is too long gives its length and the most there may
/// be, in numbers that read back.
pub proof fn a_long_frame_is_named(len: usize, max: usize) -> (parts: (Seq<char>, Seq<char>))
    ensures
        too_long_said(len, max) == "a "@ + parts.0 + "-byte directory frame (at most "@ + parts.1
            + ")"@,
        crate::text::number_read(parts.0, 10) == len,
        crate::text::number_read(parts.1, 10) == max,
{
    crate::text::a_decimal_reads_back(len as nat);
    crate::text::a_decimal_reads_back(max as nat);
    (decimal(len as nat), decimal(max as nat))
}

} // verus!
