//! Faststart detection for whole-file MP4 (`.m4a`/`.m4b`): a walk over the
//! headers of the top-level boxes.
//!
//! An MP4 seeks quickly only when its `moov` box (the index) stands before the
//! `mdat` payload. The walk reads a few bytes per box and never the payload:
//! [`FaststartScan`] says where the next header lies, and takes what was read
//! there.

use vstd::prelude::*;

verus! {

/// Top-level boxes that are looked at before the walk gives up. A real MP4 reaches `moov` or
/// `mdat` within a handful of boxes.
pub const MAX_BOXES: usize = 256;

/// Bytes of the longest box header: a 32-bit size, the type, a 64-bit size.
pub const HEADER_BYTES: usize = 16;

/// The number that four bytes write down, the first the most significant.
pub open spec fn be32(b: Seq<u8>, at: int) -> int {
    b[at] * 0x100_0000 + b[at + 1] * 0x1_0000 + b[at + 2] * 0x100 + b[at + 3]
}

/// The number that eight bytes write down, the first the most significant.
pub open spec fn be64(b: Seq<u8>, at: int) -> int {
    be32(b, at) * 0x1_0000_0000 + be32(b, at + 4)
}

/// The four bytes of a box type.
pub open spec fn kind_at(b: Seq<u8>, at: int) -> Seq<u8> {
    b.subrange(at + 4, at + 8)
}

/// The size of the box whose header stands at `at`: the 32-bit size, or the 64-bit one behind
/// the type if that is 1, or all that is left if it is 0. `None` if the 64-bit size is cut off.
pub open spec fn box_size(b: Seq<u8>, at: int) -> Option<int> {
    let n = be32(b, at);
    if n == 1 {
        if at + 16 <= b.len() {
            Some(be64(b, at + 8))
        } else {
            None
        }
    } else if n == 0 {
        Some(b.len() - at)
    } else {
        Some(n)
    }
}

pub open spec fn ftyp() -> Seq<u8> {
    seq![0x66u8, 0x74u8, 0x79u8, 0x70u8]
}

pub open spec fn moov() -> Seq<u8> {
    seq![0x6du8, 0x6fu8, 0x6fu8, 0x76u8]
}

pub open spec fn mdat() -> Seq<u8> {
    seq![0x6du8, 0x64u8, 0x61u8, 0x74u8]
}

/// Whether `mdat` comes before `moov` among the `boxes` boxes from `at` on, in a file that has
/// (or `saw`) an `ftyp` before it. A header that is cut off or malformed ends the walk.
pub open spec fn slow_from(b: Seq<u8>, at: int, saw: bool, boxes: nat) -> bool
    decreases boxes,
{
    if boxes == 0 || at + 8 > b.len() {
        false
    } else {
        match box_size(b, at) {
            None => false,
            Some(size) => if size < 8 || kind_at(b, at) == moov() {
                false
            } else if kind_at(b, at) == mdat() {
                saw
            } else {
                slow_from(b, at + size, saw || kind_at(b, at) == ftyp(), (boxes - 1) as nat)
            },
        }
    }
}

/// Whether the bytes are a non-faststart MP4: one with an `ftyp` box whose `mdat` box precedes
/// its `moov` box.
pub open spec fn is_slow(b: Seq<u8>) -> bool {
    slow_from(b, 0, false, MAX_BOXES as nat)
}

/// A walk over the box headers of one file.
pub struct FaststartScan {
    len: u64,
    pos: u64,
    saw_ftyp: bool,
    boxes: usize,
    verdict: Option<bool>,
}

impl FaststartScan {
    /// What the walk will find in the file `b`.
    pub closed spec fn result(self, b: Seq<u8>) -> bool {
        match self.verdict {
            Some(v) => v,
            None => slow_from(b, self.pos as int, self.saw_ftyp, self.boxes as nat),
        }
    }

    /// The length of the file.
    pub closed spec fn file_len(self) -> nat {
        self.len as nat
    }

    /// Where the next header lies; `None` once the walk is over.
    pub closed spec fn next_at(self) -> Option<nat> {
        if self.verdict is None {
            Some(self.pos as nat)
        } else {
            None
        }
    }

    /// How many boxes are still looked at, at most.
    pub closed spec fn boxes_left(self) -> nat {
        self.boxes as nat
    }

    /// While the walk goes on there is a box to look at, with a header inside the file.
    pub closed spec fn wf(self) -> bool {
        self.verdict is None ==> self.boxes > 0 && self.pos + 8 <= self.len
    }

    /// A walk over a file of `len` bytes.
    pub fn new(len: u64) -> (r: Self)
        ensures
            r.wf(),
            r.file_len() == len,
            r.boxes_left() <= MAX_BOXES,
            forall|b: Seq<u8>| b.len() == len ==> #[trigger] r.result(b) == is_slow(b),
    {
        FaststartScan {
            len,
            pos: 0,
            saw_ftyp: false,
            boxes: MAX_BOXES,
            verdict: if len < 8 {
                Some(false)
            } else {
                None
            },
        }
    }

    /// Where to read the next header; `None` once the walk is over.
    pub fn wants(&self) -> (r: Option<u64>)
        requires
            self.wf(),
        ensures
            match r {
                Some(p) => self.next_at() == Some(p as nat) && p + 8 <= self.file_len(),
                None => self.next_at() is None,
            },
    {
        if self.verdict.is_none() {
            Some(self.pos)
        } else {
            None
        }
    }

    /// What the walk found: `false` while it goes on.
    pub fn verdict(&self) -> (r: bool)
        requires
            self.wf(),
        ensures
            self.next_at() is None ==> forall|b: Seq<u8>| r == #[trigger] self.result(b),
            self.next_at() is Some ==> !r,
    {
        match self.verdict {
            Some(v) => v,
            None => false,
        }
    }

    /// Takes the bytes that stand where [`FaststartScan::wants`] said: sixteen of them, or as
    /// many as the file still has. Fewer than eight (the file shrank) end the walk.
    pub fn feed(&mut self, header: &[u8])
        requires
            old(self).wf(),
            old(self).next_at() is Some,
        ensures
            final(self).wf(),
            final(self).file_len() == old(self).file_len(),
            final(self).next_at() is Some ==> final(self).boxes_left() < old(self).boxes_left(),
            forall|b: Seq<u8>|
                b.len() == old(self).file_len() && is_header_of(b, old(self).next_at()->0 as int, header@)
                    ==> #[trigger] final(self).result(b) == old(self).result(b),
    {
        let n: usize = header.len();
        if n < 8 {
            self.verdict = Some(false);
            proof {
                assert forall|b: Seq<u8>|
                    b.len() == old(self).file_len() && is_header_of(
                        b,
                        old(self).next_at()->0 as int,
                        header@,
                    ) implies #[trigger] self.result(b) == old(self).result(b) by {
                    assert(header@.len() >= 8);
                }
            }
            return ;
        }
        let size32: u64 = read_be32(header, 0);
        let is_ftyp = kind_is(header, 0x66, 0x74, 0x79, 0x70);
        let is_moov = kind_is(header, 0x6d, 0x6f, 0x6f, 0x76);
        let is_mdat = kind_is(header, 0x6d, 0x64, 0x61, 0x74);
        let size: Option<u64> = if size32 == 1 {
            if n < 16 {
                None
            } else {
                let high = read_be32(header, 8);
                let low = read_be32(header, 12);
                Some(high * 0x1_0000_0000 + low)
            }
        } else if size32 == 0 {
            Some(self.len - self.pos)
        } else {
            Some(size32)
        };
        proof {
            assert forall|b: Seq<u8>|
                b.len() == old(self).file_len() && #[trigger] is_header_of(
                    b,
                    old(self).next_at()->0 as int,
                    header@,
                ) implies {
                &&& be32(b, old(self).pos as int) == size32
                &&& kind_at(b, old(self).pos as int) == header@.subrange(4, 8)
                &&& match size {
                    Some(z) => box_size(b, old(self).pos as int) == Some(z as int),
                    None => box_size(b, old(self).pos as int) is None,
                }
            } by {
                let at = old(self).pos as int;
                assert(header@ =~= b.subrange(at, at + n));
                assert forall|i: int| 0 <= i < n implies #[trigger] b[at + i] == header@[i] by {}
                assert(b[at + 0] == header@[0]);
                assert(b[at + 1] == header@[1]);
                assert(b[at + 2] == header@[2]);
                assert(b[at + 3] == header@[3]);
                assert(kind_at(b, at) =~= header@.subrange(4, 8));
                if n >= 16 {
                    assert(b[at + 8] == header@[8]);
                    assert(b[at + 9] == header@[9]);
                    assert(b[at + 10] == header@[10]);
                    assert(b[at + 11] == header@[11]);
                    assert(b[at + 12] == header@[12]);
                    assert(b[at + 13] == header@[13]);
                    assert(b[at + 14] == header@[14]);
                    assert(b[at + 15] == header@[15]);
                    assert(be64(b, at + 8) == be32(header@, 8) * 0x1_0000_0000 + be32(header@, 12));
                }
            }
        }
        let over: Option<bool> = match size {
            None => Some(false),
            Some(z) => if z < 8 || is_moov {
                Some(false)
            } else if is_mdat {
                Some(self.saw_ftyp)
            } else {
                None
            },
        };
        proof {
            let kind = header@.subrange(4, 8);
            assert(is_moov == (kind =~= moov())) by {
                assert(moov()[0] == 0x6d && moov()[1] == 0x6f && moov()[2] == 0x6f && moov()[3] == 0x76);
            }
            assert(is_mdat == (kind =~= mdat())) by {
                assert(mdat()[0] == 0x6d && mdat()[1] == 0x64 && mdat()[2] == 0x61 && mdat()[3] == 0x74);
            }
            assert(is_ftyp == (kind =~= ftyp())) by {
                assert(ftyp()[0] == 0x66 && ftyp()[1] == 0x74 && ftyp()[2] == 0x79 && ftyp()[3] == 0x70);
            }
        }
        if over.is_some() {
            self.verdict = over;
            return ;
        }
        let step: u64 = size.unwrap();
        self.saw_ftyp = self.saw_ftyp || is_ftyp;
        self.boxes = self.boxes - 1;
        // The next header must lie inside the file, which also keeps the offset from
        // running over.
        match self.pos.checked_add(step) {
            Some(next) => {
                self.pos = next;
                if self.boxes == 0 || next > self.len || self.len - next < 8 {
                    self.verdict = Some(false);
                }
            },
            None => {
                self.verdict = Some(false);
            },
        }
        proof {
            assert forall|b: Seq<u8>|
                b.len() == old(self).file_len() && is_header_of(
                    b,
                    old(self).next_at()->0 as int,
                    header@,
                ) implies #[trigger] self.result(b) == old(self).result(b) by {
                reveal_with_fuel(slow_from, 2);
            }
        }
    }
}

/// Whether `header` is what stands in `b` from `at` on: sixteen bytes, or as many as there are.
pub open spec fn is_header_of(b: Seq<u8>, at: int, header: Seq<u8>) -> bool {
    &&& 0 <= at <= b.len()
    &&& header == b.subrange(
        at,
        if at + HEADER_BYTES <= b.len() {
            at + HEADER_BYTES
        } else {
            b.len() as int
        },
    )
}

fn read_be32(b: &[u8], at: usize) -> (r: u64)
    requires
        at + 4 <= b.len(),
    ensures
        r == be32(b@, at as int),
        r <= 0xffff_ffff,
{
    (b[at] as u64) * 0x100_0000 + (b[at + 1] as u64) * 0x1_0000 + (b[at + 2] as u64) * 0x100 + (b[at + 3] as u64)
}

fn kind_is(b: &[u8], k0: u8, k1: u8, k2: u8, k3: u8) -> (r: bool)
    requires
        b.len() >= 8,
    ensures
        r == (b@[4] == k0 && b@[5] == k1 && b@[6] == k2 && b@[7] == k3),
{
    b[4] == k0 && b[5] == k1 && b[6] == k2 && b[7] == k3
}

/// Whether `data`, the bytes of a file, is a non-faststart MP4: it is an MP4 (an `ftyp` box is
/// present) and its `mdat` box precedes `moov`.
///
/// `false` for a faststart MP4, for anything that is not an MP4, and for a file whose boxes
/// cannot be followed: such a file is served as it is, never remuxed on a guess.
pub fn needs_faststart(data: &[u8]) -> (r: bool)
    ensures
        r == is_slow(data@),
{
    let mut scan = FaststartScan::new(data.len() as u64);
    loop
        invariant
            scan.wf(),
            scan.file_len() == data@.len(),
            scan.result(data@) == is_slow(data@),
        ensures
            scan.wf(),
            scan.next_at() is None,
            scan.result(data@) == is_slow(data@),
        decreases scan.boxes_left(),
    {
        match scan.wants() {
            None => {
                break;
            },
            Some(p) => {
                let at: usize = p as usize;
                let end: usize = if data.len() - at > HEADER_BYTES {
                    at + HEADER_BYTES
                } else {
                    data.len()
                };
                let header = vstd::slice::slice_subrange(data, at, end);
                scan.feed(header);
                if scan.wants().is_none() {
                    break;
                }
            },
        }
    }
    scan.verdict()
}

/// Whether a box that is neither audio nor index lies in `b` from `from` to `to`.
pub open spec fn is_passed_over(b: Seq<u8>, from: int, to: int) -> bool {
    &&& 0 <= from
    &&& from + 8 <= to <= b.len()
    &&& ((b[from] * 256 + b[from + 1]) * 256 + b[from + 2]) * 256 + b[from + 3] == to - from
    &&& b.subrange(from + 4, from + 8) != seq![0x6du8, 0x64u8, 0x61u8, 0x74u8]
    &&& b.subrange(from + 4, from + 8) != seq![0x6du8, 0x6fu8, 0x6fu8, 0x76u8]
}

proof fn lemma_boxes_are_passed_over(b: Seq<u8>, at: Seq<int>, i: int)
    requires
        at.len() > 0,
        at[0] == 0,
        8 <= b.len(),
        b.subrange(4, 8) == seq![0x66u8, 0x74u8, 0x79u8, 0x70u8],
        forall|j: int| 0 <= j < at.len() - 1 ==> is_passed_over(b, #[trigger] at[j], at[j + 1]),
        0 <= i < at.len(),
        i <= 256,
    ensures
        slow_from(b, 0, false, 256) == slow_from(b, at[i], i > 0, (256 - i) as nat),
    decreases i,
{
    if i > 0 {
        lemma_boxes_are_passed_over(b, at, i - 1);
        assert(is_passed_over(b, at[i - 1], at[i - 1 + 1]));
        assert(at[i - 1 + 1] == at[i]);
        if i == 1 {
            assert(kind_at(b, at[0]) == ftyp());
        }
    }
}

/// The boxes of a file are followed to the 256th: audio that comes before the index, behind an
/// `ftyp` box and any boxes of other kinds, makes the file slow exactly if it is among them.
pub proof fn law_boxes_are_followed_to_a_limit(b: Seq<u8>, at: Seq<int>)
    requires
        at.len() > 1,
        at[0] == 0,
        b.len() >= 8,
        b.subrange(4, 8) == seq![0x66u8, 0x74u8, 0x79u8, 0x70u8],
        forall|j: int| 0 <= j < at.len() - 1 ==> is_passed_over(b, #[trigger] at[j], at[j + 1]),
        at.last() + 8 <= b.len(),
        ((b[at.last()] * 256 + b[at.last() + 1]) * 256 + b[at.last() + 2]) * 256 + b[at.last() + 3] >= 8,
        b.subrange(at.last() + 4, at.last() + 8) == seq![0x6du8, 0x64u8, 0x61u8, 0x74u8],
    ensures
        is_slow(b) <==> at.len() <= 256,
{
    if at.len() <= 256 {
        let i = at.len() - 1;
        lemma_boxes_are_passed_over(b, at, i);
        assert(kind_at(b, at[i]) == mdat());
        assert(mdat()[1] == 0x64u8 && moov()[1] == 0x6fu8);
        assert(mdat() != moov());
    } else {
        lemma_boxes_are_passed_over(b, at, 256);
    }
}

/// An MP4 file, which begins with an `ftyp` box, is slow to start if its audio (`mdat`) comes
/// before its index (`moov`), and is not if the index comes first; boxes of other kinds between
/// them make no difference.
pub proof fn law_audio_before_index_is_slow(b: Seq<u8>, n: int, m: int)
    requires
        8 <= n,
        8 <= m,
        n + m + 8 <= b.len(),
        ((b[0] * 256 + b[1]) * 256 + b[2]) * 256 + b[3] == n,
        b[4] == 0x66 && b[5] == 0x74 && b[6] == 0x79 && b[7] == 0x70,
        ((b[n] * 256 + b[n + 1]) * 256 + b[n + 2]) * 256 + b[n + 3] == m,
    ensures
        ({
            let next = b.subrange(n + 4, n + 8);
            let third = b.subrange(n + m + 4, n + m + 8);
            let size = ((b[n + m] * 256 + b[n + m + 1]) * 256 + b[n + m + 2]) * 256 + b[n + m + 3];
            let audio = seq![0x6du8, 0x64u8, 0x61u8, 0x74u8];
            let index = seq![0x6du8, 0x6fu8, 0x6fu8, 0x76u8];
            &&& next == audio ==> is_slow(b)
            &&& next == index ==> !is_slow(b)
            &&& next != audio && next != index && size >= 8 && third == audio ==> is_slow(b)
            &&& next != audio && next != index && third == index ==> !is_slow(b)
        }),
{
    reveal_with_fuel(slow_from, 4);
    let first = kind_at(b, 0);
    assert(first =~= ftyp());
    assert(be32(b, 0) == n);
    assert(be32(b, n) == m);
    assert(ftyp()[0] == 0x66 && moov()[0] == 0x6d && mdat()[0] == 0x6d);
    assert(moov()[1] == 0x6f && mdat()[1] == 0x64);
    assert(first[0] == 0x66);
    let next = b.subrange(n + 4, n + 8);
    let third = b.subrange(n + m + 4, n + m + 8);
    assert(kind_at(b, n) == next);
    assert(kind_at(b, n + m) == third);
    assert(mdat() =~= seq![0x6du8, 0x64u8, 0x61u8, 0x74u8]);
    assert(moov() =~= seq![0x6du8, 0x6fu8, 0x6fu8, 0x76u8]);
    assert(slow_from(b, 0, false, MAX_BOXES as nat) == slow_from(b, n, true, (MAX_BOXES - 1) as nat));
}

/// A file that does not begin with an `ftyp` box is no MP4 file, and never slow, if its audio comes
/// next.
pub proof fn law_audio_alone_is_not_slow(b: Seq<u8>)
    requires
        b.len() >= 8,
        b[4] == 0x6d && b[5] == 0x64 && b[6] == 0x61 && b[7] == 0x74,
    ensures
        !is_slow(b),
{
    assert(kind_at(b, 0) =~= mdat());
    assert(moov()[1] == 0x6f && mdat()[1] == 0x64);
}

/// A box that gives its size in eight bytes, because four do not hold it, is passed over like any
/// other: what comes behind it decides.
pub proof fn law_large_boxes_are_passed_over(b: Seq<u8>, n: int, m: int)
    requires
        8 <= n,
        16 <= m,
        n + m + 8 <= b.len(),
        ((b[0] * 256 + b[1]) * 256 + b[2]) * 256 + b[3] == n,
        b[4] == 0x66 && b[5] == 0x74 && b[6] == 0x79 && b[7] == 0x70,
        b[n] == 0 && b[n + 1] == 0 && b[n + 2] == 0 && b[n + 3] == 1,
        b[n + 8] == 0 && b[n + 9] == 0 && b[n + 10] == 0,
        (((b[n + 11] * 256 + b[n + 12]) * 256 + b[n + 13]) * 256 + b[n + 14]) * 256 + b[n + 15] == m,
        b.subrange(n + 4, n + 8) != seq![0x6du8, 0x64u8, 0x61u8, 0x74u8],
        b.subrange(n + 4, n + 8) != seq![0x6du8, 0x6fu8, 0x6fu8, 0x76u8],
    ensures
        ({
            let third = b.subrange(n + m + 4, n + m + 8);
            let size = ((b[n + m] * 256 + b[n + m + 1]) * 256 + b[n + m + 2]) * 256 + b[n + m + 3];
            &&& size >= 8 && third == seq![0x6du8, 0x64u8, 0x61u8, 0x74u8] ==> is_slow(b)
            &&& third == seq![0x6du8, 0x6fu8, 0x6fu8, 0x76u8] ==> !is_slow(b)
        }),
{
    reveal_with_fuel(slow_from, 4);
    let first = kind_at(b, 0);
    assert(first =~= ftyp());
    assert(be32(b, 0) == n);
    assert(be32(b, n) == 1);
    assert(be64(b, n + 8) == m);
    assert(ftyp()[0] == 0x66 && moov()[0] == 0x6d && mdat()[0] == 0x6d);
    assert(moov()[1] == 0x6f && mdat()[1] == 0x64);
    assert(first[0] == 0x66);
    assert(kind_at(b, n) == b.subrange(n + 4, n + 8));
    assert(kind_at(b, n + m) == b.subrange(n + m + 4, n + m + 8));
    assert(mdat() =~= seq![0x6du8, 0x64u8, 0x61u8, 0x74u8]);
    assert(moov() =~= seq![0x6du8, 0x6fu8, 0x6fu8, 0x76u8]);
    assert(slow_from(b, 0, false, MAX_BOXES as nat) == slow_from(b, n, true, (MAX_BOXES - 1) as nat));
    assert(slow_from(b, n, true, (MAX_BOXES - 1) as nat) == slow_from(b, n + m, true, (MAX_BOXES - 2) as nat));
}

} // verus!
