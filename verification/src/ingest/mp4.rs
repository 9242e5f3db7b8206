//! Minimal ISO BMFF box splitter for ffmpeg's fragmented output.
use vstd::prelude::*;
use vstd::string::*;
use crate::media::sink::flatten;
use crate::wire::{be_u32, push_bytes, read_u32_be};

verus! {

/// A top-level box.
#[derive(Debug, Clone, PartialEq, Eq)]
pub struct Box4 {
    /// FourCC.
    pub kind: [u8; 4],
    /// Whole box bytes, header included.
    pub bytes: Vec<u8>,
}

/// The value of eight big-endian bytes `s[i..i + 8]`.
pub open spec fn be_u64_at(s: Seq<u8>, i: int) -> int {
    be_u32(s[i], s[i + 1], s[i + 2], s[i + 3]) as int * 0x1_0000_0000 + be_u32(s[i + 4], s[i + 5], s[i + 6], s[i + 7]) as int
}

/// The size of the box at the front of `buf`, if a whole box is there: the
/// 32-bit size, or the 64-bit size after it when the 32-bit size is 1; size 0
/// ("to end of file") and sizes under the 8-byte header are never complete.
pub open spec fn box_len(buf: Seq<u8>) -> Option<int> {
    if buf.len() < 8 {
        None
    } else {
        let size32 = be_u32(buf[0], buf[1], buf[2], buf[3]);
        if size32 == 0 {
            None
        } else if size32 == 1 && buf.len() < 16 {
            None
        } else {
            let size = if size32 == 1 { (be_u64_at(buf, 8) as u64) as usize as int } else { size32 as usize as int };
            if size < 8 || buf.len() < size { None } else { Some(size) }
        }
    }
}

/// The complete boxes at the front of `buf`, as (fourcc, bytes), and what is
/// left after them.
pub open spec fn split_all(buf: Seq<u8>) -> (Seq<(Seq<u8>, Seq<u8>)>, Seq<u8>)
    decreases buf.len(),
{
    match box_len(buf) {
        None => (Seq::empty(), buf),
        Some(size) => {
            if size <= 0 {
                (Seq::empty(), buf)
            } else {
                let (bs, rest) = split_all(buf.skip(size));
                (seq![(buf.subrange(4, 8), buf.take(size))] + bs, rest)
            }
        },
    }
}

/// Incremental splitter: feed bytes, pull complete boxes.
#[derive(Debug)]
pub struct BoxSplitter {
    buf: Vec<u8>,
}

impl BoxSplitter {
    /// Bytes buffered and not yet returned as a box.
    pub closed spec fn buffered(&self) -> Seq<u8> {
        self.buf@
    }

    /// New splitter.
    pub fn new() -> (r: BoxSplitter)
        ensures r.buffered() == Seq::<u8>::empty(),
    {
        BoxSplitter { buf: Vec::new() }
    }

    /// Append input.
    pub fn feed(&mut self, data: &[u8])
        ensures final(self).buffered() == old(self).buffered() + data@,
    {
        push_bytes(&mut self.buf, data);
    }

    /// Next complete box, if any.
    pub fn next_box(&mut self) -> (r: Option<Box4>)
        ensures
            match box_len(old(self).buffered()) {
                None => r is None && final(self).buffered() == old(self).buffered(),
                Some(size) => {
                    &&& r matches Some(b)
                    &&& b.kind@ == old(self).buffered().subrange(4, 8)
                    &&& b.bytes@ == old(self).buffered().take(size)
                    &&& final(self).buffered() == old(self).buffered().skip(size)
                },
            },
    {
        if self.buf.len() < 8 {
            return None;
        }
        let size32 = read_u32_be(self.buf[0], self.buf[1], self.buf[2], self.buf[3]);
        let kind = [self.buf[4], self.buf[5], self.buf[6], self.buf[7]];
        let size: usize = if size32 == 1 {
            if self.buf.len() < 16 {
                return None;
            }
            let hi = read_u32_be(self.buf[8], self.buf[9], self.buf[10], self.buf[11]);
            let lo = read_u32_be(self.buf[12], self.buf[13], self.buf[14], self.buf[15]);
            let v: u64 = hi as u64 * 0x1_0000_0000 + lo as u64;
            v as usize
        } else if size32 == 0 {
            return None;
        } else {
            size32 as usize
        };
        if size < 8 || self.buf.len() < size {
            return None;
        }
        let mut bytes: Vec<u8> = Vec::with_capacity(size);
        let mut rest: Vec<u8> = Vec::with_capacity(self.buf.len() - size);
        let mut k: usize = 0;
        while k < self.buf.len()
            invariant
                size <= self.buf@.len(),
                k <= self.buf@.len(),
                k <= size ==> bytes@ == self.buf@.take(k as int) && rest@ == Seq::<u8>::empty(),
                k > size ==> bytes@ == self.buf@.take(size as int) && rest@ == self.buf@.subrange(size as int, k as int),
            decreases self.buf@.len() - k,
        {
            if k < size {
                bytes.push(self.buf[k]);
                assert(bytes@ =~= self.buf@.take(k + 1));
            } else {
                rest.push(self.buf[k]);
                assert(rest@ =~= self.buf@.subrange(size as int, k + 1));
            }
            k = k + 1;
        }
        assert(kind@ =~= self.buf@.subrange(4, 8));
        assert(rest@ =~= self.buf@.skip(size as int));
        self.buf = rest;
        Some(Box4 { kind, bytes })
    }
}

/// An assembled unit.
#[derive(Debug, Clone, PartialEq, Eq)]
pub enum Unit {
    /// Initialisation segment.
    Init(Vec<u8>),
    /// One media fragment.
    Media(Vec<u8>),
}

/// A unit's contents: whether it is an INIT, and its bytes.
pub open spec fn unit_view(u: Unit) -> (bool, Seq<u8>) {
    match u {
        Unit::Init(b) => (true, b@),
        Unit::Media(b) => (false, b@),
    }
}

/// FourCC of `moov`.
pub open spec fn moov() -> Seq<u8> { seq![0x6du8, 0x6fu8, 0x6fu8, 0x76u8] }
/// FourCC of `moof`.
pub open spec fn moof() -> Seq<u8> { seq![0x6du8, 0x6fu8, 0x6fu8, 0x66u8] }
/// FourCC of `mdat`.
pub open spec fn mdat() -> Seq<u8> { seq![0x6du8, 0x64u8, 0x61u8, 0x74u8] }

/// One box through the grouping rule: every box joins the pending unit;
/// `moov` closes an INIT unit, `mdat` after a `moof` closes a MEDIA unit.
pub open spec fn group_step(pending: Seq<Seq<u8>>, in_media: bool, kind: Seq<u8>, bytes: Seq<u8>)
    -> (Seq<Seq<u8>>, bool, Seq<(bool, Seq<u8>)>)
{
    let p = pending.push(bytes);
    if kind == moov() {
        (Seq::empty(), false, seq![(true, flatten(p))])
    } else if kind == moof() {
        (p, true, Seq::empty())
    } else if kind == mdat() && in_media {
        (Seq::empty(), false, seq![(false, flatten(p))])
    } else {
        (p, in_media, Seq::empty())
    }
}

/// A run of boxes through the grouping rule: the pending parts and flag
/// after them, and the units completed, in order.
pub open spec fn group_run(boxes: Seq<(Seq<u8>, Seq<u8>)>, pending: Seq<Seq<u8>>, in_media: bool)
    -> (Seq<Seq<u8>>, bool, Seq<(bool, Seq<u8>)>)
    decreases boxes.len(),
{
    if boxes.len() == 0 {
        (pending, in_media, Seq::empty())
    } else {
        let (p1, m1, u1) = group_step(pending, in_media, boxes[0].0, boxes[0].1);
        let (p2, m2, u2) = group_run(boxes.drop_first(), p1, m1);
        (p2, m2, u1 + u2)
    }
}

/// Groups boxes into INIT (`ftyp`+`moov`) and MEDIA (`moof`+`mdat`) units.
#[derive(Debug)]
pub struct FragmentAssembler {
    splitter: BoxSplitter,
    pending: Vec<Vec<u8>>,
    in_media: bool,
}

/// The contents of a list of buffers.
pub open spec fn parts_view(v: Seq<Vec<u8>>) -> Seq<Seq<u8>> {
    v.map_values(|b: Vec<u8>| b@)
}

/// Whether `k` is the fourcc `a b c d`.
fn is_kind(k: &[u8; 4], a: u8, b: u8, c: u8, d: u8) -> (r: bool)
    ensures r == (k@ == seq![a, b, c, d]),
{
    let r = k[0] == a && k[1] == b && k[2] == c && k[3] == d;
    proof {
        if r {
            assert(k@ =~= seq![a, b, c, d]);
        } else if k@ == seq![a, b, c, d] {
            assert(k@[0] == a && k@[1] == b && k@[2] == c && k@[3] == d);
        }
    }
    r
}

/// Concatenate parts.
fn concat(parts: Vec<Vec<u8>>) -> (r: Vec<u8>)
    ensures r@ == flatten(parts_view(parts@)),
{
    let mut v: Vec<u8> = Vec::new();
    let mut i: usize = 0;
    while i < parts.len()
        invariant
            i <= parts@.len(),
            v@ == flatten(parts_view(parts@).take(i as int)),
        decreases parts@.len() - i,
    {
        push_bytes(&mut v, parts[i].as_slice());
        assert(parts_view(parts@).take(i + 1).drop_last() =~= parts_view(parts@).take(i as int));
        i = i + 1;
    }
    assert(parts_view(parts@).take(i as int) =~= parts_view(parts@));
    v
}

impl FragmentAssembler {
    /// Bytes buffered and not yet split into boxes.
    pub closed spec fn buffered(&self) -> Seq<u8> {
        self.splitter.buffered()
    }

    /// Boxes of the unit being assembled.
    pub closed spec fn pending_parts(&self) -> Seq<Seq<u8>> {
        parts_view(self.pending@)
    }

    /// Whether a `moof` is waiting for its `mdat`.
    pub closed spec fn in_media_spec(&self) -> bool {
        self.in_media
    }

    /// New assembler.
    pub fn new() -> (r: FragmentAssembler)
        ensures
            r.buffered() == Seq::<u8>::empty(),
            r.pending_parts() == Seq::<Seq<u8>>::empty(),
            !r.in_media_spec(),
    {
        let r = FragmentAssembler { splitter: BoxSplitter::new(), pending: Vec::new(), in_media: false };
        assert(r.pending_parts() =~= Seq::<Seq<u8>>::empty());
        r
    }

    /// Feed bytes and collect completed units.
    pub fn feed(&mut self, data: &[u8]) -> (r: Vec<Unit>)
        ensures
            ({
                let (boxes, rest) = split_all(old(self).buffered() + data@);
                let (p, m, units) = group_run(boxes, old(self).pending_parts(), old(self).in_media_spec());
                &&& final(self).buffered() == rest
                &&& final(self).pending_parts() == p
                &&& final(self).in_media_spec() == m
                &&& r@.map_values(|u: Unit| unit_view(u)) == units
            }),
    {
        self.splitter.feed(data);
        let ghost all = self.splitter.buffered();
        let ghost total = group_run(split_all(all).0, self.pending_parts(), self.in_media);
        let mut out: Vec<Unit> = Vec::new();
        assert(out@.map_values(|u: Unit| unit_view(u)) =~= Seq::<(bool, Seq<u8>)>::empty());
        assert(Seq::<(bool, Seq<u8>)>::empty() + total.2 =~= total.2);
        loop
            invariant
                split_all(self.splitter.buffered()).1 == split_all(all).1,
                ({
                    let rem = group_run(split_all(self.splitter.buffered()).0, self.pending_parts(), self.in_media);
                    &&& rem.0 == total.0
                    &&& rem.1 == total.1
                    &&& out@.map_values(|u: Unit| unit_view(u)) + rem.2 == total.2
                }),
            ensures
                split_all(self.splitter.buffered()).0 == Seq::<(Seq<u8>, Seq<u8>)>::empty(),
                split_all(self.splitter.buffered()).1 == split_all(all).1,
                self.pending_parts() == total.0,
                self.in_media == total.1,
                out@.map_values(|u: Unit| unit_view(u)) == total.2,
            decreases self.splitter.buffered().len(),
        {
            let ghost buf = self.splitter.buffered();
            let ghost pend = self.pending_parts();
            let ghost med = self.in_media;
            let ghost ov = out@.map_values(|u: Unit| unit_view(u));
            let next = self.splitter.next_box();
            let b = match next {
                Some(b) => b,
                None => {
                    assert(split_all(buf).0 =~= Seq::<(Seq<u8>, Seq<u8>)>::empty());
                    assert(ov + Seq::<(bool, Seq<u8>)>::empty() =~= ov);
                    break;
                },
            };
            let ghost size = box_len(buf)->Some_0;
            let ghost entry = (buf.subrange(4, 8), buf.take(size));
            proof {
                assert(split_all(buf).0 == seq![entry] + split_all(buf.skip(size)).0);
                assert((seq![entry] + split_all(buf.skip(size)).0).drop_first() =~= split_all(buf.skip(size)).0);
            }
            let ghost step = group_step(pend, med, entry.0, entry.1);
            let ghost bv = b.bytes@;
            let ghost pv = self.pending@;
            let kind = b.kind;
            self.pending.push(b.bytes);
            assert(self.pending_parts() =~= pend.push(bv));
            if is_kind(&kind, 0x6d, 0x6f, 0x6f, 0x76) {
                let mut parts: Vec<Vec<u8>> = Vec::new();
                std::mem::swap(&mut parts, &mut self.pending);
                out.push(Unit::Init(concat(parts)));
                self.in_media = false;
                assert(self.pending_parts() =~= Seq::<Seq<u8>>::empty());
            } else if is_kind(&kind, 0x6d, 0x6f, 0x6f, 0x66) {
                self.in_media = true;
            } else if is_kind(&kind, 0x6d, 0x64, 0x61, 0x74) {
                if self.in_media {
                    let mut parts: Vec<Vec<u8>> = Vec::new();
                    std::mem::swap(&mut parts, &mut self.pending);
                    out.push(Unit::Media(concat(parts)));
                    self.in_media = false;
                    assert(self.pending_parts() =~= Seq::<Seq<u8>>::empty());
                }
            }
            proof {
                assert(self.pending_parts() == step.0);
                assert(self.in_media == step.1);
                assert(out@.map_values(|u: Unit| unit_view(u)) =~= ov + step.2);
                let rest_run = group_run(split_all(buf.skip(size)).0, step.0, step.1);
                assert(group_run(split_all(buf).0, pend, med) == (rest_run.0, rest_run.1, step.2 + rest_run.2));
                assert(ov + (step.2 + rest_run.2) =~= (ov + step.2) + rest_run.2);
            }
        }
        out
    }
}

// ---------------------------------------------------------------- codec string

/// Whether `avcC` starts at `i`.
pub open spec fn avcc_at(s: Seq<u8>, i: int) -> bool {
    &&& 0 <= i
    &&& i + 4 <= s.len()
    &&& s[i] == 0x61u8 && s[i + 1] == 0x76u8 && s[i + 2] == 0x63u8 && s[i + 3] == 0x43u8
}

/// The first position from `i` on where `avcC` starts.
pub open spec fn find_avcc(s: Seq<u8>, i: int) -> Option<int>
    decreases s.len() - i,
{
    if i < 0 || i + 4 > s.len() {
        None
    } else if avcc_at(s, i) {
        Some(i)
    } else {
        find_avcc(s, i + 1)
    }
}

/// Lower-case hex digit.
pub open spec fn hex_char(n: u8) -> char {
    if n < 10 { (48 + n) as char } else { (87 + n) as char }
}

/// Two lower-case hex digits of a byte.
pub open spec fn hex2(b: u8) -> Seq<char> {
    seq![hex_char(b / 16), hex_char(b % 16)]
}

/// The RFC 6381 codec string for the first `avcC` box of an init segment:
/// `avc1.` and the profile, compatibility and level bytes in hex.
pub open spec fn codec_string_spec(s: Seq<u8>) -> Option<Seq<char>> {
    match find_avcc(s, 0) {
        None => None,
        Some(pos) => {
            let p = pos + 4;
            if p + 4 > s.len() {
                None
            } else {
                Some(seq!['a', 'v', 'c', '1', '.'] + hex2(s[p + 1]) + hex2(s[p + 2]) + hex2(s[p + 3]))
            }
        },
    }
}

/// One lower-case hex digit as a string.
fn hex_digit(n: u8) -> (r: &'static str)
    requires n < 16,
    ensures r@ == seq![hex_char(n)],
{
    proof {
        reveal_strlit("0"); reveal_strlit("1"); reveal_strlit("2"); reveal_strlit("3");
        reveal_strlit("4"); reveal_strlit("5"); reveal_strlit("6"); reveal_strlit("7");
        reveal_strlit("8"); reveal_strlit("9"); reveal_strlit("a"); reveal_strlit("b");
        reveal_strlit("c"); reveal_strlit("d"); reveal_strlit("e"); reveal_strlit("f");
    }
    match n {
        0 => "0",
        1 => "1",
        2 => "2",
        3 => "3",
        4 => "4",
        5 => "5",
        6 => "6",
        7 => "7",
        8 => "8",
        9 => "9",
        10 => "a",
        11 => "b",
        12 => "c",
        13 => "d",
        14 => "e",
        _ => "f",
    }
}

/// Append two hex digits of `b`.
pub(crate) fn push_hex2(s: &mut String, b: u8)
    ensures final(s)@ == old(s)@ + hex2(b),
{
    s.append(hex_digit(b / 16));
    s.append(hex_digit(b % 16));
    assert(final(s)@ =~= old(s)@ + hex2(b));
}

/// Find the `avcC` box inside an init segment and return the RFC 6381 codec
/// string (`avc1.PPCCLL`), if present.
pub fn avc1_codec_string(init: &[u8]) -> (r: Option<String>)
    ensures
        match codec_string_spec(init@) {
            None => r is None,
            Some(c) => r matches Some(s) && s@ == c,
        },
{
    let n = init.len();
    if n < 4 {
        return None;
    }
    let mut i: usize = 0;
    let mut found = false;
    while i <= n - 4
        invariant_except_break
            !found,
        invariant
            n == init@.len(),
            n >= 4,
            i <= n - 3,
            find_avcc(init@, 0) == find_avcc(init@, i as int),
        ensures
            found ==> find_avcc(init@, 0) == Some(i as int),
            !found ==> find_avcc(init@, 0) is None,
        decreases n - i,
    {
        if init[i] == 0x61 && init[i + 1] == 0x76 && init[i + 2] == 0x63 && init[i + 3] == 0x43 {
            found = true;
            break;
        }
        i = i + 1;
    }
    if !found {
        return None;
    }
    let p = i + 4;
    if p > n || n - p < 4 {
        return None;
    }
    let mut s = String::from_str("avc1.");
    proof {
        reveal_strlit("avc1.");
    }
    push_hex2(&mut s, init[p + 1]);
    push_hex2(&mut s, init[p + 2]);
    push_hex2(&mut s, init[p + 3]);
    Some(s)
}

} // verus!
