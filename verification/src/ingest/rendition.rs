//! Simulcast renditions: the `"480p:1500"` spec syntax, the ladder they form,
//! and the multiplexing of one fragment stream per rendition into chunks
//! (layer `l` = rendition `l`).
use vstd::prelude::*;
use vstd::string::*;
use vstd::std_specs::iter::IteratorSpec;
use std::collections::VecDeque;
use crate::media::ladder::{Ladder, Layer};
use crate::media::chunk::{views, LayeredChunk};
use crate::wire::{SegmentSeq, CHUNKS_PER_SEGMENT};
use super::container::{encode, encoding, encoded_size, records_view, Record, RecordType};

verus! {

/// A rendition: `"480p:1500"` = 480 lines high at 1500 kbps.
#[derive(Debug, Clone, PartialEq, Eq)]
pub struct RenditionSpec {
    /// Label (e.g. "480p").
    pub label: String,
    /// Frame height; width follows the aspect ratio.
    pub height: u32,
    /// Video bitrate, kbps.
    pub kbps: u32,
}

/// Why a rendition spec was refused.
#[derive(Debug, Clone, Copy, PartialEq, Eq, Structural)]
pub enum RenditionError {
    /// No `:` between height and bitrate.
    Format,
    /// The height is not a `u32`.
    Height,
    /// The bitrate is not a `u32`.
    Kbps,
}

/// The characters of a string.
pub(crate) fn chars_vec(s: &str) -> (r: Vec<char>)
    ensures r@ == s@,
{
    let mut v: Vec<char> = Vec::new();
    let mut it = s.chars();
    let ghost all = s@;
    assert(it.remaining() == all);
    loop
        invariant
            v@.len() <= all.len(),
            it.remaining() == all.skip(v@.len() as int),
            v@ == all.take(v@.len() as int),
        ensures v@ == all,
        decreases all.len() - v@.len(),
    {
        let ghost before = v@;
        match it.next() {
            Some(c) => {
                assert(all.skip(before.len() as int)[0] == c);
                assert(all.skip(before.len() as int).drop_first() =~= all.skip(before.len() as int + 1));
                v.push(c);
                assert(v@ =~= all.take(v@.len() as int));
            },
            None => {
                assert(all.skip(before.len() as int).len() == 0);
                assert(v@ =~= all);
                break;
            },
        }
    }
    v
}


/// Whether `c` has the Unicode White_Space property (what `char::is_whitespace` tests).
pub open spec fn is_ws(c: char) -> bool {
    ||| ('\u{9}' <= c && c <= '\u{d}')
    ||| c == ' '
    ||| c == '\u{85}'
    ||| c == '\u{a0}'
    ||| c == '\u{1680}'
    ||| ('\u{2000}' <= c && c <= '\u{200a}')
    ||| c == '\u{2028}'
    ||| c == '\u{2029}'
    ||| c == '\u{202f}'
    ||| c == '\u{205f}'
    ||| c == '\u{3000}'
}

/// `s` without leading whitespace.
pub open spec fn trim_start(s: Seq<char>) -> Seq<char>
    decreases s.len(),
{
    if s.len() > 0 && is_ws(s[0]) { trim_start(s.drop_first()) } else { s }
}

/// `s` without trailing whitespace.
pub open spec fn trim_end(s: Seq<char>) -> Seq<char>
    decreases s.len(),
{
    if s.len() > 0 && is_ws(s.last()) { trim_end(s.drop_last()) } else { s }
}

/// `s` without surrounding whitespace.
pub open spec fn trim(s: Seq<char>) -> Seq<char> {
    trim_end(trim_start(s))
}

/// `s` without trailing `p`s.
pub open spec fn strip_p(s: Seq<char>) -> Seq<char>
    decreases s.len(),
{
    if s.len() > 0 && s.last() == 'p' { strip_p(s.drop_last()) } else { s }
}

/// The first position from `i` on holding `c`.
pub open spec fn find_char(s: Seq<char>, c: char, i: int) -> Option<int>
    decreases s.len() - i,
{
    if i < 0 || i >= s.len() {
        None
    } else if s[i] == c {
        Some(i)
    } else {
        find_char(s, c, i + 1)
    }
}

/// Whether `c` is an ASCII digit.
pub open spec fn is_digit(c: char) -> bool {
    '0' <= c && c <= '9'
}

/// The value of a string of decimal digits.
pub open spec fn digits_value(d: Seq<char>) -> nat
    decreases d.len(),
{
    if d.len() == 0 { 0 } else { digits_value(d.drop_last()) * 10 + (d.last() as nat - 48) as nat }
}

/// Whether every character is an ASCII digit.
pub open spec fn all_digits(d: Seq<char>) -> bool {
    forall|i: int| 0 <= i < d.len() ==> is_digit(#[trigger] d[i])
}

/// `u32::from_str`: an optional `+`, then at least one ASCII digit, with the
/// value within `u32`.
pub open spec fn parse_u32_spec(t: Seq<char>) -> Option<u32> {
    let d = if t.len() > 0 && t[0] == '+' { t.drop_first() } else { t };
    if d.len() == 0 {
        None
    } else if !all_digits(d) {
        None
    } else if digits_value(d) > u32::MAX {
        None
    } else {
        Some(digits_value(d) as u32)
    }
}

/// A rendition spec's height and bitrate: `<height>[p…]:<kbps>`, split at
/// the first `:`.
pub open spec fn parse_spec(s: Seq<char>) -> Result<(u32, u32), RenditionError> {
    match find_char(s, ':', 0) {
        None => Err(RenditionError::Format),
        Some(i) => match parse_u32_spec(strip_p(s.take(i))) {
            None => Err(RenditionError::Height),
            Some(h) => match parse_u32_spec(s.skip(i + 1)) {
                None => Err(RenditionError::Kbps),
                Some(k) => Ok((h, k)),
            },
        },
    }
}

/// The decimal digits of `n`.
pub open spec fn dec_digits(n: nat) -> Seq<char>
    decreases n,
{
    if n < 10 { seq![(48 + n) as char] } else { dec_digits(n / 10) + seq![(48 + n % 10) as char] }
}

/// The label of a rendition of height `h`: its decimal digits and `p`.
pub open spec fn label_of(h: u32) -> Seq<char> {
    dec_digits(h as nat) + seq!['p']
}

/// Where `find_char` lands.
pub proof fn lemma_find_char(s: Seq<char>, c: char, i: int)
    requires 0 <= i,
    ensures
        match find_char(s, c, i) {
            Some(j) => i <= j < s.len() && s[j] == c && forall|k: int| i <= k < j ==> s[k] != c,
            None => forall|k: int| i <= k < s.len() ==> s[k] != c,
        },
    decreases s.len() - i,
{
    if i < s.len() && s[i] != c {
        lemma_find_char(s, c, i + 1);
    }
}

/// The pieces of `s` between commas.
pub open spec fn pieces(s: Seq<char>) -> Seq<Seq<char>>
    decreases s.len(),
{
    match find_char(s, ',', 0) {
        None => seq![s],
        Some(i) => {
            proof {
                lemma_find_char(s, ',', 0);
            }
            seq![s.take(i)] + pieces(s.skip(i + 1))
        },
    }
}

/// Parsing a list of pieces: blank pieces are skipped, the first error stops.
pub open spec fn parse_pieces(ps: Seq<Seq<char>>) -> Result<Seq<(u32, u32)>, RenditionError>
    decreases ps.len(),
{
    if ps.len() == 0 {
        Ok(Seq::empty())
    } else if trim(ps[0]).len() == 0 {
        parse_pieces(ps.drop_first())
    } else {
        match parse_spec(trim(ps[0])) {
            Err(e) => Err(e),
            Ok(x) => match parse_pieces(ps.drop_first()) {
                Err(e) => Err(e),
                Ok(rest) => Ok(seq![x] + rest),
            },
        }
    }
}

/// A rendition's height and bitrate, with its label the canonical one.
pub open spec fn spec_matches(r: RenditionSpec, hk: (u32, u32)) -> bool {
    r.height == hk.0 && r.kbps == hk.1 && r.label@ == label_of(hk.0)
}

/// Whether `c` is one of the whitespace characters.
fn is_ws_exec(c: char) -> (r: bool)
    ensures r == is_ws(c),
{
    ('\u{9}' <= c && c <= '\u{d}') || c == ' ' || c == '\u{85}' || c == '\u{a0}' || c == '\u{1680}'
        || ('\u{2000}' <= c && c <= '\u{200a}') || c == '\u{2028}' || c == '\u{2029}' || c == '\u{202f}'
        || c == '\u{205f}' || c == '\u{3000}'
}

/// The decimal digit `d` as a string.
fn digit_str(d: u32) -> (r: &'static str)
    requires d < 10,
    ensures r@ == seq![(48 + d) as char],
{
    proof {
        reveal_strlit("0"); reveal_strlit("1"); reveal_strlit("2"); reveal_strlit("3"); reveal_strlit("4");
        reveal_strlit("5"); reveal_strlit("6"); reveal_strlit("7"); reveal_strlit("8"); reveal_strlit("9");
    }
    match d {
        0 => "0",
        1 => "1",
        2 => "2",
        3 => "3",
        4 => "4",
        5 => "5",
        6 => "6",
        7 => "7",
        8 => "8",
        _ => "9",
    }
}

/// Append the decimal digits of `n`.
fn push_decimal(s: &mut String, n: u32)
    ensures final(s)@ == old(s)@ + dec_digits(n as nat),
    decreases n,
{
    if n >= 10 {
        push_decimal(s, n / 10);
    }
    s.append(digit_str(n % 10));
    assert(final(s)@ =~= old(s)@ + dec_digits(n as nat));
}

/// Parse `v[lo..hi]` as `u32::from_str` does.
pub(crate) fn parse_u32_chars(v: &Vec<char>, lo: usize, hi: usize) -> (r: Option<u32>)
    requires lo <= hi <= v@.len(),
    ensures r == parse_u32_spec(v@.subrange(lo as int, hi as int)),
{
    let ghost t = v@.subrange(lo as int, hi as int);
    let mut i = lo;
    if hi > lo && v[lo] == '+' {
        i = lo + 1;
    }
    let ghost d = v@.subrange(i as int, hi as int);
    assert(d =~= (if t.len() > 0 && t[0] == '+' { t.drop_first() } else { t }));
    if i == hi {
        return None;
    }
    let start = i;
    let mut acc: u64 = 0;
    while i < hi
        invariant
            start <= i <= hi <= v@.len(),
            t == v@.subrange(lo as int, hi as int),
            d == (if t.len() > 0 && t[0] == '+' { t.drop_first() } else { t }),
            d == v@.subrange(start as int, hi as int),
            d.len() > 0,
            acc == digits_value(d.take(i - start)),
            acc <= u32::MAX,
            forall|k: int| 0 <= k < i - start ==> is_digit(#[trigger] d[k]),
        decreases hi - i,
    {
        let c = v[i];
        if !('0' <= c && c <= '9') {
            assert(!is_digit(d[i - start]));
            assert(!all_digits(d));
            return None;
        }
        proof {
            assert(d.take(i - start + 1).drop_last() =~= d.take(i - start));
            assert(d.take(i - start + 1).last() == c);
        }
        acc = acc * 10 + (c as u64 - 48);
        if acc > 0xffff_ffff {
            proof {
                lemma_digits_value_prefix(d, i - start + 1);
            }
            return None;
        }
        i = i + 1;
    }
    assert(d.take(i - start) =~= d);
    Some(acc as u32)
}

/// A longer prefix of digits is worth at least as much.
pub(crate) proof fn lemma_digits_value_prefix(d: Seq<char>, k: int)
    requires
        0 <= k <= d.len(),
        forall|i: int| 0 <= i < k ==> is_digit(#[trigger] d[i]),
    ensures all_digits(d) ==> digits_value(d.take(k)) <= digits_value(d),
    decreases d.len(),
{
    if k < d.len() {
        if all_digits(d) {
            assert(d.drop_last().take(k) =~= d.take(k));
            assert forall|i: int| 0 <= i < d.drop_last().len() implies is_digit(#[trigger] d.drop_last()[i]) by {
                assert(d.drop_last()[i] == d[i]);
            }
            lemma_digits_value_prefix(d.drop_last(), k);
        }
    } else {
        assert(d.take(k) =~= d);
    }
}


/// `v[lo..hi]` without surrounding whitespace, as a range.
fn trim_range(v: &Vec<char>, lo: usize, hi: usize) -> (r: (usize, usize))
    requires lo <= hi <= v@.len(),
    ensures
        lo <= r.0 <= r.1 <= hi,
        v@.subrange(r.0 as int, r.1 as int) == trim(v@.subrange(lo as int, hi as int)),
{
    let mut a = lo;
    while a < hi && is_ws_exec(v[a])
        invariant
            lo <= a <= hi <= v@.len(),
            trim_start(v@.subrange(lo as int, hi as int)) == trim_start(v@.subrange(a as int, hi as int)),
        decreases hi - a,
    {
        assert(v@.subrange(a as int, hi as int).drop_first() =~= v@.subrange(a + 1, hi as int));
        a = a + 1;
    }
    assert(trim_start(v@.subrange(a as int, hi as int)) == v@.subrange(a as int, hi as int));
    let mut b = hi;
    while b > a && is_ws_exec(v[b - 1])
        invariant
            a <= b <= hi <= v@.len(),
            trim_end(v@.subrange(a as int, hi as int)) == trim_end(v@.subrange(a as int, b as int)),
        decreases b - a,
    {
        assert(v@.subrange(a as int, b as int).drop_last() =~= v@.subrange(a as int, b - 1));
        b = b - 1;
    }
    assert(trim_end(v@.subrange(a as int, b as int)) == v@.subrange(a as int, b as int));
    (a, b)
}

/// The first `c` in `v[lo..hi]`, as a position in `v`.
pub(crate) fn find_in(v: &Vec<char>, c: char, lo: usize, hi: usize) -> (r: Option<usize>)
    requires lo <= hi <= v@.len(),
    ensures
        match find_char(v@.subrange(lo as int, hi as int), c, 0) {
            None => r is None,
            Some(j) => r == Some((lo + j) as usize),
        },
{
    let ghost sub = v@.subrange(lo as int, hi as int);
    let mut k = lo;
    while k < hi
        invariant
            lo <= k <= hi <= v@.len(),
            sub == v@.subrange(lo as int, hi as int),
            find_char(sub, c, 0) == find_char(sub, c, k - lo),
        decreases hi - k,
    {
        if v[k] == c {
            return Some(k);
        }
        k = k + 1;
    }
    None
}

/// Parse the rendition spec `v[lo..hi]`.
fn parse_range(v: &Vec<char>, lo: usize, hi: usize) -> (r: Result<RenditionSpec, RenditionError>)
    requires lo <= hi <= v@.len(),
    ensures
        match parse_spec(v@.subrange(lo as int, hi as int)) {
            Err(e) => r == Err::<RenditionSpec, RenditionError>(e),
            Ok(hk) => r matches Ok(x) && spec_matches(x, hk),
        },
{
    let ghost s = v@.subrange(lo as int, hi as int);
    let colon = match find_in(v, ':', lo, hi) {
        None => return Err(RenditionError::Format),
        Some(i) => i,
    };
    proof {
        lemma_find_char(s, ':', 0);
        assert(s.take(colon - lo) =~= v@.subrange(lo as int, colon as int));
        assert(s.skip(colon - lo + 1) =~= v@.subrange(colon + 1, hi as int));
    }
    let mut h_end = colon;
    while h_end > lo && v[h_end - 1] == 'p'
        invariant
            lo <= h_end <= colon,
            colon < v@.len(),
            strip_p(v@.subrange(lo as int, colon as int)) == strip_p(v@.subrange(lo as int, h_end as int)),
        decreases h_end - lo,
    {
        assert(v@.subrange(lo as int, h_end as int).drop_last() =~= v@.subrange(lo as int, h_end - 1));
        h_end = h_end - 1;
    }
    assert(strip_p(v@.subrange(lo as int, h_end as int)) == v@.subrange(lo as int, h_end as int));
    let height = match parse_u32_chars(v, lo, h_end) {
        None => return Err(RenditionError::Height),
        Some(h) => h,
    };
    let kbps = match parse_u32_chars(v, colon + 1, hi) {
        None => return Err(RenditionError::Kbps),
        Some(k) => k,
    };
    let mut label = String::new();
    push_decimal(&mut label, height);
    proof {
        reveal_strlit("p");
    }
    label.append("p");
    assert(label@ =~= label_of(height));
    Ok(RenditionSpec { label, height, kbps })
}

/// A parsed list with `done` in front, or the error.
pub open spec fn prepend(done: Seq<(u32, u32)>, r: Result<Seq<(u32, u32)>, RenditionError>) -> Result<Seq<(u32, u32)>, RenditionError> {
    match r {
        Ok(rest) => Ok(done + rest),
        Err(e) => Err(e),
    }
}

/// The (height, kbps) of a list of renditions.
pub open spec fn specs_view(v: Seq<RenditionSpec>) -> Seq<(u32, u32)> {
    v.map_values(|r: RenditionSpec| (r.height, r.kbps))
}

/// Every rendition carries its canonical label.
pub open spec fn labels_canonical(v: Seq<RenditionSpec>) -> bool {
    forall|i: int| 0 <= i < v.len() ==> (#[trigger] v[i]).label@ == label_of(v[i].height)
}

impl RenditionSpec {
    /// Parse one rendition `"<height>p:<kbps>"` (any number of trailing `p`s,
    /// `u32` numbers as `str::parse` reads them).
    pub fn parse(s: &str) -> (r: Result<RenditionSpec, RenditionError>)
        ensures
            match parse_spec(s@) {
                Err(e) => r == Err::<RenditionSpec, RenditionError>(e),
                Ok(hk) => r matches Ok(x) && spec_matches(x, hk),
            },
    {
        let v = chars_vec(s);
        assert(v@.subrange(0, v@.len() as int) =~= s@);
        parse_range(&v, 0, v.len())
    }

    /// Parse a comma-separated list; blank entries are skipped and the first
    /// bad entry's error is returned.
    pub fn parse_list(s: &str) -> (r: Result<Vec<RenditionSpec>, RenditionError>)
        ensures
            match parse_pieces(pieces(s@)) {
                Err(e) => r == Err::<Vec<RenditionSpec>, RenditionError>(e),
                Ok(hks) => r matches Ok(v) && specs_view(v@) == hks && labels_canonical(v@),
            },
    {
        let v = chars_vec(s);
        let n = v.len();
        let mut out: Vec<RenditionSpec> = Vec::new();
        let mut pos: usize = 0;
        assert(v@.skip(0) =~= v@);
        loop
            invariant
                pos <= n == v@.len(),
                v@ == s@,
                parse_pieces(pieces(s@)) == prepend(specs_view(out@), parse_pieces(pieces(v@.skip(pos as int)))),
                labels_canonical(out@),
            decreases n - pos,
        {
            let ghost rest = v@.skip(pos as int);
            let comma = find_in(&v, ',', pos, n);
            assert(v@.subrange(pos as int, n as int) =~= rest);
            proof {
                lemma_find_char(rest, ',', 0);
            }
            let end = match comma {
                Some(j) => j,
                None => n,
            };
            let ghost piece = v@.subrange(pos as int, end as int);
            let ghost after = match comma { Some(j) => v@.skip(j + 1), None => Seq::<char>::empty() };
            proof {
                match comma {
                    Some(j) => {
                        assert(rest.take(j - pos) =~= piece);
                        assert(rest.skip(j - pos + 1) =~= v@.skip(j + 1));
                        assert(pieces(rest) == seq![piece] + pieces(after));
                    },
                    None => {
                        assert(rest =~= piece);
                        assert(pieces(rest) == seq![piece]);
                    },
                }
                assert((seq![piece] + pieces(after)).drop_first() =~= pieces(after));
                assert(seq![piece].drop_first() =~= Seq::<Seq<char>>::empty());
            }
            let ghost ov0 = specs_view(out@);
            let (a, b) = trim_range(&v, pos, end);
            if a < b {
                let ghost ov = specs_view(out@);
                match parse_range(&v, a, b) {
                    Err(e) => {
                        return Err(e);
                    },
                    Ok(spec) => {
                        let ghost hk = (spec.height, spec.kbps);
                        out.push(spec);
                        proof {
                            assert(specs_view(out@) =~= ov.push(hk));
                            assert forall|i: int| 0 <= i < out@.len() implies (#[trigger] out@[i]).label@ == label_of(out@[i].height) by {
                                if i < out@.len() - 1 {
                                    assert(out@[i] == out@.drop_last()[i]);
                                }
                            }
                        }
                    },
                }
            }
            match comma {
                None => {
                    proof {
                        assert(parse_pieces(Seq::<Seq<char>>::empty()) == Ok::<Seq<(u32, u32)>, RenditionError>(Seq::empty()));
                        assert(specs_view(out@) + Seq::<(u32, u32)>::empty() =~= specs_view(out@));
                    }
                    return Ok(out);
                },
                Some(j) => {
                    proof {
                        let ps = seq![piece] + pieces(after);
                        assert(ps.drop_first() =~= pieces(after));
                        assert(ps[0] == piece);
                        if a < b {
                            let x = specs_view(out@).last();
                            assert(specs_view(out@) =~= ov0.push(x));
                            match parse_pieces(pieces(after)) {
                                Ok(r) => {
                                    assert(ov0 + (seq![x] + r) =~= ov0.push(x) + r);
                                },
                                Err(e) => {},
                            }
                        }
                    }
                    pos = j + 1;
                },
            }
        }
    }

    /// Ladder for a list of renditions (lowest first as given).
    pub fn ladder(list: &[RenditionSpec]) -> (r: Ladder)
        ensures
            r.layers@.len() == list@.len(),
            forall|i: int| 0 <= i < list@.len() ==> {
                &&& (#[trigger] r.layers@[i]).label@ == list@[i].label@
                &&& r.layers@[i].bitrate_kbps == list@[i].kbps
            },
    {
        let mut layers: Vec<Layer> = Vec::new();
        let mut i: usize = 0;
        while i < list.len()
            invariant
                i <= list@.len(),
                layers@.len() == i,
                forall|k: int| 0 <= k < i ==> {
                    &&& (#[trigger] layers@[k]).label@ == list@[k].label@
                    &&& layers@[k].bitrate_kbps == list@[k].kbps
                },
            decreases list@.len() - i,
        {
            layers.push(Layer { label: list[i].label.clone(), bitrate_kbps: list[i].kbps });
            i = i + 1;
        }
        Ladder { layers }
    }
}

impl std::str::FromStr for RenditionSpec {
    type Err = RenditionError;

    fn from_str(s: &str) -> (r: Result<RenditionSpec, RenditionError>)
        ensures
            match parse_spec(s@) {
                Err(e) => r == Err::<RenditionSpec, RenditionError>(e),
                Ok(hk) => r matches Ok(x) && spec_matches(x, hk),
            },
    {
        RenditionSpec::parse(s)
    }
}


// ---------------------------------------------------------------- multiplexing

/// Chunk period, µs.
pub const MUX_CHUNK_US: u64 = 250_000;

/// A rendition this many fragments behind the leader is skipped for the chunk.
pub const MAX_LAG: usize = 8;

/// The per-chunk multiplexer of a live simulcast source: per rendition its
/// INIT segment, queued fragments, whether its encoder ended and how many
/// chunks it missed; each chunk takes the next fragment of every rendition.
pub struct FragmentMux {
    ladder: Ladder,
    inits: Vec<Option<Vec<u8>>>,
    queues: Vec<VecDeque<Vec<u8>>>,
    ended: Vec<bool>,
    skipped: Vec<u64>,
    k: u64,
    emitted: Vec<u64>,
}

/// The records of one layer: the INIT (in a segment's first chunk, once known)
/// then the fragment; nothing when the rendition has no fragment.
pub open spec fn layer_records(chunk_index: u8, init: Option<Seq<u8>>, media: Option<Seq<u8>>) -> Seq<(RecordType, Seq<u8>)> {
    match media {
        None => Seq::empty(),
        Some(m) => {
            let head = if chunk_index == 0 && init is Some { seq![(RecordType::Init, init->Some_0)] } else { Seq::empty() };
            head + seq![(RecordType::Media, m)]
        },
    }
}

/// The contents of a fragment queue.
pub open spec fn qview(q: VecDeque<Vec<u8>>) -> Seq<Seq<u8>> {
    q@.map_values(|b: Vec<u8>| b@)
}

/// The front of a queue, if any.
pub open spec fn front(q: Seq<Seq<u8>>) -> Option<Seq<u8>> {
    if q.len() == 0 { None } else { Some(q[0]) }
}

impl FragmentMux {
    /// Number of renditions.
    pub closed spec fn count(&self) -> nat {
        self.queues@.len()
    }

    /// Queued fragments of rendition `i`.
    pub closed spec fn queue_of(&self, i: int) -> Seq<Seq<u8>> {
        qview(self.queues@[i])
    }

    /// INIT segment of rendition `i`.
    pub closed spec fn init_of(&self, i: int) -> Option<Seq<u8>> {
        match self.inits@[i] {
            Some(b) => Some(b@),
            None => None,
        }
    }

    /// Whether rendition `i`'s encoder ended.
    pub closed spec fn ended_of(&self, i: int) -> bool {
        self.ended@[i]
    }

    /// Chunks rendition `i` missed while running.
    pub closed spec fn skipped_of(&self, i: int) -> u64 {
        self.skipped@[i]
    }

    /// Fragments emitted per rendition.
    pub closed spec fn emitted_spec(&self) -> Seq<u64> {
        self.emitted@
    }

    /// Chunks built.
    pub closed spec fn k_spec(&self) -> u64 {
        self.k
    }

    /// The ladder.
    pub closed spec fn ladder_spec(&self) -> Ladder {
        self.ladder
    }

    /// One counter per rendition; no counter ahead of the chunk count.
    pub closed spec fn wf(&self) -> bool {
        &&& self.emitted@.len() == self.queues@.len()
        &&& self.inits@.len() == self.queues@.len()
        &&& self.ended@.len() == self.queues@.len()
        &&& self.skipped@.len() == self.queues@.len()
        &&& forall|i: int| 0 <= i < self.emitted@.len() ==> #[trigger] self.emitted@[i] <= self.k
        &&& forall|i: int| 0 <= i < self.skipped@.len() ==> #[trigger] self.skipped@[i] <= self.k
    }

    /// The longest queue.
    pub open spec fn max_queue(&self) -> nat
        decreases self.count(),
    {
        self.max_queue_upto(self.count() as int)
    }

    /// The longest queue among the first `n` renditions.
    pub open spec fn max_queue_upto(&self, n: int) -> nat
        decreases n,
    {
        if n <= 0 {
            0
        } else {
            let m = self.max_queue_upto(n - 1);
            let l = self.queue_of(n - 1).len();
            if l > m { l } else { m }
        }
    }

    /// A chunk can be built: some fragment is queued, and every rendition has
    /// one, has ended, or the leader is more than `MAX_LAG` ahead.
    pub open spec fn ready_spec(&self) -> bool {
        &&& self.max_queue() > 0
        &&& forall|i: int| 0 <= i < self.count() ==>
            (#[trigger] self.queue_of(i)).len() > 0 || self.ended_of(i) || self.max_queue() > MAX_LAG
    }

    /// Every rendition has ended and drained.
    pub open spec fn all_done_spec(&self) -> bool {
        forall|i: int| 0 <= i < self.count() ==> (#[trigger] self.ended_of(i)) && self.queue_of(i).len() == 0
    }

    /// A multiplexer for these renditions, nothing received yet.
    pub fn new(renditions: &[RenditionSpec]) -> (r: FragmentMux)
        ensures
            r.wf(),
            r.count() == renditions@.len(),
            r.k_spec() == 0,
            r.emitted_spec() == Seq::new(renditions@.len(), |i: int| 0u64),
            r.ladder_spec().layers@.len() == renditions@.len(),
            forall|i: int| 0 <= i < renditions@.len() ==> {
                &&& (#[trigger] r.ladder_spec().layers@[i]).label@ == renditions@[i].label@
                &&& r.ladder_spec().layers@[i].bitrate_kbps == renditions@[i].kbps
            },
            forall|i: int| 0 <= i < renditions@.len() ==> {
                &&& (#[trigger] r.queue_of(i)).len() == 0
                &&& r.init_of(i) is None
                &&& !r.ended_of(i)
                &&& r.skipped_of(i) == 0
            },
    {
        let n = renditions.len();
        let mut inits: Vec<Option<Vec<u8>>> = Vec::new();
        let mut queues: Vec<VecDeque<Vec<u8>>> = Vec::new();
        let mut ended: Vec<bool> = Vec::new();
        let mut skipped: Vec<u64> = Vec::new();
        let mut emitted: Vec<u64> = Vec::new();
        let mut i: usize = 0;
        while i < n
            invariant
                i <= n == renditions@.len(),
                queues@.len() == i,
                inits@.len() == i,
                ended@.len() == i,
                skipped@.len() == i,
                emitted@ == Seq::new(i as nat, |k: int| 0u64),
                forall|k: int| 0 <= k < i ==> (#[trigger] queues@[k])@.len() == 0,
                forall|k: int| 0 <= k < i ==> (#[trigger] inits@[k]) is None,
                forall|k: int| 0 <= k < i ==> !(#[trigger] ended@[k]),
                forall|k: int| 0 <= k < i ==> #[trigger] skipped@[k] == 0,
            decreases n - i,
        {
            inits.push(None);
            queues.push(VecDeque::new());
            ended.push(false);
            skipped.push(0);
            emitted.push(0);
            i = i + 1;
            assert(emitted@ =~= Seq::new(i as nat, |k: int| 0u64));
        }
        FragmentMux { ladder: RenditionSpec::ladder(renditions), inits, queues, ended, skipped, k: 0, emitted }
    }

    /// The ladder.
    pub fn ladder(&self) -> (r: &Ladder)
        ensures *r == self.ladder_spec(),
    {
        &self.ladder
    }

    /// Fragments emitted per rendition.
    pub fn emitted(&self) -> (r: &[u64])
        ensures r@ == self.emitted_spec(),
    {
        self.emitted.as_slice()
    }

    /// Rendition `i` produced its INIT segment.
    pub fn on_init(&mut self, i: usize, init: Vec<u8>)
        requires old(self).wf(), i < old(self).count(),
        ensures
            final(self).wf(),
            final(self).count() == old(self).count(),
            final(self).k_spec() == old(self).k_spec(),
            final(self).emitted_spec() == old(self).emitted_spec(),
            final(self).ladder_spec() == old(self).ladder_spec(),
            final(self).init_of(i as int) == Some(init@),
            forall|j: int| 0 <= j < old(self).count() ==> {
                &&& #[trigger] final(self).queue_of(j) == old(self).queue_of(j)
                &&& final(self).ended_of(j) == old(self).ended_of(j)
                &&& final(self).skipped_of(j) == old(self).skipped_of(j)
                &&& j != i ==> final(self).init_of(j) == old(self).init_of(j)
            },
    {
        self.inits.set(i, Some(init));
    }

    /// Rendition `i` produced a media fragment.
    pub fn on_media(&mut self, i: usize, media: Vec<u8>)
        requires old(self).wf(), i < old(self).count(),
        ensures
            final(self).wf(),
            final(self).count() == old(self).count(),
            final(self).k_spec() == old(self).k_spec(),
            final(self).emitted_spec() == old(self).emitted_spec(),
            final(self).ladder_spec() == old(self).ladder_spec(),
            final(self).queue_of(i as int) == old(self).queue_of(i as int).push(media@),
            forall|j: int| 0 <= j < old(self).count() ==> {
                &&& j != i ==> #[trigger] final(self).queue_of(j) == old(self).queue_of(j)
                &&& final(self).init_of(j) == old(self).init_of(j)
                &&& final(self).ended_of(j) == old(self).ended_of(j)
                &&& final(self).skipped_of(j) == old(self).skipped_of(j)
            },
    {
        let ghost q0 = self.queue_of(i as int);
        let ghost qs = self.queues@;
        self.queues[i].push_back(media);
        assert(self.queue_of(i as int) =~= q0.push(media@));
        assert forall|j: int| 0 <= j < old(self).count() && j != i implies #[trigger] self.queues@[j] == qs[j] by {}
    }

    /// Rendition `i`'s encoder ended.
    pub fn on_ended(&mut self, i: usize)
        requires old(self).wf(), i < old(self).count(),
        ensures
            final(self).wf(),
            final(self).count() == old(self).count(),
            final(self).k_spec() == old(self).k_spec(),
            final(self).emitted_spec() == old(self).emitted_spec(),
            final(self).ladder_spec() == old(self).ladder_spec(),
            final(self).ended_of(i as int),
            forall|j: int| 0 <= j < old(self).count() ==> {
                &&& #[trigger] final(self).queue_of(j) == old(self).queue_of(j)
                &&& final(self).init_of(j) == old(self).init_of(j)
                &&& j != i ==> final(self).ended_of(j) == old(self).ended_of(j)
                &&& final(self).skipped_of(j) == old(self).skipped_of(j)
            },
    {
        self.ended.set(i, true);
    }

    /// The event source closed: every rendition counts as ended.
    pub fn on_closed(&mut self)
        requires old(self).wf(),
        ensures
            final(self).wf(),
            final(self).count() == old(self).count(),
            final(self).k_spec() == old(self).k_spec(),
            final(self).emitted_spec() == old(self).emitted_spec(),
            final(self).ladder_spec() == old(self).ladder_spec(),
            forall|j: int| 0 <= j < old(self).count() ==> {
                &&& #[trigger] final(self).queue_of(j) == old(self).queue_of(j)
                &&& final(self).init_of(j) == old(self).init_of(j)
                &&& final(self).ended_of(j)
                &&& final(self).skipped_of(j) == old(self).skipped_of(j)
            },
    {
        let mut i: usize = 0;
        while i < self.ended.len()
            invariant
                i <= self.ended@.len() == old(self).ended@.len(),
                self.wf(),
                self.k == old(self).k,
                self.emitted == old(self).emitted,
                self.ladder == old(self).ladder,
                self.queues == old(self).queues,
                self.inits == old(self).inits,
                self.skipped == old(self).skipped,
                forall|j: int| 0 <= j < i ==> #[trigger] self.ended@[j],
            decreases self.ended@.len() - i,
        {
            self.ended.set(i, true);
            i = i + 1;
        }
    }

    /// Whether a chunk can be built now.
    pub fn ready(&self) -> (r: bool)
        requires self.wf(),
        ensures r == self.ready_spec(),
    {
        let n = self.queues.len();
        let mut max_q: usize = 0;
        let mut i: usize = 0;
        while i < n
            invariant
                i <= n == self.count(),
                max_q == self.max_queue_upto(i as int),
            decreases n - i,
        {
            let l = self.queues[i].len();
            assert(l == self.queue_of(i as int).len());
            if l > max_q {
                max_q = l;
            }
            i = i + 1;
        }
        if max_q == 0 {
            return false;
        }
        let mut j: usize = 0;
        while j < n
            invariant
                j <= n == self.count(),
                self.wf(),
                max_q == self.max_queue(),
                forall|k: int| 0 <= k < j ==> (#[trigger] self.queue_of(k)).len() > 0 || self.ended_of(k) || self.max_queue() > MAX_LAG,
            decreases n - j,
        {
            let ql = self.queues[j].len();
            let e = self.ended[j];
            assert(ql == self.queue_of(j as int).len());
            if !(ql > 0 || e || max_q > MAX_LAG) {
                return false;
            }
            j = j + 1;
        }
        true
    }

    /// Whether every rendition has ended and drained.
    pub fn all_done(&self) -> (r: bool)
        requires self.wf(),
        ensures r == self.all_done_spec(),
    {
        let mut j: usize = 0;
        while j < self.queues.len()
            invariant
                j <= self.count(),
                self.wf(),
                forall|k: int| 0 <= k < j ==> (#[trigger] self.ended_of(k)) && self.queue_of(k).len() == 0,
            decreases self.count() - j,
        {
            let ql = self.queues[j].len();
            assert(ql == self.queue_of(j as int).len());
            let e = self.ended[j];
            assert(e == self.ended_of(j as int));
            if !(e && ql == 0) {
                return false;
            }
            assert forall|k: int| 0 <= k < j + 1 implies (#[trigger] self.ended_of(k)) && self.queue_of(k).len() == 0 by {
                if k == j {
                    assert(self.ended_of(j as int) && self.queue_of(j as int).len() == 0);
                }
            }
            j = j + 1;
        }
        true
    }
}


impl FragmentMux {
    /// Room to encode every rendition's next layer.
    pub open spec fn sizes_fit(&self) -> bool {
        forall|i: int| 0 <= i < self.count() ==> {
            let init_len = match self.init_of(i) { Some(b) => b.len() as int, None => 0 };
            let media_len = match front(#[trigger] self.queue_of(i)) { Some(b) => b.len() as int, None => 0 };
            init_len + media_len + 10 <= usize::MAX
        }
    }

    /// Whether every rendition's INIT and next fragment, with their record
    /// headers, fit in a `usize` (the condition [`FragmentMux::build`] needs).
    pub fn sizes_fit_now(&self) -> (r: bool)
        requires
            self.wf(),
        ensures
            r == self.sizes_fit(),
    {
        let n = self.queues.len();
        let mut i: usize = 0;
        while i < n
            invariant
                self.wf(),
                n == self.count(),
                i <= n,
                forall|j: int| 0 <= j < i ==> {
                    let init_len = match self.init_of(j) { Some(b) => b.len() as int, None => 0 };
                    let media_len = match front(#[trigger] self.queue_of(j)) { Some(b) => b.len() as int, None => 0 };
                    init_len + media_len + 10 <= usize::MAX
                },
            decreases n - i,
        {
            let init_len: usize = match &self.inits[i] {
                Some(b) => b.len(),
                None => 0,
            };
            let media_len: usize = if self.queues[i].len() > 0 {
                self.queues[i][0].len()
            } else {
                0
            };
            proof {
                assert(self.queue_of(i as int) == qview(self.queues@[i as int]));
            }
            if init_len > usize::MAX - 10 || media_len > usize::MAX - 10 - init_len {
                return false;
            }
            i = i + 1;
        }
        true
    }

    /// Build the next chunk: each rendition's next fragment (with its INIT in
    /// a segment's first chunk) as a TLV payload, or an empty layer when it has
    /// none; a rendition still running that has none counts a skip.
    pub fn build(&mut self) -> (c: LayeredChunk)
        requires
            old(self).wf(),
            old(self).k_spec() < u64::MAX / MUX_CHUNK_US,
            old(self).k_spec() / 4 < u32::MAX,
            old(self).sizes_fit(),
        ensures
            final(self).wf(),
            final(self).count() == old(self).count(),
            final(self).k_spec() == old(self).k_spec() + 1,
            final(self).ladder_spec() == old(self).ladder_spec(),
            c.segment == SegmentSeq((old(self).k_spec() / 4 + 1) as u32),
            c.chunk_index == (old(self).k_spec() % 4) as u8,
            c.timestamp_us == old(self).k_spec() * MUX_CHUNK_US,
            views(c.layers@) == Seq::new(old(self).count(), |i: int|
                encoding(layer_records((old(self).k_spec() % 4) as u8, old(self).init_of(i), front(old(self).queue_of(i))))),
            final(self).emitted_spec().len() == old(self).emitted_spec().len(),
            forall|i: int| 0 <= i < old(self).count() ==> #[trigger] final(self).queue_of(i)
                == (if old(self).queue_of(i).len() > 0 { old(self).queue_of(i).drop_first() } else { old(self).queue_of(i) }),
            forall|i: int| 0 <= i < old(self).count() ==> #[trigger] final(self).init_of(i) == old(self).init_of(i),
            forall|i: int| 0 <= i < old(self).count() ==> #[trigger] final(self).ended_of(i) == old(self).ended_of(i),
            forall|i: int| 0 <= i < old(self).count() ==> #[trigger] final(self).skipped_of(i)
                == (if old(self).queue_of(i).len() == 0 && !old(self).ended_of(i) {
                    (old(self).skipped_of(i) + 1) as u64
                } else {
                    old(self).skipped_of(i)
                }),
            forall|i: int| 0 <= i < old(self).count() ==> #[trigger] final(self).emitted_spec()[i]
                == (if old(self).queue_of(i).len() > 0 {
                    (old(self).emitted_spec()[i] + 1) as u64
                } else {
                    old(self).emitted_spec()[i]
                }),
    {
        let k = self.k;
        self.k = self.k + 1;
        let segment = SegmentSeq((k / 4) as u32 + 1);
        let chunk_index = (k % 4) as u8;
        let n = self.queues.len();
        let ghost old_self = *old(self);
        let mut layers: Vec<Vec<u8>> = Vec::with_capacity(n);
        let mut i: usize = 0;
        while i < n
            invariant
                n == self.queues@.len() == old_self.queues@.len(),
                self.emitted@.len() == n && self.inits@.len() == n && self.ended@.len() == n && self.skipped@.len() == n,
                i <= n,
                k == old_self.k,
                k < u64::MAX / MUX_CHUNK_US,
                self.k == k + 1,
                chunk_index == (k % 4) as u8,
                self.ladder == old_self.ladder,
                self.inits == old_self.inits,
                self.ended == old_self.ended,
                old_self.wf(),
                old_self.sizes_fit(),
                layers@.len() == i,
                forall|j: int| 0 <= j < i ==> #[trigger] layers@[j]@
                    == encoding(layer_records(chunk_index, old_self.init_of(j), front(old_self.queue_of(j)))),
                forall|j: int| 0 <= j < n ==> #[trigger] self.queue_of(j)
                    == (if j < i && old_self.queue_of(j).len() > 0 { old_self.queue_of(j).drop_first() } else { old_self.queue_of(j) }),
                forall|j: int| 0 <= j < n ==> #[trigger] self.skipped@[j]
                    == (if j < i && old_self.queue_of(j).len() == 0 && !old_self.ended_of(j) {
                        (old_self.skipped@[j] + 1) as u64
                    } else {
                        old_self.skipped@[j]
                    }),
                forall|j: int| 0 <= j < n ==> #[trigger] self.emitted@[j]
                    == (if j < i && old_self.queue_of(j).len() > 0 {
                        (old_self.emitted@[j] + 1) as u64
                    } else {
                        old_self.emitted@[j]
                    }),
            decreases n - i,
        {
            let ghost q0 = self.queue_of(i as int);
            let ghost init0 = self.init_of(i as int);
            let ghost qs_before = self.queues@;
            proof {
                assert forall|j: int| 0 <= j < n implies #[trigger] qview(qs_before[j])
                    == (if j < i && old_self.queue_of(j).len() > 0 { old_self.queue_of(j).drop_first() } else { old_self.queue_of(j) }) by {
                    assert(self.queue_of(j) == qview(qs_before[j]));
                }
            }
            assert(q0 == old_self.queue_of(i as int));
            assert(init0 == old_self.init_of(i as int));
            let popped = self.queues[i].pop_front();
            proof {
                assert forall|j: int| 0 <= j < n && j != i implies #[trigger] self.queues@[j] == qs_before[j] by {}
            }
            let mut recs: Vec<Record> = Vec::new();
            match popped {
                Some(media) => {
                    assert(q0.len() > 0 && media@ == q0[0]);
                    assert(self.queue_of(i as int) =~= q0.drop_first());
                    if chunk_index == 0 {
                        match &self.inits[i] {
                            Some(init) => {
                                recs.push(Record::new(RecordType::Init, init.clone()));
                            },
                            None => {},
                        }
                    }
                    recs.push(Record::new(RecordType::Media, media));
                    assert(old_self.emitted@[i as int] <= k);
                    let e = self.emitted[i] + 1;
                    self.emitted.set(i, e);
                },
                None => {
                    assert(q0.len() == 0);
                    assert(self.queue_of(i as int) =~= q0);
                    assert(old_self.skipped@[i as int] <= k);
                    if !self.ended[i] {
                        let sk = self.skipped[i] + 1;
                        self.skipped.set(i, sk);
                    }
                },
            }
            let ghost want = layer_records(chunk_index, init0, front(q0));
            assert(records_view(recs@) =~= want);
            assert(encoded_size(want) <= usize::MAX) by {
                reveal_with_fuel(encoded_size, 3);
                let f = front(old_self.queue_of(i as int));
                let init_len = match init0 { Some(b) => b.len() as int, None => 0 };
                let media_len = match f { Some(b) => b.len() as int, None => 0 };
                assert(init_len + media_len + 10 <= usize::MAX);
                if f is Some {
                    let head = if chunk_index == 0 && init0 is Some { seq![(RecordType::Init, init0->Some_0)] } else { Seq::empty() };
                    assert(want == head + seq![(RecordType::Media, f->Some_0)]);
                    assert(want.drop_last() =~= head);
                    if head.len() == 1 {
                        assert(head.drop_last() =~= Seq::<(RecordType, Seq<u8>)>::empty());
                    }
                } else {
                    assert(want =~= Seq::<(RecordType, Seq<u8>)>::empty());
                }
            }
            let layer = encode(recs.as_slice());
            layers.push(layer);
            proof {
                assert forall|j: int| 0 <= j < n implies #[trigger] self.queue_of(j)
                    == (if j < i + 1 && old_self.queue_of(j).len() > 0 { old_self.queue_of(j).drop_first() } else { old_self.queue_of(j) }) by {
                    if j != i {
                        assert(self.queues@[j] == qs_before[j]);
                        assert(self.queue_of(j) == qview(qs_before[j]));
                    }
                }
            }
            i = i + 1;
        }
        proof {
            assert forall|j: int| 0 <= j < self.emitted@.len() implies #[trigger] self.emitted@[j] <= self.k by {
                assert(old_self.emitted@[j] <= k);
            }
            assert forall|j: int| 0 <= j < self.skipped@.len() implies #[trigger] self.skipped@[j] <= self.k by {
                assert(old_self.skipped@[j] <= k);
            }
        }
        assert(views(layers@) =~= Seq::new(n as nat, |j: int|
            encoding(layer_records(chunk_index, old_self.init_of(j), front(old_self.queue_of(j))))));
        LayeredChunk { segment, chunk_index, timestamp_us: k * MUX_CHUNK_US, layers }
    }
}

} // verus!
