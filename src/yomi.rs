use vstd::prelude::*;

use crate::bytes::push_all;

verus! {

/// A reading (`rt`) for the base text at `start..end` of the output text.
#[derive(Debug, Clone, Copy, PartialEq, Eq)]
pub struct Yomi<'src> {
    pub start: usize,
    pub end: usize,
    pub rt: &'src [u8],
}

/// A full-size や, ゆ or よ at `i`.
pub open spec fn is_big_ya(s: Seq<u8>, i: int) -> bool {
    0 <= i && i + 3 <= s.len() && s[i] == 0xe3u8 && s[i + 1] == 0x82u8 && (s[i + 2] == 0x84u8
        || s[i + 2] == 0x86u8 || s[i + 2] == 0x88u8)
}

/// The first full-size や, ゆ or よ at or after `from`.
pub open spec fn find_ya(s: Seq<u8>, from: int) -> Option<int>
    decreases s.len() - from,
{
    if from < 0 || from + 3 > s.len() {
        None
    } else if is_big_ya(s, from) {
        Some(from)
    } else {
        find_ya(s, from + 1)
    }
}

/// A kana of the i-row that a small ゃ, ゅ or ょ can follow, at `i`:
/// き ぎ し じ ち ぢ に ひ び ぴ み り.
pub open spec fn is_i_row(s: Seq<u8>, i: int) -> bool {
    0 <= i && i + 3 <= s.len() && s[i] == 0xe3u8 && ((s[i + 1] == 0x81u8 && (s[i + 2] == 0x8du8
        || s[i + 2] == 0x8eu8 || s[i + 2] == 0x97u8 || s[i + 2] == 0x98u8 || s[i + 2] == 0xa1u8
        || s[i + 2] == 0xa2u8 || s[i + 2] == 0xabu8 || s[i + 2] == 0xb2u8 || s[i + 2] == 0xb3u8
        || s[i + 2] == 0xb4u8 || s[i + 2] == 0xbfu8)) || (s[i + 1] == 0x82u8 && s[i + 2]
        == 0x8au8))
}

/// A character starts at `i` of the UTF-8 text `s` (or `i` is its end).
pub open spec fn is_boundary(s: Seq<u8>, i: int) -> bool {
    i == 0 || i == s.len() || (0 <= i < s.len() && !(0x80u8 <= s[i] < 0xc0u8))
}

/// `s` without its spaces.
pub open spec fn drop_spaces(s: Seq<u8>) -> Seq<u8>
    decreases s.len(),
{
    if s.len() == 0 {
        Seq::empty()
    } else {
        drop_spaces(s.drop_last()) + if s.last() == 32u8 {
            Seq::empty()
        } else {
            seq![s.last()]
        }
    }
}

/// Base texts whose readings are written with a full-size mora: 清, 日和.
pub open spec fn is_full_size_exception(rb: Seq<u8>) -> bool {
    rb == seq![0xe6u8, 0xb8u8, 0x85u8] || rb == seq![0xe6u8, 0x97u8, 0xa5u8, 0xe5u8, 0x92u8, 0x8cu8]
}

/// The reading `rt` of the base text `rb`, with its first full-size や, ゆ or
/// よ made small where it follows an i-row kana; spaces dropped instead where
/// the kana before it is not a whole character.
pub open spec fn little_fixed(rb: Seq<u8>, rt: Seq<u8>) -> Seq<u8> {
    match find_ya(rt, 0) {
        None => rt,
        Some(li) => if li < 3 {
            rt
        } else if !is_boundary(rt, li - 3) {
            drop_spaces(rt)
        } else if !is_i_row(rt, li - 3) || is_full_size_exception(rb) {
            rt
        } else {
            rt.subrange(0, li) + seq![0xe3u8, 0x82u8, (rt[li + 2] - 1) as u8] + rt.subrange(
                li + 3,
                rt.len() as int,
            )
        },
    }
}

fn without_spaces(s: &[u8]) -> (r: Vec<u8>)
    ensures
        r@ == drop_spaces(s@),
{
    let mut r: Vec<u8> = Vec::new();
    let mut i: usize = 0;
    assert(s@.subrange(0, 0) =~= Seq::<u8>::empty());
    while i < s.len()
        invariant
            i <= s@.len(),
            r@ == drop_spaces(s@.subrange(0, i as int)),
        decreases s.len() - i,
    {
        assert(s@.subrange(0, i + 1).drop_last() =~= s@.subrange(0, i as int));
        if s[i] != 32u8 {
            r.push(s[i]);
        }
        i += 1;
        assert(r@ =~= drop_spaces(s@.subrange(0, i as int)));
    }
    assert(s@.subrange(0, s@.len() as int) =~= s@);
    r
}

fn is_exception(rb: &[u8]) -> (r: bool)
    ensures
        r == is_full_size_exception(rb@),
{
    let kiyo: [u8; 3] = [0xe6u8, 0xb8u8, 0x85u8];
    let hiyori: [u8; 6] = [0xe6u8, 0x97u8, 0xa5u8, 0xe5u8, 0x92u8, 0x8cu8];
    assert(kiyo@ =~= seq![0xe6u8, 0xb8u8, 0x85u8]);
    assert(hiyori@ =~= seq![0xe6u8, 0x97u8, 0xa5u8, 0xe5u8, 0x92u8, 0x8cu8]);
    crate::bytes::bytes_eq(rb, &kiyo) || crate::bytes::bytes_eq(rb, &hiyori)
}

/// Corrects a reading whose contracted mora was written full size
/// (`しや` → `しゃ`), unless the base text is one known to be read so.
pub fn fix_little_yomi(rb: &[u8], rt: &[u8]) -> (r: Vec<u8>)
    ensures
        r@ == little_fixed(rb@, rt@),
{
    let n = rt.len();
    let mut li: usize = 0;
    while n - li >= 3 && !(rt[li] == 0xe3u8 && rt[li + 1] == 0x82u8 && (rt[li + 2] == 0x84u8
        || rt[li + 2] == 0x86u8 || rt[li + 2] == 0x88u8))
        invariant
            n == rt@.len(),
            li <= n,
            find_ya(rt@, 0) == find_ya(rt@, li as int),
        decreases n - li,
    {
        li += 1;
    }
    if n - li < 3 || li < 3 {
        return crate::bytes::to_vec(rt);
    }
    let prev = li - 3;
    if prev != 0 && 0x80u8 <= rt[prev] && rt[prev] < 0xc0u8 {
        return without_spaces(rt);
    }
    let a = rt[prev];
    let b = rt[prev + 1];
    let c = rt[prev + 2];
    let i_row = a == 0xe3u8 && ((b == 0x81u8 && (c == 0x8du8 || c == 0x8eu8 || c == 0x97u8 || c
        == 0x98u8 || c == 0xa1u8 || c == 0xa2u8 || c == 0xabu8 || c == 0xb2u8 || c == 0xb3u8 || c
        == 0xb4u8 || c == 0xbfu8)) || (b == 0x82u8 && c == 0x8au8));
    if !i_row || is_exception(rb) {
        return crate::bytes::to_vec(rt);
    }
    let mut r: Vec<u8> = Vec::new();
    push_all(&mut r, vstd::slice::slice_subrange(rt, 0, li));
    r.push(0xe3u8);
    r.push(0x82u8);
    r.push(rt[li + 2] - 1);
    push_all(&mut r, vstd::slice::slice_subrange(rt, li + 3, n));
    assert(r@ =~= little_fixed(rb@, rt@));
    r
}

/// The decimal digits of `n`.
pub open spec fn decimal(n: nat) -> Seq<u8>
    decreases n,
{
    if n < 10 {
        seq![(48 + n) as u8]
    } else {
        decimal(n / 10) + seq![(48 + n % 10) as u8]
    }
}

/// Appends the decimal digits of `n`.
fn push_decimal(out: &mut Vec<u8>, n: usize)
    ensures
        final(out)@ == old(out)@ + decimal(n as nat),
    decreases n,
{
    if n >= 10 {
        push_decimal(out, n / 10);
    }
    out.push((48 + n % 10) as u8);
    assert(final(out)@ =~= old(out)@ + decimal(n as nat)) by {
        if n >= 10 {
            assert(old(out)@ + decimal((n / 10) as nat) + seq![(48 + n % 10) as u8] =~= old(out)@ + (decimal((n / 10) as nat) + seq![(48 + n % 10) as u8]));
        }
    }
}

/// The side-table line of the reading `y` of the text `txt`:
/// `start:end:base:reading`, the reading's small kana corrected.
pub open spec fn yomi_line(y: Yomi, txt: Seq<u8>) -> Seq<u8> {
    let rb = txt.subrange(y.start as int, y.end as int);
    decimal(y.start as nat) + seq![58u8] + decimal(y.end as nat) + seq![58u8] + rb + seq![58u8]
        + little_fixed(rb, y.rt@) + seq![10u8]
}

/// The side-table lines of the readings `ys`.
pub open spec fn yomi_lines(ys: Seq<Yomi>, txt: Seq<u8>) -> Seq<u8>
    decreases ys.len(),
{
    if ys.len() == 0 {
        Seq::empty()
    } else {
        yomi_lines(ys.drop_last(), txt) + yomi_line(ys.last(), txt)
    }
}

/// Writes the side table of the readings of `txt`: one line per reading.
pub fn write_yomi(yomi: &[Yomi], out: &mut Vec<u8>, txt: &[u8])
    requires
        forall|i: int| 0 <= i < yomi@.len() ==> (#[trigger] yomi@[i]).start <= yomi@[i].end <= txt@.len(),
    ensures
        final(out)@ == old(out)@ + yomi_lines(yomi@, txt@),
{
    let mut i: usize = 0;
    assert(yomi@.subrange(0, 0) =~= Seq::<Yomi>::empty());
    while i < yomi.len()
        invariant
            i <= yomi@.len(),
            out@ == old(out)@ + yomi_lines(yomi@.subrange(0, i as int), txt@),
            forall|k: int| 0 <= k < yomi@.len() ==> (#[trigger] yomi@[k]).start <= yomi@[k].end <= txt@.len(),
        decreases yomi.len() - i,
    {
        let y = yomi[i];
        let ghost before = out@;
        let rb = vstd::slice::slice_subrange(txt, y.start, y.end);
        let rt = fix_little_yomi(rb, y.rt);
        push_decimal(out, y.start);
        out.push(58u8);
        push_decimal(out, y.end);
        out.push(58u8);
        push_all(out, rb);
        out.push(58u8);
        push_all(out, rt.as_slice());
        out.push(10u8);
        proof {
            let s = yomi@.subrange(0, i + 1);
            assert(s.drop_last() =~= yomi@.subrange(0, i as int));
            assert(s.last() == y);
            assert(out@ =~= before + yomi_line(y, txt@));
            assert(out@ =~= old(out)@ + yomi_lines(s, txt@));
        }
        i += 1;
    }
    assert(yomi@.subrange(0, yomi@.len() as int) =~= yomi@);
}

} // verus!
