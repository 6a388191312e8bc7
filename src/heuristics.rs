use vstd::prelude::*;

use crate::error::Error;
use crate::text::{chars_of, string_of};

verus! {

/// Full-width ASCII forms, the wave dash and the ideographic space, as ASCII.
pub open spec fn zenkaku_folded(c: char) -> char {
    if '\u{FF01}' <= c <= '\u{FF5E}' {
        ((c as u32 - 0xFF01) as u8 + 0x21u8) as char
    } else if c == '\u{301C}' {
        '~'
    } else if c == '\u{3000}' {
        ' '
    } else {
        c
    }
}

/// Folds a full-width ASCII form to ASCII; the wave dash, which is easily
/// mistaken for the full-width tilde, becomes `~` too.
pub fn convert_zenkaku(c: char) -> (r: char)
    ensures
        r == zenkaku_folded(c),
{
    if '\u{FF01}' <= c && c <= '\u{FF5E}' {
        ((c as u32 - 0xFF01) as u8 + 0x21u8) as char
    } else if c == '\u{301C}' {
        '~'
    } else if c == '\u{3000}' {
        ' '
    } else {
        c
    }
}

/// The digit that a rare numeral stands for: Roman numerals Ⅰ to Ⅸ,
/// full-width, circled and negative circled digits, and kanji numerals.
pub open spec fn numeral_folded(c: char) -> char {
    if '\u{2160}' <= c <= '\u{2168}' {
        ((c as u32 - 0x2160) as u8 + 0x31u8) as char
    } else if '\u{FF11}' <= c <= '\u{FF19}' {
        ((c as u32 - 0xFF11) as u8 + 0x31u8) as char
    } else if '\u{2460}' <= c <= '\u{2468}' {
        ((c as u32 - 0x2460) as u8 + 0x31u8) as char
    } else if '\u{2776}' <= c <= '\u{277E}' {
        ((c as u32 - 0x2776) as u8 + 0x31u8) as char
    } else if c == '\u{96F6}' {
        '0'
    } else if c == '\u{4E00}' || c == '\u{58F1}' {
        '1'
    } else if c == '\u{4E8C}' || c == '\u{5F0D}' {
        '2'
    } else if c == '\u{4E09}' || c == '\u{53C2}' {
        '3'
    } else if c == '\u{56DB}' || c == '\u{8086}' {
        '4'
    } else if c == '\u{4E94}' || c == '\u{4F0D}' {
        '5'
    } else if c == '\u{516D}' || c == '\u{9678}' {
        '6'
    } else if c == '\u{4E03}' || c == '\u{6F06}' || c == '\u{8CEA}' {
        '7'
    } else if c == '\u{516B}' || c == '\u{634C}' {
        '8'
    } else if c == '\u{4E5D}' || c == '\u{7396}' {
        '9'
    } else {
        c
    }
}

/// Folds a rare numeral to its ASCII digit.
pub fn convert_rare_numerals(c: char) -> (r: char)
    ensures
        r == numeral_folded(c),
{
    if '\u{2160}' <= c && c <= '\u{2168}' {
        ((c as u32 - 0x2160) as u8 + 0x31u8) as char
    } else if '\u{FF11}' <= c && c <= '\u{FF19}' {
        ((c as u32 - 0xFF11) as u8 + 0x31u8) as char
    } else if '\u{2460}' <= c && c <= '\u{2468}' {
        ((c as u32 - 0x2460) as u8 + 0x31u8) as char
    } else if '\u{2776}' <= c && c <= '\u{277E}' {
        ((c as u32 - 0x2776) as u8 + 0x31u8) as char
    } else if c == '\u{96F6}' {
        '0'
    } else if c == '\u{4E00}' || c == '\u{58F1}' {
        '1'
    } else if c == '\u{4E8C}' || c == '\u{5F0D}' {
        '2'
    } else if c == '\u{4E09}' || c == '\u{53C2}' {
        '3'
    } else if c == '\u{56DB}' || c == '\u{8086}' {
        '4'
    } else if c == '\u{4E94}' || c == '\u{4F0D}' {
        '5'
    } else if c == '\u{516D}' || c == '\u{9678}' {
        '6'
    } else if c == '\u{4E03}' || c == '\u{6F06}' || c == '\u{8CEA}' {
        '7'
    } else if c == '\u{516B}' || c == '\u{634C}' {
        '8'
    } else if c == '\u{4E5D}' || c == '\u{7396}' {
        '9'
    } else {
        c
    }
}

pub open spec fn ascii_lower(c: char) -> char {
    if 'A' <= c <= 'Z' {
        ((c as u32 - 0x41) as u8 + 0x61u8) as char
    } else {
        c
    }
}

pub open spec fn is_ascii_ws(c: char) -> bool {
    c == ' ' || c == '\t' || c == '\n' || c == '\x0C' || c == '\r'
}

/// A title folded for matching: full-width forms to ASCII, ASCII lower
/// case, ASCII white space dropped.
pub open spec fn normalized(s: Seq<char>) -> Seq<char>
    decreases s.len(),
{
    if s.len() == 0 {
        Seq::empty()
    } else {
        let c = ascii_lower(zenkaku_folded(s.last()));
        normalized(s.drop_last()) + if is_ascii_ws(c) {
            Seq::empty()
        } else {
            seq![c]
        }
    }
}

/// Folds a title for matching against keywords.
pub fn normalize_alphabet(s: &str) -> (r: String)
    ensures
        r@ == normalized(s@),
{
    let cs = chars_of(s);
    let mut out: Vec<char> = Vec::new();
    let mut i: usize = 0;
    assert(cs@.subrange(0, 0) =~= Seq::<char>::empty());
    while i < cs.len()
        invariant
            i <= cs@.len(),
            out@ == normalized(cs@.subrange(0, i as int)),
        decreases cs.len() - i,
    {
        assert(cs@.subrange(0, i + 1).drop_last() =~= cs@.subrange(0, i as int));
        let z = convert_zenkaku(cs[i]);
        let c = if 'A' <= z && z <= 'Z' {
            ((z as u32 - 0x41) as u8 + 0x61u8) as char
        } else {
            z
        };
        if !(c == ' ' || c == '\t' || c == '\n' || c == '\x0C' || c == '\r') {
            out.push(c);
        }
        i += 1;
        assert(out@ =~= normalized(cs@.subrange(0, i as int)));
    }
    assert(cs@.subrange(0, cs@.len() as int) =~= cs@);
    string_of(out.as_slice())
}

/// A character that marks a chapter number, once rare numerals are folded.
pub open spec fn is_numeral(c: char) -> bool {
    let d = numeral_folded(c);
    ('0' <= d <= '9') || ('\u{2169}' <= d <= '\u{216B}') || d == 'I' || d == 'V' || d == 'X' || d
        == '\u{5341}' || d == '\u{62FE}' || d == '\u{4EC0}'
}

/// Whether the title holds a numeral: a digit in any script, a Roman
/// numeral, or a kanji ten.
pub fn contains_numerals(s: &str) -> (r: bool)
    ensures
        r == exists|i: int| 0 <= i < s@.len() && is_numeral(#[trigger] s@[i]),
{
    let cs = chars_of(s);
    let mut i: usize = 0;
    while i < cs.len()
        invariant
            i <= cs@.len(),
            cs@ == s@,
            forall|k: int| 0 <= k < i ==> !is_numeral(#[trigger] cs@[k]),
        decreases cs.len() - i,
    {
        let d = convert_rare_numerals(cs[i]);
        if ('0' <= d && d <= '9') || ('\u{2169}' <= d && d <= '\u{216B}') || d == 'I' || d == 'V'
            || d == 'X' || d == '\u{5341}' || d == '\u{62FE}' || d == '\u{4EC0}' {
            assert(is_numeral(s@[i as int]));
            return true;
        }
        i += 1;
    }
    false
}

/// `w` occurs in `s` at `i`.
pub open spec fn occurs_at(s: Seq<char>, w: Seq<char>, i: int) -> bool {
    0 <= i && i + w.len() <= s.len() && s.subrange(i, i + w.len()) == w
}

/// `w` occurs in `s`.
pub open spec fn contains_seq(s: Seq<char>, w: Seq<char>) -> bool {
    exists|i: int| occurs_at(s, w, i)
}

/// Whether `w` occurs in `s` at `i`.
fn occurs_at_exec(s: &Vec<char>, w: &Vec<char>, i: usize) -> (r: bool)
    requires
        i <= s@.len(),
    ensures
        r == occurs_at(s@, w@, i as int),
{
    if w.len() > s.len() - i {
        return false;
    }
    let n = s.len();
    let mut k: usize = 0;
    while k < w.len()
        invariant
            n == s@.len(),
            w@.len() <= s@.len() - i,
            i <= s@.len(),
            k <= w@.len(),
            forall|j: int| 0 <= j < k ==> s@[i + j] == w@[j],
        decreases w.len() - k,
    {
        if s[i + k] != w[k] {
            assert(s@.subrange(i as int, i + w@.len())[k as int] != w@[k as int]);
            return false;
        }
        k += 1;
    }
    assert(s@.subrange(i as int, i + w@.len()) =~= w@);
    true
}

/// The first occurrence of `w` in `s` at or after `from`.
pub fn find_from(s: &Vec<char>, w: &Vec<char>, from: usize) -> (r: Option<usize>)
    requires
        from <= s@.len(),
    ensures
        r matches Some(i) ==> from <= i && occurs_at(s@, w@, i as int) && forall|j: int|
            from <= j < i ==> !occurs_at(s@, w@, j),
        r is None ==> forall|j: int| from <= j ==> !occurs_at(s@, w@, j),
{
    let mut i = from;
    while i < s.len()
        invariant
            from <= i <= s@.len(),
            forall|j: int| from <= j < i ==> !occurs_at(s@, w@, j),
        decreases s.len() - i,
    {
        if occurs_at_exec(s, w, i) {
            return Some(i);
        }
        i += 1;
    }
    if occurs_at_exec(s, w, i) {
        return Some(i);
    }
    None
}

/// Whether any of `words` occurs in `name`.
pub fn contains_any_of(name: &str, words: &[&str]) -> (r: bool)
    ensures
        r == exists|k: int| 0 <= k < words@.len() && contains_seq(name@, (#[trigger] words@[k])@),
{
    let cs = chars_of(name);
    let mut k: usize = 0;
    while k < words.len()
        invariant
            k <= words@.len(),
            cs@ == name@,
            forall|j: int| 0 <= j < k ==> !contains_seq(name@, (#[trigger] words@[j])@),
        decreases words.len() - k,
    {
        let w = chars_of(words[k]);
        if find_from(&cs, &w, 0).is_some() {
            return true;
        }
        k += 1;
    }
    false
}

} // verus!

verus! {

/// The first occurrence of `w` in `s` at or after `from`.
pub open spec fn first_occ(s: Seq<char>, w: Seq<char>, from: int) -> Option<int>
    decreases s.len() + 1 - from,
{
    if from < 0 || from > s.len() {
        None
    } else if occurs_at(s, w, from) {
        Some(from)
    } else {
        first_occ(s, w, from + 1)
    }
}

/// The last occurrence of `w` in `s` that starts at or before `i`.
pub open spec fn last_occ(s: Seq<char>, w: Seq<char>, i: int) -> Option<int>
    decreases i + 1,
{
    if i < 0 {
        None
    } else if occurs_at(s, w, i) {
        Some(i)
    } else {
        last_occ(s, w, i - 1)
    }
}

/// One round of removing a bracketed note `start … mid … end` from `t`,
/// searching for `mid` from `pos`: the title after it, where the next
/// search starts, and what stood between the brackets if a note was
/// removed. `None`: no `mid` is left.
pub open spec fn remove_round(t: Seq<char>, pos: int, start: Seq<char>, mid: Seq<char>, end: Seq<char>) -> Option<
    (Seq<char>, int, Option<Seq<char>>),
> {
    match first_occ(t, mid, pos) {
        None => None,
        Some(m) => match (last_occ(t, start, m - start.len()), first_occ(t, end, m)) {
            (Some(a), Some(b)) => Some(
                (
                    t.subrange(0, a) + t.subrange(b + end.len(), t.len() as int),
                    a,
                    Some(t.subrange(a + start.len(), b)),
                ),
            ),
            _ => Some((t, m + mid.len(), None)),
        },
    }
}

/// Notes removed round by round, within `fuel` rounds: the final title and
/// the texts the notes held.
pub open spec fn remove_all(
    t: Seq<char>,
    pos: int,
    start: Seq<char>,
    mid: Seq<char>,
    end: Seq<char>,
    fuel: nat,
) -> Option<(Seq<char>, Seq<Seq<char>>)>
    decreases fuel,
{
    if fuel == 0 {
        None
    } else {
        match remove_round(t, pos, start, mid, end) {
            None => Some((t, Seq::empty())),
            Some((t2, pos2, piece)) => match remove_all(t2, pos2, start, mid, end, (fuel - 1) as nat) {
                None => None,
                Some((t3, pieces)) => Some(
                    (
                        t3,
                        match piece {
                            Some(x) => seq![x] + pieces,
                            None => pieces,
                        },
                    ),
                ),
            },
        }
    }
}

/// Removing notes gives one result, however many rounds it is allowed.
proof fn lemma_remove_all_unique(
    t: Seq<char>,
    pos: int,
    start: Seq<char>,
    mid: Seq<char>,
    end: Seq<char>,
    f1: nat,
    f2: nat,
)
    requires
        remove_all(t, pos, start, mid, end, f1) is Some,
        remove_all(t, pos, start, mid, end, f2) is Some,
    ensures
        remove_all(t, pos, start, mid, end, f1) == remove_all(t, pos, start, mid, end, f2),
    decreases f1,
{
    if let Some((t2, pos2, piece)) = remove_round(t, pos, start, mid, end) {
        lemma_remove_all_unique(t2, pos2, start, mid, end, (f1 - 1) as nat, (f2 - 1) as nat);
    }
}

/// `t` with the notes `start … mid … end` removed, and the texts the notes
/// held; `t` itself where `start` or `mid` is empty.
pub open spec fn notes_removed(t: Seq<char>, start: &str, mid: &str, end: &str) -> (Seq<char>, Seq<Seq<char>>) {
    if start@.len() > 0 && mid@.len() > 0 && exists|f: nat| #[trigger] remove_all(t, 0, start@, mid@, end@, f) is Some {
        let f = choose|f: nat| #[trigger] remove_all(t, 0, start@, mid@, end@, f) is Some;
        remove_all(t, 0, start@, mid@, end@, f)->0
    } else {
        (t, Seq::empty())
    }
}

/// `t` with the notes of each of `notes` removed in turn, and the texts
/// the notes held.
pub open spec fn each_removed(t: Seq<char>, notes: Seq<(&str, &str, &str)>) -> (Seq<char>, Seq<Seq<char>>)
    decreases notes.len(),
{
    if notes.len() == 0 {
        (t, Seq::empty())
    } else {
        let (t1, pos1) = notes_removed(t, notes[0].0, notes[0].1, notes[0].2);
        let (t2, pos2) = each_removed(t1, notes.drop_first());
        (t2, pos1 + pos2)
    }
}

/// The contents of a list of character vectors.
pub open spec fn views(v: Seq<Vec<char>>) -> Seq<Seq<char>> {
    v.map_values(|x: Vec<char>| x@)
}

proof fn lemma_first_occ(s: Seq<char>, w: Seq<char>, from: int)
    ensures
        first_occ(s, w, from) matches Some(b) ==> from <= b && occurs_at(s, w, b),
    decreases s.len() + 1 - from,
{
    if 0 <= from <= s.len() && !occurs_at(s, w, from) {
        lemma_first_occ(s, w, from + 1);
    }
}

proof fn lemma_last_occ(s: Seq<char>, w: Seq<char>, i: int)
    ensures
        last_occ(s, w, i) matches Some(a) ==> a <= i && occurs_at(s, w, a),
    decreases i + 1,
{
    if i >= 0 && !occurs_at(s, w, i) {
        lemma_last_occ(s, w, i - 1);
    }
}

fn last_occ_exec(s: &Vec<char>, w: &Vec<char>, i: usize) -> (r: Option<usize>)
    requires
        i <= s@.len(),
    ensures
        match r {
            Some(k) => last_occ(s@, w@, i as int) == Some(k as int),
            None => last_occ(s@, w@, i as int) is None,
        },
{
    let mut k: usize = i;
    loop
        invariant
            k <= i <= s@.len(),
            last_occ(s@, w@, i as int) == last_occ(s@, w@, k as int),
        decreases k,
    {
        if occurs_at_exec(s, w, k) {
            return Some(k);
        }
        if k == 0 {
            return None;
        }
        k -= 1;
    }
}

fn first_occ_exec(s: &Vec<char>, w: &Vec<char>, from: usize) -> (r: Option<usize>)
    requires
        from <= s@.len(),
    ensures
        match r {
            Some(k) => first_occ(s@, w@, from as int) == Some(k as int) && k <= s@.len(),
            None => first_occ(s@, w@, from as int) is None,
        },
{
    let mut k: usize = from;
    loop
        invariant
            from <= k <= s@.len(),
            first_occ(s@, w@, from as int) == first_occ(s@, w@, k as int),
        decreases s@.len() - k,
    {
        if occurs_at_exec(s, w, k) {
            return Some(k);
        }
        if k == s.len() {
            assert(first_occ(s@, w@, k + 1) is None);
            return None;
        }
        k += 1;
    }
}

fn slice_chars(s: &Vec<char>, a: usize, b: usize) -> (r: Vec<char>)
    requires
        a <= b <= s@.len(),
    ensures
        r@ == s@.subrange(a as int, b as int),
{
    let mut r: Vec<char> = Vec::new();
    let mut i = a;
    while i < b
        invariant
            a <= i <= b <= s@.len(),
            r@ == s@.subrange(a as int, i as int),
        decreases b - i,
    {
        r.push(s[i]);
        i += 1;
        assert(r@ =~= s@.subrange(a as int, i as int));
    }
    r
}

/// Removes each bracketed note `start … mid … end` from `title`: the
/// nearest `start` before a `mid` and the nearest `end` after it. What stood
/// between the brackets is added to `removed`.
pub fn remove(title: &mut Vec<char>, removed: &mut Vec<Vec<char>>, start: &str, mid: &str, end: &str)
    ensures
        start@.len() > 0 && mid@.len() > 0 ==> exists|fuel: nat|
            #[trigger] remove_all(old(title)@, 0, start@, mid@, end@, fuel) matches Some((t, pieces))
                && final(title)@ == t && final(removed)@.len() == old(removed)@.len() + pieces.len()
                && forall|i: int| 0 <= i < pieces.len() ==> (#[trigger] final(removed)@[old(removed)@.len() + i])@ == pieces[i],
        forall|i: int| 0 <= i < old(removed)@.len() ==> final(removed)@[i] == old(removed)@[i],
        final(removed)@.len() >= old(removed)@.len(),
        final(title)@ == notes_removed(old(title)@, start, mid, end).0,
        views(final(removed)@) == views(old(removed)@) + notes_removed(old(title)@, start, mid, end).1,
{
    let start_c = chars_of(start);
    let mid_c = chars_of(mid);
    let end_c = chars_of(end);
    if start_c.len() == 0 || mid_c.len() == 0 {
        // without both, a round might remove nothing and find the same note again
        assert(views(removed@) =~= views(removed@) + Seq::<Seq<char>>::empty());
        return;
    }
    let mut pos: usize = 0;
    let ghost t0 = title@;
    let ghost r0 = removed@;
    let ghost mut k: nat = 0;
    let ghost mut taken: Seq<Seq<char>> = Seq::empty();
    loop
        invariant
            pos <= title@.len(),
            start_c@ == start@,
            mid_c@ == mid@,
            end_c@ == end@,
            start@.len() > 0,
            mid@.len() > 0,
            t0 == old(title)@,
            r0 == old(removed)@,
            removed@.len() == r0.len() + taken.len(),
            forall|i: int| 0 <= i < r0.len() ==> removed@[i] == r0[i],
            forall|i: int| 0 <= i < taken.len() ==> (#[trigger] removed@[r0.len() + i])@ == taken[i],
            forall|f: nat|
                (#[trigger] remove_all(t0, 0, start@, mid@, end@, f + k)) == match remove_all(
                    title@,
                    pos as int,
                    start@,
                    mid@,
                    end@,
                    f,
                ) {
                    None => None,
                    Some((t3, pieces)) => Some((t3, taken + pieces)),
                },
        decreases title@.len(), title@.len() - pos,
    {
        let ghost tt = title@;
        let ghost pp = pos as int;
        let tl = title.len();
        let m = match first_occ_exec(title, &mid_c, pos) {
            None => {
                proof {
                    assert(remove_all(t0, 0, start@, mid@, end@, 1 + k) == Some((tt, taken + Seq::<Seq<char>>::empty())));
                    assert(taken + Seq::<Seq<char>>::empty() =~= taken);
                    let f = choose|f: nat| #[trigger] remove_all(t0, 0, start@, mid@, end@, f) is Some;
                    lemma_remove_all_unique(t0, 0, start@, mid@, end@, f, 1 + k);
                    assert forall|i: int| 0 <= i < removed@.len() implies views(removed@)[i] == (views(r0) + taken)[i] by {
                        if i < r0.len() {
                            assert(removed@[i] == r0[i]);
                        } else {
                            assert(removed@[r0.len() + (i - r0.len())]@ == taken[i - r0.len()]);
                        }
                    }
                    assert(views(removed@) =~= views(r0) + taken);
                }
                return;
            },
            Some(m) => m,
        };
        let a = if m >= start_c.len() {
            last_occ_exec(title, &start_c, m - start_c.len())
        } else {
            None
        };
        let b = first_occ_exec(title, &end_c, m);
        proof {
            lemma_first_occ(tt, mid@, pp);
            lemma_first_occ(tt, end@, m as int);
            lemma_last_occ(tt, start@, m - start@.len());
            if m < start_c.len() {
                assert(last_occ(tt, start@, m - start@.len()) is None);
            }
        }
        match (a, b) {
            (Some(a), Some(b)) => {
                proof {
                    assert(occurs_at(tt, start@, a as int));
                    assert(occurs_at(tt, end@, b as int));
                }
                let piece = slice_chars(title, a + start_c.len(), b);
                let mut t2 = slice_chars(title, 0, a);
                let rest = slice_chars(title, b + end_c.len(), title.len());
                let mut j: usize = 0;
                let ghost t2_0 = t2@;
                while j < rest.len()
                    invariant
                        j <= rest@.len(),
                        t2@ == t2_0 + rest@.subrange(0, j as int),
                    decreases rest.len() - j,
                {
                    t2.push(rest[j]);
                    j += 1;
                    assert(t2@ =~= t2_0 + rest@.subrange(0, j as int));
                }
                assert(rest@.subrange(0, rest@.len() as int) =~= rest@);
                let ghost pv = piece@;
                let ghost rem_before = removed@;
                removed.push(piece);
                *title = t2;
                pos = a;
                proof {
                    assert(remove_round(tt, pp, start@, mid@, end@) == Some((title@, a as int, Some(pv))));
                    assert forall|f: nat|
                        (#[trigger] remove_all(t0, 0, start@, mid@, end@, f + (k + 1))) == match remove_all(
                            title@,
                            pos as int,
                            start@,
                            mid@,
                            end@,
                            f,
                        ) {
                            None => None,
                            Some((t3, pieces)) => Some((t3, taken.push(pv) + pieces)),
                        } by {
                        assert(f + (k + 1) == (f + 1) + k);
                        match remove_all(title@, pos as int, start@, mid@, end@, f) {
                            None => {},
                            Some((t3, pieces)) => {
                                assert(taken + (seq![pv] + pieces) =~= taken.push(pv) + pieces);
                            },
                        }
                    }
                    taken = taken.push(pv);
                    k = k + 1;
                    assert forall|i: int| 0 <= i < taken.len() implies (#[trigger] removed@[r0.len() + i])@ == taken[i] by {
                        if i < taken.len() - 1 {
                            assert(removed@[r0.len() + i] == rem_before[r0.len() + i]);
                        }
                    }
                }
            },
            _ => {
                pos = m + mid_c.len();
                proof {
                    assert(remove_round(tt, pp, start@, mid@, end@) == Some((tt, pos as int, None::<Seq<char>>)));
                    assert forall|f: nat|
                        (#[trigger] remove_all(t0, 0, start@, mid@, end@, f + (k + 1))) == match remove_all(
                            title@,
                            pos as int,
                            start@,
                            mid@,
                            end@,
                            f,
                        ) {
                            None => None,
                            Some((t3, pieces)) => Some((t3, taken + pieces)),
                        } by {
                        assert(f + (k + 1) == (f + 1) + k);
                    }
                    k = k + 1;
                }
            },
        }
    }
}

} // verus!

verus! {

/// `s` with every occurrence of `w` deleted, leftmost first.
pub open spec fn deleted(s: Seq<char>, w: Seq<char>) -> Seq<char>
    decreases s.len(),
{
    if w.len() == 0 || s.len() == 0 {
        s
    } else if occurs_at(s, w, 0) {
        deleted(s.subrange(w.len() as int, s.len() as int), w)
    } else {
        seq![s[0]] + deleted(s.subrange(1, s.len() as int), w)
    }
}

/// Deletes every occurrence of `w` from `s`.
pub fn delete_all(s: &Vec<char>, w: &str) -> (r: Vec<char>)
    ensures
        r@ == deleted(s@, w@),
{
    let wc = chars_of(w);
    if wc.len() == 0 {
        return slice_chars(s, 0, s.len());
    }
    let mut out: Vec<char> = Vec::new();
    let mut i: usize = 0;
    assert(s@.subrange(0, s@.len() as int) =~= s@);
    while i < s.len()
        invariant
            i <= s@.len(),
            wc@ == w@,
            wc@.len() > 0,
            out@ + deleted(s@.subrange(i as int, s@.len() as int), w@) == deleted(s@, w@),
        decreases s.len() - i,
    {
        let ghost rest = s@.subrange(i as int, s@.len() as int);
        let ghost before = out@;
        if occurs_at_exec(s, &wc, i) {
            assert(occurs_at(rest, w@, 0)) by {
                assert(rest.subrange(0, w@.len() as int) =~= s@.subrange(i as int, i + w@.len()));
            }
            assert(rest.subrange(w@.len() as int, rest.len() as int) =~= s@.subrange(i + w@.len(), s@.len() as int));
            i += wc.len();
        } else {
            assert(!occurs_at(rest, w@, 0)) by {
                if w@.len() <= rest.len() {
                    assert(rest.subrange(0, w@.len() as int) =~= s@.subrange(i as int, i + w@.len()));
                }
            }
            assert(rest.subrange(1, rest.len() as int) =~= s@.subrange(i + 1, s@.len() as int));
            out.push(s[i]);
            i += 1;
            assert(out@ + deleted(s@.subrange(i as int, s@.len() as int), w@) =~= before + (seq![rest[0]] + deleted(s@.subrange(i as int, s@.len() as int), w@)));
        }
    }
    assert(out@ + deleted(s@.subrange(i as int, s@.len() as int), w@) =~= out@);
    out
}

/// White space as `char::is_whitespace` knows it.
pub open spec fn is_white(c: char) -> bool {
    ('\t' <= c <= '\r') || c == ' ' || c == '\u{85}' || c == '\u{A0}' || c == '\u{1680}' || ('\u{2000}'
        <= c <= '\u{200A}') || c == '\u{2028}' || c == '\u{2029}' || c == '\u{202F}' || c
        == '\u{205F}' || c == '\u{3000}'
}

fn is_white_exec(c: char) -> (r: bool)
    ensures
        r == is_white(c),
{
    ('\t' <= c && c <= '\r') || c == ' ' || c == '\u{85}' || c == '\u{A0}' || c == '\u{1680}' || (
    '\u{2000}' <= c && c <= '\u{200A}') || c == '\u{2028}' || c == '\u{2029}' || c == '\u{202F}'
        || c == '\u{205F}' || c == '\u{3000}'
}

/// The characters of `s` from `lo` to `hi` is `s` without leading and
/// trailing white space.
pub open spec fn trim_bounds(s: Seq<char>, lo: int, hi: int) -> bool {
    &&& 0 <= lo <= hi <= s.len()
    &&& forall|i: int| 0 <= i < lo ==> is_white(#[trigger] s[i])
    &&& forall|i: int| hi <= i < s.len() ==> is_white(#[trigger] s[i])
    &&& lo < hi ==> !is_white(s[lo]) && !is_white(s[hi - 1])
}

/// `s` without leading and trailing white space.
pub fn trim_chars(s: &Vec<char>) -> (r: String)
    ensures
        exists|lo: int, hi: int| trim_bounds(s@, lo, hi) && r@ == s@.subrange(lo, hi),
{
    let mut lo: usize = 0;
    while lo < s.len() && is_white_exec(s[lo])
        invariant
            lo <= s@.len(),
            forall|i: int| 0 <= i < lo ==> is_white(#[trigger] s@[i]),
        decreases s.len() - lo,
    {
        lo += 1;
    }
    let mut hi: usize = s.len();
    while hi > lo && is_white_exec(s[hi - 1])
        invariant
            lo <= hi <= s@.len(),
            forall|i: int| hi <= i < s@.len() ==> is_white(#[trigger] s@[i]),
        decreases hi,
    {
        hi -= 1;
    }
    let v = slice_chars(s, lo, hi);
    assert(trim_bounds(s@, lo as int, hi as int));
    string_of(v.as_slice())
}

/// A title with a space at either end, so that notes set off by spaces are
/// found at its ends too.
fn padded(title: &str) -> (r: Vec<char>)
    ensures
        r@ == seq![' '] + title@ + seq![' '],
{
    let cs = chars_of(title);
    let mut t: Vec<char> = Vec::new();
    t.push(' ');
    let mut i: usize = 0;
    while i < cs.len()
        invariant
            i <= cs@.len(),
            t@ == seq![' '] + cs@.subrange(0, i as int),
        decreases cs.len() - i,
    {
        t.push(cs[i]);
        i += 1;
        assert(t@ =~= seq![' '] + cs@.subrange(0, i as int));
    }
    t.push(' ');
    assert(cs@.subrange(0, cs@.len() as int) =~= cs@);
    assert(t@ =~= seq![' '] + title@ + seq![' ']);
    t
}

/// Removes the notes of each `(start, mid, end)` of `notes` in turn.
fn remove_each(t: &mut Vec<char>, removed: &mut Vec<Vec<char>>, notes: &Vec<(&str, &str, &str)>)
    ensures
        final(t)@ == each_removed(old(t)@, notes@).0,
        views(final(removed)@) == views(old(removed)@) + each_removed(old(t)@, notes@).1,
{
    let ghost t0 = t@;
    let ghost r0 = views(removed@);
    let ghost mut taken: Seq<Seq<char>> = Seq::empty();
    let mut i: usize = 0;
    assert(notes@.subrange(0, notes@.len() as int) =~= notes@);
    while i < notes.len()
        invariant
            i <= notes@.len(),
            t0 == old(t)@,
            r0 == views(old(removed)@),
            views(removed@) == r0 + taken,
            each_removed(t0, notes@) == ({
                let r = each_removed(t@, notes@.subrange(i as int, notes@.len() as int));
                (r.0, taken + r.1)
            }),
        decreases notes.len() - i,
    {
        let (start, mid, end) = notes[i];
        let ghost rest = notes@.subrange(i as int, notes@.len() as int);
        let ghost before = t@;
        remove(t, removed, start, mid, end);
        proof {
            assert(rest.drop_first() =~= notes@.subrange(i + 1, notes@.len() as int));
            assert(rest[0] == notes@[i as int]);
            let pos1 = notes_removed(before, start, mid, end).1;
            assert(taken + (pos1 + each_removed(t@, rest.drop_first()).1) =~= (taken + pos1) + each_removed(t@, rest.drop_first()).1);
            assert(views(removed@) =~= r0 + (taken + pos1));
            taken = taken + pos1;
        }
        i += 1;
    }
    assert(taken + Seq::<Seq<char>>::empty() =~= taken);
}

/// `t` with every occurrence of each of `words` deleted in turn.
pub open spec fn all_deleted(t: Seq<char>, words: Seq<&str>) -> Seq<char>
    decreases words.len(),
{
    if words.len() == 0 {
        t
    } else {
        all_deleted(deleted(t, words[0]@), words.drop_first())
    }
}

/// Edition notes: removed from a title, their contents dropped.
pub open spec fn edition_notes() -> Seq<(&'static str, &'static str, &'static str)> {
    seq![
        ("【", "版", "】"),
        ("【", "付", "】"),
        ("【", "入", "】"),
        ("【", "セット", "】"),
        ("【", "シリーズ", "】"),
        ("【", "小説", "】"),
        ("［", "版", "］"),
        ("〈", "版", "〉"),
        ("(", "版", ")"),
        ("（", "版", "）"),
        (" ", "シリーズ", " "),
    ]
}

/// Publisher labels: removed from a title, their contents kept as the label.
pub open spec fn label_notes() -> Seq<(&'static str, &'static str, &'static str)> {
    seq![
        ("(", "文庫", ")"),
        ("（", "文庫", "）"),
        ("(", "ノベル", ")"),
        ("（", "ノベル", "）"),
        ("(", "ブックス", ")"),
        ("(", "BOOKS", ")"),
        ("(", "NOVELS", ")"),
        ("(", "書庫", ")"),
        ("(", "小説", ")"),
        ("(", "書店", ")"),
        ("(", "キス", ")"),
        ("(", "ファンタジー", ")"),
        ("(", "社", ")"),
        ("(", "文芸", ")"),
        (" ", "文庫", " "),
        ("(", "Kindle Single", ")"),
        ("(", "アイリスNEO", ")"),
        ("(", "サーガフォレスト", ")"),
        ("（", "サーガフォレスト", "）"),
        ("(", "アース・スター ルナ", ")"),
    ]
}

/// A title with its edition notes and the words 新装版 and (幅広) removed,
/// and then its labels removed: the rest, and the labels' contents.
pub open spec fn title_parts(title: Seq<char>) -> (Seq<char>, Seq<Seq<char>>) {
    let t1 = each_removed(seq![' '] + title + seq![' '], edition_notes()).0;
    let t2 = deleted(deleted(t1, "新装版"@), "(幅広)"@);
    each_removed(t2, label_notes())
}

/// The name of a book, without the edition notes and the publisher's label
/// in its title, and that label.
pub fn parse_book_title(title: &str) -> (r: Result<(String, Option<String>), Error>)
    ensures
        ({
            let (rest, labels) = title_parts(title@);
            &&& r is Err <==> labels.len() > 1
            &&& r is Err ==> r == Err::<(String, Option<String>), Error>(Error::MultipleLabels)
            &&& r matches Ok((name, label)) ==> (exists|lo: int, hi: int|
                trim_bounds(rest, lo, hi) && name@ == rest.subrange(lo, hi)) && (labels.len() == 0
                ==> label is None) && (labels.len() == 1 ==> (label matches Some(l) && l@ == labels[0]))
        }),
{
    let mut t = padded(title);
    let notes: Vec<(&str, &str, &str)> = vec![
        ("【", "版", "】"),
        ("【", "付", "】"),
        ("【", "入", "】"),
        ("【", "セット", "】"),
        ("【", "シリーズ", "】"),
        ("【", "小説", "】"),
        ("［", "版", "］"),
        ("〈", "版", "〉"),
        ("(", "版", ")"),
        ("（", "版", "）"),
        (" ", "シリーズ", " "),
    ];
    assert(notes@ =~= edition_notes());
    let mut discarded: Vec<Vec<char>> = Vec::new();
    remove_each(&mut t, &mut discarded, &notes);
    t = delete_all(&t, "新装版");
    t = delete_all(&t, "(幅広)");
    let labels: Vec<(&str, &str, &str)> = vec![
        ("(", "文庫", ")"),
        ("（", "文庫", "）"),
        ("(", "ノベル", ")"),
        ("（", "ノベル", "）"),
        ("(", "ブックス", ")"),
        ("(", "BOOKS", ")"),
        ("(", "NOVELS", ")"),
        ("(", "書庫", ")"),
        ("(", "小説", ")"),
        ("(", "書店", ")"),
        ("(", "キス", ")"),
        ("(", "ファンタジー", ")"),
        ("(", "社", ")"),
        ("(", "文芸", ")"),
        (" ", "文庫", " "),
        ("(", "Kindle Single", ")"),
        ("(", "アイリスNEO", ")"),
        ("(", "サーガフォレスト", ")"),
        ("（", "サーガフォレスト", "）"),
        ("(", "アース・スター ルナ", ")"),
    ];
    assert(labels@ =~= label_notes());
    let mut label: Vec<Vec<char>> = Vec::new();
    remove_each(&mut t, &mut label, &labels);
    assert(views(label@) =~= title_parts(title@).1);
    if label.len() > 1 {
        return Err(Error::MultipleLabels);
    }
    let name = trim_chars(&t);
    let ghost lv = views(label@);
    let ghost lbefore = label@;
    let label = match label.pop() {
        Some(l) => {
            assert(lv[0] == lbefore[0]@);
            Some(string_of(l.as_slice()))
        },
        None => None,
    };
    Ok((name, label))
}

} // verus!

verus! {

/// The decorations that a book's name is guessed without: notes and labels.
pub open spec fn decoration_notes() -> Seq<(&'static str, &'static str, &'static str)> {
    seq![
        ("【", "版", "】"),
        ("【", "付", "】"),
        ("【", "入", "】"),
        ("【", "セット", "】"),
        ("【", "シリーズ", "】"),
        ("【", "小説", "】"),
        ("［", "版", "］"),
        ("〈", "版", "〉"),
        ("(", "文庫", ")"),
        ("（", "文庫", "）"),
        ("(", "ノベル", ")"),
        ("（", "ノベル", "）"),
        ("(", "ブックス", ")"),
        ("(", "BOOKS", ")"),
        ("(", "NOVELS", ")"),
        ("(", "書庫", ")"),
        ("(", "小説", ")"),
        ("(", "書店", ")"),
        ("(", "キス", ")"),
        ("(", "ファンタジー", ")"),
        ("(", "社", ")"),
        ("(", "版", ")"),
        ("（", "版", "）"),
        ("(", "文芸", ")"),
        (" ", "文庫", " "),
        (" ", "シリーズ", " "),
    ]
}

/// Words that a book's name is guessed without.
pub open spec fn decoration_words() -> Seq<&'static str> {
    seq![
        "新装版",
        "(幅広)",
        "(Kindle Single)",
        "(アイリスNEO)",
        "(サーガフォレスト)",
        "（サーガフォレスト）",
        "(アース・スター ルナ)",
    ]
}

/// `name` is what is left of `title` without its decorations and the
/// white space at its ends.
pub open spec fn is_guessed_name(title: Seq<char>, name: Seq<char>) -> bool {
    let t = all_deleted(
        each_removed(seq![' '] + title + seq![' '], decoration_notes()).0,
        decoration_words(),
    );
    exists|lo: int, hi: int| trim_bounds(t, lo, hi) && name == t.subrange(lo, hi)
}

/// The name of a book, guessed from its title by removing edition notes,
/// publisher labels and similar decorations.
pub fn guess_book_name(epub: &crate::epub::Epub) -> (r: String)
    ensures
        is_guessed_name(epub.title@, r@),
{
    let mut t = padded(epub.title.as_str());
    let notes: Vec<(&str, &str, &str)> = vec![
        ("【", "版", "】"),
        ("【", "付", "】"),
        ("【", "入", "】"),
        ("【", "セット", "】"),
        ("【", "シリーズ", "】"),
        ("【", "小説", "】"),
        ("［", "版", "］"),
        ("〈", "版", "〉"),
        ("(", "文庫", ")"),
        ("（", "文庫", "）"),
        ("(", "ノベル", ")"),
        ("（", "ノベル", "）"),
        ("(", "ブックス", ")"),
        ("(", "BOOKS", ")"),
        ("(", "NOVELS", ")"),
        ("(", "書庫", ")"),
        ("(", "小説", ")"),
        ("(", "書店", ")"),
        ("(", "キス", ")"),
        ("(", "ファンタジー", ")"),
        ("(", "社", ")"),
        ("(", "版", ")"),
        ("（", "版", "）"),
        ("(", "文芸", ")"),
        (" ", "文庫", " "),
        (" ", "シリーズ", " "),
    ];
    assert(notes@ =~= decoration_notes());
    let mut discarded: Vec<Vec<char>> = Vec::new();
    remove_each(&mut t, &mut discarded, &notes);
    let words: Vec<&str> = vec![
        "新装版",
        "(幅広)",
        "(Kindle Single)",
        "(アイリスNEO)",
        "(サーガフォレスト)",
        "（サーガフォレスト）",
        "(アース・スター ルナ)",
    ];
    assert(words@ =~= decoration_words());
    let ghost t1 = t@;
    let mut i: usize = 0;
    assert(words@.subrange(0, words@.len() as int) =~= words@);
    while i < words.len()
        invariant
            i <= words@.len(),
            all_deleted(t1, words@) == all_deleted(t@, words@.subrange(i as int, words@.len() as int)),
        decreases words.len() - i,
    {
        let ghost rest = words@.subrange(i as int, words@.len() as int);
        assert(rest.drop_first() =~= words@.subrange(i + 1, words@.len() as int));
        t = delete_all(&t, words[i]);
        i += 1;
    }
    trim_chars(&t)
}

/// Some word of `ws` occurs in `s`.
pub open spec fn any_of(s: Seq<char>, ws: Seq<&str>) -> bool {
    exists|k: int| 0 <= k < ws.len() && contains_seq(s, (#[trigger] ws[k])@)
}

fn any_word(nname: &str, ws: Vec<&str>) -> (r: bool)
    ensures
        r == any_of(nname@, ws@),
{
    contains_any_of(nname, ws.as_slice())
}

/// The lexical cues of a chapter title, one per role: keywords of the role
/// in the folded title (a chapter number, for main chapters). Forewords and
/// part titles have no known cues. `始` is no prologue cue and `幕` no main
/// chapter cue: "１ 始まりの事件" is a main chapter and "【序幕】" a prologue.
pub fn extract_features(chapter_name: &str) -> (r: [bool; 13])
    ensures
        ({
            let n = normalized(chapter_name@);
            &&& r@[0] == any_of(n, seq!["表紙", "表題紙"])
            &&& r@[1] == any_of(n, seq!["紹介", "登場人物"])
            &&& r@[2] == false
            &&& r@[3] == any_of(n, seq!["目次", "もくじ", "content", "menu"])
            &&& r@[4] == any_of(n, seq!["プロローグ", "prolog", "序", "開", "前", "intro"])
            &&& r@[5] == false
            &&& r@[6] == ((exists|i: int| 0 <= i < chapter_name@.len() && is_numeral(#[trigger] chapter_name@[i]))
                || any_of(n, seq!["章", "第", "話", "巻", "本編"]))
            &&& r@[7] == any_of(n, seq!["幕間", "閑話", "番外", "間章", "間頁", "interlude", "intermission"])
            &&& r@[8] == any_of(n, seq!["エピローグ", "epilog", "終章", "閉", "終", "outro"])
            &&& r@[9] == any_of(n, seq!["外伝", "番外編", "短編", "おまけ", "書き下ろし", "ss"])
            &&& r@[10] == any_of(n, seq!["あとがき", "後書", "解説"])
            &&& r@[11] == any_of(n, seq!["付録", "収録", "特典", "おまけ", "イラスト"])
            &&& r@[12] == any_of(n, seq!["奥付"])
        }),
{
    let nname = normalize_alphabet(chapter_name);
    let n = nname.as_str();
    let f0 = { let ws = vec!["表紙", "表題紙"]; assert(ws@ =~= seq!["表紙", "表題紙"]); any_word(n, ws) };
    let f1 = { let ws = vec!["紹介", "登場人物"]; assert(ws@ =~= seq!["紹介", "登場人物"]); any_word(n, ws) };
    let f3 = { let ws = vec!["目次", "もくじ", "content", "menu"]; assert(ws@ =~= seq!["目次", "もくじ", "content", "menu"]); any_word(n, ws) };
    let f4 = { let ws = vec!["プロローグ", "prolog", "序", "開", "前", "intro"]; assert(ws@ =~= seq!["プロローグ", "prolog", "序", "開", "前", "intro"]); any_word(n, ws) };
    let f6 = contains_numerals(chapter_name) || { let ws = vec!["章", "第", "話", "巻", "本編"]; assert(ws@ =~= seq!["章", "第", "話", "巻", "本編"]); any_word(n, ws) };
    let f7 = { let ws = vec!["幕間", "閑話", "番外", "間章", "間頁", "interlude", "intermission"]; assert(ws@ =~= seq!["幕間", "閑話", "番外", "間章", "間頁", "interlude", "intermission"]); any_word(n, ws) };
    let f8 = { let ws = vec!["エピローグ", "epilog", "終章", "閉", "終", "outro"]; assert(ws@ =~= seq!["エピローグ", "epilog", "終章", "閉", "終", "outro"]); any_word(n, ws) };
    let f9 = { let ws = vec!["外伝", "番外編", "短編", "おまけ", "書き下ろし", "ss"]; assert(ws@ =~= seq!["外伝", "番外編", "短編", "おまけ", "書き下ろし", "ss"]); any_word(n, ws) };
    let f10 = { let ws = vec!["あとがき", "後書", "解説"]; assert(ws@ =~= seq!["あとがき", "後書", "解説"]); any_word(n, ws) };
    let f11 = { let ws = vec!["付録", "収録", "特典", "おまけ", "イラスト"]; assert(ws@ =~= seq!["付録", "収録", "特典", "おまけ", "イラスト"]); any_word(n, ws) };
    let f12 = { let ws = vec!["奥付"]; assert(ws@ =~= seq!["奥付"]); any_word(n, ws) };
    [f0, f1, false, f3, f4, false, f6, f7, f8, f9, f10, f11, f12]
}

} // verus!

verus! {

/// `s` is all ASCII digits, and not empty.
pub open spec fn all_digits(s: Seq<char>) -> bool {
    s.len() > 0 && forall|i: int| 0 <= i < s.len() ==> '0' <= #[trigger] s[i] <= '9'
}

/// The number that the ASCII digits `s` spell.
pub open spec fn digits_value(s: Seq<char>) -> nat
    decreases s.len(),
{
    if s.len() == 0 {
        0
    } else {
        digits_value(s.drop_last()) * 10 + (s.last() as u32 - 48) as nat
    }
}

/// The number that `s` spells as `usize::from_str` reads it: an optional
/// `+` and one or more digits.
pub open spec fn count_value(s: Seq<char>) -> Option<nat> {
    let d = if s.len() > 0 && s[0] == '+' { s.subrange(1, s.len() as int) } else { s };
    if all_digits(d) {
        Some(digits_value(d))
    } else {
        None
    }
}

/// Reads a volume count.
/// The number that leading digits spell is no more than the whole's.
proof fn lemma_digits_prefix(d: Seq<char>, i: int)
    requires
        0 <= i <= d.len(),
        forall|k: int| 0 <= k < d.len() ==> '0' <= #[trigger] d[k] <= '9',
    ensures
        digits_value(d.subrange(0, i)) <= digits_value(d),
    decreases d.len() - i,
{
    if i < d.len() {
        lemma_digits_prefix(d, i + 1);
        let p = d.subrange(0, i + 1);
        assert(p.drop_last() =~= d.subrange(0, i));
        let x = digits_value(d.subrange(0, i));
        let y = (p.last() as u32 - 48) as nat;
        assert(x <= x * 10 + y) by (nonlinear_arith);
    } else {
        assert(d.subrange(0, i) =~= d);
    }
}

fn parse_count(s: &Vec<char>) -> (r: Option<usize>)
    ensures
        r matches Some(n) ==> count_value(s@) == Some(n as nat),
        count_value(s@) matches Some(v) ==> (v <= usize::MAX <==> r is Some),
{
    let start: usize = if s.len() > 0 && s[0] == '+' { 1 } else { 0 };
    let ghost d = if s@.len() > 0 && s@[0] == '+' { s@.subrange(1, s@.len() as int) } else { s@ };
    assert(d =~= s@.subrange(start as int, s@.len() as int));
    if start >= s.len() {
        return None;
    }
    let mut v: usize = 0;
    let mut i: usize = start;
    while i < s.len()
        invariant
            start <= i <= s@.len(),
            d == s@.subrange(start as int, s@.len() as int),
            d == (if s@.len() > 0 && s@[0] == '+' { s@.subrange(1, s@.len() as int) } else { s@ }),
            forall|k: int| start <= k < i ==> '0' <= #[trigger] s@[k] <= '9',
            v == digits_value(s@.subrange(start as int, i as int)),
        decreases s.len() - i,
    {
        let c = s[i];
        if !('0' <= c && c <= '9') {
            assert(d[i - start] == c);
            assert(!all_digits(d));
            return None;
        }
        assert(s@.subrange(start as int, i + 1).drop_last() =~= s@.subrange(start as int, i as int));
        let digit = (c as u32 - 48) as usize;
        let next = match v.checked_mul(10) {
            Some(x) => x.checked_add(digit),
            None => None,
        };
        match next {
            Some(x) => v = x,
            None => {
                proof {
                    if all_digits(d) {
                        let pre = s@.subrange(start as int, i + 1);
                        assert(d.subrange(0, i + 1 - start) =~= pre);
                        lemma_digits_prefix(d, i + 1 - start);
                        assert(pre.drop_last() =~= s@.subrange(start as int, i as int));
                        assert(digits_value(pre) == v * 10 + digit);
                        assert(v * 10 + digit > usize::MAX);
                        assert(digits_value(d) > usize::MAX);
                    }
                }
                return None;
            },
        }
        i += 1;
    }
    assert(d =~= s@.subrange(start as int, i as int));
    Some(v)
}

/// The number of volumes in an omnibus title (`合本版` or `セット`), read
/// between `全` and `巻`; 1 for any other title.
pub fn n_books(title: &str) -> (r: Result<usize, Error>)
    ensures
        !(contains_seq(title@, "合本版"@) || contains_seq(title@, "セット"@)) ==> r == Ok::<usize, Error>(1),
        r matches Err(e) ==> e == Error::VolumeCount,
        (contains_seq(title@, "合本版"@) || contains_seq(title@, "セット"@)) ==> (r is Ok <==> exists|a: int, b: int|
            first_occ(title@, "全"@, 0) == Some(a) && first_occ(title@, "巻"@, a + 1) == Some(b)
                && (count_value(title@.subrange(a + 1, b).map_values(|c: char| zenkaku_folded(c))) matches Some(v)
                && v <= usize::MAX)),
        (contains_seq(title@, "合本版"@) || contains_seq(title@, "セット"@)) ==> (r matches Ok(n)
            ==> exists|a: int, b: int|
            first_occ(title@, "全"@, 0) == Some(a) && first_occ(title@, "巻"@, a + 1) == Some(b)
                && count_value(title@.subrange(a + 1, b).map_values(|c: char| zenkaku_folded(c)))
                == Some(n as nat)),
{
    let cs = chars_of(title);
    let omnibus = {
        let ws = vec!["合本版", "セット"];
        assert(ws@ =~= seq!["合本版", "セット"]);
        let r = contains_any_of(title, ws.as_slice());
        proof {
            if r {
                let k = choose|k: int| 0 <= k < ws@.len() && contains_seq(title@, (#[trigger] ws@[k])@);
                assert(k == 0 || k == 1);
            } else {
                assert(!contains_seq(title@, ws@[0]@));
                assert(!contains_seq(title@, ws@[1]@));
            }
        }
        r
    };
    if !omnibus {
        return Ok(1);
    }
    let zen = chars_of("全");
    let kan = chars_of("巻");
    let a = match first_occ_exec(&cs, &zen, 0) {
        Some(a) => a,
        None => return Err(Error::VolumeCount),
    };
    proof {
        lemma_first_occ(cs@, zen@, 0);
    }
    if a >= cs.len() {
        return Err(Error::VolumeCount);
    }
    let b = match first_occ_exec(&cs, &kan, a + 1) {
        Some(b) => b,
        None => return Err(Error::VolumeCount),
    };
    proof {
        lemma_first_occ(cs@, kan@, a + 1);
    }
    let mut folded: Vec<char> = Vec::new();
    let mut i: usize = a + 1;
    while i < b
        invariant
            a + 1 <= i <= b <= cs@.len(),
            folded@ == cs@.subrange(a + 1, i as int).map_values(|c: char| zenkaku_folded(c)),
        decreases b - i,
    {
        folded.push(convert_zenkaku(cs[i]));
        i += 1;
        assert(folded@ =~= cs@.subrange(a + 1, i as int).map_values(|c: char| zenkaku_folded(c)));
    }
    match parse_count(&folded) {
        Some(n) => Ok(n),
        None => Err(Error::VolumeCount),
    }
}

} // verus!
