use vstd::prelude::*;
use vstd::string::StringSliceAdditionalSpecFns;

use crate::doc::name_is;
use crate::epub::{bytes_of, Epub};
use crate::error::Error;

verus! {

/// The narrative role of a chapter, in the order a book presents them.
#[derive(Debug, Clone, Copy, PartialEq, Eq, Structural)]
pub enum Role {
    /// Cover picture.
    Cover,
    /// Character explanations, maps, drawings and the like.
    BeforeExtra,
    Foreword,
    /// Table of contents.
    Contents,
    Prologue,
    /// Part title page, section break.
    PartTitle,
    /// Main chapters.
    Main,
    /// A short in-between chapter.
    Interlude,
    Epilogue,
    /// Bonus content, short stories and the like.
    BonusChapter,
    /// Afterword, the author's thanks.
    Afterword,
    /// Additional drawings, announcements, advertisements.
    AfterExtra,
    /// Copyright and publisher information.
    Copyright,
}

/// The role's position in the declaration (and in the persisted files).
pub open spec fn role_index(r: Role) -> int {
    match r {
        Role::Cover => 0,
        Role::BeforeExtra => 1,
        Role::Foreword => 2,
        Role::Contents => 3,
        Role::Prologue => 4,
        Role::PartTitle => 5,
        Role::Main => 6,
        Role::Interlude => 7,
        Role::Epilogue => 8,
        Role::BonusChapter => 9,
        Role::Afterword => 10,
        Role::AfterExtra => 11,
        Role::Copyright => 12,
    }
}

/// The role's name in the persisted chapter files.
pub open spec fn role_name(r: Role) -> &'static str {
    match r {
        Role::Cover => "cover",
        Role::BeforeExtra => "before_extra",
        Role::Foreword => "foreword",
        Role::Contents => "contents",
        Role::Prologue => "prologue",
        Role::PartTitle => "part_title",
        Role::Main => "main",
        Role::Interlude => "interlude",
        Role::Epilogue => "epilogue",
        Role::BonusChapter => "bonus_chapter",
        Role::Afterword => "afterword",
        Role::AfterExtra => "after_extra",
        Role::Copyright => "copyright",
    }
}

/// The narrative order: Cover < BeforeExtra = Foreword = Contents < Prologue
/// < PartTitle < Main < Interlude < Epilogue < BonusChapter < Afterword =
/// AfterExtra < Copyright.
pub open spec fn order_rank(r: Role) -> int {
    match r {
        Role::Cover => 0,
        Role::BeforeExtra | Role::Foreword | Role::Contents => 1,
        Role::Prologue => 2,
        Role::PartTitle => 3,
        Role::Main => 4,
        Role::Interlude => 5,
        Role::Epilogue => 6,
        Role::BonusChapter => 7,
        Role::Afterword | Role::AfterExtra => 8,
        Role::Copyright => 9,
    }
}

/// The body of a book: part titles, main chapters and interludes.
pub open spec fn is_body_part(r: Role) -> bool {
    r == Role::PartTitle || r == Role::Main || r == Role::Interlude
}

/// `b` may follow `a`: the narrative order does not go back, except that the
/// parts of the body may alternate (a part title after a chapter, a chapter
/// after an interlude).
pub open spec fn may_follow(a: Role, b: Role) -> bool {
    order_rank(a) <= order_rank(b) || (is_body_part(a) && is_body_part(b))
}

/// No two adjacent roles of `roles` go back in the narrative order.
pub open spec fn in_narrative_order(roles: Seq<Role>) -> bool {
    forall|i: int| 0 <= i < roles.len() - 1 ==> may_follow(#[trigger] roles[i], roles[i + 1])
}

/// Front and back matter, which the text output leaves out.
pub open spec fn skipped(r: Role) -> bool {
    !(r == Role::Prologue || r == Role::Main || r == Role::Interlude || r == Role::Epilogue || r
        == Role::BonusChapter)
}

impl Role {
    /// The role named `s` in a persisted chapter file.
    pub fn from_str(s: &str) -> (r: Result<Role, Error>)
        ensures
            r matches Ok(x) ==> s.spec_bytes() == role_name(x).spec_bytes(),
            r is Err ==> r == Err::<Role, Error>(Error::InvalidRole) && forall|x: Role|
                s.spec_bytes() != #[trigger] role_name(x).spec_bytes(),
    {
        let b = s.as_bytes();
        if name_is(b, "cover") {
            Ok(Role::Cover)
        } else if name_is(b, "before_extra") {
            Ok(Role::BeforeExtra)
        } else if name_is(b, "foreword") {
            Ok(Role::Foreword)
        } else if name_is(b, "contents") {
            Ok(Role::Contents)
        } else if name_is(b, "prologue") {
            Ok(Role::Prologue)
        } else if name_is(b, "part_title") {
            Ok(Role::PartTitle)
        } else if name_is(b, "main") {
            Ok(Role::Main)
        } else if name_is(b, "interlude") {
            Ok(Role::Interlude)
        } else if name_is(b, "epilogue") {
            Ok(Role::Epilogue)
        } else if name_is(b, "bonus_chapter") {
            Ok(Role::BonusChapter)
        } else if name_is(b, "afterword") {
            Ok(Role::Afterword)
        } else if name_is(b, "after_extra") {
            Ok(Role::AfterExtra)
        } else if name_is(b, "copyright") {
            Ok(Role::Copyright)
        } else {
            Err(Error::InvalidRole)
        }
    }

    /// The role at position `n` of the declaration.
    pub fn from_num(n: usize) -> (r: Result<Role, Error>)
        ensures
            n < 13 ==> (r matches Ok(x) && role_index(x) == n),
            n >= 13 ==> r == Err::<Role, Error>(Error::InvalidRole),
    {
        match n {
            0 => Ok(Role::Cover),
            1 => Ok(Role::BeforeExtra),
            2 => Ok(Role::Foreword),
            3 => Ok(Role::Contents),
            4 => Ok(Role::Prologue),
            5 => Ok(Role::PartTitle),
            6 => Ok(Role::Main),
            7 => Ok(Role::Interlude),
            8 => Ok(Role::Epilogue),
            9 => Ok(Role::BonusChapter),
            10 => Ok(Role::Afterword),
            11 => Ok(Role::AfterExtra),
            12 => Ok(Role::Copyright),
            _ => Err(Error::InvalidRole),
        }
    }

    /// The role's name in the persisted chapter files.
    pub fn name(&self) -> (r: &'static str)
        ensures
            r == role_name(*self),
    {
        match self {
            Role::Cover => "cover",
            Role::BeforeExtra => "before_extra",
            Role::Foreword => "foreword",
            Role::Contents => "contents",
            Role::Prologue => "prologue",
            Role::PartTitle => "part_title",
            Role::Main => "main",
            Role::Interlude => "interlude",
            Role::Epilogue => "epilogue",
            Role::BonusChapter => "bonus_chapter",
            Role::Afterword => "afterword",
            Role::AfterExtra => "after_extra",
            Role::Copyright => "copyright",
        }
    }
}

/// Whether chapters of this role are front or back matter, left out of the
/// text.
pub fn is_skip(role: Role) -> (r: bool)
    ensures
        r == skipped(role),
{
    match role {
        Role::Cover | Role::BeforeExtra | Role::Foreword | Role::Contents | Role::PartTitle
        | Role::Afterword | Role::AfterExtra | Role::Copyright => true,
        Role::Prologue | Role::Main | Role::Interlude | Role::Epilogue | Role::BonusChapter => false,
    }
}

/// Whether `b` may follow `a` in a book.
pub fn follows_in_order(a: Role, b: Role) -> (r: bool)
    ensures
        r == may_follow(a, b),
{
    let ra = rank(a);
    let rb = rank(b);
    let body_a = a == Role::PartTitle || a == Role::Main || a == Role::Interlude;
    let body_b = b == Role::PartTitle || b == Role::Main || b == Role::Interlude;
    ra <= rb || (body_a && body_b)
}

fn rank(r: Role) -> (n: u8)
    ensures
        n == order_rank(r),
{
    match r {
        Role::Cover => 0,
        Role::BeforeExtra | Role::Foreword | Role::Contents => 1,
        Role::Prologue => 2,
        Role::PartTitle => 3,
        Role::Main => 4,
        Role::Interlude => 5,
        Role::Epilogue => 6,
        Role::BonusChapter => 7,
        Role::Afterword | Role::AfterExtra => 8,
        Role::Copyright => 9,
    }
}

/// The guard on inferred roles: the index of the first chapter whose role
/// goes back in the narrative order from the one before, if any.
pub fn assumed_order(roles: &[Role]) -> (r: Option<usize>)
    ensures
        r is None <==> in_narrative_order(roles@),
        r matches Some(i) ==> 0 < i < roles@.len() && !may_follow(roles@[i - 1], roles@[i as int])
            && in_narrative_order(roles@.subrange(0, i as int)),
{
    let mut i: usize = 1;
    while i < roles.len()
        invariant
            1 <= i,
            forall|k: int| 0 <= k < i - 1 && k < roles@.len() - 1 ==> may_follow(
                #[trigger] roles@[k],
                roles@[k + 1],
            ),
        decreases roles.len() - i,
    {
        if !follows_in_order(roles[i - 1], roles[i]) {
            assert forall|k: int| 0 <= k < i - 1 implies may_follow(
                #[trigger] roles@.subrange(0, i as int)[k],
                roles@.subrange(0, i as int)[k + 1],
            ) by {
                assert(roles@.subrange(0, i as int)[k] == roles@[k]);
                assert(roles@.subrange(0, i as int)[k + 1] == roles@[k + 1]);
            }
            return Some(i);
        }
        i += 1;
    }
    None
}

} // verus!

verus! {

/// A chapter of a book: the table-of-contents entry that starts it, the
/// spine documents `start..end` it spans, its role, and whether the text
/// output leaves it out.
#[derive(Debug)]
pub struct Chapter {
    pub book_name: String,
    pub chap_name: String,
    pub start: usize,
    pub end: usize,
    pub files: Vec<String>,
    pub role: Role,
    pub skip: bool,
}

/// `i` is the spine index of the table-of-contents target `href` of the
/// entry named `name`: the last spine document with that href. A cover page
/// (`表紙`) that no spine document has is taken to be the first.
pub open spec fn spine_index_of(epub: &Epub, href: Seq<u8>, name: Seq<u8>, i: int) -> bool {
    if exists|j: int| 0 <= j < epub.body@.len() && bytes_of(#[trigger] epub.body@[j].0) == href {
        0 <= i < epub.body@.len() && bytes_of(epub.body@[i].0) == href && forall|j: int|
            i < j < epub.body@.len() ==> bytes_of(#[trigger] epub.body@[j].0) != href
    } else {
        name == "表紙".spec_bytes() && i == 0
    }
}

/// The spine index of the table-of-contents target `toc_href` of the entry
/// named `name`; tolerates the cover page's absence from the spine.
pub fn get_spine_idx(epub: &Epub, toc_href: &str, name: &str) -> (r: Result<usize, Error>)
    ensures
        r matches Ok(i) ==> spine_index_of(epub, toc_href.spec_bytes(), name.spec_bytes(), i as int),
        r is Err ==> r == Err::<usize, Error>(Error::UnknownHref) && forall|i: int|
            !spine_index_of(epub, toc_href.spec_bytes(), name.spec_bytes(), i),
{
    match epub.spine_idx(toc_href) {
        Some(i) => Ok(i),
        None => if name_is(name.as_bytes(), "表紙") {
            Ok(0)
        } else {
            Err(Error::UnknownHref)
        },
    }
}

/// Table-of-contents entry `k` of `epub` spans a window of the spine: its
/// target has a spine index, so does the next entry's (looked up under this
/// entry's name), and the first comes no later than the second.
pub open spec fn window_ok(epub: &Epub, k: int) -> bool {
    let n = epub.toc@.len();
    let href = bytes_of(epub.toc@[k].1);
    let name = bytes_of(epub.toc@[k].0);
    &&& exists|a: int| #[trigger] spine_index_of(epub, href, name, a)
    &&& k + 1 < n ==> exists|b: int| #[trigger] spine_index_of(epub, bytes_of(epub.toc@[k + 1].1), name, b)
    &&& forall|a: int, b: int|
        #[trigger] spine_index_of(epub, href, name, a) && (if k + 1 < n {
            #[trigger] spine_index_of(epub, bytes_of(epub.toc@[k + 1].1), name, b)
        } else {
            b == epub.body@.len()
        }) ==> a <= b
}

/// Chapter `k` of `chs` is table-of-contents entry `k` of `epub`, with the
/// role `role`.
pub open spec fn is_chapter(epub: &Epub, book_name: Seq<char>, k: int, c: Chapter, role: Role) -> bool {
    let n = epub.toc@.len();
    &&& c.book_name@ == book_name
    &&& c.chap_name@ == epub.toc@[k].0@
    &&& spine_index_of(epub, bytes_of(epub.toc@[k].1), bytes_of(epub.toc@[k].0), c.start as int)
    &&& (k + 1 < n ==> spine_index_of(
        epub,
        bytes_of(epub.toc@[k + 1].1),
        bytes_of(epub.toc@[k].0),
        c.end as int,
    ))
    &&& (k + 1 == n ==> c.end == epub.body@.len())
    &&& c.start <= c.end <= epub.body@.len()
    &&& c.files@.len() == c.end - c.start
    &&& forall|j: int| 0 <= j < c.files@.len() ==> (#[trigger] c.files@[j])@ == epub.body@[c.start + j].0@
    &&& c.role == role
    &&& c.skip == skipped(role)
}

/// The chapters of `epub`, one per table-of-contents entry, each spanning
/// the spine up to the next entry's document (the last up to the end), with
/// the roles inferred for their titles. Roles that go back in the narrative
/// order are rejected.
pub fn generate(epub: &Epub, book_name: &str, roles: &[Role]) -> (r: Result<Vec<Chapter>, Error>)
    requires
        roles@.len() == epub.toc@.len(),
    ensures
        epub.toc@.len() == 0 ==> r == Err::<Vec<Chapter>, Error>(Error::NoChapters),
        !in_narrative_order(roles@) ==> r is Err,
        r matches Ok(chs) ==> chs@.len() == epub.toc@.len() && forall|k: int|
            0 <= k < chs@.len() ==> is_chapter(epub, book_name@, k, #[trigger] chs@[k], roles@[k]),
        r matches Ok(chs) ==> in_narrative_order(roles@),
        r is Err ==> epub.toc@.len() == 0 || !in_narrative_order(roles@) || exists|k: int|
            0 <= k < epub.toc@.len() && !window_ok(epub, k),
        r matches Ok(chs) ==> forall|k: int|
            0 <= k < chs@.len() - 1 ==> may_follow((#[trigger] chs@[k]).role, chs@[k + 1].role),
{
    let n = epub.toc.len();
    if n == 0 {
        return Err(Error::NoChapters);
    }
    if assumed_order(roles).is_some() {
        return Err(Error::RoleOrder);
    }
    let mut chs: Vec<Chapter> = Vec::new();
    let mut k: usize = 0;
    while k < n
        invariant
            n == epub.toc@.len(),
            roles@.len() == n,
            k <= n,
            chs@.len() == k,
            forall|j: int| 0 <= j < k ==> is_chapter(epub, book_name@, j, #[trigger] chs@[j], roles@[j]),
        decreases n - k,
    {
        let name = &epub.toc[k].0;
        let href = epub.toc[k].1.as_str();
        let nm = name.as_str();
        assert(href.spec_bytes() == bytes_of(epub.toc@[k as int].1));
        assert(nm.spec_bytes() == bytes_of(epub.toc@[k as int].0));
        let start = match get_spine_idx(epub, href, nm) {
            Ok(i) => i,
            Err(e) => {
                assert(!window_ok(epub, k as int));
                return Err(e);
            },
        };
        let end = if k + 1 < n {
            let next = epub.toc[k + 1].1.as_str();
            assert(next.spec_bytes() == bytes_of(epub.toc@[k + 1].1));
            match get_spine_idx(epub, next, nm) {
                Ok(i) => i,
                Err(e) => {
                    assert(!window_ok(epub, k as int));
                    return Err(e);
                },
            }
        } else {
            epub.body.len()
        };
        if start > end || end > epub.body.len() {
            proof {
                if start > end {
                    assert(!window_ok(epub, k as int));
                }
            }
            return Err(Error::ChapterOrder);
        }
        let mut files: Vec<String> = Vec::new();
        let mut j: usize = start;
        while j < end
            invariant
                start <= j <= end <= epub.body@.len(),
                files@.len() == j - start,
                forall|i: int| 0 <= i < files@.len() ==> (#[trigger] files@[i])@ == epub.body@[start + i].0@,
            decreases end - j,
        {
            files.push(epub.body[j].0.clone());
            j += 1;
        }
        let role = roles[k];
        let c = Chapter {
            book_name: book_name.to_owned(),
            chap_name: name.clone(),
            start,
            end,
            files,
            role,
            skip: is_skip(role),
        };
        chs.push(c);
        k += 1;
    }
    assert forall|k: int| 0 <= k < chs@.len() - 1 implies may_follow((#[trigger] chs@[k]).role, chs@[k + 1].role) by {
        assert(is_chapter(epub, book_name@, k, chs@[k], roles@[k]));
        assert(is_chapter(epub, book_name@, k + 1, chs@[k + 1], roles@[k + 1]));
        assert(may_follow(roles@[k], roles@[k + 1]));
    }
    Ok(chs)
}

} // verus!
