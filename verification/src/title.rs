//! Deriving a note's display title from its free-text content.
//!
//! The title is the first line of the content, without its heading markers
//! and without the whitespace around it; a note whose first line leaves
//! nothing gets a fixed placeholder. The derivation reads one note at a time
//! and nothing else, so it may be applied to the rows of a table in any order.

use vstd::prelude::*;
use vstd::std_specs::iter::IteratorSpec;

verus! {

/// The title given to a note whose content yields none of its own.
pub const PLACEHOLDER_TITLE: &'static str = "Untitled Note";

/// The placeholder title as a sequence of characters.
pub open spec fn placeholder_title() -> Seq<char> {
    "Untitled Note"@
}

/// Whether `c` is a whitespace character: one of the code points that carry
/// the Unicode property `White_Space`.
pub open spec fn is_whitespace(c: char) -> bool {
    let u = c as u32;
    ||| 0x09 <= u <= 0x0D
    ||| u == 0x20
    ||| u == 0x85
    ||| u == 0xA0
    ||| u == 0x1680
    ||| 0x2000 <= u <= 0x200A
    ||| u == 0x2028
    ||| u == 0x2029
    ||| u == 0x202F
    ||| u == 0x205F
    ||| u == 0x3000
}

/// Whether `n` is the place of the first line feed in `content`.
pub open spec fn is_first_line_feed(content: Seq<char>, n: int) -> bool {
    &&& 0 <= n < content.len()
    &&& content[n] == '\n'
    &&& forall|i: int| 0 <= i < n ==> content[i] != '\n'
}

/// The characters of `content` before its first line feed; all of `content`
/// where it holds no line feed.
pub open spec fn first_line(content: Seq<char>) -> Seq<char> {
    if exists|n: int| is_first_line_feed(content, n) {
        content.take(choose|n: int| is_first_line_feed(content, n))
    } else {
        content
    }
}

/// Whether `c` is kept when heading markers are stripped.
pub open spec fn is_not_marker(c: char) -> bool {
    c != '#'
}

/// A line that begins with `#` loses every `#` it holds, not only those at
/// its start; any other line stays as it is.
pub open spec fn strip_heading_markers(line: Seq<char>) -> Seq<char> {
    if line.len() > 0 && line[0] == '#' {
        line.filter(|c: char| is_not_marker(c))
    } else {
        line
    }
}

/// `s` without the whitespace at its start.
pub open spec fn trim_start(s: Seq<char>) -> Seq<char>
    decreases s.len(),
{
    if s.len() > 0 && is_whitespace(s.first()) {
        trim_start(s.drop_first())
    } else {
        s
    }
}

/// `s` without the whitespace at its end.
pub open spec fn trim_end(s: Seq<char>) -> Seq<char>
    decreases s.len(),
{
    if s.len() > 0 && is_whitespace(s.last()) {
        trim_end(s.drop_last())
    } else {
        s
    }
}

/// `s` without the whitespace at either end.
pub open spec fn trim(s: Seq<char>) -> Seq<char> {
    trim_end(trim_start(s))
}

/// What the first line of `content` leaves once its heading markers and the
/// whitespace around it are gone. It may be empty.
pub open spec fn candidate_title(content: Seq<char>) -> Seq<char> {
    trim(strip_heading_markers(first_line(content)))
}

/// The title of a note with the given content: its candidate title, or the
/// placeholder where the candidate is empty.
pub open spec fn title_of(content: Seq<char>) -> Seq<char> {
    let candidate = candidate_title(content);
    if candidate.len() == 0 {
        placeholder_title()
    } else {
        candidate
    }
}

/// Appends `c` to `s` by `String::push`, which adds the character at the end
/// and leaves the characters before it as they were.
#[verifier::external_body]
fn push_char(s: &mut String, c: char)
    ensures
        final(s)@ == old(s)@.push(c),
{
    s.push(c);
}

/// Tells whether `c` is a whitespace character.
pub fn is_whitespace_char(c: char) -> (b: bool)
    ensures
        b == is_whitespace(c),
{
    let u: u32 = c as u32;
    (0x09 <= u && u <= 0x0D) || u == 0x20 || u == 0x85 || u == 0xA0 || u == 0x1680 || (0x2000 <= u
        && u <= 0x200A) || u == 0x2028 || u == 0x2029 || u == 0x202F || u == 0x205F || u == 0x3000
}

/// A place where `content` has its first line feed is the only such place.
pub proof fn lemma_first_line_feed_unique(content: Seq<char>, n: int, m: int)
    requires
        is_first_line_feed(content, n),
        is_first_line_feed(content, m),
    ensures
        n == m,
{
}

/// The first line is the longest prefix of the content that holds no line
/// feed: it is a prefix, it holds none, and what follows it, if anything,
/// is a line feed.
pub proof fn lemma_first_line(content: Seq<char>)
    ensures
        first_line(content).len() <= content.len(),
        first_line(content) == content.take(first_line(content).len() as int),
        forall|i: int| 0 <= i < first_line(content).len() ==> first_line(content)[i] != '\n',
        first_line(content).len() < content.len() ==> content[first_line(content).len() as int]
            == '\n',
{
    if exists|n: int| is_first_line_feed(content, n) {
        let n = choose|n: int| is_first_line_feed(content, n);
        assert(first_line(content) == content.take(n));
    } else {
        assert(content.take(content.len() as int) =~= content);
        assert forall|i: int| 0 <= i < content.len() implies content[i] != '\n' by {
            if content[i] == '\n' {
                lemma_line_feed_has_first(content, i);
            }
        }
    }
}

/// A content that holds a line feed holds a first one.
proof fn lemma_line_feed_has_first(content: Seq<char>, i: int)
    requires
        0 <= i < content.len(),
        content[i] == '\n',
    ensures
        exists|n: int| is_first_line_feed(content, n),
    decreases i,
{
    if forall|j: int| 0 <= j < i ==> content[j] != '\n' {
        assert(is_first_line_feed(content, i));
    } else {
        let j = choose|j: int| 0 <= j < i && content[j] == '\n';
        lemma_line_feed_has_first(content, j);
    }
}

/// Reads the first line of `content`: the characters before its first line
/// feed, or all of them where it holds none.
pub fn first_line_of(content: &str) -> (line: Vec<char>)
    ensures
        line@ == first_line(content@),
{
    broadcast use vstd::string::group_string_axioms;

    let mut it = content.chars();
    let mut line: Vec<char> = Vec::new();
    loop
        invariant_except_break
            it.remaining() == content@.skip(line@.len() as int),
        invariant
            line@.len() <= content@.len(),
            line@ == content@.take(line@.len() as int),
            forall|i: int| 0 <= i < line@.len() ==> content@[i] != '\n',
        ensures
            line@.len() < content@.len() ==> content@[line@.len() as int] == '\n',
        decreases content@.len() - line@.len(),
    {
        match it.next() {
            None => {
                break ;
            },
            Some(c) => {
                if c == '\n' {
                    break ;
                }
                line.push(c);
                assert(content@.skip(line@.len() - 1).drop_first() =~= content@.skip(
                    line@.len() as int,
                ));
                assert(line@ =~= content@.take(line@.len() as int));
            },
        }
    }
    proof {
        let n = line@.len() as int;
        if n < content@.len() {
            assert(is_first_line_feed(content@, n));
            let m = choose|m: int| is_first_line_feed(content@, m);
            lemma_first_line_feed_unique(content@, n, m);
        } else {
            assert(content@.take(n) =~= content@);
            if exists|m: int| is_first_line_feed(content@, m) {
                let m = choose|m: int| is_first_line_feed(content@, m);
                assert(content@[m] == '\n');
            }
        }
    }
    line
}

/// Strips the heading markers of a line: where it begins with `#`, every `#`
/// in it goes.
pub fn strip_markers(line: Vec<char>) -> (stripped: Vec<char>)
    ensures
        stripped@ == strip_heading_markers(line@),
{
    if line.len() == 0 || line[0] != '#' {
        return line;
    }
    let mut stripped: Vec<char> = Vec::new();
    let mut i: usize = 0;
    proof {
        reveal(Seq::filter);
        assert(line@.take(0) =~= Seq::<char>::empty());
    }
    while i < line.len()
        invariant
            i <= line.len(),
            stripped@ == line@.take(i as int).filter(|c: char| is_not_marker(c)),
        decreases line.len() - i,
    {
        let c = line[i];
        proof {
            assert(line@.take(i + 1) =~= line@.take(i as int).push(c));
            line@.take(i as int).lemma_filter_push(c, |c: char| is_not_marker(c));
        }
        if c != '#' {
            stripped.push(c);
        }
        i += 1;
    }
    proof {
        assert(line@.take(i as int) =~= line@);
    }
    stripped
}

/// Finds where the trimmed part of `s` begins and ends.
pub fn trim_bounds(s: &Vec<char>) -> (bounds: (usize, usize))
    ensures
        bounds.0 <= bounds.1 <= s@.len(),
        s@.subrange(bounds.0 as int, bounds.1 as int) == trim(s@),
{
    let n = s.len();
    let mut start: usize = 0;
    proof {
        assert(s@.skip(0) =~= s@);
    }
    while start < n && is_whitespace_char(s[start])
        invariant
            n == s@.len(),
            start <= n,
            trim_start(s@) == trim_start(s@.skip(start as int)),
        decreases n - start,
    {
        proof {
            assert(s@.skip(start as int).drop_first() =~= s@.skip(start + 1));
        }
        start += 1;
    }
    let ghost rest = s@.skip(start as int);
    assert(trim_start(s@) == rest);
    let mut end: usize = n;
    proof {
        assert(s@.subrange(start as int, n as int) =~= rest);
    }
    while end > start && is_whitespace_char(s[end - 1])
        invariant
            n == s@.len(),
            start <= end <= n,
            trim_end(rest) == trim_end(s@.subrange(start as int, end as int)),
        decreases end - start,
    {
        proof {
            assert(s@.subrange(start as int, end as int).drop_last() =~= s@.subrange(
                start as int,
                end - 1,
            ));
        }
        end -= 1;
    }
    (start, end)
}

/// Trimming leaves a part of the sequence that neither begins nor ends with
/// whitespace, and takes away nothing but whitespace.
pub proof fn lemma_trim(s: Seq<char>)
    ensures
        exists|a: int, b: int|
            {
                &&& 0 <= a <= b <= s.len()
                &&& #[trigger] s.subrange(a, b) == trim(s)
                &&& forall|i: int| 0 <= i < a ==> is_whitespace(s[i])
                &&& forall|i: int| b <= i < s.len() ==> is_whitespace(s[i])
            },
        trim(s).len() > 0 ==> !is_whitespace(trim(s).first()) && !is_whitespace(trim(s).last()),
{
    lemma_trim_start(s);
    let t = trim_start(s);
    let a = s.len() - t.len();
    lemma_trim_end(t);
    let u = trim_end(t);
    let b = a + u.len();
    assert(s.subrange(a, b) =~= u);
    assert forall|i: int| b <= i < s.len() implies is_whitespace(s[i]) by {
        assert(s[i] == t[i - a]);
    }
    if u.len() > 0 {
        assert(u.first() == t.first());
    }
}

/// What `trim_start` leaves is the end of the sequence, preceded by
/// whitespace only, and does not begin with whitespace.
pub proof fn lemma_trim_start(s: Seq<char>)
    ensures
        trim_start(s).len() <= s.len(),
        trim_start(s) == s.skip(s.len() - trim_start(s).len()),
        forall|i: int| 0 <= i < s.len() - trim_start(s).len() ==> is_whitespace(s[i]),
        trim_start(s).len() > 0 ==> !is_whitespace(trim_start(s).first()),
    decreases s.len(),
{
    if s.len() > 0 && is_whitespace(s.first()) {
        let r = s.drop_first();
        lemma_trim_start(r);
        let k = r.len() - trim_start(r).len();
        assert(r.skip(k) =~= s.skip(k + 1));
        assert forall|i: int| 0 <= i < s.len() - trim_start(s).len() implies is_whitespace(
            s[i],
        ) by {
            if i > 0 {
                assert(s[i] == r[i - 1]);
            }
        }
    } else {
        assert(s.skip(0) =~= s);
    }
}

/// What `trim_end` leaves is the start of the sequence, followed by
/// whitespace only, and does not end with whitespace.
pub proof fn lemma_trim_end(s: Seq<char>)
    ensures
        trim_end(s).len() <= s.len(),
        trim_end(s) == s.take(trim_end(s).len() as int),
        forall|i: int| trim_end(s).len() <= i < s.len() ==> is_whitespace(s[i]),
        trim_end(s).len() > 0 ==> !is_whitespace(trim_end(s).last()),
    decreases s.len(),
{
    if s.len() > 0 && is_whitespace(s.last()) {
        let r = s.drop_last();
        lemma_trim_end(r);
        assert(r.take(trim_end(r).len() as int) =~= s.take(trim_end(r).len() as int));
        assert forall|i: int| trim_end(s).len() <= i < s.len() implies is_whitespace(s[i]) by {
            if i < r.len() {
                assert(s[i] == r[i]);
            }
        }
    } else {
        assert(s.take(s.len() as int) =~= s);
    }
}

/// A title is never empty.
pub proof fn lemma_title_not_empty(content: Seq<char>)
    ensures
        title_of(content).len() > 0,
{
    reveal_strlit("Untitled Note");
}

/// A title holds no line feed, and neither begins nor ends with whitespace.
pub proof fn lemma_title_is_one_line(content: Seq<char>)
    ensures
        forall|i: int| 0 <= i < title_of(content).len() ==> title_of(content)[i] != '\n',
        !is_whitespace(title_of(content).first()),
        !is_whitespace(title_of(content).last()),
{
    reveal_strlit("Untitled Note");
    let line = first_line(content);
    let stripped = strip_heading_markers(line);
    let candidate = trim(stripped);
    lemma_first_line(content);
    assert forall|i: int| 0 <= i < stripped.len() implies stripped[i] != '\n' by {
        if stripped != line {
            line.lemma_filter_contains_rev(|c: char| is_not_marker(c), stripped[i]);
        }
    }
    lemma_trim(stripped);
    if candidate.len() > 0 {
        let (a, b) = choose|a: int, b: int|
            {
                &&& 0 <= a <= b <= stripped.len()
                &&& #[trigger] stripped.subrange(a, b) == trim(stripped)
                &&& forall|i: int| 0 <= i < a ==> is_whitespace(stripped[i])
                &&& forall|i: int| b <= i < stripped.len() ==> is_whitespace(stripped[i])
            };
        assert forall|i: int| 0 <= i < candidate.len() implies candidate[i] != '\n' by {
            assert(candidate[i] == stripped[a + i]);
        }
    }
}

/// Derives the candidate title of a note from its content: what its first
/// line leaves, or nothing where that is empty.
pub fn title_candidate(content: &str) -> (candidate: Option<String>)
    ensures
        match candidate {
            Some(title) => title@ == candidate_title(content@) && title@.len() > 0,
            None => candidate_title(content@).len() == 0,
        },
{
    let line = first_line_of(content);
    let stripped = strip_markers(line);
    let (start, end) = trim_bounds(&stripped);
    if start == end {
        return None;
    }
    let mut title = String::new();
    let mut i: usize = start;
    while i < end
        invariant
            start <= i <= end <= stripped@.len(),
            title@ == stripped@.subrange(start as int, i as int),
        decreases end - i,
    {
        push_char(&mut title, stripped[i]);
        proof {
            assert(stripped@.subrange(start as int, i + 1) =~= stripped@.subrange(
                start as int,
                i as int,
            ).push(stripped@[i as int]));
        }
        i += 1;
    }
    Some(title)
}

/// Derives the title of a note from its content. A content that yields no
/// title of its own is no error: the note gets the placeholder.
pub fn derive_title(content: &str) -> (title: String)
    ensures
        title@ == title_of(content@),
        title@.len() > 0,
{
    proof {
        lemma_title_not_empty(content@);
    }
    match title_candidate(content) {
        Some(title) => title,
        None => PLACEHOLDER_TITLE.to_owned(),
    }
}

} // verus!
