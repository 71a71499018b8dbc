//! The manifest: the next file number, and the tables of each level.
//!
//! It is a text in UTF-8. The first line is the number; each line behind it lists the
//! paths of one level's tables, with commas between them.
use crate::bytes;
use crate::decimal;
use vstd::prelude::*;

verus! {

/// Why a manifest cannot be read.
#[derive(Debug, Clone, Copy, PartialEq, Eq, Structural)]
pub enum ManifestError {
    Empty,
    BadNumber,
}

/// The paths with commas between them.
pub open spec fn comma_joined(paths: Seq<Seq<u8>>) -> Seq<u8>
    decreases paths.len(),
{
    if paths.len() == 0 {
        Seq::empty()
    } else if paths.len() == 1 {
        paths[0]
    } else {
        comma_joined(paths.drop_last()).push(44) + paths.last()
    }
}

/// One line for each level.
pub open spec fn level_lines(levels: Seq<Seq<Seq<u8>>>) -> Seq<u8>
    decreases levels.len(),
{
    if levels.len() == 0 {
        Seq::empty()
    } else {
        level_lines(levels.drop_last()) + comma_joined(levels.last()).push(10)
    }
}

/// A whole manifest.
pub open spec fn manifest_bytes(next_file_id: u64, levels: Seq<Seq<Seq<u8>>>) -> Seq<u8> {
    decimal::decimal(next_file_id as nat).push(10) + level_lines(levels)
}

/// Where the first `c` stands, or the length if there is none.
pub open spec fn first_of(b: Seq<u8>, c: u8) -> int
    decreases b.len(),
{
    if b.len() == 0 || b[0] == c {
        0
    } else {
        1 + first_of(b.drop_first(), c)
    }
}

/// Where the first `c` stands is where it stands.
pub proof fn lemma_first_of(b: Seq<u8>, c: u8)
    ensures
        0 <= first_of(b, c) <= b.len(),
        forall|i: int| 0 <= i < first_of(b, c) ==> #[trigger] b[i] != c,
        first_of(b, c) < b.len() ==> b[first_of(b, c)] == c,
    decreases b.len(),
{
    if b.len() > 0 && b[0] != c {
        let rest = b.drop_first();
        lemma_first_of(rest, c);
        assert forall|i: int| 0 <= i < first_of(b, c) implies #[trigger] b[i] != c by {
            if i > 0 {
                assert(rest[i - 1] == b[i]);
            }
        }
    }
}

/// The pieces between the commas.
pub open spec fn fields(b: Seq<u8>) -> Seq<Seq<u8>>
    decreases b.len(),
{
    let e = first_of(b, 44);
    if 0 <= e < b.len() {
        seq![b.take(e)] + fields(b.skip(e + 1))
    } else {
        seq![b]
    }
}

/// A line without the carriage return that may stand in front of its end.
pub open spec fn strip_cr(b: Seq<u8>) -> Seq<u8> {
    if b.len() > 0 && b.last() == 13 {
        b.drop_last()
    } else {
        b
    }
}

/// The lines of a text.
pub open spec fn lines(b: Seq<u8>) -> Seq<Seq<u8>>
    decreases b.len(),
{
    let e = first_of(b, 10);
    if b.len() == 0 {
        Seq::empty()
    } else if 0 <= e < b.len() {
        seq![strip_cr(b.take(e))] + lines(b.skip(e + 1))
    } else {
        seq![b]
    }
}

/// White space of ASCII.
pub open spec fn is_white(c: u8) -> bool {
    c == 32 || 9 <= c <= 13
}

/// White space that takes up two bytes of text.
pub open spec fn is_white_pair(a: u8, b: u8) -> bool {
    a == 0xC2 && (b == 0x85 || b == 0xA0)
}

/// White space that takes up three bytes of text.
pub open spec fn is_white_triple(a: u8, b: u8, c: u8) -> bool {
    ||| a == 0xE1 && b == 0x9A && c == 0x80
    ||| a == 0xE2 && b == 0x80 && (0x80 <= c <= 0x8A || c == 0xA8 || c == 0xA9 || c == 0xAF)
    ||| a == 0xE2 && b == 0x81 && c == 0x9F
    ||| a == 0xE3 && b == 0x80 && c == 0x80
}

/// The length of the white space character in front, or zero if there is none.
pub open spec fn white_front(b: Seq<u8>) -> int {
    if b.len() >= 1 && is_white(b[0]) {
        1
    } else if b.len() >= 2 && is_white_pair(b[0], b[1]) {
        2
    } else if b.len() >= 3 && is_white_triple(b[0], b[1], b[2]) {
        3
    } else {
        0
    }
}

/// The length of the white space character behind, or zero if there is none.
pub open spec fn white_back(b: Seq<u8>) -> int {
    let n = b.len();
    if n >= 1 && is_white(b[n - 1]) {
        1
    } else if n >= 2 && is_white_pair(b[n - 2], b[n - 1]) {
        2
    } else if n >= 3 && is_white_triple(b[n - 3], b[n - 2], b[n - 1]) {
        3
    } else {
        0
    }
}

/// A piece without white space in front.
pub open spec fn trim_front(b: Seq<u8>) -> Seq<u8>
    decreases b.len(),
{
    if white_front(b) > 0 {
        trim_front(b.skip(white_front(b)))
    } else {
        b
    }
}

/// A piece without white space behind.
pub open spec fn trim_back(b: Seq<u8>) -> Seq<u8>
    decreases b.len(),
{
    if white_back(b) > 0 {
        trim_back(b.take(b.len() - white_back(b)))
    } else {
        b
    }
}

/// The trimmed pieces that are not empty.
pub open spec fn paths_in(pieces: Seq<Seq<u8>>) -> Seq<Seq<u8>>
    decreases pieces.len(),
{
    if pieces.len() == 0 {
        Seq::empty()
    } else {
        let p = trim_back(trim_front(pieces[0]));
        if p.len() > 0 {
            seq![p] + paths_in(pieces.drop_first())
        } else {
            paths_in(pieces.drop_first())
        }
    }
}

/// The levels that the lines list, and empty ones up to seven.
pub open spec fn levels_in(ls: Seq<Seq<u8>>) -> Seq<Seq<Seq<u8>>> {
    Seq::new(
        (if ls.len() < 7 {
            7
        } else {
            ls.len()
        }),
        |i: int|
            if i < ls.len() {
                paths_in(fields(ls[i]))
            } else {
                Seq::empty()
            },
    )
}

/// What a manifest says.
pub open spec fn parse_manifest(b: Seq<u8>) -> Result<(u64, Seq<Seq<Seq<u8>>>), ManifestError> {
    let ls = lines(b);
    if ls.len() == 0 {
        Err(ManifestError::Empty)
    } else {
        match decimal::parsed_index(ls[0]) {
            Some(n) => Ok((n, levels_in(ls.drop_first()))),
            None => Err(ManifestError::BadNumber),
        }
    }
}

/// The levels of a manifest as mathematical values.
pub open spec fn level_views(levels: Seq<Vec<Vec<u8>>>) -> Seq<Seq<Seq<u8>>> {
    levels.map_values(|l: Vec<Vec<u8>>| bytes::views(l@))
}

/// The bytes of a manifest.
pub fn write_manifest(next_file_id: u64, levels: &[Vec<Vec<u8>>]) -> (r: Vec<u8>)
    ensures
        r@ == manifest_bytes(next_file_id, level_views(levels@)),
{
    let ghost all = level_views(levels@);
    let mut out: Vec<u8> = Vec::new();
    decimal::push_decimal(&mut out, next_file_id);
    out.push(10);
    let ghost head = decimal::decimal(next_file_id as nat).push(10);
    assert(out@ =~= head + level_lines(all.take(0)));
    let mut i: usize = 0;
    while i < levels.len()
        invariant
            i <= levels@.len(),
            all == level_views(levels@),
            out@ == head + level_lines(all.take(i as int)),
        decreases levels@.len() - i,
    {
        let ghost before = out@;
        let level = &levels[i];
        let ghost paths = bytes::views(level@);
        assert(before =~= before + comma_joined(paths.take(0)));
        let mut j: usize = 0;
        while j < level.len()
            invariant
                j <= level@.len(),
                paths == bytes::views(level@),
                out@ == before + comma_joined(paths.take(j as int)),
            decreases level@.len() - j,
        {
            if j > 0 {
                out.push(44);
            }
            bytes::append_bytes(&mut out, level[j].as_slice());
            proof {
                let now = paths.take(j + 1);
                assert(now.drop_last() =~= paths.take(j as int));
                assert(now.last() == level@[j as int]@);
                assert(out@ =~= before + comma_joined(now));
            }
            j = j + 1;
        }
        out.push(10);
        proof {
            assert(paths.take(j as int) =~= paths);
            assert(all.take(i + 1).drop_last() =~= all.take(i as int));
            assert(all.take(i + 1).last() == paths);
            assert(out@ =~= head + level_lines(all.take(i + 1)));
        }
        i = i + 1;
    }
    assert(all.take(i as int) =~= all);
    out
}

fn find_byte(b: &[u8], c: u8) -> (r: usize)
    ensures
        r == first_of(b@, c),
        r <= b@.len(),
{
    let mut i: usize = 0;
    while i < b.len() && b[i] != c
        invariant
            i <= b@.len(),
            forall|j: int| 0 <= j < i ==> b@[j] != c,
        decreases b@.len() - i,
    {
        i = i + 1;
    }
    proof {
        lemma_first_of(b@, c);
        let f = first_of(b@, c);
        if f < i {
            assert(b@[f] != c);
        }
        if i < f {
            assert(b@[i as int] != c);
        }
    }
    i
}

fn split_lines(b: &[u8]) -> (r: Vec<Vec<u8>>)
    ensures
        bytes::views(r@) == lines(b@),
{
    let mut out: Vec<Vec<u8>> = Vec::new();
    let mut at: usize = 0;
    assert(b@.skip(0) =~= b@);
    assert(bytes::views(out@) + lines(b@.skip(0)) =~= lines(b@));
    while at < b.len()
        invariant
            at <= b@.len(),
            lines(b@) == bytes::views(out@) + lines(b@.skip(at as int)),
        decreases b@.len() - at,
    {
        let rest = vstd::slice::slice_subrange(b, at, b.len());
        assert(rest@ =~= b@.skip(at as int));
        let e: usize = find_byte(rest, 10);
        let ghost before = bytes::views(out@);
        if e < rest.len() {
            let stripped: usize = if e > 0 && rest[e - 1] == 13 {
                e - 1
            } else {
                e
            };
            let line = bytes::copy_range(rest, 0, stripped);
            let ghost view = line@;
            out.push(line);
            proof {
                assert(view =~= strip_cr(rest@.take(e as int)));
                assert(bytes::views(out@) =~= before.push(view));
                assert(rest@.skip(e + 1) =~= b@.skip(at + e + 1));
                assert(before + (seq![view] + lines(rest@.skip(e + 1))) =~= before.push(view)
                    + lines(b@.skip(at + e + 1)));
            }
            at = at + e + 1;
        } else {
            let line = bytes::copy_bytes(rest);
            let ghost view = line@;
            out.push(line);
            proof {
                assert(bytes::views(out@) =~= before.push(view));
                assert(b@.skip(b@.len() as int) =~= Seq::empty());
                assert(before + seq![view] =~= before.push(view) + lines(
                    b@.skip(b@.len() as int),
                ));
            }
            at = b.len();
        }
    }
    assert(b@.skip(at as int) =~= Seq::empty());
    assert(bytes::views(out@) + lines(b@.skip(at as int)) =~= bytes::views(out@));
    out
}

fn is_space(c: u8) -> (r: bool)
    ensures
        r == is_white(c),
{
    c == 32 || (9 <= c && c <= 13)
}

fn is_wide_space(a: u8, b: u8, c: u8) -> (r: bool)
    ensures
        r == is_white_triple(a, b, c),
{
    (a == 0xE1 && b == 0x9A && c == 0x80) || (a == 0xE2 && b == 0x80 && ((0x80 <= c && c <= 0x8A)
        || c == 0xA8 || c == 0xA9 || c == 0xAF)) || (a == 0xE2 && b == 0x81 && c == 0x9F) || (a
        == 0xE3 && b == 0x80 && c == 0x80)
}

fn space_in_front(b: &[u8]) -> (r: usize)
    ensures
        r == white_front(b@),
{
    if b.len() >= 1 && is_space(b[0]) {
        1
    } else if b.len() >= 2 && b[0] == 0xC2 && (b[1] == 0x85 || b[1] == 0xA0) {
        2
    } else if b.len() >= 3 && is_wide_space(b[0], b[1], b[2]) {
        3
    } else {
        0
    }
}

fn space_behind(b: &[u8]) -> (r: usize)
    ensures
        r == white_back(b@),
{
    let n: usize = b.len();
    if n >= 1 && is_space(b[n - 1]) {
        1
    } else if n >= 2 && b[n - 2] == 0xC2 && (b[n - 1] == 0x85 || b[n - 1] == 0xA0) {
        2
    } else if n >= 3 && is_wide_space(b[n - 3], b[n - 2], b[n - 1]) {
        3
    } else {
        0
    }
}

fn trimmed(b: &[u8]) -> (r: Vec<u8>)
    ensures
        r@ == trim_back(trim_front(b@)),
{
    let mut from: usize = 0;
    let len: usize = b.len();
    assert(b@.skip(0) =~= b@);
    let mut n: usize = space_in_front(b);
    while n > 0
        invariant
            from <= b@.len(),
            len == b@.len(),
            n == white_front(b@.skip(from as int)),
            trim_front(b@) == trim_front(b@.skip(from as int)),
        decreases b@.len() - from,
    {
        assert(b@.skip(from as int).skip(n as int) =~= b@.skip(from + n));
        from = from + n;
        let rest = vstd::slice::slice_subrange(b, from, b.len());
        assert(rest@ =~= b@.skip(from as int));
        n = space_in_front(rest);
    }
    let ghost front = b@.skip(from as int);
    let mut to: usize = b.len();
    assert(b@.subrange(from as int, to as int) =~= front);
    let rest = vstd::slice::slice_subrange(b, from, to);
    assert(rest@ =~= front);
    n = space_behind(rest);
    while n > 0
        invariant
            from <= to <= b@.len(),
            n == white_back(b@.subrange(from as int, to as int)),
            trim_back(front) == trim_back(b@.subrange(from as int, to as int)),
        decreases to,
    {
        let ghost part = b@.subrange(from as int, to as int);
        assert(part.take(part.len() - n) =~= b@.subrange(from as int, to - n));
        to = to - n;
        let rest = vstd::slice::slice_subrange(b, from, to);
        assert(rest@ =~= b@.subrange(from as int, to as int));
        n = space_behind(rest);
    }
    bytes::copy_range(b, from, to)
}

fn split_paths(line: &[u8]) -> (r: Vec<Vec<u8>>)
    ensures
        bytes::views(r@) == paths_in(fields(line@)),
{
    let mut out: Vec<Vec<u8>> = Vec::new();
    let mut at: usize = 0;
    let mut more: bool = true;
    assert(line@.skip(0) =~= line@);
    assert(bytes::views(out@) + paths_in(fields(line@.skip(0))) =~= paths_in(fields(line@)));
    while more
        invariant
            at <= line@.len(),
            more ==> paths_in(fields(line@)) == bytes::views(out@) + paths_in(
                fields(line@.skip(at as int)),
            ),
            !more ==> paths_in(fields(line@)) == bytes::views(out@),
        decreases line@.len() - at + (if more {
            1int
        } else {
            0int
        }),
    {
        let rest = vstd::slice::slice_subrange(line, at, line.len());
        assert(rest@ =~= line@.skip(at as int));
        let e: usize = find_byte(rest, 44);
        let piece = vstd::slice::slice_subrange(rest, 0, e);
        let p = trimmed(piece);
        let ghost before = bytes::views(out@);
        let ghost view = p@;
        if p.len() > 0 {
            out.push(p);
            assert(bytes::views(out@) =~= before.push(view));
        }
        let ghost after = bytes::views(out@);
        if e < rest.len() {
            proof {
                assert(piece@ =~= rest@.take(e as int));
                assert(rest@.skip(e + 1) =~= line@.skip(at + e + 1));
                let tail = fields(rest@.skip(e + 1));
                let fs = seq![rest@.take(e as int)] + tail;
                assert(fs.drop_first() =~= tail);
                assert(before + paths_in(fs) =~= after + paths_in(tail));
            }
            at = at + e + 1;
        } else {
            proof {
                assert(piece@ =~= rest@);
                let fs = seq![rest@];
                assert(fs.drop_first() =~= Seq::empty());
                assert(paths_in(fs.drop_first()) =~= Seq::empty());
                assert(before + paths_in(fs) =~= after);
            }
            more = false;
        }
    }
    out
}

/// A parsed manifest as a mathematical value.
pub open spec fn manifest_view(r: Result<(u64, Vec<Vec<Vec<u8>>>), ManifestError>) -> Result<
    (u64, Seq<Seq<Seq<u8>>>),
    ManifestError,
> {
    match r {
        Ok((n, levels)) => Ok((n, level_views(levels@))),
        Err(e) => Err(e),
    }
}

/// Reads a manifest.
pub fn read_manifest(b: &[u8]) -> (r: Result<(u64, Vec<Vec<Vec<u8>>>), ManifestError>)
    ensures
        manifest_view(r) == parse_manifest(b@),
{
    let all = split_lines(b);
    let ghost ls = lines(b@);
    assert(bytes::views(all@).len() == all@.len());
    if all.len() == 0 {
        return Err(ManifestError::Empty);
    }
    assert(ls[0] == all@[0]@);
    let next: u64 = match decimal::parse_index(all[0].as_slice()) {
        Some(n) => n,
        None => return Err(ManifestError::BadNumber),
    };
    let ghost rest = ls.drop_first();
    let mut levels: Vec<Vec<Vec<u8>>> = Vec::new();
    let mut i: usize = 1;
    while i < all.len()
        invariant
            1 <= i <= all@.len(),
            ls == bytes::views(all@),
            rest == ls.drop_first(),
            levels@.len() == i - 1,
            forall|j: int|
                0 <= j < i - 1 ==> bytes::views((#[trigger] levels@[j])@) == paths_in(
                    fields(rest[j]),
                ),
        decreases all@.len() - i,
    {
        assert(rest[i - 1] == all@[i as int]@);
        levels.push(split_paths(all[i].as_slice()));
        i = i + 1;
    }
    while levels.len() < 7
        invariant
            rest.len() <= levels@.len(),
            levels@.len() <= 7 || levels@.len() == rest.len(),
            forall|j: int|
                0 <= j < levels@.len() ==> bytes::views((#[trigger] levels@[j])@) == (if j
                    < rest.len() {
                    paths_in(fields(rest[j]))
                } else {
                    Seq::empty()
                }),
        decreases 7 - levels@.len(),
    {
        let none: Vec<Vec<u8>> = Vec::new();
        assert(bytes::views(none@) =~= Seq::empty());
        levels.push(none);
    }
    proof {
        assert forall|j: int| 0 <= j < levels@.len() implies level_views(levels@)[j] == levels_in(
            rest,
        )[j] by {
            assert(level_views(levels@)[j] == bytes::views(levels@[j]@));
        }
        assert(level_views(levels@) =~= levels_in(rest));
    }
    Ok((next, levels))
}

// ----------------------------------------------------------------------
// Round trip
// ----------------------------------------------------------------------
/// A path that a manifest can hold: not empty, without commas and line ends,
/// and without white space at its ends.
pub open spec fn plain_path(p: Seq<u8>) -> bool {
    &&& p.len() > 0
    &&& white_front(p) == 0
    &&& white_back(p) == 0
    &&& forall|i: int| 0 <= i < p.len() ==> #[trigger] p[i] != 44 && p[i] != 10
}

proof fn lemma_first_of_unique(b: Seq<u8>, c: u8, n: int)
    requires
        0 <= n <= b.len(),
        forall|i: int| 0 <= i < n ==> #[trigger] b[i] != c,
        n < b.len() ==> b[n] == c,
    ensures
        first_of(b, c) == n,
{
    lemma_first_of(b, c);
    let f = first_of(b, c);
    if f < n {
        assert(b[f] != c);
    }
    if n < f {
        assert(b[n] != c);
    }
}

proof fn lemma_plain_trim(p: Seq<u8>)
    requires
        plain_path(p),
    ensures
        trim_back(trim_front(p)) == p,
{
}

/// The pieces of joined paths, with more behind a comma.
proof fn lemma_fields_of_joined(paths: Seq<Seq<u8>>, tail: Seq<u8>)
    requires
        paths.len() > 0,
        forall|i: int| 0 <= i < paths.len() ==> plain_path(#[trigger] paths[i]),
    ensures
        fields(comma_joined(paths).push(44) + tail) == paths + fields(tail),
        paths_in(fields(comma_joined(paths))) == paths,
    decreases paths.len(),
{
    let b = comma_joined(paths).push(44) + tail;
    let last = paths.last();
    assert(plain_path(paths[paths.len() - 1]));
    lemma_plain_trim(last);
    let one = fields(last);
    lemma_first_of_unique(last, 44, last.len() as int);
    assert(one =~= seq![last]);
    assert(one.drop_first() =~= Seq::empty());
    assert(paths_in(one.drop_first()) =~= Seq::empty());
    assert(paths_in(one) =~= seq![last]);
    if paths.len() == 1 {
        lemma_first_of_unique(b, 44, last.len() as int);
        assert(b.take(last.len() as int) =~= last);
        assert(b.skip(last.len() as int + 1) =~= tail);
        assert(paths =~= seq![last]);
        assert(seq![last] + fields(tail) =~= paths + fields(tail));
    } else {
        let front = paths.drop_last();
        assert forall|i: int| 0 <= i < front.len() implies plain_path(#[trigger] front[i]) by {
            assert(front[i] == paths[i]);
        }
        let more = last.push(44) + tail;
        lemma_fields_of_joined(front, more);
        assert(b =~= comma_joined(front).push(44) + more);
        lemma_first_of_unique(more, 44, last.len() as int);
        assert(more.take(last.len() as int) =~= last);
        assert(more.skip(last.len() as int + 1) =~= tail);
        assert(front + (seq![last] + fields(tail)) =~= paths + fields(tail));
        lemma_fields_of_joined(front, last);
        assert(comma_joined(paths) =~= comma_joined(front).push(44) + last);
        assert(front + one =~= paths);
        lemma_paths_in_plain(paths);
    }
}

proof fn lemma_paths_in_plain(paths: Seq<Seq<u8>>)
    requires
        forall|i: int| 0 <= i < paths.len() ==> plain_path(#[trigger] paths[i]),
    ensures
        paths_in(paths) == paths,
    decreases paths.len(),
{
    if paths.len() > 0 {
        let rest = paths.drop_first();
        assert(plain_path(paths[0]));
        lemma_plain_trim(paths[0]);
        assert forall|i: int| 0 <= i < rest.len() implies plain_path(#[trigger] rest[i]) by {
            assert(rest[i] == paths[i + 1]);
        }
        lemma_paths_in_plain(rest);
        assert(paths =~= seq![paths[0]] + rest);
    } else {
        assert(paths =~= Seq::empty());
    }
}

/// Joined paths hold no line end, and do not end with a carriage return.
proof fn lemma_joined_is_line(paths: Seq<Seq<u8>>)
    requires
        forall|i: int| 0 <= i < paths.len() ==> plain_path(#[trigger] paths[i]),
    ensures
        forall|i: int| 0 <= i < comma_joined(paths).len() ==> #[trigger] comma_joined(paths)[i]
            != 10,
        comma_joined(paths).len() > 0 ==> comma_joined(paths).last() != 13,
    decreases paths.len(),
{
    if paths.len() > 0 {
        let last = paths.last();
        assert(plain_path(paths[paths.len() - 1]));
        assert(last.last() == last[last.len() - 1]);
        if paths.len() > 1 {
            let front = paths.drop_last();
            assert forall|i: int| 0 <= i < front.len() implies plain_path(#[trigger] front[i]) by {
                assert(front[i] == paths[i]);
            }
            lemma_joined_is_line(front);
        }
    }
}

/// The lines of level lines.
proof fn lemma_lines_of_levels(levels: Seq<Seq<Seq<u8>>>, tail: Seq<u8>)
    requires
        forall|i: int, j: int|
            0 <= i < levels.len() && 0 <= j < levels[i].len() ==> plain_path(
                #[trigger] levels[i][j],
            ),
    ensures
        lines(level_lines(levels) + tail) == levels.map_values(
            |l: Seq<Seq<u8>>| comma_joined(l),
        ) + lines(tail),
    decreases levels.len(),
{
    let f = |l: Seq<Seq<u8>>| comma_joined(l);
    let b = level_lines(levels) + tail;
    if levels.len() == 0 {
        assert(b =~= tail);
        assert(levels.map_values(f) + lines(tail) =~= lines(tail));
    } else {
        let front = levels.drop_last();
        let l = levels.last();
        let line = comma_joined(l);
        let more = line.push(10) + tail;
        assert forall|i: int, j: int|
            0 <= i < front.len() && 0 <= j < front[i].len() implies plain_path(
            #[trigger] front[i][j],
        ) by {
            assert(front[i][j] == levels[i][j]);
        }
        lemma_lines_of_levels(front, more);
        assert(b =~= level_lines(front) + more);
        assert forall|j: int| 0 <= j < l.len() implies plain_path(#[trigger] l[j]) by {
            assert(l[j] == levels[levels.len() - 1][j]);
        }
        lemma_joined_is_line(l);
        lemma_first_of_unique(more, 10, line.len() as int);
        assert(more.take(line.len() as int) =~= line);
        assert(more.skip(line.len() as int + 1) =~= tail);
        assert(strip_cr(line) == line);
        assert(front.map_values(f) + (seq![line] + lines(tail)) =~= levels.map_values(f) + lines(
            tail,
        ));
    }
}

/// A manifest that was written is read back.
pub proof fn lemma_manifest_round_trip(next_file_id: u64, levels: Seq<Seq<Seq<u8>>>)
    requires
        levels.len() >= 7,
        forall|i: int, j: int|
            0 <= i < levels.len() && 0 <= j < levels[i].len() ==> plain_path(
                #[trigger] levels[i][j],
            ),
    ensures
        parse_manifest(manifest_bytes(next_file_id, levels)) == Ok::<
            (u64, Seq<Seq<Seq<u8>>>),
            ManifestError,
        >((next_file_id, levels)),
{
    let f = |l: Seq<Seq<u8>>| comma_joined(l);
    let e = Seq::<u8>::empty();
    let d = decimal::decimal(next_file_id as nat);
    let b = manifest_bytes(next_file_id, levels);
    decimal::lemma_decimal(next_file_id as nat);
    assert forall|i: int| 0 <= i < d.len() implies #[trigger] d[i] != 10 by {
        assert(48 <= d[i] <= 57);
    }
    lemma_first_of_unique(b, 10, d.len() as int);
    assert(b.take(d.len() as int) =~= d);
    assert(b.skip(d.len() as int + 1) =~= level_lines(levels));
    assert(48 <= d[d.len() - 1] <= 57);
    assert(strip_cr(d) == d);
    lemma_lines_of_levels(levels, e);
    assert(level_lines(levels) + e =~= level_lines(levels));
    let ls = lines(b);
    assert(lines(e) =~= Seq::empty());
    assert(ls.drop_first() =~= levels.map_values(f));
    assert(ls[0] == d);
    assert(48 <= d[0] <= 57);
    assert(decimal::unsigned(d) == d);
    let got = levels_in(ls.drop_first());
    assert forall|i: int| 0 <= i < levels.len() implies got[i] == levels[i] by {
        assert(ls.drop_first()[i] == comma_joined(levels[i]));
        if levels[i].len() > 0 {
            assert forall|j: int| 0 <= j < levels[i].len() implies plain_path(
                #[trigger] levels[i][j],
            ) by {}
            lemma_fields_of_joined(levels[i], e);
        } else {
            let none = comma_joined(levels[i]);
            lemma_first_of(none, 44);
            let fs = fields(none);
            assert(fs =~= seq![none]);
            assert(fs.drop_first() =~= Seq::empty());
            assert(paths_in(fs.drop_first()) =~= Seq::empty());
            assert(paths_in(fs) =~= Seq::empty());
            assert(levels[i] =~= Seq::empty());
        }
    }
    assert(got =~= levels);
}

} // verus!
