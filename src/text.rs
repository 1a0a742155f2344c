//! Character-level text handling: whitespace trimming, splitting on a delimiter,
//! breaking a document into lines and into fenced spans.
use vstd::prelude::*;
use unicode_width::UnicodeWidthStr;

verus! {

/// Unicode `White_Space`, the set that `char::is_whitespace` tests.
pub open spec fn is_ws(c: char) -> bool {
    let u = c as u32;
    (9 <= u && u <= 13) || u == 32 || u == 0x85 || u == 0xa0 || u == 0x1680 || (0x2000 <= u
        && u <= 0x200a) || u == 0x2028 || u == 0x2029 || u == 0x202f || u == 0x205f || u == 0x3000
}

/// Whether `c` is whitespace.
pub fn is_whitespace(c: char) -> (r: bool)
    ensures
        r == is_ws(c),
{
    let u = c as u32;
    (9 <= u && u <= 13) || u == 32 || u == 0x85 || u == 0xa0 || u == 0x1680 || (0x2000 <= u
        && u <= 0x200a) || u == 0x2028 || u == 0x2029 || u == 0x202f || u == 0x205f || u == 0x3000
}

pub open spec fn trim_start(s: Seq<char>) -> Seq<char>
    decreases s.len(),
{
    if s.len() > 0 && is_ws(s[0]) {
        trim_start(s.drop_first())
    } else {
        s
    }
}

pub open spec fn trim_end(s: Seq<char>) -> Seq<char>
    decreases s.len(),
{
    if s.len() > 0 && is_ws(s.last()) {
        trim_end(s.drop_last())
    } else {
        s
    }
}

/// The text without its leading and trailing whitespace.
pub open spec fn trim(s: Seq<char>) -> Seq<char> {
    trim_end(trim_start(s))
}

/// Copies `s` without its leading and trailing whitespace.
pub fn trim_chars(s: &[char]) -> (r: Vec<char>)
    ensures
        r@ == trim(s@),
{
    let n = s.len();
    let mut i: usize = 0;
    assert(s@.subrange(0, n as int) =~= s@);
    while i < n && is_whitespace(s[i])
        invariant
            i <= n == s@.len(),
            trim_start(s@) == trim_start(s@.subrange(i as int, n as int)),
        decreases n - i,
    {
        assert(s@.subrange(i as int, n as int).drop_first() =~= s@.subrange(i + 1, n as int));
        i = i + 1;
    }
    assert(trim_start(s@) == s@.subrange(i as int, n as int));
    let mut j: usize = n;
    while j > i && is_whitespace(s[j - 1])
        invariant
            i <= j <= n == s@.len(),
            trim(s@) == trim_end(s@.subrange(i as int, j as int)),
        decreases j,
    {
        assert(s@.subrange(i as int, j as int).drop_last() =~= s@.subrange(i as int, j - 1));
        j = j - 1;
    }
    copy_range(s, i, j)
}

/// Copies the characters of `s` from index `i` up to, not including, `j`.
pub fn copy_range(s: &[char], i: usize, j: usize) -> (r: Vec<char>)
    requires
        i <= j <= s@.len(),
    ensures
        r@ == s@.subrange(i as int, j as int),
{
    let mut r: Vec<char> = Vec::new();
    let mut k: usize = i;
    while k < j
        invariant
            i <= k <= j <= s@.len(),
            r@ =~= s@.subrange(i as int, k as int),
        decreases j - k,
    {
        r.push(s[k]);
        k = k + 1;
    }
    r
}

/// The character sequences held by a sequence of vectors.
pub open spec fn views(v: Seq<Vec<char>>) -> Seq<Seq<char>> {
    v.map_values(|x: Vec<char>| x@)
}

/// Appends the characters of `s` to `out`.
pub fn push_all(out: &mut Vec<char>, s: &[char])
    ensures
        final(out)@ == old(out)@ + s@,
{
    let mut i: usize = 0;
    while i < s.len()
        invariant
            i <= s@.len(),
            out@ =~= old(out)@ + s@.take(i as int),
        decreases s@.len() - i,
    {
        out.push(s[i]);
        i = i + 1;
    }
    assert(s@.take(s@.len() as int) =~= s@);
}

/// The pieces of `s` between occurrences of `d`, in order; one more piece than there are
/// occurrences, so an empty text gives one empty piece.
pub open spec fn split(s: Seq<char>, d: char) -> Seq<Seq<char>>
    decreases s.len(),
{
    if s.len() == 0 {
        seq![Seq::empty()]
    } else {
        let p = split(s.drop_last(), d);
        if s.last() == d {
            p.push(Seq::empty())
        } else {
            p.update(p.len() - 1, p.last().push(s.last()))
        }
    }
}

pub proof fn lemma_split_nonempty(s: Seq<char>, d: char)
    ensures
        split(s, d).len() >= 1,
    decreases s.len(),
{
    if s.len() > 0 {
        lemma_split_nonempty(s.drop_last(), d);
    }
}

/// Splits `s` at every occurrence of `d`.
pub fn split_on(s: &[char], d: char) -> (r: Vec<Vec<char>>)
    ensures
        views(r@) == split(s@, d),
{
    let n = s.len();
    let mut pieces: Vec<Vec<char>> = Vec::new();
    let mut cur: Vec<char> = Vec::new();
    let mut i: usize = 0;
    assert(s@.subrange(0, 0) =~= Seq::<char>::empty());
    assert(views(pieces@).push(cur@) =~= seq![Seq::<char>::empty()]);
    while i < n
        invariant
            i <= n == s@.len(),
            views(pieces@).push(cur@) == split(s@.subrange(0, i as int), d),
        decreases n - i,
    {
        let ghost before = s@.subrange(0, i as int);
        assert(s@.subrange(0, i + 1).drop_last() =~= before);
        proof { lemma_split_nonempty(before, d); }
        let c = s[i];
        if c == d {
            let ghost old_pieces = views(pieces@);
            pieces.push(cur);
            cur = Vec::new();
            assert(views(pieces@) =~= old_pieces.push(split(before, d).last()));
            assert(views(pieces@).push(cur@) =~= split(s@.subrange(0, i + 1), d));
        } else {
            cur.push(c);
            assert(views(pieces@).push(cur@) =~= split(s@.subrange(0, i + 1), d));
        }
        i = i + 1;
    }
    assert(s@.subrange(0, n as int) =~= s@);
    let ghost old_pieces = views(pieces@);
    pieces.push(cur);
    assert(views(pieces@) =~= old_pieces.push(cur@));
    pieces
}

/// A line terminated by a newline loses a carriage return that precedes it.
pub open spec fn strip_cr(l: Seq<char>) -> Seq<char> {
    if l.len() > 0 && l.last() == '\r' {
        l.drop_last()
    } else {
        l
    }
}

/// The lines of `s`: split at each newline, each terminated line without a final carriage
/// return, and no empty line after a final newline.
pub open spec fn lines(s: Seq<char>) -> Seq<Seq<char>> {
    let p = split(s, '\n');
    let init = p.drop_last().map_values(|l: Seq<char>| strip_cr(l));
    if p.last().len() == 0 {
        init
    } else {
        init.push(p.last())
    }
}

/// Breaks `s` into lines.
pub fn split_lines(s: &[char]) -> (r: Vec<Vec<char>>)
    ensures
        views(r@) == lines(s@),
{
    let pieces = split_on(s, '\n');
    proof { lemma_split_nonempty(s@, '\n'); }
    let m = pieces.len() - 1;
    let ghost p = views(pieces@);
    let mut r: Vec<Vec<char>> = Vec::new();
    let mut k: usize = 0;
    while k < m
        invariant
            m + 1 == pieces@.len(),
            p == views(pieces@),
            p == split(s@, '\n'),
            k <= m,
            views(r@) =~= p.take(k as int).map_values(|l: Seq<char>| strip_cr(l)),
        decreases m - k,
    {
        let piece = &pieces[k];
        let len = piece.len();
        let end = if len > 0 && piece[len - 1] == '\r' { len - 1 } else { len };
        let line = copy_range(piece.as_slice(), 0, end);
        assert(line@ =~= strip_cr(p[k as int]));
        let ghost old_r = views(r@);
        r.push(line);
        assert(views(r@) =~= old_r.push(line@));
        assert(p.take(k + 1).map_values(|l: Seq<char>| strip_cr(l)) =~= p.take(k as int).map_values(
            |l: Seq<char>| strip_cr(l),
        ).push(strip_cr(p[k as int])));
        k = k + 1;
    }
    assert(p.take(m as int) =~= p.drop_last());
    let last = &pieces[m];
    if last.len() > 0 {
        let line = copy_range(last.as_slice(), 0, last.len());
        let ghost old_r = views(r@);
        r.push(line);
        assert(views(r@) =~= old_r.push(line@));
        assert(line@ =~= p.last());
    }
    r
}

/// Whether a code fence, three backticks, starts at index `i` of `s`.
pub open spec fn fence_at(s: Seq<char>, i: int) -> bool {
    0 <= i && i + 3 <= s.len() && s[i] == '`' && s[i + 1] == '`' && s[i + 2] == '`'
}

/// The three backticks that open and close a fenced block.
pub open spec fn fence() -> Seq<char> {
    seq!['`', '`', '`']
}

/// The spans of `s` between code fences, found from the left without overlap.
pub open spec fn fence_split(s: Seq<char>) -> Seq<Seq<char>>
    decreases s.len(),
{
    if s.len() == 0 {
        seq![Seq::empty()]
    } else if fence_at(s, 0) {
        seq![Seq::<char>::empty()] + fence_split(s.subrange(3, s.len() as int))
    } else {
        let r = fence_split(s.drop_first());
        r.update(0, seq![s[0]] + r[0])
    }
}

pub proof fn lemma_fence_split_nonempty(s: Seq<char>)
    ensures
        fence_split(s).len() >= 1,
    decreases s.len(),
{
    if s.len() > 0 {
        if fence_at(s, 0) {
            lemma_fence_split_nonempty(s.subrange(3, s.len() as int));
        } else {
            lemma_fence_split_nonempty(s.drop_first());
        }
    }
}

/// `fence_split(rest)` with `c` put before its first span.
pub open spec fn fence_split_after(c: Seq<char>, rest: Seq<char>) -> Seq<Seq<char>> {
    let r = fence_split(rest);
    r.update(0, c + r[0])
}

/// Splits `s` at every code fence.
pub fn split_fences(s: &[char]) -> (r: Vec<Vec<char>>)
    ensures
        views(r@) == fence_split(s@),
{
    let n = s.len();
    let mut pieces: Vec<Vec<char>> = Vec::new();
    let mut cur: Vec<char> = Vec::new();
    let mut i: usize = 0;
    proof {
        lemma_fence_split_nonempty(s@);
        assert(s@.subrange(0, n as int) =~= s@);
        assert(fence_split_after(cur@, s@) =~= fence_split(s@));
        assert(views(pieces@) + fence_split(s@) =~= fence_split(s@));
    }
    while i < n
        invariant
            i <= n == s@.len(),
            fence_split(s@) == views(pieces@) + fence_split_after(cur@, s@.subrange(i as int, n as int)),
        decreases n - i,
    {
        let ghost rest = s@.subrange(i as int, n as int);
        if n - i >= 3 && s[i] == '`' && s[i + 1] == '`' && s[i + 2] == '`' {
            let ghost after = s@.subrange(i + 3, n as int);
            proof {
                assert(rest.subrange(3, rest.len() as int) =~= after);
                assert(fence_at(rest, 0));
                lemma_fence_split_nonempty(after);
            }
            let ghost old_pieces = views(pieces@);
            let ghost old_cur = cur@;
            pieces.push(cur);
            cur = Vec::new();
            assert(views(pieces@) =~= old_pieces.push(old_cur));
            assert(fence_split_after(old_cur, rest) =~= seq![old_cur] + fence_split(after));
            assert(fence_split_after(cur@, after) =~= fence_split(after));
            assert(fence_split(s@) =~= views(pieces@) + fence_split_after(cur@, after));
            i = i + 3;
        } else {
            let ghost after = s@.subrange(i + 1, n as int);
            proof {
                assert(rest.drop_first() =~= after);
                assert(!fence_at(rest, 0));
                lemma_fence_split_nonempty(after);
            }
            let ghost old_cur = cur@;
            cur.push(s[i]);
            assert(old_cur + (seq![s@[i as int]] + fence_split(after)[0]) =~= cur@ + fence_split(
                after,
            )[0]);
            assert(fence_split_after(old_cur, rest) =~= fence_split_after(cur@, after));
            i = i + 1;
        }
    }
    proof {
        assert(s@.subrange(n as int, n as int) =~= Seq::<char>::empty());
        assert(fence_split_after(cur@, Seq::<char>::empty()) =~= seq![cur@]);
    }
    let ghost old_pieces = views(pieces@);
    pieces.push(cur);
    assert(views(pieces@) =~= old_pieces.push(cur@));
    assert(fence_split(s@) =~= views(pieces@));
    pieces
}

/// Relies on `str::chars`, collected into a vector: the characters of the text in order.
#[verifier::external_body]
pub(crate) fn chars_of(s: &str) -> (r: Vec<char>)
    ensures
        r@ == s@,
{
    s.chars().collect()
}

/// Relies on `String`'s `FromIterator<&char>`: the string of the given characters in order.
#[verifier::external_body]
pub(crate) fn string_of(v: &[char]) -> (r: String)
    ensures
        r@ == v@,
{
    v.iter().collect()
}

/// The number of terminal columns that a text takes, as `unicode_width` measures it.
pub uninterp spec fn display_width_of(s: Seq<char>) -> nat;

/// Relies on `unicode_width::UnicodeWidthStr::width`: the display width of the text,
/// which depends on its characters alone.
#[verifier::external_body]
pub(crate) fn display_width(s: &[char]) -> (r: usize)
    ensures
        r as nat == display_width_of(s@),
{
    let t: String = s.iter().collect();
    t.width()
}

} // verus!
