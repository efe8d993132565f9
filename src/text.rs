use vstd::prelude::*;

verus! {

/// What `char::is_whitespace` accepts: the Unicode `White_Space` property.
pub open spec fn is_space(c: char) -> bool {
    let u = c as u32;
    (0x9 <= u && u <= 0xd) || u == 0x20 || u == 0x85 || u == 0xa0 || u == 0x1680 || (0x2000 <= u
        && u <= 0x200a) || u == 0x2028 || u == 0x2029 || u == 0x202f || u == 0x205f || u == 0x3000
}

pub fn is_space_char(c: char) -> (r: bool)
    ensures
        r == is_space(c),
{
    let u = c as u32;
    (0x9 <= u && u <= 0xd) || u == 0x20 || u == 0x85 || u == 0xa0 || u == 0x1680 || (0x2000 <= u
        && u <= 0x200a) || u == 0x2028 || u == 0x2029 || u == 0x202f || u == 0x205f || u == 0x3000
}

/// Relies on `String::push`: appends one character at the end.
#[verifier::external_body]
pub(crate) fn push_char(s: &mut String, c: char)
    ensures
        final(s)@ == old(s)@.push(c),
{
    s.push(c);
}

/// The characters of `s`, in order.
pub fn chars_of(s: &str) -> (r: Vec<char>)
    ensures
        r@ == s@,
{
    let mut out: Vec<char> = Vec::new();
    for c in it: s.chars()
        invariant
            out@ == it.seq().take(it.index() as int),
    {
        out.push(c);
    }
    out
}

/// The characters `cs[lo..hi]` as a string.
pub fn string_from(cs: &Vec<char>, lo: usize, hi: usize) -> (r: String)
    requires
        lo <= hi <= cs.len(),
    ensures
        r@ == cs@.subrange(lo as int, hi as int),
{
    let mut out = String::new();
    let mut i: usize = lo;
    while i < hi
        invariant
            lo <= i <= hi <= cs.len(),
            out@ == cs@.subrange(lo as int, i as int),
        decreases hi - i,
    {
        push_char(&mut out, cs[i]);
        assert(cs@.subrange(lo as int, i + 1) =~= cs@.subrange(lo as int, i as int).push(
            cs@[i as int],
        ));
        i += 1;
    }
    out
}


/// `s` cut at every `sep`, as `str::split` cuts it: `k` separators give
/// `k + 1` pieces, some of them possibly empty.
pub open spec fn split_on(s: Seq<char>, sep: char) -> Seq<Seq<char>>
    decreases s.len(),
{
    if s.len() == 0 {
        seq![Seq::empty()]
    } else {
        let init = split_on(s.drop_last(), sep);
        if s.last() == sep {
            init.push(Seq::empty())
        } else {
            init.update(init.len() - 1, init.last().push(s.last()))
        }
    }
}

pub proof fn lemma_split_on_len(s: Seq<char>, sep: char)
    ensures
        split_on(s, sep).len() >= 1,
    decreases s.len(),
{
    if s.len() > 0 {
        lemma_split_on_len(s.drop_last(), sep);
    }
}

/// `s` without the whitespace at its start.
pub open spec fn trim_start(s: Seq<char>) -> Seq<char>
    decreases s.len(),
{
    if s.len() > 0 && is_space(s[0]) {
        trim_start(s.drop_first())
    } else {
        s
    }
}

/// `s` without the whitespace at its end.
pub open spec fn trim_end(s: Seq<char>) -> Seq<char>
    decreases s.len(),
{
    if s.len() > 0 && is_space(s.last()) {
        trim_end(s.drop_last())
    } else {
        s
    }
}

/// `s` without leading and trailing whitespace, as `str::trim` leaves it.
pub open spec fn trim(s: Seq<char>) -> Seq<char> {
    trim_end(trim_start(s))
}

/// The lines of `s` as `str::lines` yields them, before trimming: the
/// pieces between line feeds, where a final line feed ends the last line
/// rather than starting an empty one. (A carriage return before a line feed
/// is whitespace, so trimming removes it with the rest.)
pub open spec fn line_pieces(s: Seq<char>) -> Seq<Seq<char>> {
    let parts = split_on(s, '\n');
    if parts.last().len() == 0 {
        parts.drop_last()
    } else {
        parts
    }
}

/// `r` bounds, within `cs`, the characters `piece`.
pub open spec fn range_cuts(cs: Seq<char>, r: (usize, usize), piece: Seq<char>) -> bool {
    r.0 <= r.1 <= cs.len() && cs.subrange(r.0 as int, r.1 as int) == piece
}

/// Each of `ranges` bounds, within `cs`, the piece of the same position.
pub open spec fn ranges_cut(
    cs: Seq<char>,
    ranges: Seq<(usize, usize)>,
    pieces: Seq<Seq<char>>,
) -> bool {
    forall|j: int| 0 <= j < ranges.len() ==> range_cuts(cs, #[trigger] ranges[j], pieces[j])
}

/// The bounds of the pieces of `cs` between occurrences of `sep`.
pub fn split_ranges(cs: &Vec<char>, sep: char) -> (r: Vec<(usize, usize)>)
    ensures
        r@.len() == split_on(cs@, sep).len(),
        ranges_cut(cs@, r@, split_on(cs@, sep)),
{
    let mut ranges: Vec<(usize, usize)> = Vec::new();
    let mut start: usize = 0;
    let mut i: usize = 0;
    while i < cs.len()
        invariant
            start <= i <= cs@.len(),
            ranges@.len() + 1 == split_on(cs@.take(i as int), sep).len(),
            cs@.subrange(start as int, i as int) == split_on(cs@.take(i as int), sep).last(),
            ranges_cut(cs@, ranges@, split_on(cs@.take(i as int), sep)),
        decreases cs.len() - i,
    {
        let ghost prev = split_on(cs@.take(i as int), sep);
        let ghost old_ranges = ranges@;
        proof {
            lemma_split_on_len(cs@.take(i as int), sep);
            assert(cs@.take(i + 1).drop_last() =~= cs@.take(i as int));
        }
        if cs[i] == sep {
            ranges.push((start, i));
            start = i + 1;
        }
        i += 1;
        proof {
            let cur = split_on(cs@.take(i as int), sep);
            if cs@[i - 1] == sep {
                assert(cur == prev.push(Seq::empty()));
                assert(cs@.subrange(start as int, i as int) =~= Seq::<char>::empty());
                assert forall|j: int| 0 <= j < ranges@.len() implies range_cuts(
                    cs@,
                    #[trigger] ranges@[j],
                    cur[j],
                ) by {
                    if j < ranges@.len() - 1 {
                        assert(ranges@[j] == old_ranges[j]);
                        assert(range_cuts(cs@, old_ranges[j], prev[j]));
                    }
                }
            } else {
                assert(cur == prev.update(prev.len() - 1, prev.last().push(cs@[i - 1])));
                assert(cs@.subrange(start as int, i as int) =~= cs@.subrange(
                    start as int,
                    i - 1,
                ).push(cs@[i - 1]));
                assert forall|j: int| 0 <= j < ranges@.len() implies range_cuts(
                    cs@,
                    #[trigger] ranges@[j],
                    cur[j],
                ) by {
                    assert(range_cuts(cs@, ranges@[j], prev[j]));
                }
            }
        }
    }
    assert(cs@.take(i as int) =~= cs@);
    let ghost old_ranges = ranges@;
    ranges.push((start, i));
    assert forall|j: int| 0 <= j < ranges@.len() implies range_cuts(
        cs@,
        #[trigger] ranges@[j],
        split_on(cs@, sep)[j],
    ) by {
        if j < ranges@.len() - 1 {
            assert(ranges@[j] == old_ranges[j]);
            assert(range_cuts(cs@, old_ranges[j], split_on(cs@.take(i as int), sep)[j]));
        }
    }
    ranges
}

/// The bounds within `lo..hi` of `cs[lo..hi]` trimmed of whitespace.
pub fn trim_range(cs: &Vec<char>, lo: usize, hi: usize) -> (r: (usize, usize))
    requires
        lo <= hi <= cs.len(),
    ensures
        lo <= r.0 <= r.1 <= hi,
        cs@.subrange(r.0 as int, r.1 as int) == trim(cs@.subrange(lo as int, hi as int)),
{
    let mut a: usize = lo;
    while a < hi && is_space_char(cs[a])
        invariant
            lo <= a <= hi <= cs.len(),
            trim_start(cs@.subrange(lo as int, hi as int)) == trim_start(
                cs@.subrange(a as int, hi as int),
            ),
        decreases hi - a,
    {
        assert(cs@.subrange(a as int, hi as int).drop_first() =~= cs@.subrange(a + 1, hi as int));
        a += 1;
    }
    let mut b: usize = hi;
    while b > a && is_space_char(cs[b - 1])
        invariant
            lo <= a <= b <= hi <= cs.len(),
            trim_start(cs@.subrange(lo as int, hi as int)) == cs@.subrange(a as int, hi as int),
            trim_end(cs@.subrange(a as int, hi as int)) == trim_end(
                cs@.subrange(a as int, b as int),
            ),
        decreases b - a,
    {
        assert(cs@.subrange(a as int, b as int).drop_last() =~= cs@.subrange(a as int, b - 1));
        b -= 1;
    }
    (a, b)
}

/// `s` without leading and trailing whitespace.
pub fn trim_str(s: &str) -> (r: String)
    ensures
        r@ == trim(s@),
{
    let cs = chars_of(s);
    let (a, b) = trim_range(&cs, 0, cs.len());
    assert(cs@.subrange(0, cs@.len() as int) =~= cs@);
    string_from(&cs, a, b)
}

/// The lines of `text`, each trimmed of surrounding whitespace.
pub fn parse_verses(text: &str) -> (r: Vec<String>)
    ensures
        r@.len() == line_pieces(text@).len(),
        forall|i: int| 0 <= i < r@.len() ==> r@[i]@ == trim(#[trigger] line_pieces(text@)[i]),
{
    let cs = chars_of(text);
    let ranges = split_ranges(&cs, '\n');
    proof {
        lemma_split_on_len(cs@, '\n');
    }
    let last = ranges[ranges.len() - 1];
    let n: usize = if last.0 == last.1 {
        ranges.len() - 1
    } else {
        ranges.len()
    };
    let mut out: Vec<String> = Vec::new();
    let mut i: usize = 0;
    while i < n
        invariant
            i <= n <= ranges@.len(),
            cs@ == text@,
            n == line_pieces(text@).len(),
            ranges@.len() == split_on(cs@, '\n').len(),
            ranges_cut(cs@, ranges@, split_on(cs@, '\n')),
            out@.len() == i,
            forall|j: int| 0 <= j < i ==> out@[j]@ == trim(#[trigger] line_pieces(text@)[j]),
        decreases n - i,
    {
        assert(range_cuts(cs@, ranges@[i as int], split_on(cs@, '\n')[i as int]));
        let (a, b) = trim_range(&cs, ranges[i].0, ranges[i].1);
        out.push(string_from(&cs, a, b));
        i += 1;
    }
    out
}

} // verus!
