use vstd::prelude::*;

use crate::number::{int_text, nat_text, push_int, push_nat};
use crate::pattern::{replace_matches, replaced_all, Pattern};
use crate::text::{line_pieces, parse_verses, push_char, trim};

verus! {

/// A bracketed verse number together with the whitespace around it.
pub const ANNOTATION_PATTERN: &'static str = "\\s*\\[\\d+\\]\\s*";

/// `s` with every bracketed verse number removed, with the whitespace
/// around it.
pub open spec fn stripped(s: Seq<char>) -> Seq<char> {
    replaced_all(ANNOTATION_PATTERN@, s, Seq::empty())
}

/// The lines that are not empty, each with its number: the lines before it
/// that are not empty, plus one. An empty line takes no number.
pub open spec fn numbered(lines: Seq<Seq<char>>) -> Seq<(int, Seq<char>)>
    decreases lines.len(),
{
    if lines.len() == 0 {
        Seq::empty()
    } else {
        let prev = numbered(lines.drop_last());
        if lines.last().len() == 0 {
            prev
        } else {
            prev.push((prev.len() + 1int, lines.last()))
        }
    }
}

/// How many of `lines` are not empty.
pub open spec fn count_nonempty(lines: Seq<Seq<char>>) -> nat
    decreases lines.len(),
{
    if lines.len() == 0 {
        0
    } else {
        count_nonempty(lines.drop_last()) + if lines.last().len() == 0 {
            0nat
        } else {
            1nat
        }
    }
}

/// One numbered verse of a chapter (a prasna of a kanda).
pub struct Anuvaka {
    pub kanda: i32,
    pub prasna: i32,
    pub anuvaka: usize,
    pub text: String,
}

/// The key under which a verse is stored: `kanda.prasna.anuvaka`.
pub open spec fn anuvaka_key(kanda: i32, prasna: i32, anuvaka: nat) -> Seq<char> {
    int_text(kanda as int) + seq!['.'] + int_text(prasna as int) + seq!['.'] + nat_text(anuvaka)
}

/// `r` holds the numbered lines of `lines`, all of kanda `kanda` and
/// prasna `prasna`.
pub open spec fn numbered_as(
    r: Seq<Anuvaka>,
    kanda: i32,
    prasna: i32,
    lines: Seq<Seq<char>>,
) -> bool {
    &&& r.len() == numbered(lines).len()
    &&& forall|i: int|
        0 <= i < r.len() ==> {
            &&& (#[trigger] r[i]).kanda == kanda
            &&& r[i].prasna == prasna
            &&& r[i].anuvaka == numbered(lines)[i].0
            &&& r[i].text@ == numbered(lines)[i].1
        }
}

impl Anuvaka {
    /// `kanda.prasna.anuvaka`, each in decimal.
    pub fn key(&self) -> (r: String)
        ensures
            r@ == anuvaka_key(self.kanda, self.prasna, self.anuvaka as nat),
    {
        let mut out = String::new();
        push_int(&mut out, self.kanda);
        push_char(&mut out, '.');
        push_int(&mut out, self.prasna);
        push_char(&mut out, '.');
        push_nat(&mut out, self.anuvaka as u64);
        out
    }
}

/// Compiles the pattern of a bracketed verse number.
pub fn annotation_pattern() -> (r: Result<Pattern, crate::error::ScrapeError>)
    ensures
        r is Ok <==> crate::pattern::regex_compiles(ANNOTATION_PATTERN@),
        r matches Ok(p) ==> p@ == ANNOTATION_PATTERN@,
        r matches Err(e) ==> e == crate::error::ScrapeError::InvalidPattern,
{
    Pattern::new(ANNOTATION_PATTERN)
}

/// Removes every bracketed verse number from `input`, with the whitespace
/// around it; `annotation` is the compiled `ANNOTATION_PATTERN`.
pub fn strip_index(annotation: &Pattern, input: &str) -> (r: String)
    requires
        annotation@ == ANNOTATION_PATTERN@,
    ensures
        r@ == stripped(input@),
{
    let nothing = "";
    proof {
        reveal_strlit("");
        assert(nothing@ =~= Seq::<char>::empty());
    }
    replace_matches(annotation, input, nothing)
}

/// Numbers the lines that are not empty, from one, skipping empty lines
/// without using up a number.
pub fn number_stripped(kanda: i32, prasna: i32, lines: &Vec<String>) -> (r: Vec<Anuvaka>)
    ensures
        numbered_as(r@, kanda, prasna, lines.deep_view()),
{
    let ghost ls = lines.deep_view();
    let mut out: Vec<Anuvaka> = Vec::new();
    let mut i: usize = 0;
    assert(ls.take(0) =~= Seq::<Seq<char>>::empty());
    while i < lines.len()
        invariant
            i <= lines@.len(),
            ls == lines.deep_view(),
            out@.len() <= i,
            numbered_as(out@, kanda, prasna, ls.take(i as int)),
        decreases lines.len() - i,
    {
        proof {
            assert(ls.take(i + 1).drop_last() =~= ls.take(i as int));
            assert(ls.take(i + 1).last() == lines@[i as int]@);
        }
        if !lines[i].as_str().is_empty() {
            let n: usize = out.len() + 1;
            out.push(Anuvaka { kanda, prasna, anuvaka: n, text: lines[i].clone() });
        }
        i += 1;
    }
    assert(ls.take(i as int) =~= ls);
    out
}

/// The numbered verses of a chapter's text: its lines, trimmed, with the
/// bracketed verse numbers stripped; the lines left empty take no number.
pub fn number_lines(kanda: i32, prasna: i32, annotation: &Pattern, text: &str) -> (r: Vec<Anuvaka>)
    requires
        annotation@ == ANNOTATION_PATTERN@,
    ensures
        numbered_as(
            r@,
            kanda,
            prasna,
            line_pieces(text@).map_values(|l: Seq<char>| stripped(trim(l))),
        ),
{
    let lines = parse_verses(text);
    let mut cleaned: Vec<String> = Vec::new();
    let mut i: usize = 0;
    while i < lines.len()
        invariant
            i <= lines@.len(),
            lines@.len() == line_pieces(text@).len(),
            forall|j: int|
                0 <= j < lines@.len() ==> lines@[j]@ == trim(#[trigger] line_pieces(text@)[j]),
            annotation@ == ANNOTATION_PATTERN@,
            cleaned@.len() == i,
            forall|j: int|
                0 <= j < i ==> (#[trigger] cleaned@[j])@ == stripped(trim(line_pieces(text@)[j])),
        decreases lines.len() - i,
    {
        cleaned.push(strip_index(annotation, lines[i].as_str()));
        i += 1;
    }
    assert(cleaned.deep_view() =~= line_pieces(text@).map_values(
        |l: Seq<char>| stripped(trim(l)),
    ));
    number_stripped(kanda, prasna, &cleaned)
}


/// A line that is empty once stripped yields no verse and takes no number:
/// adding one leaves the numbered verses as they were. Every numbered verse
/// has text, verse `i` carries number `i + 1`, and there are as many verses
/// as lines that are not empty.
pub proof fn lemma_blank_lines_take_no_number(lines: Seq<Seq<char>>, blank: Seq<char>)
    requires
        blank.len() == 0,
    ensures
        numbered(lines.push(blank)) == numbered(lines),
        numbered(lines).len() == count_nonempty(lines),
        forall|i: int|
            0 <= i < numbered(lines).len() ==> (#[trigger] numbered(lines)[i]).0 == i + 1
                && numbered(lines)[i].1.len() > 0,
    decreases lines.len(),
{
    assert(lines.push(blank).drop_last() =~= lines);
    if lines.len() > 0 {
        lemma_blank_lines_take_no_number(lines.drop_last(), blank);
    }
}

} // verus!
