use vstd::prelude::*;

use crate::error::ScrapeError;
use crate::number::{int_text, parse_i32, parse_i32_spec, push_int};
use crate::pattern::{capture_groups, split_pieces, Pattern};
use crate::verse::{
    extract_headed_verses, extract_verses, headed_groups, records_of, VerseTable, VerseView,
};
use crate::text::{chars_of, lemma_split_on_len, range_cuts, split_on, split_ranges, push_char};

verus! {

/// Where the chapter files of the Samhita are published, one per prasna.
pub const SAMHITA_BASE: &'static str =
    "https://raw.githubusercontent.com/udapaana/raw_etexts/master/vedaH/yajur/taittirIya/mUlam/saMhitA";

/// Each kanda with the number of its prasnas.
pub open spec fn prasna_counts() -> Seq<(i32, i32)> {
    seq![(1i32, 7i32), (2, 6), (3, 5), (4, 7), (5, 7), (6, 6), (7, 5)]
}

/// The address of the file of prasna `p` of kanda `k`.
pub open spec fn chapter_url(k: i32, p: i32) -> Seq<char> {
    SAMHITA_BASE@ + seq!['/'] + int_text(k as int) + seq!['/'] + int_text(p as int) + ".md"@
}

/// The chapter addresses of each kanda of `counts`, kanda after kanda,
/// prasna 1 first.
pub open spec fn chapter_urls(counts: Seq<(i32, i32)>) -> Seq<Seq<char>>
    decreases counts.len(),
{
    if counts.len() == 0 {
        Seq::empty()
    } else {
        let (k, n) = counts.last();
        chapter_urls(counts.drop_last()) + Seq::new(
            n as nat,
            |i: int| chapter_url(k, (i + 1) as i32),
        )
    }
}

fn chapter_url_of(k: i32, p: i32) -> (r: String)
    ensures
        r@ == chapter_url(k, p),
{
    let mut out = String::from_str(SAMHITA_BASE);
    push_char(&mut out, '/');
    push_int(&mut out, k);
    push_char(&mut out, '/');
    push_int(&mut out, p);
    out.append(".md");
    out
}

/// The addresses of every chapter file of the Samhita, kanda by kanda.
pub fn get_samhita_urls() -> (r: Vec<String>)
    ensures
        r.deep_view() == chapter_urls(prasna_counts()),
{
    let stubs: Vec<(i32, i32)> = vec![(1, 7), (2, 6), (3, 5), (4, 7), (5, 7), (6, 6), (7, 5)];
    assert(stubs@ =~= prasna_counts());
    let mut urls: Vec<String> = Vec::new();
    let mut s: usize = 0;
    assert(prasna_counts().take(0) =~= Seq::<(i32, i32)>::empty());
    assert(urls.deep_view() =~= Seq::<Seq<char>>::empty());
    while s < stubs.len()
        invariant
            s <= stubs@.len(),
            stubs@ == prasna_counts(),
            urls.deep_view() == chapter_urls(prasna_counts().take(s as int)),
        decreases stubs.len() - s,
    {
        let (k, bound) = stubs[s];
        let ghost before = urls.deep_view();
        let mut p: i32 = 1;
        while p <= bound
            invariant
                1 <= p <= bound + 1,
                1 <= bound <= 7,
                urls.deep_view() == before + Seq::new(
                    (p - 1) as nat,
                    |i: int| chapter_url(k, (i + 1) as i32),
                ),
            decreases bound + 1 - p,
        {
            let u = chapter_url_of(k, p);
            let ghost prev = urls.deep_view();
            urls.push(u);
            assert(urls.deep_view() =~= prev.push(u@));
            assert(before + Seq::new(p as nat, |i: int| chapter_url(k, (i + 1) as i32))
                =~= before + Seq::new(
                (p - 1) as nat,
                |i: int| chapter_url(k, (i + 1) as i32),
            ).push(chapter_url(k, p)));
            p += 1;
        }
        assert(prasna_counts().take(s + 1).drop_last() =~= prasna_counts().take(s as int));
        s += 1;
    }
    assert(prasna_counts().take(s as int) =~= prasna_counts());
    urls
}


/// `s` with every trailing `.md` removed.
pub open spec fn without_md(s: Seq<char>) -> Seq<char>
    decreases s.len(),
{
    if s.len() >= 3 && s[s.len() - 3] == '.' && s[s.len() - 2] == 'm' && s[s.len() - 1] == 'd' {
        without_md(s.subrange(0, s.len() - 3))
    } else {
        s
    }
}

/// The kanda and prasna that a chapter address names: its twelfth
/// `/`-separated part (kanda -1 where there are fewer parts) and its last
/// part without the trailing `.md`, each read as an `i32`.
pub open spec fn url_chapter(url: Seq<char>) -> Option<(i32, i32)> {
    let parts = split_on(url, '/');
    let kanda = if parts.len() > 11 {
        parse_i32_spec(parts[11])
    } else {
        Some(-1i32)
    };
    let prasna = parse_i32_spec(without_md(parts.last()));
    if kanda is Some && prasna is Some {
        Some((kanda->0, prasna->0))
    } else {
        None
    }
}

/// The kanda and prasna that a chapter address names; `None` where one of
/// them is not an integer.
pub fn chapter_of_url(url: &str) -> (r: Option<(i32, i32)>)
    ensures
        r == url_chapter(url@),
{
    let cs = chars_of(url);
    let ranges = split_ranges(&cs, '/');
    let ghost parts = split_on(cs@, '/');
    proof {
        lemma_split_on_len(cs@, '/');
    }
    let kanda = if ranges.len() > 11 {
        assert(range_cuts(cs@, ranges@[11], parts[11]));
        parse_i32(&cs, ranges[11].0, ranges[11].1)
    } else {
        Some(-1)
    };
    let (a, end) = ranges[ranges.len() - 1];
    assert(range_cuts(cs@, ranges@[ranges@.len() - 1], parts.last()));
    let mut b: usize = end;
    while b - a >= 3 && cs[b - 3] == '.' && cs[b - 2] == 'm' && cs[b - 1] == 'd'
        invariant
            a <= b <= end <= cs@.len(),
            without_md(cs@.subrange(a as int, end as int)) == without_md(
                cs@.subrange(a as int, b as int),
            ),
        decreases b,
    {
        assert(cs@.subrange(a as int, b as int).subrange(0, b - a - 3) =~= cs@.subrange(
            a as int,
            b - 3,
        ));
        b -= 3;
    }
    let prasna = parse_i32(&cs, a, b);
    match (kanda, prasna) {
        (Some(k), Some(p)) => Some((k, p)),
        _ => None,
    }
}

/// The file that an aggregate of verses named `naming` is written to.
pub fn aggregate_output_path(naming: &str) -> (r: String)
    ensures
        r@ == "./outputs/"@ + naming@ + ".json"@,
{
    let mut out = String::from_str("./outputs/");
    out.append(naming);
    out.append(".json");
    out
}

/// The file that the verses of prasna `prasna` of kanda `kanda` are
/// written to.
pub fn chapter_output_path(kanda: i32, prasna: i32) -> (r: String)
    ensures
        r@ == "samhita/"@ + int_text(kanda as int) + seq!['.'] + int_text(prasna as int)
            + ".json"@,
{
    let mut out = String::from_str("samhita/");
    push_int(&mut out, kanda);
    push_char(&mut out, '.');
    push_int(&mut out, prasna);
    out.append(".json");
    out
}


/// Samhita text: the `TS` header line that opens each verse, whose group 1
/// is the verse's dotted index; the verse runs to the next header.
pub const SAMHITA_HEADER_PATTERN: &'static str = "TS (\\d+\\.\\d+\\.\\d+\\.\\d+)\\n";

/// Padam text: an index, whitespace, then everything up to the next digit.
pub const PADAM_PATTERN: &'static str = "(\\d+\\.\\d+\\.\\d+\\.\\d+)\\s+([^0-9]+)";

/// Kramam text: a `T.S.` header line, then the verse up to a parenthesis or
/// the end of the line.
pub const KRAMAM_PATTERN: &'static str =
    "T\\.S\\.(\\d+\\.\\d+\\.\\d+\\.\\d+) - kramam\\n([^(\\n]+)";

/// Where the transcriptions of the three recitations are published.
pub const TEXTS_BASE: &'static str = "https://raw.githubusercontent.com/KYVeda/texts/master";

/// How verses are laid out in a source text.
#[derive(Debug, Clone, Copy, PartialEq, Eq, Structural)]
pub enum Layout {
    /// A header line before each verse.
    Samhita,
    /// An index before each verse, on the same line.
    Padam,
    /// A `T.S.` header line before each verse, which takes one line.
    Kramam,
}

pub open spec fn layout_pattern(l: Layout) -> Seq<char> {
    match l {
        Layout::Samhita => SAMHITA_HEADER_PATTERN@,
        Layout::Padam => PADAM_PATTERN@,
        Layout::Kramam => KRAMAM_PATTERN@,
    }
}

impl Layout {
    /// The regular expression whose group 1 is a verse's dotted index: for
    /// `Samhita` the header that opens a verse, otherwise a whole verse,
    /// with its text as group 2.
    pub fn pattern(&self) -> (r: &'static str)
        ensures
            r@ == layout_pattern(*self),
    {
        match self {
            Layout::Samhita => SAMHITA_HEADER_PATTERN,
            Layout::Padam => PADAM_PATTERN,
            Layout::Kramam => KRAMAM_PATTERN,
        }
    }
}

/// A source text: where it is published and how its verses are laid out.
pub struct Source {
    pub layout: Layout,
    pub url: String,
}

pub open spec fn source_view(s: Source) -> (Layout, Seq<char>) {
    (s.layout, s.url@)
}

pub open spec fn sources_view(s: Seq<Source>) -> Seq<(Layout, Seq<char>)> {
    s.map_values(|x: Source| source_view(x))
}

/// The order in which the kanda files of the Samhita are read.
pub open spec fn samhita_order() -> Seq<i32> {
    seq![1i32, 3, 2, 4, 5, 6, 7]
}

/// The Samhita file of kanda `k`; the first two files have a lower-case
/// extension.
pub open spec fn samhita_source(k: i32) -> (Layout, Seq<char>) {
    let layout = Layout::Samhita;
    let ext = if k <= 2 {
        "brh"@
    } else {
        "BRH"@
    };
    (
        layout,
        TEXTS_BASE@ + "/saMhitA/0"@ + int_text(k as int) + "/TS%20"@ + int_text(k as int)
            + "%20Baraha."@ + ext,
    )
}

/// Each kanda with the number of its prasnas, as the padam and kramam
/// transcriptions divide them.
pub open spec fn section_counts() -> Seq<(i32, i32)> {
    seq![(1i32, 8i32), (2, 6), (3, 5), (4, 7), (5, 7), (6, 6), (7, 5)]
}

/// The padam or kramam file of prasna `p` of kanda `k`.
pub open spec fn section_source(l: Layout, k: i32, p: i32) -> (Layout, Seq<char>) {
    let (dir, name) = if l == Layout::Padam {
        ("/TS-Padam/TS-"@, "%20Baraha%20Padam.BRH"@)
    } else {
        ("/TS-Kramam/TS-"@, "%20Krama%20Paaatm%20Sanskrit.BRH"@)
    };
    let sec = int_text(k as int) + seq!['.'] + int_text(p as int);
    (l, TEXTS_BASE@ + dir + sec + "/TS%20"@ + sec + name)
}

/// The files of layout `l` for each kanda of `counts`, kanda after kanda,
/// prasna 1 first.
pub open spec fn section_sources(l: Layout, counts: Seq<(i32, i32)>) -> Seq<(Layout, Seq<char>)>
    decreases counts.len(),
{
    if counts.len() == 0 {
        Seq::empty()
    } else {
        let (k, n) = counts.last();
        section_sources(l, counts.drop_last()) + Seq::new(
            n as nat,
            |i: int| section_source(l, k, (i + 1) as i32),
        )
    }
}

/// The Samhita files, each with its layout, in the order they are read.
pub fn samhita_sources() -> (r: Vec<Source>)
    ensures
        sources_view(r@) == samhita_order().map_values(|k: i32| samhita_source(k)),
{
    let order: Vec<i32> = vec![1, 3, 2, 4, 5, 6, 7];
    assert(order@ =~= samhita_order());
    let mut out: Vec<Source> = Vec::new();
    let mut i: usize = 0;
    while i < order.len()
        invariant
            i <= order@.len(),
            order@ == samhita_order(),
            sources_view(out@) == samhita_order().take(i as int).map_values(
                |k: i32| samhita_source(k),
            ),
        decreases order.len() - i,
    {
        let k = order[i];
        let layout = Layout::Samhita;
        let mut url = String::from_str(TEXTS_BASE);
        url.append("/saMhitA/0");
        push_int(&mut url, k);
        url.append("/TS%20");
        push_int(&mut url, k);
        url.append("%20Baraha.");
        if k <= 2 {
            url.append("brh");
        } else {
            url.append("BRH");
        }
        let ghost prev = out@;
        out.push(Source { layout, url });
        proof {
            assert(source_view(out@.last()) == samhita_source(k));
            assert(out@ =~= prev.push(out@.last()));
            assert(sources_view(out@) =~= sources_view(prev).push(samhita_source(k)));
            assert(samhita_order().take(i + 1) =~= samhita_order().take(i as int).push(k));
            assert(samhita_order().take(i + 1).map_values(|k: i32| samhita_source(k))
                =~= samhita_order().take(i as int).map_values(|k: i32| samhita_source(k)).push(
                samhita_source(k),
            ));
        }
        i += 1;
    }
    assert(samhita_order().take(i as int) =~= samhita_order());
    out
}

fn section_source_of(l: Layout, k: i32, p: i32) -> (r: Source)
    requires
        l == Layout::Padam || l == Layout::Kramam,
    ensures
        source_view(r) == section_source(l, k, p),
{
    let mut url = String::from_str(TEXTS_BASE);
    if l == Layout::Padam {
        url.append("/TS-Padam/TS-");
    } else {
        url.append("/TS-Kramam/TS-");
    }
    push_int(&mut url, k);
    push_char(&mut url, '.');
    push_int(&mut url, p);
    url.append("/TS%20");
    push_int(&mut url, k);
    push_char(&mut url, '.');
    push_int(&mut url, p);
    if l == Layout::Padam {
        url.append("%20Baraha%20Padam.BRH");
    } else {
        url.append("%20Krama%20Paaatm%20Sanskrit.BRH");
    }
    let ghost sec = int_text(k as int) + seq!['.'] + int_text(p as int);
    let ghost (dir, name) = if l == Layout::Padam {
        ("/TS-Padam/TS-"@, "%20Baraha%20Padam.BRH"@)
    } else {
        ("/TS-Kramam/TS-"@, "%20Krama%20Paaatm%20Sanskrit.BRH"@)
    };
    assert(url@ =~= TEXTS_BASE@ + dir + sec + "/TS%20"@ + sec + name);
    Source { layout: l, url }
}

/// The padam (`Layout::Padam`) or kramam (`Layout::Kramam`) files, one per
/// prasna, kanda after kanda.
pub fn section_sources_of(l: Layout) -> (r: Vec<Source>)
    requires
        l == Layout::Padam || l == Layout::Kramam,
    ensures
        sources_view(r@) == section_sources(l, section_counts()),
{
    let counts: Vec<(i32, i32)> = vec![(1, 8), (2, 6), (3, 5), (4, 7), (5, 7), (6, 6), (7, 5)];
    assert(counts@ =~= section_counts());
    let mut out: Vec<Source> = Vec::new();
    let mut s: usize = 0;
    assert(section_counts().take(0) =~= Seq::<(i32, i32)>::empty());
    assert(sources_view(out@) =~= Seq::<(Layout, Seq<char>)>::empty());
    while s < counts.len()
        invariant
            s <= counts@.len(),
            counts@ == section_counts(),
            l == Layout::Padam || l == Layout::Kramam,
            sources_view(out@) == section_sources(l, section_counts().take(s as int)),
        decreases counts.len() - s,
    {
        let (k, bound) = counts[s];
        let ghost before = sources_view(out@);
        let mut p: i32 = 1;
        while p <= bound
            invariant
                1 <= p <= bound + 1,
                1 <= bound <= 8,
                l == Layout::Padam || l == Layout::Kramam,
                sources_view(out@) == before + Seq::new(
                    (p - 1) as nat,
                    |i: int| section_source(l, k, (i + 1) as i32),
                ),
            decreases bound + 1 - p,
        {
            let src = section_source_of(l, k, p);
            let ghost prev = out@;
            out.push(src);
            assert(out@ =~= prev.push(src));
            assert(sources_view(out@) =~= sources_view(prev).push(source_view(src)));
            assert(before + Seq::new(p as nat, |i: int| section_source(l, k, (i + 1) as i32))
                =~= before + Seq::new(
                (p - 1) as nat,
                |i: int| section_source(l, k, (i + 1) as i32),
            ).push(section_source(l, k, p)));
            p += 1;
        }
        assert(section_counts().take(s + 1).drop_last() =~= section_counts().take(s as int));
        s += 1;
    }
    assert(section_counts().take(s as int) =~= section_counts());
    out
}


/// The verses that a text of layout `l` holds, found with `pattern`.
pub open spec fn layout_records(l: Layout, pattern: Seq<char>, text: Seq<char>) -> Result<
    Seq<VerseView>,
    ScrapeError,
> {
    if l == Layout::Samhita {
        records_of(headed_groups(capture_groups(pattern, text), split_pieces(pattern, text)))
    } else {
        records_of(capture_groups(pattern, text))
    }
}

/// Stores the verses of `text`, laid out as `l` and found with `pattern`
/// (the compiled `l.pattern()`), in `verses`, in document order. Nothing is
/// stored if a match stops the pass.
pub fn extract_layout(l: Layout, pattern: &Pattern, text: &str, verses: &mut VerseTable) -> (r:
    Result<(), ScrapeError>)
    requires
        old(verses).wf(),
    ensures
        final(verses).wf(),
        match layout_records(l, pattern@, text@) {
            Ok(found) => r is Ok && final(verses)@ == crate::verse::upsert_all(old(verses)@, found),
            Err(e) => r == Err::<(), _>(e) && final(verses)@ == old(verses)@,
        },
{
    if l == Layout::Samhita {
        extract_headed_verses(text, pattern, verses)
    } else {
        extract_verses(text, pattern, verses)
    }
}

} // verus!
