use vstd::prelude::*;

use crate::error::ScrapeError;
use crate::number::{
    canonical_digits, digits_value, int_text, lemma_parse_canonical, parse_i32, parse_i32_spec,
};
use crate::pattern::{capture_groups, captures_of, split_matches, split_pieces, Pattern};
use crate::text::{
    chars_of, lemma_split_on_len, range_cuts, ranges_cut, split_on, split_ranges, trim, trim_str,
};

verus! {

/// One verse: its dotted index as found in the source, the four levels of
/// that index (book, chapter, section, verse), and its trimmed text.
pub struct Verse {
    pub index: String,
    pub bhaga: i32,
    pub kanda: i32,
    pub prasna: i32,
    pub panasa: i32,
    pub text: String,
}

/// A verse as a mathematical value.
pub struct VerseView {
    pub index: Seq<char>,
    pub bhaga: i32,
    pub kanda: i32,
    pub prasna: i32,
    pub panasa: i32,
    pub text: Seq<char>,
}

impl View for Verse {
    type V = VerseView;

    open spec fn view(&self) -> VerseView {
        VerseView {
            index: self.index@,
            bhaga: self.bhaga,
            kanda: self.kanda,
            prasna: self.prasna,
            panasa: self.panasa,
            text: self.text@,
        }
    }
}

pub open spec fn views_of(vs: Seq<Verse>) -> Seq<VerseView> {
    vs.map_values(|v: Verse| v@)
}

/// The integers of a dotted index: the index split at every `.`, each part
/// parsed as an `i32`; `None` if some part does not parse.
pub open spec fn index_parts(index: Seq<char>) -> Option<Seq<i32>> {
    let pieces = split_on(index, '.');
    if forall|i: int| 0 <= i < pieces.len() ==> (#[trigger] parse_i32_spec(pieces[i])) is Some {
        Some(pieces.map_values(|p: Seq<char>| parse_i32_spec(p)->0))
    } else {
        None
    }
}

/// The verse that one match yields, from the text of its capture groups:
/// group 1 is the dotted index, group 2 the body. A match whose index does
/// not have exactly four parts yields nothing; one whose index has a part
/// that is not an integer stops the pass.
pub open spec fn record_of(groups: Seq<Option<Seq<char>>>) -> Result<
    Option<VerseView>,
    ScrapeError,
> {
    if groups.len() < 2 || groups[1] is None {
        Err(ScrapeError::MissingGroup)
    } else {
        let index = groups[1]->0;
        match index_parts(index) {
            None => Err(ScrapeError::MalformedIndex),
            Some(parts) => {
                if groups.len() < 3 || groups[2] is None {
                    Err(ScrapeError::MissingGroup)
                } else if parts.len() == 4 {
                    Ok(
                        Some(
                            VerseView {
                                index,
                                bhaga: parts[0],
                                kanda: parts[1],
                                prasna: parts[2],
                                panasa: parts[3],
                                text: trim(groups[2]->0),
                            },
                        ),
                    )
                } else {
                    Ok(None)
                }
            },
        }
    }
}

/// The verses of a sequence of matches, in order; the first match that
/// stops the pass decides the error.
pub open spec fn records_of(matches: Seq<Seq<Option<Seq<char>>>>) -> Result<
    Seq<VerseView>,
    ScrapeError,
>
    decreases matches.len(),
{
    if matches.len() == 0 {
        Ok(Seq::empty())
    } else {
        match records_of(matches.drop_last()) {
            Err(e) => Err(e),
            Ok(rs) => match record_of(matches.last()) {
                Err(e) => Err(e),
                Ok(None) => Ok(rs),
                Ok(Some(v)) => Ok(rs.push(v)),
            },
        }
    }
}

/// Splits a dotted index at every `.` and parses each part as an `i32`.
pub fn parse_index(index: &str) -> (r: Option<Vec<i32>>)
    ensures
        match r {
            Some(v) => index_parts(index@) == Some(v@),
            None => index_parts(index@) is None,
        },
{
    let cs = chars_of(index);
    let ranges = split_ranges(&cs, '.');
    let ghost pieces = split_on(cs@, '.');
    let mut parts: Vec<i32> = Vec::new();
    let mut i: usize = 0;
    while i < ranges.len()
        invariant
            cs@ == index@,
            pieces == split_on(cs@, '.'),
            ranges@.len() == pieces.len(),
            ranges_cut(cs@, ranges@, pieces),
            i <= ranges@.len(),
            parts@.len() == i,
            forall|j: int| 0 <= j < i ==> parse_i32_spec(pieces[j]) == Some(#[trigger] parts@[j]),
        decreases ranges.len() - i,
    {
        assert(range_cuts(cs@, ranges@[i as int], pieces[i as int]));
        match parse_i32(&cs, ranges[i].0, ranges[i].1) {
            None => {
                return None;
            },
            Some(n) => {
                parts.push(n);
            },
        }
        i += 1;
    }
    assert forall|j: int| 0 <= j < pieces.len() implies (#[trigger] parse_i32_spec(
        pieces[j],
    )) is Some by {
        assert(parse_i32_spec(pieces[j]) == Some(parts@[j]));
    }
    assert(parts@ =~= pieces.map_values(|p: Seq<char>| parse_i32_spec(p)->0));
    Some(parts)
}

/// The verse that one match yields, from the text of its capture groups.
pub fn verse_from_groups(groups: &Vec<Option<String>>) -> (r: Result<Option<Verse>, ScrapeError>)
    ensures
        match r {
            Ok(Some(v)) => record_of(groups.deep_view()) == Ok::<_, ScrapeError>(Some(v@)),
            Ok(None) => record_of(groups.deep_view()) == Ok::<_, ScrapeError>(None::<VerseView>),
            Err(e) => record_of(groups.deep_view()) == Err::<Option<VerseView>, _>(e),
        },
{
    let ghost g = groups.deep_view();
    if groups.len() < 2 {
        return Err(ScrapeError::MissingGroup);
    }
    let index = match &groups[1] {
        Some(s) => s,
        None => {
            return Err(ScrapeError::MissingGroup);
        },
    };
    assert(g[1] == Some(index@));
    let parts = match parse_index(index.as_str()) {
        Some(p) => p,
        None => {
            return Err(ScrapeError::MalformedIndex);
        },
    };
    if groups.len() < 3 {
        return Err(ScrapeError::MissingGroup);
    }
    let body = match &groups[2] {
        Some(s) => s,
        None => {
            return Err(ScrapeError::MissingGroup);
        },
    };
    assert(g[2] == Some(body@));
    if parts.len() == 4 {
        let v = Verse {
            index: index.clone(),
            bhaga: parts[0],
            kanda: parts[1],
            prasna: parts[2],
            panasa: parts[3],
            text: trim_str(body.as_str()),
        };
        Ok(Some(v))
    } else {
        Ok(None)
    }
}

proof fn lemma_records_error_stays(matches: Seq<Seq<Option<Seq<char>>>>, k: int, e: ScrapeError)
    requires
        0 <= k <= matches.len(),
        records_of(matches.take(k)) == Err::<Seq<VerseView>, _>(e),
    ensures
        records_of(matches) == Err::<Seq<VerseView>, _>(e),
    decreases matches.len() - k,
{
    if k < matches.len() {
        assert(matches.take(k + 1).drop_last() =~= matches.take(k));
        lemma_records_error_stays(matches, k + 1, e);
    } else {
        assert(matches.take(k) =~= matches);
    }
}

/// The verses of a sequence of matches, each given by the text of its
/// capture groups, in the order of the matches.
pub fn verses_from_captures(matches: &Vec<Vec<Option<String>>>) -> (r: Result<
    Vec<Verse>,
    ScrapeError,
>)
    ensures
        match r {
            Ok(vs) => records_of(matches.deep_view()) == Ok::<_, ScrapeError>(views_of(vs@)),
            Err(e) => records_of(matches.deep_view()) == Err::<Seq<VerseView>, _>(e),
        },
{
    let ghost ms = matches.deep_view();
    let mut out: Vec<Verse> = Vec::new();
    let mut i: usize = 0;
    assert(ms.take(0) =~= Seq::<Seq<Option<Seq<char>>>>::empty());
    assert(views_of(out@) =~= Seq::<VerseView>::empty());
    while i < matches.len()
        invariant
            i <= matches@.len(),
            ms == matches.deep_view(),
            records_of(ms.take(i as int)) == Ok::<_, ScrapeError>(views_of(out@)),
        decreases matches.len() - i,
    {
        let step = verse_from_groups(&matches[i]);
        let ghost old_out = out@;
        proof {
            assert(ms.take(i + 1).drop_last() =~= ms.take(i as int));
            assert(ms.take(i + 1).last() == matches@[i as int].deep_view());
        }
        match step {
            Err(e) => {
                proof {
                    lemma_records_error_stays(ms, i + 1, e);
                }
                return Err(e);
            },
            Ok(None) => {},
            Ok(Some(v)) => {
                out.push(v);
                assert(views_of(out@) =~= views_of(old_out).push(v@));
            },
        }
        i += 1;
    }
    assert(ms.take(i as int) =~= ms);
    Ok(out)
}


/// No two entries of `s` share an index.
pub open spec fn keys_unique(s: Seq<VerseView>) -> bool {
    forall|i: int, j: int| 0 <= i < j < s.len() ==> s[i].index != s[j].index
}

pub open spec fn has_key(s: Seq<VerseView>, k: Seq<char>) -> bool {
    exists|i: int| 0 <= i < s.len() && s[i].index == k
}

/// `s` with `v` stored under its index: the entry that has that index is
/// replaced where it stands, or else `v` comes last.
pub open spec fn upsert(s: Seq<VerseView>, v: VerseView) -> Seq<VerseView> {
    if has_key(s, v.index) {
        s.update(choose|i: int| 0 <= i < s.len() && s[i].index == v.index, v)
    } else {
        s.push(v)
    }
}

/// `s` with each of `vs` stored in turn, so a later verse with an index
/// already present replaces the earlier one.
pub open spec fn upsert_all(s: Seq<VerseView>, vs: Seq<VerseView>) -> Seq<VerseView>
    decreases vs.len(),
{
    if vs.len() == 0 {
        s
    } else {
        upsert(upsert_all(s, vs.drop_last()), vs.last())
    }
}

/// Verses keyed by their dotted index, in the order in which each index
/// was first stored.
pub struct VerseTable {
    entries: Vec<Verse>,
}

impl View for VerseTable {
    type V = Seq<VerseView>;

    closed spec fn view(&self) -> Seq<VerseView> {
        views_of(self.entries@)
    }
}

impl VerseTable {
    pub open spec fn wf(&self) -> bool {
        keys_unique(self@)
    }

    pub fn new() -> (r: VerseTable)
        ensures
            r.wf(),
            r@ == Seq::<VerseView>::empty(),
    {
        let r = VerseTable { entries: Vec::new() };
        assert(r@ =~= Seq::<VerseView>::empty());
        r
    }

    pub fn len(&self) -> (r: usize)
        ensures
            r == self@.len(),
    {
        self.entries.len()
    }

    /// The stored verses, in the order in which each index was first stored.
    pub fn entries(&self) -> (r: &Vec<Verse>)
        ensures
            views_of(r@) == self@,
    {
        &self.entries
    }

    /// The position of the verse stored under `index`, if any.
    pub fn position(&self, index: &String) -> (r: Option<usize>)
        requires
            self.wf(),
        ensures
            match r {
                Some(i) => i < self@.len() && self@[i as int].index == index@,
                None => !has_key(self@, index@),
            },
    {
        let mut i: usize = 0;
        while i < self.entries.len()
            invariant
                i <= self.entries@.len(),
                forall|j: int| 0 <= j < i ==> self@[j].index != index@,
            decreases self.entries.len() - i,
        {
            assert(self@[i as int] == self.entries@[i as int]@);
            if self.entries[i].index.eq(index) {
                return Some(i);
            }
            i += 1;
        }
        None
    }

    /// Stores `v` under its index, replacing the verse stored there before.
    pub fn insert(&mut self, v: Verse)
        requires
            old(self).wf(),
        ensures
            final(self).wf(),
            final(self)@ == upsert(old(self)@, v@),
    {
        let ghost before = self@;
        match self.position(&v.index) {
            Some(i) => {
                proof {
                    let j = choose|j: int| 0 <= j < before.len() && before[j].index == v@.index;
                    assert(j == i);
                }
                self.entries.set(i, v);
                assert(self@ =~= before.update(i as int, v@));
            },
            None => {
                self.entries.push(v);
                assert(self@ =~= before.push(v@));
            },
        }
    }
}

/// Group `j` of a match, or `None` where the match has no such group.
pub open spec fn group_at(groups: Seq<Option<Seq<char>>>, j: int) -> Option<Seq<char>> {
    if 0 <= j < groups.len() {
        groups[j]
    } else {
        None
    }
}

/// The groups of the verses that headers open: for header `i`, its own
/// groups 0 and 1 (the index), and as group 2 the text that follows it up to
/// the next header, which is piece `i + 1` of the text split at the headers.
pub open spec fn headed_groups(
    headers: Seq<Seq<Option<Seq<char>>>>,
    pieces: Seq<Seq<char>>,
) -> Seq<Seq<Option<Seq<char>>>> {
    Seq::new(
        headers.len(),
        |i: int|
            seq![
                group_at(headers[i], 0),
                group_at(headers[i], 1),
                if i + 1 < pieces.len() {
                    Some(pieces[i + 1])
                } else {
                    None
                },
            ],
    )
}

fn copy_group(groups: &Vec<Option<String>>, j: usize) -> (r: Option<String>)
    ensures
        r.deep_view() == group_at(groups.deep_view(), j as int),
{
    if j < groups.len() {
        match &groups[j] {
            Some(s) => Some(s.clone()),
            None => None,
        }
    } else {
        None
    }
}

/// The verses of a text whose every verse opens with a header: `headers`
/// holds the capture groups of each header, `pieces` the text split at the
/// headers.
pub fn verses_from_headers(headers: &Vec<Vec<Option<String>>>, pieces: &Vec<String>) -> (r: Result<
    Vec<Verse>,
    ScrapeError,
>)
    ensures
        match r {
            Ok(vs) => records_of(headed_groups(headers.deep_view(), pieces.deep_view())) == Ok::<
                _,
                ScrapeError,
            >(views_of(vs@)),
            Err(e) => records_of(headed_groups(headers.deep_view(), pieces.deep_view())) == Err::<
                Seq<VerseView>,
                _,
            >(e),
        },
{
    let ghost want = headed_groups(headers.deep_view(), pieces.deep_view());
    let mut groups: Vec<Vec<Option<String>>> = Vec::new();
    let mut i: usize = 0;
    while i < headers.len()
        invariant
            i <= headers@.len(),
            want == headed_groups(headers.deep_view(), pieces.deep_view()),
            groups@.len() == i,
            forall|j: int| 0 <= j < i ==> (#[trigger] groups@[j]).deep_view() == want[j],
        decreases headers.len() - i,
    {
        let mut g: Vec<Option<String>> = Vec::new();
        g.push(copy_group(&headers[i], 0));
        g.push(copy_group(&headers[i], 1));
        if i + 1 < pieces.len() {
            g.push(Some(pieces[i + 1].clone()));
        } else {
            g.push(None);
        }
        assert(g.deep_view() =~= want[i as int]);
        groups.push(g);
        i += 1;
    }
    assert(groups.deep_view() =~= want);
    verses_from_captures(&groups)
}

/// Stores each of `found` in `verses`, in order.
fn store_all(verses: &mut VerseTable, found: Vec<Verse>)
    requires
        old(verses).wf(),
    ensures
        final(verses).wf(),
        final(verses)@ == upsert_all(old(verses)@, views_of(found@)),
{
    let ghost start = verses@;
    let ghost all = views_of(found@);
    for v in it: found
        invariant
            verses.wf(),
            all == views_of(it.seq()),
            verses@ == upsert_all(start, all.take(it.index() as int)),
    {
        proof {
            assert(all.take(it.index() + 1).drop_last() =~= all.take(it.index() as int));
        }
        verses.insert(v);
    }
    assert(all.take(all.len() as int) =~= all);
}

/// Finds every match of `pattern` in `text` and stores the verses they
/// yield in `verses`, in document order. Nothing is stored if a match stops
/// the pass.
pub fn extract_verses(text: &str, pattern: &Pattern, verses: &mut VerseTable) -> (r: Result<
    (),
    ScrapeError,
>)
    requires
        old(verses).wf(),
    ensures
        final(verses).wf(),
        match records_of(capture_groups(pattern@, text@)) {
            Ok(found) => r is Ok && final(verses)@ == upsert_all(old(verses)@, found),
            Err(e) => r == Err::<(), _>(e) && final(verses)@ == old(verses)@,
        },
{
    let matches = captures_of(pattern, text);
    match verses_from_captures(&matches) {
        Ok(found) => {
            store_all(verses, found);
            Ok(())
        },
        Err(e) => Err(e),
    }
}

/// Splits `text` at every match of `header` and stores the verses that the
/// headers open in `verses`, in document order: each verse runs from its
/// header to the next one. Nothing is stored if a header stops the pass.
pub fn extract_headed_verses(text: &str, header: &Pattern, verses: &mut VerseTable) -> (r: Result<
    (),
    ScrapeError,
>)
    requires
        old(verses).wf(),
    ensures
        final(verses).wf(),
        match records_of(
            headed_groups(capture_groups(header@, text@), split_pieces(header@, text@)),
        ) {
            Ok(found) => r is Ok && final(verses)@ == upsert_all(old(verses)@, found),
            Err(e) => r == Err::<(), _>(e) && final(verses)@ == old(verses)@,
        },
{
    let headers = captures_of(header, text);
    let pieces = split_matches(header, text);
    match verses_from_headers(&headers, &pieces) {
        Ok(found) => {
            store_all(verses, found);
            Ok(())
        },
        Err(e) => Err(e),
    }
}

/// `pieces` joined with a `.` between each two.
pub open spec fn joined(pieces: Seq<Seq<char>>) -> Seq<char>
    decreases pieces.len(),
{
    if pieces.len() == 0 {
        Seq::empty()
    } else if pieces.len() == 1 {
        pieces[0]
    } else {
        joined(pieces.drop_last()) + seq!['.'] + pieces.last()
    }
}

/// `parts` written in decimal and joined with `.`.
pub open spec fn dotted(parts: Seq<i32>) -> Seq<char> {
    joined(parts.map_values(|n: i32| int_text(n as int)))
}

/// An index as the sources write one: exactly four parts between dots,
/// each plain decimal digits without a leading zero, fitting in an `i32`.
pub open spec fn well_formed_index(s: Seq<char>) -> bool {
    let pieces = split_on(s, '.');
    &&& pieces.len() == 4
    &&& forall|i: int|
        0 <= i < 4 ==> canonical_digits(#[trigger] pieces[i]) && digits_value(pieces[i])
            <= i32::MAX
}

proof fn lemma_joined_push(pieces: Seq<Seq<char>>, c: char)
    requires
        pieces.len() >= 1,
    ensures
        joined(pieces.update(pieces.len() - 1, pieces.last().push(c))) == joined(pieces).push(c),
{
    let up = pieces.update(pieces.len() - 1, pieces.last().push(c));
    if pieces.len() > 1 {
        assert(up.drop_last() =~= pieces.drop_last());
    }
    assert(joined(up) =~= joined(pieces).push(c));
}

/// Joining the pieces of `s` at `.` gives `s` again.
proof fn lemma_joined_split(s: Seq<char>)
    ensures
        joined(split_on(s, '.')) == s,
    decreases s.len(),
{
    if s.len() > 0 {
        let init = split_on(s.drop_last(), '.');
        lemma_joined_split(s.drop_last());
        lemma_split_on_len(s.drop_last(), '.');
        if s.last() == '.' {
            assert(init.push(Seq::empty()).drop_last() =~= init);
            assert(joined(init.push(Seq::empty())) =~= s);
        } else {
            lemma_joined_push(init, s.last());
            assert(s.drop_last().push(s.last()) =~= s);
        }
    }
}

/// The four integers of a well-formed index, written back in decimal and
/// joined with `.`, give the index again; a match with such an index and a
/// body yields a verse whose levels do the same.
pub proof fn lemma_index_round_trip(groups: Seq<Option<Seq<char>>>)
    requires
        groups.len() >= 3,
        groups[1] is Some,
        groups[2] is Some,
        well_formed_index(groups[1]->0),
    ensures
        index_parts(groups[1]->0) matches Some(parts) && parts.len() == 4 && dotted(parts)
            == groups[1]->0,
        record_of(groups) matches Ok(Some(v)) && v.index == groups[1]->0 && dotted(
            seq![v.bhaga, v.kanda, v.prasna, v.panasa],
        ) == v.index,
{
    let s = groups[1]->0;
    let pieces = split_on(s, '.');
    assert forall|i: int| 0 <= i < pieces.len() implies (#[trigger] parse_i32_spec(
        pieces[i],
    )) is Some by {
        lemma_parse_canonical(pieces[i]);
    }
    let parts = pieces.map_values(|p: Seq<char>| parse_i32_spec(p)->0);
    assert(parts.map_values(|n: i32| int_text(n as int)) =~= pieces) by {
        assert forall|i: int| 0 <= i < pieces.len() implies int_text(parts[i] as int)
            == pieces[i] by {
            lemma_parse_canonical(pieces[i]);
        }
    }
    lemma_joined_split(s);
    assert(seq![parts[0], parts[1], parts[2], parts[3]] =~= parts);
}

/// A match whose index has a part that is not an integer stops the pass;
/// one whose index has other than four parts yields no verse; and a verse
/// that is yielded carries the index as found, with exactly its four parts.
pub proof fn lemma_malformed_index_rejected(groups: Seq<Option<Seq<char>>>)
    requires
        groups.len() >= 3,
        groups[1] is Some,
        groups[2] is Some,
    ensures
        index_parts(groups[1]->0) is None ==> record_of(groups) == Err::<Option<VerseView>, _>(
            ScrapeError::MalformedIndex,
        ),
        index_parts(groups[1]->0) matches Some(p) && p.len() != 4 ==> record_of(groups) == Ok::<
            _,
            ScrapeError,
        >(None::<VerseView>),
        record_of(groups) matches Ok(Some(v)) ==> v.index == groups[1]->0 && index_parts(v.index)
            == Some(seq![v.bhaga, v.kanda, v.prasna, v.panasa]),
{
    if let Some(p) = index_parts(groups[1]->0) {
        if p.len() == 4 {
            assert(seq![p[0], p[1], p[2], p[3]] =~= p);
        }
    }
}

/// Every verse that a pass yields carries exactly the four parts of its
/// own index: no index is cut short or padded.
pub proof fn lemma_extracted_indices_exact(matches: Seq<Seq<Option<Seq<char>>>>)
    ensures
        records_of(matches) matches Ok(rs) ==> forall|i: int|
            0 <= i < rs.len() ==> index_parts((#[trigger] rs[i]).index) == Some(
                seq![rs[i].bhaga, rs[i].kanda, rs[i].prasna, rs[i].panasa],
            ),
    decreases matches.len(),
{
    if matches.len() > 0 {
        lemma_extracted_indices_exact(matches.drop_last());
        let m = matches.last();
        if m.len() >= 3 && m[1] is Some && m[2] is Some {
            lemma_malformed_index_rejected(m);
        }
    }
}


/// An index that yields a verse: exactly four parts, each an integer.
pub open spec fn four_part_index(s: Seq<char>) -> bool {
    index_parts(s) matches Some(p) && p.len() == 4
}

proof fn lemma_upsert_keys(s: Seq<VerseView>, v: VerseView, k: Seq<char>)
    ensures
        has_key(upsert(s, v), k) <==> (has_key(s, k) || v.index == k),
{
    if has_key(s, v.index) {
        let i = choose|i: int| 0 <= i < s.len() && s[i].index == v.index;
        let t = s.update(i, v);
        if has_key(s, k) {
            let j = choose|j: int| 0 <= j < s.len() && s[j].index == k;
            assert(t[j].index == k);
        }
        if has_key(t, k) {
            let j = choose|j: int| 0 <= j < t.len() && t[j].index == k;
            assert(s[j].index == k);
        }
    } else {
        let t = s.push(v);
        if has_key(s, k) {
            let j = choose|j: int| 0 <= j < s.len() && s[j].index == k;
            assert(t[j].index == k);
        }
        if v.index == k {
            assert(t[s.len() as int].index == k);
        }
        if has_key(t, k) {
            let j = choose|j: int| 0 <= j < t.len() && t[j].index == k;
            if j < s.len() {
                assert(s[j].index == k);
            }
        }
    }
}

proof fn lemma_upsert_all_keys(s: Seq<VerseView>, vs: Seq<VerseView>, k: Seq<char>)
    ensures
        has_key(upsert_all(s, vs), k) <==> (has_key(s, k) || has_key(vs, k)),
    decreases vs.len(),
{
    if vs.len() > 0 {
        let init = vs.drop_last();
        lemma_upsert_all_keys(s, init, k);
        lemma_upsert_keys(upsert_all(s, init), vs.last(), k);
        if has_key(init, k) {
            let j = choose|j: int| 0 <= j < init.len() && init[j].index == k;
            assert(vs[j].index == k);
        }
        if vs.last().index == k {
            assert(vs[vs.len() - 1].index == k);
        }
        if has_key(vs, k) {
            let j = choose|j: int| 0 <= j < vs.len() && vs[j].index == k;
            if j < init.len() {
                assert(init[j].index == k);
            }
        }
    }
}

/// Where a pass succeeds, every match has an index; a match's index comes
/// out as a verse exactly when it has four integer parts; and every verse
/// comes from a match.
proof fn lemma_records_indices(ms: Seq<Seq<Option<Seq<char>>>>)
    ensures
        records_of(ms) matches Ok(rs) ==> {
            &&& forall|i: int| 0 <= i < ms.len() ==> (#[trigger] group_at(ms[i], 1)) is Some
            &&& forall|i: int|
                0 <= i < ms.len() && four_part_index(group_at(ms[i], 1)->0) ==> has_key(
                    rs,
                    (#[trigger] group_at(ms[i], 1))->0,
                )
            &&& forall|j: int|
                0 <= j < rs.len() ==> four_part_index((#[trigger] rs[j]).index) && exists|i: int|
                    0 <= i < ms.len() && group_at(ms[i], 1) == Some(rs[j].index)
        },
    decreases ms.len(),
{
    if ms.len() > 0 {
        let init = ms.drop_last();
        let last = ms.last();
        lemma_records_indices(init);
        if let Ok(rs) = records_of(ms) {
            let rs0 = records_of(init)->Ok_0;
            assert(records_of(init) is Ok);
            assert(record_of(last) is Ok);
            assert(group_at(last, 1) is Some);
            assert forall|i: int| 0 <= i < ms.len() implies (#[trigger] group_at(
                ms[i],
                1,
            )) is Some by {
                if i < init.len() {
                    assert(ms[i] == init[i]);
                    assert(group_at(init[i], 1) is Some);
                }
            }
            assert forall|i: int|
                0 <= i < ms.len() && four_part_index(group_at(ms[i], 1)->0) implies has_key(
                rs,
                (#[trigger] group_at(ms[i], 1))->0,
            ) by {
                let k = group_at(ms[i], 1)->0;
                if i < init.len() {
                    assert(ms[i] == init[i]);
                    assert(group_at(init[i], 1)->0 == k);
                    assert(has_key(rs0, k));
                    let j = choose|j: int| 0 <= j < rs0.len() && rs0[j].index == k;
                    assert(rs[j] == rs0[j]);
                } else {
                    assert(ms[i] == last);
                    let v = record_of(last)->Ok_0->0;
                    assert(rs[rs.len() - 1] == v);
                    assert(rs[rs.len() - 1].index == k);
                }
            }
            assert forall|j: int| 0 <= j < rs.len() implies four_part_index(
                (#[trigger] rs[j]).index,
            ) && exists|i: int| 0 <= i < ms.len() && group_at(ms[i], 1) == Some(rs[j].index) by {
                if j < rs0.len() {
                    assert(rs[j] == rs0[j]);
                    assert(four_part_index(rs0[j].index));
                    let i = choose|i: int|
                        0 <= i < init.len() && group_at(init[i], 1) == Some(rs0[j].index);
                    assert(ms[i] == init[i]);
                } else {
                    let v = record_of(last)->Ok_0->0;
                    assert(rs[j] == v);
                    assert(ms[ms.len() - 1] == last);
                }
            }
        }
    }
}

/// After a pass that succeeds, the table holds the index of a match exactly
/// when it held it before or the index has four integer parts; and every
/// index that the table holds it held before, or it is the index of a match
/// and has four integer parts. A malformed index is never stored, cut
/// short or padded.
pub proof fn lemma_pass_stores_well_formed_indices(
    before: Seq<VerseView>,
    matches: Seq<Seq<Option<Seq<char>>>>,
)
    ensures
        records_of(matches) matches Ok(found) ==> {
            &&& forall|i: int|
                0 <= i < matches.len() ==> (#[trigger] group_at(matches[i], 1)) is Some && (has_key(
                    upsert_all(before, found),
                    group_at(matches[i], 1)->0,
                ) <==> (has_key(before, group_at(matches[i], 1)->0) || four_part_index(
                    group_at(matches[i], 1)->0,
                )))
            &&& forall|k: Seq<char>|
                #[trigger] has_key(upsert_all(before, found), k) ==> has_key(before, k) || (
                four_part_index(k) && exists|i: int|
                    0 <= i < matches.len() && group_at(matches[i], 1) == Some(k))
        },
{
    lemma_records_indices(matches);
    if let Ok(found) = records_of(matches) {
        let after = upsert_all(before, found);
        assert forall|i: int| 0 <= i < matches.len() implies (#[trigger] group_at(
            matches[i],
            1,
        )) is Some && (has_key(after, group_at(matches[i], 1)->0) <==> (has_key(
            before,
            group_at(matches[i], 1)->0,
        ) || four_part_index(group_at(matches[i], 1)->0))) by {
            let k = group_at(matches[i], 1)->0;
            lemma_upsert_all_keys(before, found, k);
            if has_key(found, k) {
                let j = choose|j: int| 0 <= j < found.len() && found[j].index == k;
                assert(four_part_index(found[j].index));
            }
        }
        assert forall|k: Seq<char>| #[trigger] has_key(after, k) implies has_key(before, k) || (
        four_part_index(k) && exists|i: int|
            0 <= i < matches.len() && group_at(matches[i], 1) == Some(k)) by {
            lemma_upsert_all_keys(before, found, k);
            if !has_key(before, k) {
                let j = choose|j: int| 0 <= j < found.len() && found[j].index == k;
                assert(four_part_index(found[j].index));
            }
        }
    }
}

} // verus!
