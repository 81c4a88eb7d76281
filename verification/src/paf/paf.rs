//! Parsing of pairwise-mapping records: tab-delimited alignment lines whose
//! optional tags carry the edit script, plus the name-to-length lookup the
//! filter consults.

use vstd::prelude::*;
use crate::filter::types::Strand;
use crate::text::{dec_val, is_dec, split_ws, split_lines, split_whitespace_owned,
    split_lines_owned, parse_u32};

verus! {

/// Is `x` a digit string whose value fits a `u32`?
pub open spec fn pnum_ok(x: Seq<char>) -> bool {
    is_dec(x) && dec_val(x) <= u32::MAX
}

/// Does this field hold the adjacent characters `cg` anywhere?
pub open spec fn contains_cg(x: Seq<char>) -> bool {
    exists|i: int| 0 <= i && i + 1 < x.len() && x[i] == 'c' && #[trigger] x[i + 1] == 'g'
}

/// The first field index at or after `j` whose text holds `cg`, or the field
/// count when there is none.
pub open spec fn first_cg_from(t: Seq<Seq<char>>, j: int) -> int
    decreases t.len() - j
        when 0 <= j <= t.len()
{
    if j >= t.len() {
        t.len() as int
    } else if contains_cg(t[j]) {
        j
    } else {
        first_cg_from(t, j + 1)
    }
}

pub proof fn lemma_first_cg_is_scan(t: Seq<Seq<char>>, j0: int, j: int)
    requires
        0 <= j0 <= j <= t.len(),
        forall|m: int| j0 <= m < j ==> !contains_cg(#[trigger] t[m]),
        j == t.len() || contains_cg(t[j]),
    ensures
        first_cg_from(t, j0) == j,
    decreases j - j0,
{
    if j0 < j {
        lemma_first_cg_is_scan(t, j0 + 1, j);
    }
}

/// A well-formed alignment line: at least ten fields, numeric coordinates, a
/// single-character strand field, and an edit-script tag (a field from the
/// tenth on holding `cg`) long enough to carry a prefix of five characters.
pub open spec fn paf_line_wf(s: Seq<char>) -> bool {
    let t = split_ws(s);
    &&& t.len() >= 10
    &&& pnum_ok(t[1])
    &&& pnum_ok(t[2])
    &&& pnum_ok(t[3])
    &&& t[4].len() == 1
    &&& pnum_ok(t[6])
    &&& pnum_ok(t[7])
    &&& pnum_ok(t[8])
    &&& first_cg_from(t, 9) < t.len()
    &&& t[first_cg_from(t, 9)].len() >= 5
}

/// One alignment record.
#[derive(PartialEq, Debug)]
pub struct PafAlignment {
    pub query: String,
    pub query_length: u32,
    pub query_start: u32,
    pub query_end: u32,
    pub strand: Strand,
    pub target: String,
    pub target_length: u32,
    pub target_start: u32,
    pub target_end: u32,
    pub cigar: String,
}

impl PafAlignment {
    /// The fields a parse of `s` must hold: the named columns, and the text
    /// after the five-character tag prefix of the first `cg` field.
    pub open spec fn parsed_from(&self, s: Seq<char>) -> bool {
        let t = split_ws(s);
        let cgi = first_cg_from(t, 9);
        &&& self.query@ == t[0]
        &&& self.query_length == dec_val(t[1])
        &&& self.query_start == dec_val(t[2])
        &&& self.query_end == dec_val(t[3])
        &&& self.strand == (if t[4][0] == '+' {
            Strand::Forward
        } else {
            Strand::Reverse
        })
        &&& self.target@ == t[5]
        &&& self.target_length == dec_val(t[6])
        &&& self.target_start == dec_val(t[7])
        &&& self.target_end == dec_val(t[8])
        &&& self.cigar@ == t[cgi].subrange(5, t[cgi].len() as int)
    }

    /// Build a record from its fields.
    pub fn new(
        query: &str,
        query_length: u32,
        query_start: u32,
        query_end: u32,
        strand: Strand,
        target: &str,
        target_length: u32,
        target_start: u32,
        target_end: u32,
        cigar: &str,
    ) -> (r: PafAlignment)
        ensures
            r.query@ == query@,
            r.query_length == query_length,
            r.query_start == query_start,
            r.query_end == query_end,
            r.strand == strand,
            r.target@ == target@,
            r.target_length == target_length,
            r.target_start == target_start,
            r.target_end == target_end,
            r.cigar@ == cigar@,
    {
        PafAlignment {
            query: String::from_str(query),
            query_length,
            query_start,
            query_end,
            strand,
            target: String::from_str(target),
            target_length,
            target_start,
            target_end,
            cigar: String::from_str(cigar),
        }
    }

    /// Parse every line of `lines`, in order.
    pub fn from_lines(lines: Vec<String>) -> (r: Vec<PafAlignment>)
        requires
            forall|i: int| 0 <= i < lines@.len() ==> paf_line_wf(#[trigger] lines@[i]@),
        ensures
            r@.len() == lines@.len(),
            forall|i: int| 0 <= i < lines@.len() ==> #[trigger] r@[i].parsed_from(lines@[i]@),
    {
        let mut out: Vec<PafAlignment> = Vec::new();
        let mut i: usize = 0;
        while i < lines.len()
            invariant
                i <= lines@.len(),
                forall|k: int| 0 <= k < lines@.len() ==> paf_line_wf(#[trigger] lines@[k]@),
                out@.len() == i,
                forall|k: int| 0 <= k < i ==> #[trigger] out@[k].parsed_from(lines@[k]@),
            decreases lines@.len() - i,
        {
            let l = PafAlignment::from_str(lines[i].as_str());
            out.push(l);
            i = i + 1;
        }
        out
    }

    /// Parse one well-formed alignment line.
    pub fn from_str(line: &str) -> (r: PafAlignment)
        requires
            paf_line_wf(line@),
        ensures
            r.parsed_from(line@),
    {
        match PafAlignment::try_from_str(line) {
            Some(r) => r,
            None => vstd::pervasive::unreached(),
        }
    }

    /// Total parse: `None` exactly when the line is not well-formed.
    pub fn try_from_str(line: &str) -> (r: Option<PafAlignment>)
        ensures
            r is Some <==> paf_line_wf(line@),
            r is Some ==> r->0.parsed_from(line@),
    {
        let toks = split_whitespace_owned(line);
        proof {
            assert(toks@.len() == toks.deep_view().len());
        }
        if toks.len() < 10 {
            return None;
        }
        proof {
            assert forall|k: int| 0 <= k < toks@.len() implies (#[trigger] toks@[k])@ == split_ws(
                line@,
            )[k] by {
                assert(toks.deep_view()[k] == toks@[k]@);
            }
        }
        let query_length = match parse_u32(toks[1].as_str()) {
            Some(v) => v,
            None => {
                return None;
            },
        };
        let query_start = match parse_u32(toks[2].as_str()) {
            Some(v) => v,
            None => {
                return None;
            },
        };
        let query_end = match parse_u32(toks[3].as_str()) {
            Some(v) => v,
            None => {
                return None;
            },
        };
        if toks[4].as_str().unicode_len() != 1 {
            return None;
        }
        let target_length = match parse_u32(toks[6].as_str()) {
            Some(v) => v,
            None => {
                return None;
            },
        };
        let target_start = match parse_u32(toks[7].as_str()) {
            Some(v) => v,
            None => {
                return None;
            },
        };
        let target_end = match parse_u32(toks[8].as_str()) {
            Some(v) => v,
            None => {
                return None;
            },
        };
        let cgi = match find_cg_field(&toks) {
            Some(j) => j,
            None => {
                return None;
            },
        };
        let cg_tok = toks[cgi].as_str();
        let cg_len = cg_tok.unicode_len();
        if cg_len < 5 {
            return None;
        }
        let cigar_str = cg_tok.substring_char(5, cg_len);
        let strand = Strand::from_char(toks[4].as_str().get_char(0));
        Some(
            PafAlignment {
                query: toks[0].clone(),
                query_length,
                query_start,
                query_end,
                strand,
                target: toks[5].clone(),
                target_length,
                target_start,
                target_end,
                cigar: String::from_str(cigar_str),
            },
        )
    }
}

/// Does this field's text hold the adjacent characters `cg`?
fn contains_cg_exec(tok: &str) -> (r: bool)
    ensures
        r == contains_cg(tok@),
{
    let n = tok.unicode_len();
    if n < 2 {
        return false;
    }
    let mut i: usize = 0;
    while i < n - 1
        invariant
            2 <= n == tok@.len(),
            0 <= i,
            i <= n,
            forall|m: int| 0 <= m && m + 1 < i + 1 ==> !(tok@[m] == 'c' && #[trigger] tok@[m + 1]
                == 'g'),
        decreases n - i,
    {
        if tok.get_char(i) == 'c' && tok.get_char(i + 1) == 'g' {
            return true;
        }
        i = i + 1;
    }
    false
}

/// The first field from the tenth on that holds `cg`, if any.
fn find_cg_field(toks: &Vec<String>) -> (r: Option<usize>)
    requires
        toks@.len() >= 10,
    ensures
        r is Some ==> 9 <= r->0 < toks@.len() && r->0 as int == first_cg_from(toks.deep_view(), 9),
        r is None ==> first_cg_from(toks.deep_view(), 9) == toks@.len(),
{
    let mut j: usize = 9;
    while j < toks.len()
        invariant
            9 <= j <= toks@.len(),
            toks@.len() == toks.deep_view().len(),
            forall|m: int| 9 <= m < j ==> !contains_cg(#[trigger] toks.deep_view()[m]),
        decreases toks@.len() - j,
    {
        if contains_cg_exec(toks[j].as_str()) {
            proof {
                assert(toks.deep_view()[j as int] == toks@[j as int]@);
                lemma_first_cg_is_scan(toks.deep_view(), 9, j as int);
            }
            return Some(j);
        }
        proof {
            assert(toks.deep_view()[j as int] == toks@[j as int]@);
        }
        j = j + 1;
    }
    proof {
        lemma_first_cg_is_scan(toks.deep_view(), 9, toks.deep_view().len() as int);
    }
    None
}

/// Per-sequence metadata: the declared length.
#[derive(Clone, Copy, Debug)]
pub struct PafMetadata {
    pub length: u32,
}

/// A (target, query) name pair of one alignment.
#[derive(Debug, PartialEq, Eq, Hash)]
pub struct AlignmentPair {
    pub target_name: String,
    pub query_name: String,
}

/// The key of a pair.
pub open spec fn apair_key(p: AlignmentPair) -> (Seq<char>, Seq<char>) {
    (p.target_name@, p.query_name@)
}

/// The (target, query) key of an alignment record.
pub open spec fn aln_key(a: PafAlignment) -> (Seq<char>, Seq<char>) {
    (a.target@, a.query@)
}

/// A name-to-length lookup with distinct keys.
#[derive(Debug)]
pub struct PafLookup {
    entries: Vec<(String, PafMetadata)>,
}

/// The map described by a list of entries, later entries overriding earlier
/// ones.
pub open spec fn map_of(es: Seq<(String, PafMetadata)>) -> Map<Seq<char>, u32>
    decreases es.len(),
{
    if es.len() == 0 {
        Map::empty()
    } else {
        map_of(es.drop_last()).insert(es.last().0@, es.last().1.length)
    }
}

impl View for PafLookup {
    type V = Map<Seq<char>, u32>;

    closed spec fn view(&self) -> Map<Seq<char>, u32> {
        map_of(self.entries@)
    }
}

/// The domain of an entry list's map is exactly its key views.
proof fn lemma_map_of_dom(es: Seq<(String, PafMetadata)>)
    ensures
        forall|k: Seq<char>|
            map_of(es).dom().contains(k) <==> exists|i: int|
                0 <= i < es.len() && (#[trigger] es[i]).0@ == k,
    decreases es.len(),
{
    if es.len() > 0 {
        lemma_map_of_dom(es.drop_last());
        let pre = es.drop_last();
        assert forall|k: Seq<char>| map_of(es).dom().contains(k) implies exists|i: int|
            0 <= i < es.len() && (#[trigger] es[i]).0@ == k by {
            if k == es.last().0@ {
                assert(es[es.len() - 1].0@ == k);
            } else {
                assert(map_of(pre).dom().contains(k));
                let i = choose|i: int| 0 <= i < pre.len() && (#[trigger] pre[i]).0@ == k;
                assert(es[i] == pre[i]);
                assert(es[i].0@ == k);
            }
        }
        assert forall|k: Seq<char>|
            (exists|i: int| 0 <= i < es.len() && (#[trigger] es[i]).0@ == k) implies map_of(
            es,
        ).dom().contains(k) by {
            let i = choose|i: int| 0 <= i < es.len() && (#[trigger] es[i]).0@ == k;
            if i < es.len() - 1 {
                assert((#[trigger] pre[i]).0@ == k);
                assert(exists|ii: int| 0 <= ii < pre.len() && (#[trigger] pre[ii]).0@ == k);
                assert(map_of(pre).dom().contains(k));
            }
        }
    }
}

/// With distinct keys, the map's domain has exactly one element per entry.
proof fn lemma_map_of_dom_len(es: Seq<(String, PafMetadata)>)
    requires
        forall|i: int, j: int|
            0 <= i < j < es.len() ==> (#[trigger] es[i]).0@ != (#[trigger] es[j]).0@,
    ensures
        map_of(es).dom().finite(),
        map_of(es).dom().len() == es.len(),
    decreases es.len(),
{
    if es.len() > 0 {
        let pre = es.drop_last();
        lemma_map_of_dom_len(pre);
        lemma_map_of_dom(pre);
        assert(!map_of(pre).dom().contains(es.last().0@));
        assert(map_of(es).dom() =~= map_of(pre).dom().insert(es.last().0@));
    }
}

/// A found entry's value is the map's value for that key.
proof fn lemma_map_of_key_value(es: Seq<(String, PafMetadata)>, k: int)
    requires
        0 <= k < es.len(),
        forall|i: int, j: int|
            0 <= i < j < es.len() ==> (#[trigger] es[i]).0@ != (#[trigger] es[j]).0@,
    ensures
        map_of(es).dom().contains(es[k].0@),
        map_of(es)[es[k].0@] == es[k].1.length,
    decreases es.len(),
{
    let pre = es.drop_last();
    if k == es.len() - 1 {
    } else {
        assert(forall|i: int, j: int|
            0 <= i < j < pre.len() ==> (#[trigger] pre[i]).0@ != (#[trigger] pre[j]).0@);
        lemma_map_of_key_value(pre, k);
        assert(pre[k] == es[k]);
        assert(es[k].0@ != es.last().0@);
    }
}

/// Updating the entry whose key matches gives the same map as inserting.
proof fn lemma_map_of_update(es: Seq<(String, PafMetadata)>, k: int, v: PafMetadata)
    requires
        0 <= k < es.len(),
        forall|i: int, j: int|
            0 <= i < j < es.len() ==> (#[trigger] es[i]).0@ != (#[trigger] es[j]).0@,
    ensures
        map_of(es.update(k, (es[k].0, v))) == map_of(es).insert(es[k].0@, v.length),
    decreases es.len(),
{
    let pre = es.drop_last();
    let es2 = es.update(k, (es[k].0, v));
    if k == es.len() - 1 {
        assert(es2.drop_last() =~= pre);
        assert(es2.last() == (es[k].0, v));
        assert(map_of(es2) == map_of(pre).insert(es[k].0@, v.length));
        assert(map_of(pre).insert(es.last().0@, es.last().1.length).insert(es[k].0@, v.length)
            =~= map_of(pre).insert(es[k].0@, v.length));
    } else {
        assert(forall|i: int, j: int|
            0 <= i < j < pre.len() ==> (#[trigger] pre[i]).0@ != (#[trigger] pre[j]).0@);
        lemma_map_of_update(pre, k, v);
        assert(pre[k] == es[k]);
        assert(es2.drop_last() =~= pre.update(k, (es[k].0, v)));
        assert(es2.last() == es.last());
        assert(map_of(es2) == map_of(pre).insert(es[k].0@, v.length).insert(
            es.last().0@,
            es.last().1.length,
        ));
        assert(es[k].0@ != es.last().0@);
        assert(map_of(pre).insert(es[k].0@, v.length).insert(es.last().0@, es.last().1.length)
            =~= map_of(pre).insert(es.last().0@, es.last().1.length).insert(es[k].0@, v.length));
    }
}

impl PafLookup {
    /// Keys are distinct.
    pub closed spec fn wf(&self) -> bool {
        forall|i: int, j: int|
            0 <= i < j < self.entries@.len() ==> (#[trigger] self.entries@[i]).0@ != (
            #[trigger] self.entries@[j]).0@
    }

    /// An empty lookup.
    pub fn empty() -> (r: PafLookup)
        ensures
            r@ == Map::<Seq<char>, u32>::empty(),
            r.wf(),
    {
        PafLookup { entries: Vec::new() }
    }

    /// Record metadata for `name`, overriding any earlier entry.
    pub fn insert(&mut self, name: String, md: PafMetadata)
        requires
            old(self).wf(),
        ensures
            final(self)@ == old(self)@.insert(name@, md.length),
            final(self).wf(),
    {
        let ghost pre = self.entries@;
        let mut k: usize = 0;
        let n = self.entries.len();
        while k < n
            invariant
                pre == old(self).entries@,
                n == self.entries@.len(),
                k <= n,
                self.entries@ == pre,
                forall|i: int, j: int|
                    0 <= i < j < pre.len() ==> (#[trigger] pre[i]).0@ != (#[trigger] pre[j]).0@,
                forall|i: int| 0 <= i < k ==> (#[trigger] pre[i]).0@ != name@,
            decreases n - k,
        {
            if self.entries[k].0 == name {
                proof {
                    lemma_map_of_update(pre, k as int, md);
                }
                self.entries[k].1 = md;
                proof {
                    assert(self.entries@ =~= pre.update(k as int, (pre[k as int].0, md)));
                    assert(map_of(self.entries@) == map_of(pre).insert(
                        pre[k as int].0@,
                        md.length,
                    ));
                    assert(pre[k as int].0@ == name@);
                    assert forall|i: int, j: int|
                        0 <= i < j < self.entries@.len() implies (
                    #[trigger] self.entries@[i]).0@ != (#[trigger] self.entries@[j]).0@ by {
                        assert(self.entries@[i].0@ == pre[i].0@);
                        assert(self.entries@[j].0@ == pre[j].0@);
                    }
                }
                return;
            }
            k = k + 1;
        }
        self.entries.push((name, md));
        proof {
            assert(self.entries@.drop_last() =~= pre);
        }
    }

    /// The metadata recorded for `name`, if any.
    pub fn get(&self, name: &str) -> (r: Option<&PafMetadata>)
        requires
            self.wf(),
        ensures
            r is Some <==> self@.dom().contains(name@),
            r is Some ==> r->0.length == self@[name@],
    {
        let key = String::from_str(name);
        let n = self.entries.len();
        let mut k: usize = 0;
        while k < n
            invariant
                self.wf(),
                key@ == name@,
                n == self.entries@.len(),
                k <= n,
                forall|i: int| 0 <= i < k ==> (#[trigger] self.entries@[i]).0@ != name@,
            decreases n - k,
        {
            if self.entries[k].0 == key {
                proof {
                    lemma_map_of_key_value(self.entries@, k as int);
                }
                return Some(&self.entries[k].1);
            }
            k = k + 1;
        }
        proof {
            lemma_map_of_dom(self.entries@);
        }
        None
    }

    /// The number of names recorded.
    pub fn len(&self) -> (r: usize)
        requires
            self.wf(),
        ensures
            r == self@.dom().len(),
    {
        proof {
            lemma_map_of_dom_len(self.entries@);
        }
        self.entries.len()
    }
}

/// The name-to-length map a list of alignments declares, later records
/// overriding earlier ones.
pub open spec fn metadata_spec(alns: Seq<PafAlignment>) -> Map<Seq<char>, u32>
    decreases alns.len(),
{
    if alns.len() == 0 {
        Map::empty()
    } else {
        metadata_spec(alns.drop_last()).insert(
            alns.last().query@,
            alns.last().query_length,
        ).insert(alns.last().target@, alns.last().target_length)
    }
}

/// Every name that appears in some record is in the declared map.
pub proof fn lemma_metadata_spec_contains(alns: Seq<PafAlignment>, k: int)
    requires
        0 <= k < alns.len(),
    ensures
        metadata_spec(alns).dom().contains(alns[k].query@),
        metadata_spec(alns).dom().contains(alns[k].target@),
    decreases alns.len(),
{
    if k < alns.len() - 1 {
        lemma_metadata_spec_contains(alns.drop_last(), k);
        assert(alns.drop_last()[k] == alns[k]);
    }
}

/// A well-formed file's lookup is exactly what its records declare.
pub proof fn lemma_paf_wf_metadata(p: &PAF)
    requires
        p.wf(),
    ensures
        p.metadata_map() == metadata_spec(p.alignments_view()),
{
}

/// A whole mapping file: its records and the name-to-length lookup they
/// declare.
#[derive(Debug)]
pub struct PAF {
    alignments: Vec<PafAlignment>,
    metadata: PafLookup,
}

impl PAF {
    /// The records held, in file order.
    pub closed spec fn alignments_view(&self) -> Seq<PafAlignment> {
        self.alignments@
    }

    /// The name-to-length map held.
    pub closed spec fn metadata_map(&self) -> Map<Seq<char>, u32> {
        self.metadata@
    }

    /// The lookup is exactly what the records declare.
    pub closed spec fn wf(&self) -> bool {
        self.metadata@ == metadata_spec(self.alignments@) && self.metadata.wf()
    }

    /// Parse a newline-separated string of well-formed alignment lines.
    pub fn from_str(alignment_strings: &str) -> (r: PAF)
        requires
            forall|i: int|
                0 <= i < split_lines(alignment_strings@).len() ==> paf_line_wf(
                    #[trigger] split_lines(alignment_strings@)[i],
                ),
        ensures
            r.wf(),
            r.alignments_view().len() == split_lines(alignment_strings@).len(),
            forall|i: int|
                0 <= i < r.alignments_view().len() ==> #[trigger] r.alignments_view()[i].parsed_from(
                    split_lines(alignment_strings@)[i],
                ),
    {
        let lines = split_lines_owned(alignment_strings);
        proof {
            assert forall|i: int| 0 <= i < lines@.len() implies paf_line_wf(
                #[trigger] lines@[i]@,
            ) by {
                assert(lines.deep_view()[i] == lines@[i]@);
            }
        }
        let alignments = PafAlignment::from_lines(lines);
        let metadata = Self::populate_metadata(&alignments);
        proof {
            assert forall|i: int| 0 <= i < alignments@.len() implies
                #[trigger] alignments@[i].parsed_from(split_lines(alignment_strings@)[i]) by {
                assert(lines.deep_view()[i] == lines@[i]@);
            }
        }
        PAF { alignments, metadata }
    }

    /// Total parse of a newline-separated string: `None` exactly when some
    /// line is not well-formed.
    pub fn try_from_str(alignment_strings: &str) -> (r: Option<PAF>)
        ensures
            r is Some <==> (forall|i: int|
                0 <= i < split_lines(alignment_strings@).len() ==> paf_line_wf(
                    #[trigger] split_lines(alignment_strings@)[i],
                )),
            r is Some ==> r->0.wf() && r->0.alignments_view().len() == split_lines(
                alignment_strings@,
            ).len() && (forall|i: int|
                0 <= i < r->0.alignments_view().len()
                    ==> #[trigger] r->0.alignments_view()[i].parsed_from(
                    split_lines(alignment_strings@)[i],
                )),
    {
        let lines = split_lines_owned(alignment_strings);
        let ghost ls = split_lines(alignment_strings@);
        let mut alignments: Vec<PafAlignment> = Vec::new();
        let mut i: usize = 0;
        while i < lines.len()
            invariant
                ls == split_lines(alignment_strings@),
                i <= lines@.len(),
                lines.deep_view() == ls,
                alignments@.len() == i,
                forall|k: int| 0 <= k < i ==> paf_line_wf(#[trigger] ls[k]),
                forall|k: int| 0 <= k < i ==> #[trigger] alignments@[k].parsed_from(ls[k]),
            decreases lines@.len() - i,
        {
            proof {
                assert(lines.deep_view()[i as int] == lines@[i as int]@);
            }
            match PafAlignment::try_from_str(lines[i].as_str()) {
                Some(a) => {
                    alignments.push(a);
                },
                None => {
                    proof {
                        assert(!paf_line_wf(split_lines(alignment_strings@)[i as int]));
                    }
                    return None;
                },
            }
            i = i + 1;
        }
        let metadata = Self::populate_metadata(&alignments);
        Some(PAF { alignments, metadata })
    }

    /// The lookup declared by a list of records, later records overriding
    /// earlier ones.
    pub fn populate_metadata(alignments: &Vec<PafAlignment>) -> (r: PafLookup)
        ensures
            r@ == metadata_spec(alignments@),
            r.wf(),
    {
        let mut lookup = PafLookup::empty();
        let mut i: usize = 0;
        proof {
            assert(alignments@.subrange(0, 0) =~= Seq::<PafAlignment>::empty());
        }
        while i < alignments.len()
            invariant
                i <= alignments@.len(),
                lookup@ == metadata_spec(alignments@.subrange(0, i as int)),
                lookup.wf(),
            decreases alignments@.len() - i,
        {
            let a = &alignments[i];
            lookup.insert(a.query.clone(), PafMetadata { length: a.query_length });
            lookup.insert(a.target.clone(), PafMetadata { length: a.target_length });
            proof {
                let p1 = alignments@.subrange(0, i + 1);
                assert(p1.drop_last() =~= alignments@.subrange(0, i as int));
                assert(p1.last() == alignments@[i as int]);
            }
            i = i + 1;
        }
        proof {
            assert(alignments@.subrange(0, alignments@.len() as int) =~= alignments@);
        }
        lookup
    }

    /// The records held.
    pub fn get_alignments(&self) -> (r: &Vec<PafAlignment>)
        ensures
            r@ == self.alignments_view(),
    {
        &self.alignments
    }

    /// The name-to-length lookup held.
    pub fn get_metadata(&self) -> (r: &PafLookup)
        ensures
            r@ == self.metadata_map(),
            self.wf() ==> r.wf(),
    {
        &self.metadata
    }

    /// The distinct (target, query) name pairs of the records: each pair
    /// appearing in some record exactly once, and nothing else.
    pub fn get_unique_alignments(&self) -> (r: Vec<AlignmentPair>)
        ensures
            forall|i: int, j: int|
                0 <= i < j < r@.len() ==> apair_key(#[trigger] r@[i]) != apair_key(
                    #[trigger] r@[j],
                ),
            forall|i: int|
                0 <= i < r@.len() ==> alns_have(self.alignments_view(), apair_key(
                    #[trigger] r@[i],
                )),
            forall|k: int|
                0 <= k < self.alignments_view().len() ==> pairs_have(r@, aln_key(
                    #[trigger] self.alignments_view()[k],
                )),
    {
        let mut out: Vec<AlignmentPair> = Vec::new();
        let mut k: usize = 0;
        while k < self.alignments.len()
            invariant
                k <= self.alignments_view().len(),
                forall|i: int, j: int|
                    0 <= i < j < out@.len() ==> apair_key(#[trigger] out@[i]) != apair_key(
                        #[trigger] out@[j],
                    ),
                forall|i: int|
                    0 <= i < out@.len() ==> alns_have(self.alignments_view(), apair_key(
                        #[trigger] out@[i],
                    )),
                forall|m: int|
                    0 <= m < k ==> pairs_have(out@, aln_key(
                        #[trigger] self.alignments_view()[m],
                    )),
            decreases self.alignments_view().len() - k,
        {
            let a = &self.alignments[k];
            let found = find_pair(&out, &a.target, &a.query);
            let ghost pre = out@;
            if !found {
                out.push(
                    AlignmentPair { target_name: a.target.clone(), query_name: a.query.clone() },
                );
                proof {
                    assert(forall|i: int| 0 <= i < pre.len() ==> out@[i] == pre[i]);
                    assert(apair_key(out@[pre.len() as int]) == aln_key(
                        self.alignments_view()[k as int],
                    ));
                    assert(alns_have(self.alignments_view(), apair_key(out@[pre.len() as int])));
                    assert(pairs_have(out@, aln_key(self.alignments_view()[k as int])));
                    assert forall|i: int, j: int|
                        0 <= i < j < out@.len() implies apair_key(#[trigger] out@[i]) != apair_key(
                        #[trigger] out@[j],
                    ) by {
                        if j == pre.len() as int {
                            assert(apair_key(out@[i]) == apair_key(pre[i]));
                        }
                    }
                }
            } else {
                proof {
                    assert(pairs_have(out@, aln_key(self.alignments_view()[k as int])));
                }
            }
            proof {
                assert forall|m: int| 0 <= m < k + 1 implies pairs_have(out@, aln_key(
                    #[trigger] self.alignments_view()[m],
                )) by {
                    if m < k {
                        lemma_pairs_have_grow(pre, out@, aln_key(self.alignments_view()[m]));
                    }
                }
            }
            k = k + 1;
        }
        out
    }
}

/// Some pair in `r` has this key.
pub open spec fn pairs_have(r: Seq<AlignmentPair>, key: (Seq<char>, Seq<char>)) -> bool {
    exists|i: int| 0 <= i < r.len() && apair_key(#[trigger] r[i]) == key
}

/// Some record in `alns` has this key.
pub open spec fn alns_have(alns: Seq<PafAlignment>, key: (Seq<char>, Seq<char>)) -> bool {
    exists|k: int| 0 <= k < alns.len() && aln_key(#[trigger] alns[k]) == key
}

/// A key found among pairs is still found after the list grows at the end.
proof fn lemma_pairs_have_grow(
    pre: Seq<AlignmentPair>,
    post: Seq<AlignmentPair>,
    key: (Seq<char>, Seq<char>),
)
    requires
        pairs_have(pre, key),
        pre.len() <= post.len(),
        forall|i: int| 0 <= i < pre.len() ==> post[i] == pre[i],
    ensures
        pairs_have(post, key),
{
    let i = choose|i: int| 0 <= i < pre.len() && apair_key(#[trigger] pre[i]) == key;
    assert(apair_key(post[i]) == key);
}

/// Is this (target, query) pair already present?
fn find_pair(out: &Vec<AlignmentPair>, target: &String, query: &String) -> (r: bool)
    ensures
        r <==> exists|i: int| 0 <= i < out@.len() && apair_key(#[trigger] out@[i]) == (
            target@,
            query@,
        ),
{
    let mut i: usize = 0;
    while i < out.len()
        invariant
            i <= out@.len(),
            forall|k: int| 0 <= k < i ==> apair_key(#[trigger] out@[k]) != (target@, query@),
        decreases out@.len() - i,
    {
        if out[i].target_name == *target && out[i].query_name == *query {
            return true;
        }
        i = i + 1;
    }
    false
}

} // verus!
