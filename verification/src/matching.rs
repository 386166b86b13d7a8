//! Lexical matching: which query terms meet which tokens, and how well.
use crate::format::base::dir::record;
#[allow(unused_imports)]
use crate::format::base::dir::{lex_resolves, lex_row, raw};
#[allow(unused_imports)]
use crate::format::base::records::postings;
use crate::format::base::{decode_postings, label_at, LexRec, LEX_LEN};
#[allow(unused_imports)]
use crate::format::wal::OpV;
#[allow(unused_imports)]
use crate::key::xxh3;
use crate::key::{xxh3_of, NodeId, UrlKey};
#[allow(unused_imports)]
use crate::model::{is_tombstone, or_blank, GraphV, NodeV};
#[allow(unused_imports)]
use crate::order::{arranged, lemma_listing, listing, lists, rows_sorted, strictly_up};
use crate::order::{arrange, sorted_distinct, Row};
#[allow(unused_imports)]
use crate::overlay::patch_of;
use crate::snapshot::{NodeRef, Snapshot};
#[allow(unused_imports)]
use crate::tokens::{searchable, strings_view, text_tokens};
use crate::tokens::{tokens, url_tokens};
use vstd::prelude::*;
use vstd::string::*;
#[allow(unused_imports)]
use vstd::utf8::*;

verus! {

// ---- terms ----------------------------------------------------------------

/// A token that is worth looking up: single bytes match everything.
pub open spec fn is_term(token: Seq<char>) -> bool {
    encode_utf8(token).len() >= 2
}

/// The distinct terms among tokens, in order of first occurrence.
pub open spec fn distinct_terms(tokens: Seq<Seq<char>>) -> Seq<Seq<char>>
    decreases tokens.len(),
{
    if tokens.len() == 0 {
        Seq::empty()
    } else {
        let pre = distinct_terms(tokens.drop_last());
        if is_term(tokens.last()) && !pre.contains(tokens.last()) {
            pre.push(tokens.last())
        } else {
            pre
        }
    }
}

fn has_text(terms: &Vec<String>, t: &String) -> (r: bool)
    ensures
        r == strings_view(terms@).contains(t@),
{
    let ghost vs = strings_view(terms@);
    let n: usize = terms.len();
    let mut i: usize = 0;
    while i < n
        invariant
            i <= n == terms@.len(),
            vs == strings_view(terms@),
            forall|j: int| 0 <= j < i ==> #[trigger] vs[j] != t@,
        decreases n - i,
    {
        if terms[i] == *t {
            assert(vs[i as int] == t@);
            return true;
        }
        i = i + 1;
    }
    false
}

/// Drop repeats and single-byte tokens.
pub fn distinct(tokens: &Vec<String>) -> (r: Vec<String>)
    ensures
        strings_view(r@) == distinct_terms(strings_view(tokens@)),
{
    let ghost vs = strings_view(tokens@);
    let n: usize = tokens.len();
    let mut out: Vec<String> = Vec::new();
    let mut i: usize = 0;
    assert(vs.take(0) =~= Seq::empty());
    assert(strings_view(out@) =~= Seq::empty());
    while i < n
        invariant
            i <= n == tokens@.len(),
            vs == strings_view(tokens@),
            strings_view(out@) == distinct_terms(vs.take(i as int)),
        decreases n - i,
    {
        let t: &String = &tokens[i];
        assert(vs[i as int] == t@);
        assert(vs.take(i + 1).drop_last() =~= vs.take(i as int));
        if t.as_str().as_bytes().len() >= 2 && !has_text(&out, t) {
            let ghost was = out@;
            let own: String = t.as_str().to_owned();
            out.push(own);
            assert(strings_view(out@) =~= strings_view(was).push(t@));
        }
        i = i + 1;
    }
    assert(vs.take(n as int) =~= vs);
    out
}

/// The terms of a query: its distinct tokens of two bytes or more, in order.
pub fn dedup_terms(query: &str) -> (r: Vec<String>)
    ensures
        strings_view(r@) == distinct_terms(text_tokens(query@)),
{
    distinct(&tokens(query))
}

// ---- tiers ----------------------------------------------------------------

/// How well a token meets a term.
#[derive(Clone, Copy, Debug, PartialEq, Eq, Structural)]
pub enum Tier {
    /// The term stands somewhere in the token.
    Substring,
    /// The token begins with the term.
    Prefix,
    /// The token is the term.
    Exact,
}

impl Tier {
    /// Better tiers have higher levels.
    pub open spec fn level(self) -> nat {
        match self {
            Tier::Substring => 1,
            Tier::Prefix => 2,
            Tier::Exact => 3,
        }
    }
}

/// The level of a tier, zero where there is no match.
pub open spec fn level_of(t: Option<Tier>) -> nat {
    match t {
        Some(t) => t.level(),
        None => 0,
    }
}

/// `needle` stands in `hay` at `i`.
pub open spec fn stands_at(hay: Seq<u8>, needle: Seq<u8>, i: int) -> bool {
    &&& 0 <= i
    &&& i + needle.len() <= hay.len()
    &&& hay.subrange(i, i + needle.len()) == needle
}

/// `needle` stands somewhere in `hay`.
pub open spec fn occurs(hay: Seq<u8>, needle: Seq<u8>) -> bool {
    exists|i: int| #[trigger] stands_at(hay, needle, i)
}

/// How well `token` meets `term`.
pub open spec fn tier_of(token: Seq<char>, term: Seq<char>) -> Option<Tier> {
    let hay = encode_utf8(token);
    let needle = encode_utf8(term);
    if token == term {
        Some(Tier::Exact)
    } else if stands_at(hay, needle, 0) {
        Some(Tier::Prefix)
    } else if occurs(hay, needle) {
        Some(Tier::Substring)
    } else {
        None
    }
}

fn bytes_at(hay: &[u8], needle: &[u8], at: usize) -> (r: bool)
    requires
        at + needle@.len() <= hay@.len(),
    ensures
        r == stands_at(hay@, needle@, at as int),
{
    let end: usize = hay.len();
    let n: usize = needle.len();
    let mut i: usize = 0;
    while i < n
        invariant
            i <= n == needle@.len(),
            at + n <= end == hay@.len(),
            forall|j: int| 0 <= j < i ==> hay@[at + j] == needle@[j],
        decreases n - i,
    {
        if hay[at + i] != needle[i] {
            assert(hay@.subrange(at as int, at + n)[i as int] != needle@[i as int]);
            return false;
        }
        i = i + 1;
    }
    assert(hay@.subrange(at as int, at + n) =~= needle@);
    true
}

/// Whether two texts are the same.
pub fn same_text(a: &str, b: &str) -> (r: bool)
    ensures
        r == (a@ == b@),
{
    proof {
        encode_utf8_decode_utf8(a@);
        encode_utf8_decode_utf8(b@);
    }
    let x: &[u8] = a.as_bytes();
    let y: &[u8] = b.as_bytes();
    if x.len() != y.len() {
        return false;
    }
    let r: bool = bytes_at(x, y, 0);
    assert(x@.subrange(0, y@.len() as int) =~= x@);
    r
}

/// Whether `token` begins with `term`.
pub fn starts_with(token: &str, term: &str) -> (r: bool)
    ensures
        r == stands_at(encode_utf8(token@), encode_utf8(term@), 0),
{
    let hay: &[u8] = token.as_bytes();
    let needle: &[u8] = term.as_bytes();
    hay.len() >= needle.len() && bytes_at(hay, needle, 0)
}

/// How well `token` meets `term`.
pub fn match_tier(token: &str, term: &str) -> (r: Option<Tier>)
    ensures
        r == tier_of(token@, term@),
{
    if same_text(token, term) {
        return Some(Tier::Exact);
    }
    let hay: &[u8] = token.as_bytes();
    let needle: &[u8] = term.as_bytes();
    if hay.len() < needle.len() {
        assert(!occurs(hay@, needle@)) by {
            assert(forall|i: int| !stands_at(hay@, needle@, i));
        }
        return None;
    }
    if bytes_at(hay, needle, 0) {
        return Some(Tier::Prefix);
    }
    let last: usize = hay.len() - needle.len();
    let mut i: usize = 0;
    while i < last
        invariant
            token@ != term@,
            hay@ == encode_utf8(token@),
            needle@ == encode_utf8(term@),
            last == hay@.len() - needle@.len(),
            i <= last,
            forall|j: int| 0 <= j <= i ==> !stands_at(hay@, needle@, j),
        decreases last - i,
    {
        i = i + 1;
        if bytes_at(hay, needle, i) {
            assert(occurs(hay@, needle@));
            return Some(Tier::Substring);
        }
    }
    assert(!occurs(hay@, needle@));
    None
}

// ---- the lexicon ----------------------------------------------------------

impl GraphV {
    /// The text of the `i`-th token of the lexicon.
    pub open spec fn lex_text(self, i: int) -> Seq<char> {
        or_blank(self.label(lex_row(self.t, i).label_off))
    }

    /// How well the `i`-th token of the lexicon meets a term of that hash. A
    /// token of the same hash is the term.
    pub open spec fn lex_tier(self, i: int, term: Seq<char>, hash: u64) -> Option<Tier> {
        if lex_row(self.t, i).token_hash == hash {
            Some(Tier::Exact)
        } else {
            tier_of(self.lex_text(i), term)
        }
    }

    /// The nodes that mention the `i`-th token; none if its postings cannot
    /// be read.
    pub open spec fn lex_ids(self, i: int) -> Seq<u32> {
        let f = lex_row(self.t, i);
        match postings(
            raw(self.t.postings).subrange(
                f.postings_off as int,
                f.postings_off + f.postings_len,
            ),
        ) {
            Ok(ids) => ids,
            Err(_) => Seq::empty(),
        }
    }

    /// The best level at which the first `i` tokens bring a term to `id`.
    pub open spec fn term_level(self, i: int, term: Seq<char>, hash: u64, id: u32) -> nat
        decreases i,
    {
        if i <= 0 {
            0
        } else {
            let pre = self.term_level(i - 1, term, hash, id);
            let level = level_of(self.lex_tier(i - 1, term, hash));
            if self.lex_ids(i - 1).contains(id) && level > pre {
                level
            } else {
                pre
            }
        }
    }

    /// The largest document frequency among the first `i` tokens that are the
    /// term.
    pub open spec fn term_df(self, i: int, term: Seq<char>, hash: u64) -> u32
        decreases i,
    {
        if i <= 0 {
            0
        } else {
            let pre = self.term_df(i - 1, term, hash);
            let df = lex_row(self.t, i - 1).df;
            if self.lex_tier(i - 1, term, hash) == Some(Tier::Exact) && df > pre {
                df
            } else {
                pre
            }
        }
    }

    /// How many tokens the lexicon has.
    pub open spec fn lex_len(self) -> int {
        self.h.token_count as int
    }
}

/// What a term meets in the lexicon.
#[derive(Debug)]
pub struct TermHits {
    /// The document frequency of the term itself, zero if it is no token.
    pub df: u32,
    /// The nodes it meets, by ascending id, each with its best tier.
    pub nodes: Vec<(NodeId, Tier)>,
}

impl TermHits {
    /// These are the nodes of `g` that `term` meets.
    pub open spec fn answers(&self, g: GraphV, term: Seq<char>, hash: u64) -> bool {
        let ns = self.nodes@;
        &&& self.df == g.term_df(g.lex_len(), term, hash)
        &&& forall|i: int, j: int| 0 <= i < j < ns.len() ==> ns[i].0.0 < ns[j].0.0
        &&& forall|i: int|
            0 <= i < ns.len() ==> g.term_level(g.lex_len(), term, hash, (#[trigger] ns[i]).0.0)
                == ns[i].1.level()
        &&& forall|id: u32|
            #[trigger] g.term_level(g.lex_len(), term, hash, id) > 0 ==> exists|i: int|
                0 <= i < ns.len() && (#[trigger] ns[i]).0.0 == id
    }
}

/// A node that a term brings in at a level: better levels come first.
spec fn level_row(id: u32, level: nat) -> Row {
    (id as u64, (3 - level) as u64, 0, 0)
}

/// No level lies above that of an exact match.
pub proof fn lemma_level_bound(g: GraphV, i: int, term: Seq<char>, hash: u64, id: u32)
    ensures
        g.term_level(i, term, hash, id) <= 3,
    decreases i,
{
    if i > 0 {
        lemma_level_bound(g, i - 1, term, hash, id);
    }
}

/// The rows say what the first `i` tokens bring in.
spec fn gathered(g: GraphV, rows: Seq<Row>, i: int, term: Seq<char>, hash: u64) -> bool {
    &&& forall|j: int|
        0 <= j < rows.len() ==> {
            let r = #[trigger] rows[j];
            &&& r.0 <= u32::MAX
            &&& r.1 < 3
            &&& r.2 == 0
            &&& r.3 == 0
            &&& g.term_level(i, term, hash, r.0 as u32) >= 3 - r.1
        }
    &&& forall|id: u32|
        #[trigger] g.term_level(i, term, hash, id) > 0 ==> rows.contains(
            level_row(id, g.term_level(i, term, hash, id)),
        )
}

impl<'s> Snapshot<'s> {
    /// The `i`-th token of the lexicon.
    fn lex_rec(&self, i: usize) -> (r: LexRec<'s>)
        requires
            self.wf(),
            i < self.graph().lex_len(),
        ensures
            r.wf(),
            r.says() == lex_row(self.graph().t, i as int),
    {
        proof {
            self.lemma_wf();
        }
        LexRec(record(self.lexicon(), LEX_LEN, i))
    }

    /// Its text.
    fn lex_token(&self, rec: LexRec<'s>, Ghost(i): Ghost<int>) -> (r: &'s str)
        requires
            self.wf(),
            0 <= i < self.graph().lex_len(),
            rec.wf(),
            rec.says() == lex_row(self.graph().t, i),
        ensures
            r@ == self.graph().lex_text(i),
    {
        proof {
            self.lemma_wf();
            assert(lex_resolves(self.graph().t, i));
            reveal_strlit("");
        }
        match label_at(self.labels(), rec.label_off()) {
            Some(s) => s,
            None => {
                let s: &'s str = "";
                assert(s@ =~= Seq::empty());
                s
            },
        }
    }

    /// The nodes that mention it.
    fn lex_nodes(&self, rec: LexRec<'s>, Ghost(i): Ghost<int>) -> (r: Vec<u32>)
        requires
            self.wf(),
            0 <= i < self.graph().lex_len(),
            rec.wf(),
            rec.says() == lex_row(self.graph().t, i),
        ensures
            r@ == self.graph().lex_ids(i),
    {
        proof {
            self.lemma_wf();
            assert(lex_resolves(self.graph().t, i));
        }
        let all: &[u8] = self.postings();
        let end: usize = all.len();
        let from: usize = rec.postings_off() as usize;
        let to: usize = from + rec.postings_len() as usize;
        match decode_postings(vstd::slice::slice_subrange(all, from, to)) {
            Ok(ids) => ids,
            Err(_) => {
                let none: Vec<u32> = Vec::new();
                assert(none@ =~= Seq::empty());
                none
            },
        }
    }

    /// The nodes that `term` meets, given its hash.
    pub fn term_hits_hashed(&self, term: &str, hash: u64) -> (r: TermHits)
        requires
            self.wf(),
        ensures
            r.answers(self.graph(), term@, hash),
    {
        let ghost g = self.graph();
        let n: usize = self.lexicon_len();
        let mut df: u32 = 0;
        let mut rows: Vec<Row> = Vec::new();
        let mut i: usize = 0;
        while i < n
            invariant
                self.wf(),
                g == self.graph(),
                i <= n == g.lex_len(),
                df == g.term_df(i as int, term@, hash),
                gathered(g, rows@, i as int, term@, hash),
            decreases n - i,
        {
            let rec: LexRec<'s> = self.lex_rec(i);
            let tier: Option<Tier> = if rec.token_hash() == hash {
                Some(Tier::Exact)
            } else {
                match_tier(self.lex_token(rec, Ghost(i as int)), term)
            };
            assert(tier == g.lex_tier(i as int, term@, hash));
            match tier {
                None => {
                    assert forall|id: u32| #[trigger]
                        g.term_level(i + 1, term@, hash, id) == g.term_level(
                        i as int,
                        term@,
                        hash,
                        id,
                    ) by {}
                    assert(gathered(g, rows@, i + 1, term@, hash)) by {
                        assert forall|id: u32| #[trigger]
                            g.term_level(i + 1, term@, hash, id) > 0 implies rows@.contains(
                            level_row(id, g.term_level(i + 1, term@, hash, id)),
                        ) by {
                            assert(g.term_level(i as int, term@, hash, id) > 0);
                        }
                    }
                },
                Some(t) => {
                    let back: u64 = match t {
                        Tier::Exact => {
                            if rec.df() > df {
                                df = rec.df();
                            }
                            0
                        },
                        Tier::Prefix => 1,
                        Tier::Substring => 2,
                    };
                    let ids: Vec<u32> = self.lex_nodes(rec, Ghost(i as int));
                    let ghost was = rows@;
                    let m: usize = ids.len();
                    let mut j: usize = 0;
                    while j < m
                        invariant
                            j <= m == ids@.len(),
                            back == 3 - t.level(),
                            rows@.len() == was.len() + j,
                            was.is_prefix_of(rows@),
                            forall|x: int|
                                0 <= x < j ==> #[trigger] rows@[was.len() + x] == level_row(
                                    ids@[x],
                                    t.level(),
                                ),
                        decreases m - j,
                    {
                        let ghost prev = rows@;
                        rows.push((ids[j] as u64, back, 0, 0));
                        assert(was =~= rows@.take(was.len() as int)) by {
                            assert(was =~= prev.take(was.len() as int));
                        }
                        j = j + 1;
                    }
                    proof {
                        lemma_gathered(g, was, rows@, i as int, term@, hash, t, ids@);
                    }
                },
            }
            i = i + 1;
        }
        arrange(&mut rows);
        self.best_of_each(rows, df, term, hash)
    }

    fn best_of_each(&self, rows: Vec<Row>, df: u32, term: &str, hash: u64) -> (r: TermHits)
        requires
            self.wf(),
            df == self.graph().term_df(self.graph().lex_len(), term@, hash),
            exists|before: Seq<Row>|
                gathered(self.graph(), before, self.graph().lex_len(), term@, hash) && rows@
                    == #[trigger] arranged(before),
        ensures
            r.answers(self.graph(), term@, hash),
    {
        let ghost g = self.graph();
        let ghost all = g.lex_len();
        let ghost before = choose|before: Seq<Row>|
            gathered(g, before, all, term@, hash) && rows@ == #[trigger] arranged(before);
        proof {
            lemma_sorted_gathered(g, before, all, term@, hash);
        }
        let n: usize = rows.len();
        let mut nodes: Vec<(NodeId, Tier)> = Vec::new();
        let mut i: usize = 0;
        while i < n
            invariant
                i <= n == rows@.len(),
                all == g.lex_len(),
                rows_sorted(rows@),
                gathered(g, rows@, all, term@, hash),
                forall|a: int, b: int| 0 <= a < b < nodes@.len() ==> nodes@[a].0.0 < nodes@[b].0.0,
                forall|a: int|
                    0 <= a < nodes@.len() ==> g.term_level(
                        all,
                        term@,
                        hash,
                        (#[trigger] nodes@[a]).0.0,
                    ) == nodes@[a].1.level(),
                i == 0 ==> nodes@.len() == 0,
                i > 0 ==> nodes@.len() > 0 && nodes@.last().0.0 == rows@[i - 1].0,
                forall|a: int|
                    0 <= a < i ==> exists|b: int|
                        0 <= b < nodes@.len() && (#[trigger] nodes@[b]).0.0 == (
                        #[trigger] rows@[a]).0,
            decreases n - i,
        {
            let row: Row = rows[i];
            let ghost was = nodes@;
            if nodes.len() == 0 || nodes[nodes.len() - 1].0.0 as u64 != row.0 {
                let t: Tier = if row.1 == 0 {
                    Tier::Exact
                } else if row.1 == 1 {
                    Tier::Prefix
                } else {
                    Tier::Substring
                };
                let id: u32 = row.0 as u32;
                proof {
                    let level = g.term_level(all, term@, hash, id);
                    lemma_level_bound(g, all, term@, hash, id);
                    assert(level >= 3 - row.1);
                    assert(rows@.contains(level_row(id, level)));
                    let x = choose|x: int| 0 <= x < rows@.len() && rows@[x] == level_row(id, level);
                    if x < i {
                        assert(exists|b: int|
                            0 <= b < was.len() && (#[trigger] was[b]).0.0 == rows@[x].0);
                        let b = choose|b: int|
                            0 <= b < was.len() && (#[trigger] was[b]).0.0 == rows@[x].0;
                        assert(!crate::order::row_lt(rows@[i as int], rows@[i - 1]));
                        assert(was[b].0.0 <= was[was.len() - 1].0.0);
                        assert(false);
                    } else if i < x {
                        assert(!crate::order::row_lt(rows@[x], rows@[i as int]));
                    }
                    if i > 0 {
                        assert(!crate::order::row_lt(rows@[i as int], rows@[i - 1]));
                    }
                }
                nodes.push((NodeId(id), t));
                assert(nodes@[was.len() as int].0.0 == rows@[i as int].0);
            } else {
                assert(nodes@[nodes@.len() - 1].0.0 == rows@[i as int].0);
            }
            proof {
                assert forall|a: int| 0 <= a < i + 1 implies exists|b: int|
                    0 <= b < nodes@.len() && (#[trigger] nodes@[b]).0.0 == (#[trigger] rows@[a]).0 by {
                    if a < i {
                        let b = choose|b: int|
                            0 <= b < was.len() && (#[trigger] was[b]).0.0 == rows@[a].0;
                        assert(nodes@[b].0.0 == rows@[a].0);
                    } else {
                        assert(nodes@[nodes@.len() - 1].0.0 == rows@[a].0);
                    }
                }
            }
            i = i + 1;
        }
        let r: TermHits = TermHits { df, nodes };
        let ghost ns = r.nodes@;
        proof {
            assert(forall|a: int, b: int| 0 <= a < b < ns.len() ==> ns[a].0.0 < ns[b].0.0);
            assert forall|id: u32| #[trigger]
                g.term_level(all, term@, hash, id) > 0 implies exists|a: int|
                0 <= a < ns.len() && (#[trigger] ns[a]).0.0 == id by {
                let row = level_row(id, g.term_level(all, term@, hash, id));
                assert(rows@.contains(row));
                let x = choose|x: int| 0 <= x < rows@.len() && rows@[x] == row;
                assert(rows@[x].0 == id);
            }
            assert(df == g.term_df(all, term@, hash));
        }
        r
    }

    /// The nodes that `term` meets: exactly (its hash or its text is that of a
    /// token), as the beginning of a token, or within one.
    pub fn term_hits(&self, term: &str) -> (r: TermHits)
        requires
            self.wf(),
        ensures
            r.answers(self.graph(), term@, xxh3(encode_utf8(term@))),
    {
        self.term_hits_hashed(term, xxh3_of(term.as_bytes()))
    }
}

proof fn lemma_gathered(
    g: GraphV,
    was: Seq<Row>,
    rows: Seq<Row>,
    i: int,
    term: Seq<char>,
    hash: u64,
    t: Tier,
    ids: Seq<u32>,
)
    requires
        0 <= i,
        gathered(g, was, i, term, hash),
        g.lex_tier(i, term, hash) == Some(t),
        ids == g.lex_ids(i),
        was.is_prefix_of(rows),
        rows.len() == was.len() + ids.len(),
        forall|x: int|
            0 <= x < ids.len() ==> #[trigger] rows[was.len() + x] == level_row(ids[x], t.level()),
    ensures
        gathered(g, rows, i + 1, term, hash),
{
    assert forall|j: int| 0 <= j < rows.len() implies {
        let r = #[trigger] rows[j];
        &&& r.0 <= u32::MAX
        &&& r.1 < 3
        &&& r.2 == 0
        &&& r.3 == 0
        &&& g.term_level(i + 1, term, hash, r.0 as u32) >= 3 - r.1
    } by {
        if j < was.len() {
            assert(rows[j] == was[j]);
        } else {
            let x = j - was.len();
            assert(rows[was.len() + x] == level_row(ids[x], t.level()));
            assert(ids.contains(ids[x]));
        }
    }
    assert forall|id: u32| #[trigger] g.term_level(i + 1, term, hash, id) > 0 implies rows.contains(
        level_row(id, g.term_level(i + 1, term, hash, id)),
    ) by {
        let now = g.term_level(i + 1, term, hash, id);
        let pre = g.term_level(i, term, hash, id);
        if now == pre {
            assert(was.contains(level_row(id, pre)));
            let j = choose|j: int| 0 <= j < was.len() && was[j] == level_row(id, pre);
            assert(rows[j] == was[j]);
        } else {
            assert(ids.contains(id));
            let x = choose|x: int| 0 <= x < ids.len() && ids[x] == id;
            assert(rows[was.len() + x] == level_row(id, now));
        }
    }
}

proof fn lemma_sorted_gathered(g: GraphV, rows: Seq<Row>, i: int, term: Seq<char>, hash: u64)
    requires
        gathered(g, rows, i, term, hash),
    ensures
        gathered(g, arranged(rows), i, term, hash),
        rows_sorted(arranged(rows)),
{
    let sorted = arranged(rows);
    let le = crate::order::row_le();
    assert(vstd::relations::total_ordering(le));
    rows.lemma_sort_by_ensures(le);
    assert forall|j: int| 0 <= j < sorted.len() implies {
        let r = #[trigger] sorted[j];
        &&& r.0 <= u32::MAX
        &&& r.1 < 3
        &&& r.2 == 0
        &&& r.3 == 0
        &&& g.term_level(i, term, hash, r.0 as u32) >= 3 - r.1
    } by {
        crate::order::lemma_arranged_from(rows, j);
        let x = choose|x: int| 0 <= x < rows.len() && rows[x] == sorted[j];
        assert(rows[x] == sorted[j]);
    }
    assert forall|id: u32| #[trigger] g.term_level(i, term, hash, id) > 0 implies sorted.contains(
        level_row(id, g.term_level(i, term, hash, id)),
    ) by {
        crate::order::lemma_same_rows(rows, sorted, level_row(id, g.term_level(i, term, hash, id)));
    }
    assert forall|a: int, b: int| 0 <= a < b < sorted.len() implies !crate::order::row_lt(
        sorted[b],
        sorted[a],
    ) by {
        assert(le(sorted[a], sorted[b]));
    }
}

impl TermHits {
    /// `k` is the best of the nodes: the highest tier, then the smallest id.
    pub open spec fn is_best(&self, k: int) -> bool {
        let ns = self.nodes@;
        forall|j: int|
            0 <= j < ns.len() ==> (#[trigger] ns[j]).1.level() < ns[k].1.level() || (
            ns[j].1.level() == ns[k].1.level() && ns[k].0.0 <= ns[j].0.0)
    }

    /// The node that the term is guaranteed a seat for: the best tier, and
    /// among equals the smallest id.
    pub fn best(&self) -> (r: Option<NodeId>)
        ensures
            match r {
                Some(id) => exists|k: int|
                    0 <= k < self.nodes@.len() && (#[trigger] self.nodes@[k]).0 == id
                        && self.is_best(k),
                None => self.nodes@.len() == 0,
            },
    {
        let n: usize = self.nodes.len();
        if n == 0 {
            return None;
        }
        let mut best: usize = 0;
        let mut i: usize = 1;
        while i < n
            invariant
                best < i <= n == self.nodes@.len(),
                forall|j: int|
                    0 <= j < i ==> (#[trigger] self.nodes@[j]).1.level()
                        < self.nodes@[best as int].1.level() || (self.nodes@[j].1.level()
                        == self.nodes@[best as int].1.level() && self.nodes@[best as int].0.0
                        <= self.nodes@[j].0.0),
            decreases n - i,
        {
            let (id, tier): (NodeId, Tier) = self.nodes[i];
            let (best_id, best_tier): (NodeId, Tier) = self.nodes[best];
            if tier.outranks(best_tier) || (tier == best_tier && id.0 < best_id.0) {
                best = i;
            }
            i = i + 1;
        }
        assert(self.is_best(best as int));
        Some(self.nodes[best].0)
    }
}

impl Tier {
    /// Whether this tier is better than another.
    pub fn outranks(self, other: Tier) -> (r: bool)
        ensures
            r == (self.level() > other.level()),
    {
        match (self, other) {
            (Tier::Exact, Tier::Exact) => false,
            (Tier::Exact, _) => true,
            (Tier::Prefix, Tier::Substring) => true,
            _ => false,
        }
    }
}

// ---- one answer per node --------------------------------------------------

/// Ids strictly ascend.
pub open spec fn hits_ascend(nodes: Seq<(NodeId, Tier)>) -> bool {
    forall|i: int, j: int| 0 <= i < j < nodes.len() ==> nodes[i].0.0 < nodes[j].0.0
}

/// `id` is among the nodes.
pub open spec fn has_hit(nodes: Seq<(NodeId, Tier)>, id: u32) -> bool {
    exists|i: int| 0 <= i < nodes.len() && (#[trigger] nodes[i]).0.0 == id
}

/// The tier of `id` among the nodes.
pub open spec fn hit_tier(nodes: Seq<(NodeId, Tier)>, id: u32) -> Option<Tier> {
    if has_hit(nodes, id) {
        Some(nodes[choose|i: int| 0 <= i < nodes.len() && (#[trigger] nodes[i]).0.0 == id].1)
    } else {
        None
    }
}

/// Some term meets `id`.
pub open spec fn is_met(hits: Seq<TermHits>) -> spec_fn(u64) -> bool {
    |id: u64|
        id <= u32::MAX && exists|t: int|
            0 <= t < hits.len() && has_hit((#[trigger] hits[t]).nodes@, id as u32)
}

/// How well `id` meets each term.
pub open spec fn hit_tiers(hits: Seq<TermHits>, id: u32) -> Seq<Option<Tier>> {
    hits.map_values(|h: TermHits| hit_tier(h.nodes@, id))
}

/// A base node, and how well it meets each term.
#[derive(Debug)]
pub struct BaseHit {
    /// Its id.
    pub id: NodeId,
    /// The tier of each term, in their order.
    pub tiers: Vec<Option<Tier>>,
}

pub open spec fn base_hits_view(hits: Seq<BaseHit>) -> Seq<(u32, Seq<Option<Tier>>)> {
    hits.map_values(|h: BaseHit| (h.id.0, h.tiers@))
}

fn find_tier(nodes: &Vec<(NodeId, Tier)>, id: u32) -> (r: Option<Tier>)
    requires
        hits_ascend(nodes@),
    ensures
        r == hit_tier(nodes@, id),
{
    let mut lo: usize = 0;
    let mut hi: usize = nodes.len();
    while lo < hi
        invariant
            lo <= hi <= nodes@.len(),
            hits_ascend(nodes@),
            forall|i: int| 0 <= i < lo ==> (#[trigger] nodes@[i]).0.0 < id,
            forall|i: int| hi <= i < nodes@.len() ==> (#[trigger] nodes@[i]).0.0 > id,
        decreases hi - lo,
    {
        let mid: usize = lo + (hi - lo) / 2;
        let (at, tier): (NodeId, Tier) = nodes[mid];
        if at.0 == id {
            proof {
                assert(has_hit(nodes@, id)) by {
                    assert(nodes@[mid as int].0.0 == id);
                }
                let i = choose|i: int| 0 <= i < nodes@.len() && (#[trigger] nodes@[i]).0.0 == id;
                if i < mid {
                    assert(nodes@[i].0.0 < nodes@[mid as int].0.0);
                }
                if mid < i {
                    assert(nodes@[mid as int].0.0 < nodes@[i].0.0);
                }
            }
            return Some(tier);
        }
        if at.0 < id {
            assert forall|i: int| 0 <= i < mid + 1 implies (#[trigger] nodes@[i]).0.0 < id by {
                if i < mid {
                    assert(nodes@[i].0.0 < nodes@[mid as int].0.0);
                }
            }
            lo = mid + 1;
        } else {
            assert forall|i: int| mid <= i < nodes@.len() implies (#[trigger] nodes@[i]).0.0 > id by {
                if mid < i {
                    assert(nodes@[mid as int].0.0 < nodes@[i].0.0);
                }
            }
            hi = mid;
        }
    }
    None
}

/// Every node that some term meets.
fn met_ids(hits: &Vec<TermHits>) -> (r: Vec<u64>)
    ensures
        r@ == listing(is_met(hits@)),
        forall|j: int| 0 <= j < r@.len() ==> #[trigger] r@[j] <= u32::MAX,
{
    let p = Ghost(is_met(hits@));
    let n: usize = hits.len();
    let mut ids: Vec<u64> = Vec::new();
    let mut t: usize = 0;
    while t < n
        invariant
            t <= n == hits@.len(),
            p@ == is_met(hits@),
            forall|j: int| 0 <= j < ids@.len() ==> p@(#[trigger] ids@[j]),
            forall|s: int, i: int|
                0 <= s < t && 0 <= i < hits@[s].nodes@.len() ==> ids@.contains(
                    (#[trigger] hits@[s].nodes@[i]).0.0 as u64,
                ),
        decreases n - t,
    {
        let nodes: &Vec<(NodeId, Tier)> = &hits[t].nodes;
        let ghost was = ids@;
        let m: usize = nodes.len();
        let mut i: usize = 0;
        while i < m
            invariant
                t < n == hits@.len(),
                i <= m == nodes@.len(),
                nodes@ == hits@[t as int].nodes@,
                p@ == is_met(hits@),
                was.is_prefix_of(ids@),
                ids@.len() == was.len() + i,
                forall|j: int| 0 <= j < ids@.len() ==> p@(#[trigger] ids@[j]),
                forall|x: int| 0 <= x < i ==> #[trigger] ids@[was.len() + x] == nodes@[x].0.0 as u64,
            decreases m - i,
        {
            let ghost prev = ids@;
            let id: u32 = nodes[i].0.0;
            proof {
                assert(has_hit(hits@[t as int].nodes@, id)) by {
                    assert(nodes@[i as int].0.0 == id);
                }
                assert(p@(id as u64));
            }
            ids.push(id as u64);
            assert(was =~= ids@.take(was.len() as int)) by {
                assert(was =~= prev.take(was.len() as int));
            }
            i = i + 1;
        }
        proof {
            assert forall|s: int, i: int|
                0 <= s < t + 1 && 0 <= i < hits@[s].nodes@.len() implies ids@.contains(
                (#[trigger] hits@[s].nodes@[i]).0.0 as u64,
            ) by {
                if s == t {
                    assert(ids@[was.len() + i] == nodes@[i].0.0 as u64);
                } else {
                    let k = hits@[s].nodes@[i].0.0 as u64;
                    assert(was.contains(k));
                    let x = choose|x: int| 0 <= x < was.len() && was[x] == k;
                    assert(ids@[x] == k);
                }
            }
        }
        t = t + 1;
    }
    let sorted: Vec<u64> = sorted_distinct(&ids);
    proof {
        assert forall|k: u64| #[trigger] sorted@.contains(k) <==> p@(k) by {
            assert(sorted@.contains(k) <==> ids@.contains(k));
            if ids@.contains(k) {
                let x = choose|x: int| 0 <= x < ids@.len() && ids@[x] == k;
                assert(p@(ids@[x]));
            }
            if p@(k) {
                let t = choose|t: int|
                    0 <= t < hits@.len() && has_hit((#[trigger] hits@[t]).nodes@, k as u32);
                let i = choose|i: int|
                    0 <= i < hits@[t].nodes@.len() && (#[trigger] hits@[t].nodes@[i]).0.0
                        == k as u32;
                assert(ids@.contains(hits@[t].nodes@[i].0.0 as u64));
            }
        }
        lemma_listing(sorted@, p@);
        assert forall|j: int| 0 <= j < sorted@.len() implies #[trigger] sorted@[j] <= u32::MAX by {
            assert(sorted@.contains(sorted@[j]));
        }
    }
    sorted
}

/// The nodes that some term meets, by ascending id, with the tier of each
/// term.
pub fn collate(hits: &Vec<TermHits>) -> (r: Vec<BaseHit>)
    requires
        forall|t: int| 0 <= t < hits@.len() ==> hits_ascend((#[trigger] hits@[t]).nodes@),
    ensures
        base_hits_view(r@) == listing(is_met(hits@)).map_values(
            |id: u64| (id as u32, hit_tiers(hits@, id as u32)),
        ),
{
    let ids: Vec<u64> = met_ids(hits);
    let n: usize = ids.len();
    let m: usize = hits.len();
    let mut out: Vec<BaseHit> = Vec::with_capacity(n);
    let mut i: usize = 0;
    while i < n
        invariant
            i <= n == ids@.len(),
            m == hits@.len(),
            forall|j: int| 0 <= j < ids@.len() ==> #[trigger] ids@[j] <= u32::MAX,
            forall|t: int| 0 <= t < hits@.len() ==> hits_ascend((#[trigger] hits@[t]).nodes@),
            out@.len() == i,
            forall|j: int|
                0 <= j < i ==> (#[trigger] out@[j]).id.0 == ids@[j] as u32 && out@[j].tiers@
                    == hit_tiers(hits@, ids@[j] as u32),
        decreases n - i,
    {
        let id: u32 = ids[i] as u32;
        let mut tiers: Vec<Option<Tier>> = Vec::with_capacity(m);
        let mut t: usize = 0;
        while t < m
            invariant
                t <= m == hits@.len(),
                forall|t: int| 0 <= t < hits@.len() ==> hits_ascend((#[trigger] hits@[t]).nodes@),
                tiers@ =~= hit_tiers(hits@, id).take(t as int),
            decreases m - t,
        {
            tiers.push(find_tier(&hits[t].nodes, id));
            t = t + 1;
        }
        assert(tiers@ =~= hit_tiers(hits@, id));
        out.push(BaseHit { id: NodeId(id), tiers });
        i = i + 1;
    }
    assert(base_hits_view(out@) =~= listing(is_met(hits@)).map_values(
        |id: u64| (id as u32, hit_tiers(hits@, id as u32)),
    ));
    out
}

// ---- nodes that are not compacted yet -------------------------------------

/// The tokens of an optional text.
pub open spec fn opt_tokens(s: Option<Seq<char>>) -> Seq<Seq<char>> {
    match s {
        Some(t) => text_tokens(t),
        None => Seq::empty(),
    }
}

/// What a node that no lexicon knows is searched by: its URL without the
/// scheme, its title and its snippet.
pub open spec fn node_tokens(n: NodeV) -> Seq<Seq<char>> {
    text_tokens(searchable(n.url)) + opt_tokens(n.title) + opt_tokens(n.snippet)
}

/// The better of two tiers.
pub open spec fn better(a: Option<Tier>, b: Option<Tier>) -> Option<Tier> {
    if level_of(b) > level_of(a) {
        b
    } else {
        a
    }
}

/// How well the best of `tokens` meets `term`.
pub open spec fn best_tier(tokens: Seq<Seq<char>>, term: Seq<char>) -> Option<Tier>
    decreases tokens.len(),
{
    if tokens.len() == 0 {
        None
    } else {
        better(best_tier(tokens.drop_last(), term), tier_of(tokens.last(), term))
    }
}

/// How well a node meets each term.
pub open spec fn node_tiers(n: NodeV, terms: Seq<Seq<char>>) -> Seq<Option<Tier>> {
    terms.map_values(|t: Seq<char>| best_tier(node_tokens(n), t))
}

pub open spec fn any_tier(tiers: Seq<Option<Tier>>) -> bool {
    exists|i: int| 0 <= i < tiers.len() && #[trigger] tiers[i] is Some
}

/// A node that only the overlay knows, and how well it meets each term.
#[derive(Debug)]
pub struct FreshHit {
    /// Durable key.
    pub key: UrlKey,
    /// The tier of each term, in their order.
    pub tiers: Vec<Option<Tier>>,
}

pub open spec fn fresh_view(hits: Seq<FreshHit>) -> Seq<(u64, Seq<Option<Tier>>)> {
    hits.map_values(|h: FreshHit| (h.key.0, h.tiers@))
}

impl GraphV {
    /// The node of `key` can be searched: it has a URL and is not gone.
    pub open spec fn is_searchable(self, key: u64) -> bool {
        &&& self.node(key) is Some
        &&& !is_tombstone(self.node(key)->0.flags)
        &&& self.node(key)->0.url.len() > 0
    }

    /// Which of `keys` meet a term, with their tiers.
    pub open spec fn fresh_hits(self, keys: Seq<u64>, terms: Seq<Seq<char>>) -> Seq<
        (u64, Seq<Option<Tier>>),
    >
        decreases keys.len(),
    {
        if keys.len() == 0 {
            Seq::empty()
        } else {
            let pre = self.fresh_hits(keys.drop_last(), terms);
            let key = keys.last();
            let tiers = node_tiers(self.node(key)->0, terms);
            if self.is_searchable(key) && any_tier(tiers) {
                pre.push((key, tiers))
            } else {
                pre
            }
        }
    }
}

/// How well the best of `tokens` meets `term`.
pub fn match_any(tokens: &Vec<String>, term: &str) -> (r: Option<Tier>)
    ensures
        r == best_tier(strings_view(tokens@), term@),
{
    let ghost vs = strings_view(tokens@);
    let n: usize = tokens.len();
    let mut best: Option<Tier> = None;
    let mut i: usize = 0;
    assert(vs.take(0) =~= Seq::empty());
    while i < n
        invariant
            i <= n == tokens@.len(),
            vs == strings_view(tokens@),
            best == best_tier(vs.take(i as int), term@),
        decreases n - i,
    {
        assert(vs[i as int] == tokens@[i as int]@);
        assert(vs.take(i + 1).drop_last() =~= vs.take(i as int));
        let t: Option<Tier> = match_tier(tokens[i].as_str(), term);
        best = match (best, t) {
            (Some(b), Some(t)) => if t.outranks(b) {
                Some(t)
            } else {
                Some(b)
            },
            (None, t) => t,
            (b, None) => b,
        };
        i = i + 1;
    }
    assert(vs.take(n as int) =~= vs);
    best
}

fn append_tokens(out: &mut Vec<String>, more: Vec<String>)
    ensures
        strings_view(final(out)@) == strings_view(old(out)@) + strings_view(more@),
{
    let ghost before = out@;
    let mut more: Vec<String> = more;
    let ghost added = more@;
    out.append(&mut more);
    assert(out@ =~= before + added);
    assert(strings_view(out@) =~= strings_view(before) + strings_view(added));
}

fn search_tokens(n: &NodeRef<'_>) -> (r: Vec<String>)
    ensures
        strings_view(r@) == node_tokens(n@),
{
    let mut out: Vec<String> = url_tokens(n.url);
    match n.title {
        Some(t) => append_tokens(&mut out, tokens(t)),
        None => {
            assert(text_tokens(searchable(n@.url)) + opt_tokens(n@.title) =~= strings_view(out@));
        },
    }
    match n.snippet {
        Some(t) => append_tokens(&mut out, tokens(t)),
        None => {
            assert(node_tokens(n@) =~= strings_view(out@));
        },
    }
    out
}

impl<'s> Snapshot<'s> {
    /// The nodes that only the overlay knows and that meet a term, by
    /// ascending key, with the tier of each term.
    pub fn fresh_hits(&self, terms: &Vec<String>) -> (r: Vec<FreshHit>)
        requires
            self.wf(),
        ensures
            fresh_view(r@) == self.graph().fresh_hits(
                listing(self.graph().fresh()),
                strings_view(terms@),
            ),
    {
        let ghost g = self.graph();
        let ghost ts = strings_view(terms@);
        let keys: Vec<u64> = self.fresh_keys();
        let n: usize = keys.len();
        let mut out: Vec<FreshHit> = Vec::new();
        let mut i: usize = 0;
        assert(keys@.take(0) =~= Seq::empty());
        assert(fresh_view(out@) =~= Seq::empty());
        while i < n
            invariant
                self.wf(),
                g == self.graph(),
                ts == strings_view(terms@),
                i <= n == keys@.len(),
                fresh_view(out@) == g.fresh_hits(keys@.take(i as int), ts),
            decreases n - i,
        {
            let key: u64 = keys[i];
            assert(keys@.take(i + 1).drop_last() =~= keys@.take(i as int));
            match self.node(UrlKey(key)) {
                Some(node) => {
                    if !node.is_tombstone() && !node.url.is_empty() {
                        let (tiers, any): (Vec<Option<Tier>>, bool) = node_matches(&node, terms);
                        if any {
                            let ghost was = out@;
                            out.push(FreshHit { key: UrlKey(key), tiers });
                            assert(fresh_view(out@) =~= fresh_view(was).push(
                                (key, node_tiers(node@, ts)),
                            ));
                        }
                    }
                },
                None => {},
            }
            i = i + 1;
        }
        assert(keys@.take(n as int) =~= keys@);
        out
    }
}

/// How well a node meets each term, and whether it meets one at all.
fn node_matches(node: &NodeRef<'_>, terms: &Vec<String>) -> (r: (Vec<Option<Tier>>, bool))
    ensures
        r.0@ == node_tiers(node@, strings_view(terms@)),
        r.1 == any_tier(r.0@),
{
    let ghost ts = strings_view(terms@);
    let hay: Vec<String> = search_tokens(node);
    let n: usize = terms.len();
    let mut tiers: Vec<Option<Tier>> = Vec::with_capacity(n);
    let mut any: bool = false;
    let mut i: usize = 0;
    while i < n
        invariant
            i <= n == terms@.len(),
            ts == strings_view(terms@),
            strings_view(hay@) == node_tokens(node@),
            tiers@.len() == i,
            forall|j: int|
                0 <= j < i ==> #[trigger] tiers@[j] == best_tier(node_tokens(node@), ts[j]),
            any == any_tier(tiers@),
        decreases n - i,
    {
        let t: Option<Tier> = match_any(&hay, terms[i].as_str());
        let ghost was = tiers@;
        assert(ts[i as int] == terms@[i as int]@);
        tiers.push(t);
        proof {
            if any {
                let x = choose|x: int| 0 <= x < was.len() && #[trigger] was[x] is Some;
                assert(tiers@[x] is Some);
            }
            if t is Some {
                assert(tiers@[i as int] is Some);
            }
            if any_tier(tiers@) && t is None {
                let x = choose|x: int| 0 <= x < tiers@.len() && #[trigger] tiers@[x] is Some;
                assert(was[x] is Some);
            }
        }
        any = any || t.is_some();
        i = i + 1;
    }
    assert(tiers@ =~= node_tiers(node@, ts));
    (tiers, any)
}

/// The ops that say something of `key` name it.
proof fn lemma_patched_is_named(ops: Seq<OpV>, key: u64)
    requires
        patch_of(ops, key) is Some,
    ensures
        ops.map_values(|op: OpV| op.target().0).contains(key),
    decreases ops.len(),
{
    let named = ops.map_values(|op: OpV| op.target().0);
    if ops.last().target().0 == key {
        assert(named[ops.len() - 1] == key);
    } else {
        let pre = ops.drop_last();
        lemma_patched_is_named(pre, key);
        let before = pre.map_values(|op: OpV| op.target().0);
        let i = choose|i: int| 0 <= i < before.len() && before[i] == key;
        assert(named[i] == key);
    }
}

proof fn lemma_fresh_hit_of(g: GraphV, keys: Seq<u64>, terms: Seq<Seq<char>>, i: int)
    requires
        0 <= i < g.fresh_hits(keys, terms).len(),
    ensures
        keys.contains(g.fresh_hits(keys, terms)[i].0),
        g.is_searchable(g.fresh_hits(keys, terms)[i].0),
    decreases keys.len(),
{
    let pre = keys.drop_last();
    if i < g.fresh_hits(pre, terms).len() {
        lemma_fresh_hit_of(g, pre, terms, i);
        let j = choose|j: int| 0 <= j < pre.len() && pre[j] == g.fresh_hits(pre, terms)[i].0;
        assert(keys[j] == pre[j]);
    } else {
        assert(keys[keys.len() - 1] == keys.last());
    }
}

proof fn lemma_fresh_hits_up(g: GraphV, keys: Seq<u64>, terms: Seq<Seq<char>>, i: int, j: int)
    requires
        strictly_up(keys),
        0 <= i < j < g.fresh_hits(keys, terms).len(),
    ensures
        g.fresh_hits(keys, terms)[i].0 < g.fresh_hits(keys, terms)[j].0,
    decreases keys.len(),
{
    let pre = keys.drop_last();
    let before = g.fresh_hits(pre, terms);
    assert(strictly_up(pre)) by {
        assert forall|a: int, b: int| 0 <= a < b < pre.len() implies pre[a] < pre[b] by {
            assert(keys[a] < keys[b]);
        }
    }
    if j < before.len() {
        lemma_fresh_hits_up(g, pre, terms, i, j);
    } else {
        lemma_fresh_hit_of(g, pre, terms, i);
        let a = choose|a: int| 0 <= a < pre.len() && pre[a] == before[i].0;
        assert(keys[a] < keys[keys.len() - 1]);
    }
}

/// What a search finds beside the base is fresh and can be searched, and comes
/// by ascending key.
pub proof fn law_fresh_hits_are_fresh(g: GraphV, terms: Seq<Seq<char>>, i: int)
    requires
        0 <= i < g.fresh_hits(listing(g.fresh()), terms).len(),
    ensures
        ({
            let hits = g.fresh_hits(listing(g.fresh()), terms);
            &&& g.is_fresh(hits[i].0)
            &&& g.is_searchable(hits[i].0)
            &&& forall|j: int| i < j < hits.len() ==> hits[i].0 < (#[trigger] hits[j]).0
        }),
{
    let p = g.fresh();
    let keys = listing(p);
    let named = g.ops.map_values(|op: OpV| op.target().0);
    assert forall|k: u64| p(k) implies #[trigger] named.contains(k) by {
        lemma_patched_is_named(g.ops, k);
    }
    crate::order::lemma_listed(named, p);
    lemma_fresh_hit_of(g, keys, terms, i);
    assert(p(g.fresh_hits(keys, terms)[i].0));
    let hits = g.fresh_hits(keys, terms);
    assert forall|j: int| i < j < hits.len() implies hits[i].0 < (#[trigger] hits[j]).0 by {
        lemma_fresh_hits_up(g, keys, terms, i, j);
    }
}

/// Without terms nothing is found: neither in the base nor beside it.
pub proof fn law_no_terms_no_hits(g: GraphV, keys: Seq<u64>)
    ensures
        listing(is_met(Seq::empty())) == Seq::<u64>::empty(),
        g.fresh_hits(keys, Seq::empty()) == Seq::<(u64, Seq<Option<Tier>>)>::empty(),
    decreases keys.len(),
{
    let none = Seq::<u64>::empty();
    assert(lists(none, is_met(Seq::empty())));
    lemma_listing(none, is_met(Seq::empty()));
    if keys.len() > 0 {
        law_no_terms_no_hits(g, keys.drop_last());
    }
}

} // verus!
