//! The lexicon of a generation: which nodes mention which token, by ascending
//! token hash.
use crate::compact::Model;
#[allow(unused_imports)]
use crate::compact::{models_view, ModelV, SegModelV};
#[allow(unused_imports)]
use crate::key::xxh3;
use crate::key::xxh3_of;
#[allow(unused_imports)]
use crate::order::{arranged, lemma_arranged_from, lemma_same_rows, row_le};
use crate::order::{arrange, Row};
#[allow(unused_imports)]
use crate::render::lex_renderable;
#[allow(unused_imports)]
use crate::tokens::{searchable, strings_view, text_tokens};
use crate::tokens::{tokens, url_tokens};
use vstd::prelude::*;
use vstd::string::*;
#[allow(unused_imports)]
use vstd::utf8::*;

verus! {

/// One token of the lexicon and the nodes that mention it.
#[derive(Debug)]
pub struct LexEntry {
    /// The token's hash.
    pub hash: u64,
    /// The token (the first one met, should two share a hash).
    pub label: String,
    /// Strictly ascending node ids.
    pub ids: Vec<u64>,
}

#[verifier::ext_equal]
pub struct LexV {
    pub hash: u64,
    pub label: Seq<char>,
    pub ids: Seq<u64>,
}

impl View for LexEntry {
    type V = LexV;

    open spec fn view(&self) -> LexV {
        LexV { hash: self.hash, label: self.label@, ids: self.ids@ }
    }
}

pub open spec fn lex_view(entries: Seq<LexEntry>) -> Seq<LexV> {
    entries.map_values(|e: LexEntry| e@)
}

// ---- the token stream -----------------------------------------------------

pub open spec fn opt_tokens(s: Option<Seq<char>>) -> Seq<Seq<char>> {
    match s {
        Some(t) => text_tokens(t),
        None => Seq::empty(),
    }
}

pub open spec fn label_tokens(segs: Seq<SegModelV>) -> Seq<Seq<char>>
    decreases segs.len(),
{
    if segs.len() == 0 {
        Seq::empty()
    } else {
        label_tokens(segs.drop_last()) + text_tokens(segs.last().label)
    }
}

/// What a node can be found by: its URL without the scheme, title, snippet
/// and segment labels.
pub open spec fn model_tokens(m: ModelV) -> Seq<Seq<char>> {
    (if m.url.len() == 0 {
        Seq::empty()
    } else {
        text_tokens(searchable(m.url))
    }) + opt_tokens(m.title) + opt_tokens(m.snippet) + label_tokens(m.segs)
}

/// A mention: which node, which token.
pub struct MentionV {
    pub id: u64,
    pub token: Seq<char>,
}

pub open spec fn mentions_of(id: int, tokens: Seq<Seq<char>>) -> Seq<MentionV> {
    tokens.map_values(|t: Seq<char>| MentionV { id: id as u64, token: t })
}

/// The mentions of the first `i` nodes, in order.
pub open spec fn mentions(rows: Seq<ModelV>, i: int) -> Seq<MentionV>
    decreases i,
{
    if i <= 0 {
        Seq::empty()
    } else {
        mentions(rows, i - 1) + mentions_of(i - 1, model_tokens(rows[i - 1]))
    }
}

pub open spec fn token_hash(t: Seq<char>) -> u64 {
    xxh3(encode_utf8(t))
}

pub open spec fn hashes(ms: Seq<MentionV>) -> Seq<u64> {
    ms.map_values(|m: MentionV| token_hash(m.token))
}

// ---- grouping by hash -----------------------------------------------------

pub open spec fn mention_rows(ms: Seq<MentionV>, hs: Seq<u64>) -> Seq<Row> {
    Seq::new(ms.len(), |p: int| (hs[p], p as u64, ms[p].id, 0u64))
}

/// One more mention in hash order: it joins the entry of its hash, or opens
/// one.
pub open spec fn join(entries: Seq<LexV>, ms: Seq<MentionV>, r: Row) -> Seq<LexV> {
    if entries.len() > 0 && entries.last().hash == r.0 {
        let e = entries.last();
        if e.ids.len() > 0 && e.ids.last() == r.2 {
            entries
        } else {
            entries.drop_last().push(LexV { ids: e.ids.push(r.2), ..e })
        }
    } else {
        entries.push(LexV { hash: r.0, label: ms[r.1 as int].token, ids: seq![r.2] })
    }
}

pub open spec fn joined(ms: Seq<MentionV>, rows: Seq<Row>) -> Seq<LexV>
    decreases rows.len(),
{
    if rows.len() == 0 {
        Seq::empty()
    } else {
        join(joined(ms, rows.drop_last()), ms, rows.last())
    }
}

/// The lexicon of mentions whose tokens have the hashes `hs`.
pub open spec fn grouped(ms: Seq<MentionV>, hs: Seq<u64>) -> Seq<LexV> {
    joined(ms, arranged(mention_rows(ms, hs)))
}

/// The lexicon of a generation.
pub open spec fn lexicon(rows: Seq<ModelV>) -> Seq<LexV> {
    let ms = mentions(rows, rows.len() as int);
    grouped(ms, hashes(ms))
}

// ---- building -------------------------------------------------------------

/// A mention: which node, which token.
#[derive(Debug)]
pub struct Mention {
    pub id: u64,
    pub token: String,
}

impl View for Mention {
    type V = MentionV;

    open spec fn view(&self) -> MentionV {
        MentionV { id: self.id, token: self.token@ }
    }
}

pub open spec fn mentions_view(ms: Seq<Mention>) -> Seq<MentionV> {
    ms.map_values(|m: Mention| m@)
}

fn add_mentions(out: &mut Vec<Mention>, id: u64, toks: Vec<String>)
    ensures
        mentions_view(final(out)@) == mentions_view(old(out)@) + mentions_of(
            id as int,
            strings_view(toks@),
        ),
{
    let ghost before = mentions_view(out@);
    let ghost new = mentions_of(id as int, strings_view(toks@));
    let n: usize = toks.len();
    let mut i: usize = 0;
    assert(before + new.take(0) =~= before);
    while i < n
        invariant
            i <= n == toks@.len(),
            new == mentions_of(id as int, strings_view(toks@)),
            mentions_view(out@) == before + new.take(i as int),
        decreases n - i,
    {
        let ghost was = out@;
        let token: String = toks[i].clone();
        let m: Mention = Mention { id, token };
        out.push(m);
        assert(new[i as int] == m@);
        assert(mentions_view(out@) =~= mentions_view(was).push(m@));
        assert(before + new.take(i + 1) =~= (before + new.take(i as int)).push(new[i as int]));
        i = i + 1;
    }
    assert(new.take(n as int) =~= new);
}

fn model_mentions(out: &mut Vec<Mention>, id: u64, m: &Model)
    ensures
        mentions_view(final(out)@) == mentions_view(old(out)@) + mentions_of(
            id as int,
            model_tokens(m@),
        ),
{
    let ghost before = mentions_view(out@);
    let ghost mut toks: Seq<Seq<char>> = Seq::empty();
    assert(before + mentions_of(id as int, toks) =~= before);
    if !m.url.as_str().is_empty() {
        let t: Vec<String> = url_tokens(m.url.as_str());
        add_mentions(out, id, t);
        proof {
            toks = strings_view(t@);
        }
    }
    assert(mentions_view(out@) == before + mentions_of(id as int, toks));
    match &m.title {
        Some(s) => {
            let t: Vec<String> = tokens(s.as_str());
            add_mentions(out, id, t);
            proof {
                lemma_mentions_join(before, id as int, toks, strings_view(t@));
                toks = toks + strings_view(t@);
            }
        },
        None => {
            assert(toks =~= toks + opt_tokens(m@.title));
        },
    }
    match &m.snippet {
        Some(s) => {
            let t: Vec<String> = tokens(s.as_str());
            add_mentions(out, id, t);
            proof {
                lemma_mentions_join(before, id as int, toks, strings_view(t@));
                toks = toks + strings_view(t@);
            }
        },
        None => {
            assert(toks =~= toks + opt_tokens(m@.snippet));
        },
    }
    let ghost head = toks;
    let ghost segs = m@.segs;
    let n: usize = m.segs.len();
    let mut i: usize = 0;
    assert(segs.take(0) =~= Seq::empty());
    assert(head + label_tokens(segs.take(0)) =~= head);
    while i < n
        invariant
            i <= n == m.segs@.len(),
            segs == m@.segs,
            toks == head + label_tokens(segs.take(i as int)),
            mentions_view(out@) == before + mentions_of(id as int, toks),
        decreases n - i,
    {
        let t: Vec<String> = tokens(m.segs[i].label.as_str());
        add_mentions(out, id, t);
        proof {
            assert(segs[i as int] == m.segs@[i as int]@);
            assert(segs.take(i + 1).drop_last() =~= segs.take(i as int));
            lemma_mentions_join(before, id as int, toks, strings_view(t@));
            assert(toks + strings_view(t@) =~= head + label_tokens(segs.take(i + 1)));
            toks = toks + strings_view(t@);
        }
        i = i + 1;
    }
    assert(segs.take(n as int) =~= segs);
}

proof fn lemma_mentions_join(
    before: Seq<MentionV>,
    id: int,
    a: Seq<Seq<char>>,
    b: Seq<Seq<char>>,
)
    ensures
        before + mentions_of(id, a) + mentions_of(id, b) == before + mentions_of(id, a + b),
{
    assert(before + mentions_of(id, a) + mentions_of(id, b) =~= before + mentions_of(id, a + b));
}

/// The lexicon of mentions whose tokens have the hashes `hs`.
pub fn group(ms: &Vec<Mention>, hs: &Vec<u64>) -> (r: Vec<LexEntry>)
    requires
        hs@.len() == ms@.len(),
    ensures
        lex_view(r@) == grouped(mentions_view(ms@), hs@),
{
    let ghost vs = mentions_view(ms@);
    let n: usize = ms.len();
    let mut rows: Vec<Row> = Vec::with_capacity(n);
    let mut i: usize = 0;
    while i < n
        invariant
            i <= n == ms@.len(),
            hs@.len() == n,
            vs == mentions_view(ms@),
            rows@ =~= mention_rows(vs, hs@).take(i as int),
        decreases n - i,
    {
        assert(vs[i as int] == ms@[i as int]@);
        rows.push((hs[i], i as u64, ms[i].id, 0));
        i = i + 1;
    }
    assert(rows@ =~= mention_rows(vs, hs@));
    let ghost unsorted = rows@;
    arrange(&mut rows);
    let ghost sorted = rows@;
    let mut out: Vec<LexEntry> = Vec::new();
    let mut i: usize = 0;
    assert(sorted.take(0) =~= Seq::empty());
    assert(lex_view(out@) =~= Seq::empty());
    while i < n
        invariant
            i <= n == rows@.len(),
            n == ms@.len(),
            vs == mentions_view(ms@),
            unsorted == mention_rows(vs, hs@),
            sorted == rows@,
            forall|j: int| 0 <= j < rows@.len() ==> unsorted.contains(#[trigger] rows@[j]),
            lex_view(out@) == joined(vs, sorted.take(i as int)),
        decreases n - i,
    {
        let r: Row = rows[i];
        let ghost was = out@;
        proof {
            assert(sorted.take(i + 1).drop_last() =~= sorted.take(i as int));
            assert(unsorted.contains(rows@[i as int]));
            let p = choose|p: int| 0 <= p < unsorted.len() && unsorted[p] == r;
            assert(r.1 == p);
        }
        let m: usize = out.len();
        if m > 0 && out[m - 1].hash == r.0 {
            let mut e: LexEntry = out.pop().unwrap();
            assert(e@ == lex_view(was).last());
            if e.ids.len() == 0 || e.ids[e.ids.len() - 1] != r.2 {
                e.ids.push(r.2);
            }
            out.push(e);
            assert(lex_view(out@) =~= join(lex_view(was), vs, r));
        } else {
            let label: String = ms[r.1 as usize].token.clone();
            let mut ids: Vec<u64> = Vec::new();
            ids.push(r.2);
            assert(ids@ =~= seq![r.2]);
            assert(vs[r.1 as int] == ms@[r.1 as int]@);
            out.push(LexEntry { hash: r.0, label, ids });
            assert(lex_view(out@) =~= join(lex_view(was), vs, r));
        }
        i = i + 1;
    }
    assert(sorted.take(n as int) =~= sorted);
    out
}

/// The lexicon of a generation.
pub fn build_lexicon(models: &Vec<Model>) -> (r: Vec<LexEntry>)
    ensures
        lex_view(r@) == lexicon(models_view(models@)),
        lex_renderable(models_view(models@), lex_view(r@)),
        mentions(models_view(models@), models@.len() as int).len() <= usize::MAX,
{
    let ghost rows = models_view(models@);
    let n: usize = models.len();
    let mut ms: Vec<Mention> = Vec::new();
    let mut i: usize = 0;
    assert(mentions_view(ms@) =~= Seq::empty());
    while i < n
        invariant
            i <= n == models@.len(),
            rows == models_view(models@),
            mentions_view(ms@) == mentions(rows, i as int),
        decreases n - i,
    {
        assert(rows[i as int] == models@[i as int]@);
        model_mentions(&mut ms, i as u64, &models[i]);
        i = i + 1;
    }
    let ghost vs = mentions_view(ms@);
    let m: usize = ms.len();
    let mut hs: Vec<u64> = Vec::with_capacity(m);
    let mut i: usize = 0;
    while i < m
        invariant
            i <= m == ms@.len(),
            vs == mentions_view(ms@),
            hs@ =~= hashes(vs).take(i as int),
        decreases m - i,
    {
        assert(vs[i as int] == ms@[i as int]@);
        hs.push(xxh3_of(ms[i].token.as_str().as_bytes()));
        i = i + 1;
    }
    assert(hs@ =~= hashes(vs));
    let r: Vec<LexEntry> = group(&ms, &hs);
    proof {
        assert(lex_view(r@) == lexicon(rows));
        law_lexicon_is_ordered(rows);
    }
    r
}

// ---- laws -----------------------------------------------------------------

/// What holds of a lexicon under construction, whose last mention was `last`.
spec fn lex_good(entries: Seq<LexV>, last: Option<Row>) -> bool {
    &&& forall|i: int, j: int|
        0 <= i < j < entries.len() ==> entries[i].hash < entries[j].hash
    &&& forall|i: int| 0 <= i < entries.len() ==> ids_up((#[trigger] entries[i]).ids)
    &&& match last {
        Some(r) => entries.len() > 0 && entries.last().hash == r.0 && entries.last().ids.last()
            == r.2,
        None => entries.len() == 0,
    }
}

/// Ids strictly ascend, and there is one.
pub open spec fn ids_up(ids: Seq<u64>) -> bool {
    &&& ids.len() > 0
    &&& forall|i: int, j: int| 0 <= i < j < ids.len() ==> ids[i] < ids[j]
}

/// Rows in hash order, whose ids do not fall within a hash.
spec fn rows_good(rows: Seq<Row>) -> bool {
    forall|i: int, j: int|
        0 <= i < j < rows.len() ==> rows[i].0 < rows[j].0 || (rows[i].0 == rows[j].0 && rows[i].2
            <= rows[j].2)
}

proof fn lemma_joined_good(ms: Seq<MentionV>, rows: Seq<Row>)
    requires
        rows_good(rows),
    ensures
        lex_good(
            joined(ms, rows),
            if rows.len() == 0 {
                None
            } else {
                Some(rows.last())
            },
        ),
    decreases rows.len(),
{
    if rows.len() > 0 {
        let pre = rows.drop_last();
        lemma_joined_good(ms, pre);
        let entries = joined(ms, pre);
        let r = rows.last();
        if pre.len() > 0 {
            assert(rows[pre.len() - 1] == pre.last());
        }
        let out = joined(ms, rows);
        if entries.len() > 0 && entries.last().hash == r.0 && entries.last().ids.last() != r.2 {
            let e = entries.last();
            let grown = LexV { ids: e.ids.push(r.2), ..e };
            assert(ids_up(e.ids)) by {
                assert(ids_up(entries[entries.len() - 1].ids));
            }
            assert(e.ids.last() < r.2);
            assert(ids_up(grown.ids));
            assert forall|i: int| 0 <= i < out.len() implies ids_up((#[trigger] out[i]).ids) by {
                if i < entries.len() - 1 {
                    assert(out[i] == entries[i]);
                } else {
                    assert(out[i] == grown);
                }
            }
        }
    }
}

proof fn lemma_mention_ids(rows: Seq<ModelV>, n: int, i: int, j: int)
    requires
        0 <= n <= u64::MAX,
        0 <= i < j < mentions(rows, n).len(),
    ensures
        mentions(rows, n)[i].id <= mentions(rows, n)[j].id,
        mentions(rows, n)[j].id < n,
    decreases n,
{
    if n > 0 {
        let pre = mentions(rows, n - 1);
        let all = mentions(rows, n);
        if j < pre.len() {
            lemma_mention_ids(rows, n - 1, i, j);
        } else {
            if i < pre.len() {
                lemma_mention_id(rows, n - 1, i);
            }
        }
    }
}

proof fn lemma_mention_id(rows: Seq<ModelV>, n: int, i: int)
    requires
        0 <= n <= u64::MAX,
        0 <= i < mentions(rows, n).len(),
    ensures
        mentions(rows, n)[i].id < n,
    decreases n,
{
    if n > 0 {
        let pre = mentions(rows, n - 1);
        if i < pre.len() {
            lemma_mention_id(rows, n - 1, i);
        }
    }
}

/// The lexicon is sorted by hash without repeats, and every entry lists at
/// least one node, in strictly ascending order, each of them a node of the
/// generation.
pub proof fn law_lexicon_is_ordered(rows: Seq<ModelV>)
    requires
        rows.len() <= u64::MAX,
        mentions(rows, rows.len() as int).len() <= u64::MAX,
    ensures
        forall|i: int, j: int|
            0 <= i < j < lexicon(rows).len() ==> lexicon(rows)[i].hash < lexicon(rows)[j].hash,
        forall|i: int| 0 <= i < lexicon(rows).len() ==> ids_up((#[trigger] lexicon(rows)[i]).ids),
        forall|i: int, j: int|
            0 <= i < lexicon(rows).len() && 0 <= j < lexicon(rows)[i].ids.len() ==> (
            #[trigger] lexicon(rows)[i].ids[j]) < rows.len(),
{
    let n = rows.len() as int;
    let ms = mentions(rows, n);
    let unsorted = mention_rows(ms, hashes(ms));
    let sorted = arranged(unsorted);
    let le = row_le();
    assert(vstd::relations::total_ordering(le));
    unsorted.lemma_sort_by_ensures(le);
    assert forall|i: int, j: int| 0 <= i < j < sorted.len() implies sorted[i].0 < sorted[j].0 || (
    sorted[i].0 == sorted[j].0 && sorted[i].2 <= sorted[j].2) by {
        assert(le(sorted[i], sorted[j]));
        lemma_arranged_from(unsorted, i);
        lemma_arranged_from(unsorted, j);
        let a = choose|a: int| 0 <= a < unsorted.len() && unsorted[a] == sorted[i];
        let b = choose|b: int| 0 <= b < unsorted.len() && unsorted[b] == sorted[j];
        if a < b {
            lemma_mention_ids(rows, n, a, b);
        } else if b < a {
            lemma_mention_ids(rows, n, b, a);
        }
    }
    lemma_joined_good(ms, sorted);
    assert forall|i: int| 0 <= i < sorted.len() implies (#[trigger] sorted[i]).2 < n by {
        lemma_arranged_from(unsorted, i);
        let a = choose|a: int| 0 <= a < unsorted.len() && unsorted[a] == sorted[i];
        lemma_mention_id(rows, n, a);
    }
    lemma_joined_ids(ms, sorted, n);
}

proof fn lemma_joined_ids(ms: Seq<MentionV>, rows: Seq<Row>, n: int)
    requires
        forall|i: int| 0 <= i < rows.len() ==> (#[trigger] rows[i]).2 < n,
    ensures
        forall|i: int, j: int|
            0 <= i < joined(ms, rows).len() && 0 <= j < joined(ms, rows)[i].ids.len() ==> (
            #[trigger] joined(ms, rows)[i].ids[j]) < n,
    decreases rows.len(),
{
    if rows.len() > 0 {
        let pre = rows.drop_last();
        assert forall|i: int| 0 <= i < pre.len() implies (#[trigger] pre[i]).2 < n by {
            assert(pre[i] == rows[i]);
        }
        lemma_joined_ids(ms, pre, n);
        assert(rows[rows.len() - 1].2 < n);
        let entries = joined(ms, pre);
        let out = joined(ms, rows);
        assert forall|i: int, j: int| 0 <= i < out.len() && 0 <= j < out[i].ids.len() implies (
        #[trigger] out[i].ids[j]) < n by {
            if i < entries.len() && j < entries[i].ids.len() {
                assert(entries[i].ids[j] < n);
            }
        }
    }
}

/// Some entry of `entries` has this hash and lists this node.
pub open spec fn indexed(entries: Seq<LexV>, hash: u64, id: u64) -> bool {
    exists|i: int|
        0 <= i < entries.len() && (#[trigger] entries[i]).hash == hash && entries[i].ids.contains(id)
}

proof fn lemma_joined_indexes(ms: Seq<MentionV>, rows: Seq<Row>, k: int)
    requires
        0 <= k < rows.len(),
    ensures
        indexed(joined(ms, rows), rows[k].0, rows[k].2),
    decreases rows.len(),
{
    let pre = rows.drop_last();
    let entries = joined(ms, pre);
    let r = rows.last();
    let out = joined(ms, rows);
    if k == rows.len() - 1 {
        let e = out.last();
        assert(out[out.len() - 1].hash == r.0);
        if entries.len() > 0 && entries.last().hash == r.0 {
            let was = entries.last();
            if was.ids.len() > 0 && was.ids.last() == r.2 {
                assert(was.ids[was.ids.len() - 1] == r.2);
            } else {
                assert(e.ids[was.ids.len() as int] == r.2);
            }
        } else {
            assert(e.ids[0] == r.2);
        }
        assert(out[out.len() - 1].ids.contains(r.2));
    } else {
        lemma_joined_indexes(ms, pre, k);
        assert(pre[k] == rows[k]);
        let i = choose|i: int|
            0 <= i < entries.len() && (#[trigger] entries[i]).hash == rows[k].0
                && entries[i].ids.contains(rows[k].2);
        let x = choose|x: int| 0 <= x < entries[i].ids.len() && entries[i].ids[x] == rows[k].2;
        assert(out[i].hash == rows[k].0);
        assert(out[i].ids[x] == rows[k].2);
        assert(out[i].ids.contains(rows[k].2));
    }
}

/// Every token of every node is indexed under its hash.
pub proof fn law_every_token_is_indexed(rows: Seq<ModelV>, p: int)
    requires
        0 <= p < mentions(rows, rows.len() as int).len(),
    ensures
        ({
            let m = mentions(rows, rows.len() as int)[p];
            indexed(lexicon(rows), token_hash(m.token), m.id)
        }),
{
    let ms = mentions(rows, rows.len() as int);
    let unsorted = mention_rows(ms, hashes(ms));
    let sorted = arranged(unsorted);
    let le = row_le();
    assert(vstd::relations::total_ordering(le));
    unsorted.lemma_sort_by_ensures(le);
    lemma_same_rows(unsorted, sorted, unsorted[p]);
    assert(unsorted.contains(unsorted[p]));
    let k = choose|k: int| 0 <= k < sorted.len() && sorted[k] == unsorted[p];
    lemma_joined_indexes(ms, sorted, k);
}

/// A generation without nodes has no tokens.
pub proof fn lemma_no_rows_no_tokens(rows: Seq<ModelV>)
    requires
        rows.len() == 0,
    ensures
        lexicon(rows).len() == 0,
{
    let ms = mentions(rows, 0);
    let unsorted = mention_rows(ms, hashes(ms));
    unsorted.lemma_sort_by_ensures(row_le());
    lemma_same_rows(unsorted, arranged(unsorted), (0, 0, 0, 0));
}

} // verus!
