//! What a lookup finds, and by what.
#[allow(unused_imports)]
use crate::compact::{ModelV, SegModelV};
#[allow(unused_imports)]
use crate::compaction::{
    compactable, compacted, law_words_find_their_document, lemma_compacted, lemma_model_at,
    lemma_read_lex, lemma_read_postings, lemma_survivors_listed,
};
#[allow(unused_imports)]
use crate::format::base::dir::lex_row;
#[allow(unused_imports)]
use crate::format::base::nflags;
#[allow(unused_imports)]
use crate::lexicon::{
    hashes, joined, label_tokens, lexicon, mention_rows, mentions, mentions_of, model_tokens,
    token_hash, MentionV,
};
#[allow(unused_imports)]
use crate::matching::{
    any_tier, best_tier, distinct_terms, hit_tiers, is_met, level_of, node_tiers, node_tokens,
    tier_of, TermHits, Tier,
};
#[allow(unused_imports)]
use crate::model::{GraphV, NodeV};
#[allow(unused_imports)]
use crate::order::{arranged, law_arranged_rows_ascend, listing, Row};
#[allow(unused_imports)]
use crate::tokens::{
    alphanumeric, glyphs, law_separators_split, lemma_scan_kept, lowercase, lowered, searchable,
    scheme_end, scheme_ends, spelled, text_tokens,
};
use vstd::prelude::*;
#[allow(unused_imports)]
use vstd::utf8::*;

verus! {

// ---- words ----------------------------------------------------------------

/// The lowercase mappings of the characters of `w`, one after the other.
pub open spec fn in_lowercase(w: Seq<char>) -> Seq<char>
    decreases w.len(),
{
    if w.len() == 0 {
        Seq::empty()
    } else {
        in_lowercase(w.drop_last()) + lowercase(w.last())
    }
}

/// A run of letters and digits is one token: itself, if it is made of ASCII
/// lowercase letters and digits alone, and its lowercase mapping otherwise.
pub proof fn law_a_word_is_one_token(w: Seq<char>)
    requires
        w.len() > 0,
        forall|i: int| 0 <= i < w.len() ==> alphanumeric(#[trigger] w[i]),
    ensures
        text_tokens(w) == seq![
            if forall|i: int|
                0 <= i < w.len() ==> ('a' <= #[trigger] w[i] && w[i] <= 'z') || ('0' <= w[i] && w[i]
                    <= '9') {
                w
            } else {
                in_lowercase(w)
            },
        ],
{
    let gs = glyphs(w);
    lemma_scan_kept(gs);
    lemma_spelled(w);
    if forall|i: int|
        0 <= i < w.len() ==> ('a' <= #[trigger] w[i] && w[i] <= 'z') || ('0' <= w[i] && w[i]
            <= '9') {
        assert forall|i: int| 0 <= i < gs.len() implies (#[trigger] gs[i]).plain by {
            assert(('a' <= w[i] && w[i] <= 'z') || ('0' <= w[i] && w[i] <= '9'));
        }
    } else {
        let i = choose|i: int|
            0 <= i < w.len() && !(('a' <= #[trigger] w[i] && w[i] <= 'z') || ('0' <= w[i] && w[i]
                <= '9'));
        assert(!gs[i].plain);
    }
    assert(Seq::<Seq<char>>::empty().push(crate::tokens::token(gs)) =~= seq![
        crate::tokens::token(gs),
    ]);
}

proof fn lemma_spelled(w: Seq<char>)
    ensures
        spelled(glyphs(w)) == w,
        lowered(glyphs(w)) == in_lowercase(w),
    decreases w.len(),
{
    if w.len() > 0 {
        lemma_spelled(w.drop_last());
        assert(glyphs(w).drop_last() =~= glyphs(w.drop_last()));
        assert(w.drop_last() + seq![w.last()] =~= w);
    } else {
        assert(w =~= Seq::empty());
    }
}

/// Everything that is neither letter nor digit separates tokens, and nothing
/// else is left of it.
pub proof fn law_other_characters_separate(a: Seq<char>, sep: char, b: Seq<char>)
    requires
        !alphanumeric(sep),
    ensures
        text_tokens(a.push(sep) + b) == text_tokens(a) + text_tokens(b),
        text_tokens(Seq::empty()) == Seq::<Seq<char>>::empty(),
{
    let g = glyphs(seq![sep])[0];
    law_separators_split(glyphs(a), g, glyphs(b));
    assert(glyphs(a.push(sep) + b) =~= glyphs(a).push(g) + glyphs(b));
    assert(glyphs(Seq::empty()) =~= Seq::empty());
}

/// What is looked up of a URL is what stands behind the first `://`, or all of
/// it where there is none.
pub proof fn law_urls_are_searched_without_scheme(url: Seq<char>, at: int)
    requires
        0 <= at,
        at + 3 <= url.len(),
        url[at] == ':' && url[at + 1] == '/' && url[at + 2] == '/',
        forall|i: int|
            0 <= i < at ==> !((#[trigger] url[i]) == ':' && url[i + 1] == '/' && url[i + 2] == '/'),
    ensures
        searchable(url) == url.skip(at + 3),
{
    assert forall|i: int| 0 <= i < at implies !scheme_ends(url, i) by {
        assert(!(url[i] == ':' && url[i + 1] == '/' && url[i + 2] == '/'));
    }
    lemma_scheme_end(url, 0, at);
}

proof fn lemma_scheme_end(url: Seq<char>, i: int, at: int)
    requires
        0 <= i <= at < url.len(),
        scheme_ends(url, at),
        forall|j: int| i <= j < at ==> !scheme_ends(url, j),
    ensures
        scheme_end(url, i) == Some(at),
    decreases at - i,
{
    if i < at {
        lemma_scheme_end(url, i + 1, at);
    }
}

/// A URL without `://` is searched whole.
pub proof fn law_urls_without_scheme_are_searched_whole(url: Seq<char>)
    requires
        forall|i: int|
            0 <= i && i + 3 <= url.len() ==> !((#[trigger] url[i]) == ':' && url[i + 1] == '/'
                && url[i + 2] == '/'),
    ensures
        searchable(url) == url,
{
    assert forall|j: int| 0 <= j < url.len() implies !scheme_ends(url, j) by {
        if j + 3 <= url.len() {
            assert(!(url[j] == ':' && url[j + 1] == '/' && url[j + 2] == '/'));
        }
    }
    lemma_no_scheme(url, 0);
}

proof fn lemma_no_scheme(url: Seq<char>, i: int)
    requires
        0 <= i <= url.len(),
        forall|j: int| i <= j < url.len() ==> !scheme_ends(url, j),
    ensures
        scheme_end(url, i) is None,
    decreases url.len() - i,
{
    if i < url.len() {
        lemma_no_scheme(url, i + 1);
    }
}

/// The terms of a query are its tokens of two bytes and more, each once.
pub proof fn law_terms_are_distinct_tokens(tokens: Seq<Seq<char>>)
    ensures
        distinct_terms(tokens).no_duplicates(),
        forall|t: Seq<char>| #[trigger]
            distinct_terms(tokens).contains(t) <==> tokens.contains(t) && encode_utf8(t).len() >= 2,
    decreases tokens.len(),
{
    let all = distinct_terms(tokens);
    if tokens.len() > 0 {
        let less = tokens.drop_last();
        let pre = distinct_terms(less);
        law_terms_are_distinct_tokens(less);
        assert forall|t: Seq<char>| tokens.contains(t) <==> less.contains(t) || t
            == tokens.last() by {
            if less.contains(t) {
                let i = choose|i: int| 0 <= i < less.len() && less[i] == t;
                assert(tokens[i] == t);
            }
            assert(tokens[tokens.len() - 1] == tokens.last());
            if tokens.contains(t) {
                let i = choose|i: int| 0 <= i < tokens.len() && tokens[i] == t;
                if i < less.len() {
                    assert(less[i] == t);
                }
            }
        }
        assert forall|t: Seq<char>| #[trigger] all.contains(t) <==> tokens.contains(t)
            && encode_utf8(t).len() >= 2 by {
            if pre.contains(t) {
                let i = choose|i: int| 0 <= i < pre.len() && pre[i] == t;
                assert(all[i] == t);
            }
            if all.contains(t) && !pre.contains(t) {
                let i = choose|i: int| 0 <= i < all.len() && all[i] == t;
                if i < pre.len() {
                    assert(pre[i] == t);
                }
            }
            if all.len() > pre.len() {
                assert(all[pre.len() as int] == tokens.last());
            }
        }
    }
}

/// More text adds terms behind those that were there: terms come in the order
/// of their first mention.
pub proof fn law_terms_come_in_order(tokens: Seq<Seq<char>>, t: Seq<char>)
    ensures
        distinct_terms(tokens).is_prefix_of(distinct_terms(tokens.push(t))),
{
    let a = distinct_terms(tokens);
    let b = distinct_terms(tokens.push(t));
    assert(tokens.push(t).drop_last() =~= tokens);
    assert(a =~= b.take(a.len() as int));
}

// ---- how well a word is met -----------------------------------------------

/// A term meets a token exactly if it is the token; as a prefix if the token
/// begins with it; as a part if the token holds it elsewhere; and else not at
/// all. Exact comes before prefix, prefix before part.
pub proof fn law_tiers(token: Seq<char>, term: Seq<char>)
    ensures
        tier_of(token, term) == Some(Tier::Exact) <==> token == term,
        tier_of(token, term) == Some(Tier::Prefix) <==> token != term && begins(
            encode_utf8(token),
            encode_utf8(term),
        ),
        tier_of(token, term) == Some(Tier::Substring) <==> token != term && !begins(
            encode_utf8(token),
            encode_utf8(term),
        ) && holds(encode_utf8(token), encode_utf8(term)),
        tier_of(token, term) is None <==> token != term && !holds(
            encode_utf8(token),
            encode_utf8(term),
        ),
        Tier::Exact.level() > Tier::Prefix.level() > Tier::Substring.level() > 0,
        level_of(None) == 0,
        forall|t: Tier| #[trigger] level_of(Some(t)) == t.level(),
{
    let hay = encode_utf8(token);
    let needle = encode_utf8(term);
    if begins(hay, needle) {
        assert(hay.subrange(0, needle.len() as int) =~= needle);
        assert(crate::matching::stands_at(hay, needle, 0));
        assert(hay =~= Seq::<u8>::empty() + needle + hay.skip(needle.len() as int));
    }
    if crate::matching::stands_at(hay, needle, 0) {
        assert(hay =~= needle + hay.skip(needle.len() as int));
        assert(hay =~= Seq::<u8>::empty() + needle + hay.skip(needle.len() as int));
    }
    if crate::matching::occurs(hay, needle) {
        let i = choose|i: int| #[trigger] crate::matching::stands_at(hay, needle, i);
        assert(hay =~= hay.take(i) + needle + hay.skip(i + needle.len()));
        assert(holds(hay, needle));
    }
    if holds(hay, needle) {
        let (a, b) = choose|a: Seq<u8>, b: Seq<u8>| hay == #[trigger] (a + needle + b);
        assert(hay.subrange(a.len() as int, (a.len() + needle.len()) as int) =~= needle);
        assert(crate::matching::stands_at(hay, needle, a.len() as int));
    }
}

/// `hay` begins with `needle`.
pub open spec fn begins(hay: Seq<u8>, needle: Seq<u8>) -> bool {
    exists|b: Seq<u8>| hay == #[trigger] (needle + b)
}

/// `needle` stands somewhere in `hay`.
pub open spec fn holds(hay: Seq<u8>, needle: Seq<u8>) -> bool {
    exists|a: Seq<u8>, b: Seq<u8>| hay == #[trigger] (a + needle + b)
}

/// A term meets several tokens as well as it meets the best of them.
pub proof fn law_the_best_token_counts(tokens: Seq<Seq<char>>, term: Seq<char>)
    ensures
        forall|i: int|
            0 <= i < tokens.len() ==> level_of(tier_of(#[trigger] tokens[i], term)) <= level_of(
                best_tier(tokens, term),
            ),
        best_tier(tokens, term) is Some ==> exists|i: int|
            0 <= i < tokens.len() && tier_of(#[trigger] tokens[i], term) == best_tier(tokens, term),
    decreases tokens.len(),
{
    if tokens.len() > 0 {
        let less = tokens.drop_last();
        law_the_best_token_counts(less, term);
        assert forall|i: int| 0 <= i < tokens.len() implies level_of(
            tier_of(#[trigger] tokens[i], term),
        ) <= level_of(best_tier(tokens, term)) by {
            if i < less.len() {
                assert(level_of(tier_of(less[i], term)) <= level_of(best_tier(less, term)));
            }
        }
        if best_tier(tokens, term) is Some {
            if level_of(tier_of(tokens.last(), term)) > level_of(best_tier(less, term)) {
                assert(tier_of(tokens[tokens.len() - 1], term) == best_tier(tokens, term));
            } else {
                let i = choose|i: int|
                    0 <= i < less.len() && tier_of(#[trigger] less[i], term) == best_tier(less, term);
                assert(tokens[i] == less[i]);
            }
        }
    }
}

// ---- what a document is found by ------------------------------------------

/// `t` is a word of a document: of its URL behind the scheme, its title, its
/// snippet or one of its headings.
pub open spec fn is_word(
    url: Seq<char>,
    title: Option<Seq<char>>,
    snippet: Option<Seq<char>>,
    labels: Seq<Seq<char>>,
    t: Seq<char>,
) -> bool {
    ||| text_tokens(searchable(url)).contains(t)
    ||| title is Some && text_tokens(title->0).contains(t)
    ||| snippet is Some && text_tokens(snippet->0).contains(t)
    ||| exists|s: int| 0 <= s < labels.len() && text_tokens(#[trigger] labels[s]).contains(t)
}

pub open spec fn seg_labels(segs: Seq<SegModelV>) -> Seq<Seq<char>> {
    segs.map_values(|s: SegModelV| s.label)
}

/// The words of a record are those of its URL, title, snippet and headings, and
/// no others.
pub proof fn law_records_are_indexed_by_their_words(m: ModelV, t: Seq<char>)
    ensures
        model_tokens(m).contains(t) <==> is_word(
            m.url,
            m.title,
            m.snippet,
            seg_labels(m.segs),
            t,
        ),
{
    let a = if m.url.len() == 0 {
        Seq::empty()
    } else {
        text_tokens(searchable(m.url))
    };
    let b = crate::lexicon::opt_tokens(m.title);
    let c = crate::lexicon::opt_tokens(m.snippet);
    let d = label_tokens(m.segs);
    lemma_contains_sum(a + b + c, d, t);
    lemma_contains_sum(a + b, c, t);
    lemma_contains_sum(a, b, t);
    lemma_label_words(m.segs, t);
    assert(model_tokens(m) =~= a + b + c + d);
    if m.url.len() == 0 {
        assert(m.url =~= Seq::empty());
        assert(scheme_end(m.url, 0) is None);
        assert(glyphs(m.url) =~= Seq::empty());
        assert(text_tokens(searchable(m.url)) =~= Seq::empty());
    }
}

proof fn lemma_contains_sum(a: Seq<Seq<char>>, b: Seq<Seq<char>>, t: Seq<char>)
    ensures
        (a + b).contains(t) <==> a.contains(t) || b.contains(t),
{
    if a.contains(t) {
        let i = choose|i: int| 0 <= i < a.len() && a[i] == t;
        assert((a + b)[i] == t);
    }
    if b.contains(t) {
        let i = choose|i: int| 0 <= i < b.len() && b[i] == t;
        assert((a + b)[a.len() + i] == t);
    }
    if (a + b).contains(t) {
        let i = choose|i: int| 0 <= i < (a + b).len() && (a + b)[i] == t;
        if i < a.len() {
            assert(a[i] == t);
        } else {
            assert(b[i - a.len()] == t);
        }
    }
}

proof fn lemma_label_words(segs: Seq<SegModelV>, t: Seq<char>)
    ensures
        label_tokens(segs).contains(t) <==> exists|s: int|
            0 <= s < segs.len() && text_tokens(#[trigger] seg_labels(segs)[s]).contains(t),
    decreases segs.len(),
{
    if segs.len() > 0 {
        let less = segs.drop_last();
        lemma_label_words(less, t);
        lemma_contains_sum(label_tokens(less), text_tokens(segs.last().label), t);
        if exists|s: int|
            0 <= s < less.len() && text_tokens(#[trigger] seg_labels(less)[s]).contains(t) {
            let s = choose|s: int|
                0 <= s < less.len() && text_tokens(#[trigger] seg_labels(less)[s]).contains(t);
            assert(seg_labels(segs)[s] == seg_labels(less)[s]);
        }
        if text_tokens(segs.last().label).contains(t) {
            assert(seg_labels(segs)[segs.len() - 1] == segs.last().label);
        }
        if exists|s: int|
            0 <= s < segs.len() && text_tokens(#[trigger] seg_labels(segs)[s]).contains(t) {
            let s = choose|s: int|
                0 <= s < segs.len() && text_tokens(#[trigger] seg_labels(segs)[s]).contains(t);
            if s < less.len() {
                assert(seg_labels(segs)[s] == seg_labels(less)[s]);
            }
        }
    } else {
        assert(label_tokens(segs) =~= Seq::empty());
    }
}

/// A fresh document is met by a term as well as the best word of its URL behind
/// the scheme, its title and its snippet is.
pub proof fn law_fresh_documents_are_met_by_their_words(
    n: NodeV,
    terms: Seq<Seq<char>>,
    k: int,
    w: Seq<char>,
)
    requires
        0 <= k < terms.len(),
    ensures
        node_tiers(n, terms).len() == terms.len(),
        is_word(n.url, n.title, n.snippet, Seq::empty(), w) ==> level_of(node_tiers(n, terms)[k])
            >= level_of(tier_of(w, terms[k])),
        node_tiers(n, terms)[k] is Some ==> exists|x: Seq<char>| #[trigger]
            is_word(n.url, n.title, n.snippet, Seq::empty(), x) && tier_of(x, terms[k])
                == node_tiers(n, terms)[k],
{
    let ts = node_tokens(n);
    let a = text_tokens(searchable(n.url));
    let b = crate::matching::opt_tokens(n.title);
    let c = crate::matching::opt_tokens(n.snippet);
    assert(ts =~= a + b + c);
    law_the_best_token_counts(ts, terms[k]);
    lemma_contains_sum(a + b, c, w);
    lemma_contains_sum(a, b, w);
    if is_word(n.url, n.title, n.snippet, Seq::empty(), w) {
        let i = choose|i: int| 0 <= i < ts.len() && ts[i] == w;
        assert(level_of(tier_of(ts[i], terms[k])) <= level_of(best_tier(ts, terms[k])));
    }
    if node_tiers(n, terms)[k] is Some {
        let i = choose|i: int|
            0 <= i < ts.len() && tier_of(#[trigger] ts[i], terms[k]) == best_tier(ts, terms[k]);
        assert(ts.contains(ts[i]));
        lemma_contains_sum(a + b, c, ts[i]);
        lemma_contains_sum(a, b, ts[i]);
        assert(is_word(n.url, n.title, n.snippet, Seq::empty(), ts[i]));
    }
}

/// The headings of a key.
pub open spec fn headings(g: GraphV, key: u64) -> Seq<Seq<char>> {
    Seq::new(g.segs(key).len(), |s: int| g.segs(key)[s].label)
}

/// After a compaction a document is found by each of its words, exactly: those
/// of its URL behind the scheme, of its title, of its snippet and of every
/// heading.
pub proof fn law_compaction_indexes_every_word(
    g: GraphV,
    ranks: Seq<(u16, u32)>,
    generation: u64,
    applied: u64,
    key: u64,
    w: Seq<char>,
)
    requires
        g.wf(),
        crate::snapshot::all_storable(g.ops),
        compactable(g, ranks),
        g.node(key) is Some,
        g.node(key)->0.flags & nflags::STUB == 0,
        ({
            let n = g.node(key)->0;
            is_word(n.url, n.title, n.snippet, headings(g, key), w)
        }),
    ensures
        ({
            let g2 = compacted(g, ranks, generation, applied);
            &&& g2.find(key) is Some
            &&& g2.term_level(g2.lex_len(), w, token_hash(w), g2.find(key)->0)
                == Tier::Exact.level()
        }),
{
    let rows = g.models();
    let keys = listing(g.survivors());
    lemma_survivors_listed(g);
    assert(g.survivors()(key));
    assert(keys.contains(key));
    let i = choose|i: int| 0 <= i < keys.len() && keys[i] == key;
    lemma_model_at(g, key);
    let m = rows[i];
    assert(m == g.model(key));
    assert(seg_labels(m.segs) =~= headings(g, key));
    law_records_are_indexed_by_their_words(m, w);
    let x = choose|x: int| 0 <= x < model_tokens(m).len() && model_tokens(m)[x] == w;
    law_words_find_their_document(g, ranks, generation, applied, i, x);
}

/// How well a term meets a node of the base: as well as the best token of the
/// lexicon that lists the node, where one of the term's own hash is met exactly
/// and any other as its text is.
pub proof fn law_the_best_listing_counts(g: GraphV, n: int, term: Seq<char>, hash: u64, id: u32)
    requires
        0 <= n,
    ensures
        forall|e: int|
            0 <= e < n && #[trigger] g.lex_ids(e).contains(id) ==> {
                let level = g.term_level(n, term, hash, id);
                &&& lex_row(g.t, e).token_hash == hash ==> level == Tier::Exact.level()
                &&& level >= level_of(tier_of(g.lex_text(e), term))
            },
        g.term_level(n, term, hash, id) > 0 ==> exists|e: int|
            0 <= e < n && #[trigger] g.lex_ids(e).contains(id) && (if lex_row(g.t, e).token_hash
                == hash {
                g.term_level(n, term, hash, id) == Tier::Exact.level()
            } else {
                g.term_level(n, term, hash, id) == level_of(tier_of(g.lex_text(e), term))
            }),
        g.term_level(n, term, hash, id) <= Tier::Exact.level(),
    decreases n,
{
    if n > 0 {
        law_the_best_listing_counts(g, n - 1, term, hash, id);
        if g.term_level(n, term, hash, id) > 0 {
            if g.term_level(n, term, hash, id) == g.term_level(n - 1, term, hash, id) {
                let e = choose|e: int|
                    0 <= e < n - 1 && #[trigger] g.lex_ids(e).contains(id) && (if lex_row(
                        g.t,
                        e,
                    ).token_hash == hash {
                        g.term_level(n - 1, term, hash, id) == Tier::Exact.level()
                    } else {
                        g.term_level(n - 1, term, hash, id) == level_of(
                            tier_of(g.lex_text(e), term),
                        )
                    });
                assert(g.lex_ids(e).contains(id));
            } else {
                assert(g.lex_ids(n - 1).contains(id));
            }
        }
    }
}

/// What a search of the base gives: every node that the lexicon lists under a
/// token that the term meets, by ascending id, and no other, each with the best
/// tier that it is met with.
pub proof fn law_term_hits(h: TermHits, g: GraphV, term: Seq<char>, hash: u64, id: u32, t: Tier)
    requires
        h.answers(g, term, hash),
    ensures
        forall|i: int, j: int| 0 <= i < j < h.nodes@.len() ==> h.nodes@[i].0.0 < h.nodes@[j].0.0,
        h.nodes@.contains((crate::key::NodeId(id), t)) <==> g.term_level(
            g.lex_len(),
            term,
            hash,
            id,
        ) == t.level(),
{
    let ns = h.nodes@;
    if ns.contains((crate::key::NodeId(id), t)) {
        let i = choose|i: int| 0 <= i < ns.len() && ns[i] == (crate::key::NodeId(id), t);
        assert(g.term_level(g.lex_len(), term, hash, ns[i].0.0) == ns[i].1.level());
    }
    if g.term_level(g.lex_len(), term, hash, id) == t.level() {
        let i = choose|i: int| 0 <= i < ns.len() && (#[trigger] ns[i]).0.0 == id;
        assert(ns[i].1.level() == t.level());
        assert(ns[i] == (crate::key::NodeId(id), t));
    }
}

/// The node that a term is guaranteed a seat for meets it best, and among those
/// that do has the smallest id.
pub proof fn law_best_hit(h: TermHits, k: int, j: int)
    requires
        0 <= k < h.nodes@.len(),
        0 <= j < h.nodes@.len(),
        h.is_best(k),
    ensures
        h.nodes@[j].1.level() <= h.nodes@[k].1.level(),
        h.nodes@[j].1.level() == h.nodes@[k].1.level() ==> h.nodes@[k].0.0 <= h.nodes@[j].0.0,
{
    assert(h.nodes@[j].1.level() < h.nodes@[k].1.level() || (h.nodes@[j].1.level()
        == h.nodes@[k].1.level() && h.nodes@[k].0.0 <= h.nodes@[j].0.0));
}

/// The document frequency of a term is the largest among the tokens that it
/// meets exactly.
pub proof fn law_frequency(g: GraphV, n: int, term: Seq<char>, hash: u64)
    requires
        0 <= n,
    ensures
        forall|e: int|
            0 <= e < n && ((#[trigger] lex_row(g.t, e)).token_hash == hash || g.lex_text(e)
                == term) ==> lex_row(g.t, e).df <= g.term_df(n, term, hash),
        g.term_df(n, term, hash) > 0 ==> exists|e: int|
            0 <= e < n && ((#[trigger] lex_row(g.t, e)).token_hash == hash || g.lex_text(e) == term)
                && lex_row(g.t, e).df == g.term_df(n, term, hash),
    decreases n,
{
    if n > 0 {
        law_frequency(g, n - 1, term, hash);
        law_tiers(g.lex_text(n - 1), term);
        if g.term_df(n, term, hash) > 0 {
            if g.term_df(n, term, hash) == g.term_df(n - 1, term, hash) {
                let e = choose|e: int|
                    0 <= e < n - 1 && ((#[trigger] lex_row(g.t, e)).token_hash == hash
                        || g.lex_text(e) == term) && lex_row(g.t, e).df == g.term_df(
                        n - 1,
                        term,
                        hash,
                    );
                assert(lex_row(g.t, e).df == g.term_df(n, term, hash));
            } else {
                assert(lex_row(g.t, n - 1).df == g.term_df(n, term, hash));
            }
        }
    }
}

/// Collating lists every node that some term meets, by ascending id, with the
/// tier that each term meets it with.
pub proof fn law_collated_hits(hits: Seq<TermHits>, id: u32, t: int)
    requires
        0 <= t < hits.len(),
        forall|x: int, i: int, j: int|
            0 <= x < hits.len() && 0 <= i < j < hits[x].nodes@.len() ==> (
            #[trigger] hits[x].nodes@[i]).0.0 < (#[trigger] hits[x].nodes@[j]).0.0,
    ensures
        is_met(hits)(id as u64) <==> exists|x: int, i: int|
            0 <= x < hits.len() && 0 <= i < hits[x].nodes@.len() && (
            #[trigger] hits[x].nodes@[i]).0.0 == id,
        hit_tiers(hits, id).len() == hits.len(),
        forall|tier: Tier|
            hit_tiers(hits, id)[t] == Some(tier) <==> #[trigger] hits[t].nodes@.contains(
                (crate::key::NodeId(id), tier),
            ),
        hit_tiers(hits, id)[t] is None <==> forall|i: int|
            0 <= i < hits[t].nodes@.len() ==> (#[trigger] hits[t].nodes@[i]).0.0 != id,
{
    let ns = hits[t].nodes@;
    if crate::matching::has_hit(ns, id) {
        let i = choose|i: int| 0 <= i < ns.len() && (#[trigger] ns[i]).0.0 == id;
        assert(ns[i].0 == crate::key::NodeId(id));
        assert(ns.contains(ns[i]));
        assert forall|tier: Tier| #[trigger]
            ns.contains((crate::key::NodeId(id), tier)) implies tier == ns[i].1 by {
            let j = choose|j: int| 0 <= j < ns.len() && ns[j] == (crate::key::NodeId(id), tier);
            if i < j {
                assert(hits[t].nodes@[i].0.0 < hits[t].nodes@[j].0.0);
            } else if j < i {
                assert(hits[t].nodes@[j].0.0 < hits[t].nodes@[i].0.0);
            }
        }
    } else {
        assert forall|tier: Tier| !(#[trigger] ns.contains((crate::key::NodeId(id), tier))) by {
            if ns.contains((crate::key::NodeId(id), tier)) {
                let j = choose|j: int| 0 <= j < ns.len() && ns[j] == (crate::key::NodeId(id), tier);
                assert(ns[j].0.0 == id);
            }
        }
    }
    if is_met(hits)(id as u64) {
        let x = choose|x: int|
            0 <= x < hits.len() && crate::matching::has_hit((#[trigger] hits[x]).nodes@, id);
        let i = choose|i: int|
            0 <= i < hits[x].nodes@.len() && (#[trigger] hits[x].nodes@[i]).0.0 == id;
        assert(hits[x].nodes@[i].0.0 == id);
    }
    if exists|x: int, i: int|
        0 <= x < hits.len() && 0 <= i < hits[x].nodes@.len() && (#[trigger] hits[x].nodes@[i]).0.0
            == id {
        let (x, i) = choose|x: int, i: int|
            0 <= x < hits.len() && 0 <= i < hits[x].nodes@.len() && (
            #[trigger] hits[x].nodes@[i]).0.0 == id;
        assert(crate::matching::has_hit(hits[x].nodes@, id));
    }
}

/// Beside the base a search finds the fresh nodes that have a URL, are not gone
/// and are met by a term, each with the tier of every term.
pub proof fn law_fresh_hits(g: GraphV, terms: Seq<Seq<char>>, key: u64)
    ensures
        ({
            let hits = g.fresh_hits(listing(g.fresh()), terms);
            let found = g.is_fresh(key) && g.node(key) is Some && g.node(key)->0.flags
                & nflags::TOMBSTONE == 0 && g.node(key)->0.url.len() > 0 && exists|k: int|
                0 <= k < terms.len() && (#[trigger] node_tiers(g.node(key)->0, terms)[k]) is Some;
            &&& found ==> hits.contains((key, node_tiers(g.node(key)->0, terms)))
            &&& forall|i: int|
                0 <= i < hits.len() && (#[trigger] hits[i]).0 == key ==> found && hits[i].1
                    == node_tiers(g.node(key)->0, terms)
        }),
{
    let keys = listing(g.fresh());
    super::freshness::lemma_fresh_listed(g);
    lemma_fresh_found(g, keys, terms, key);
    assert(keys.contains(key) <==> g.fresh()(key));
}

proof fn lemma_fresh_found(g: GraphV, keys: Seq<u64>, terms: Seq<Seq<char>>, key: u64)
    ensures
        ({
            let hits = g.fresh_hits(keys, terms);
            let met = g.node(key) is Some && g.node(key)->0.flags & nflags::TOMBSTONE == 0
                && g.node(key)->0.url.len() > 0 && exists|k: int|
                0 <= k < terms.len() && (#[trigger] node_tiers(g.node(key)->0, terms)[k]) is Some;
            &&& keys.contains(key) && met ==> hits.contains(
                (key, node_tiers(g.node(key)->0, terms)),
            )
            &&& forall|i: int|
                0 <= i < hits.len() && (#[trigger] hits[i]).0 == key ==> keys.contains(key) && met
                    && hits[i].1 == node_tiers(g.node(key)->0, terms)
        }),
    decreases keys.len(),
{
    let hits = g.fresh_hits(keys, terms);
    let tiers = node_tiers(g.node(key)->0, terms);
    let met = g.node(key) is Some && g.node(key)->0.flags & nflags::TOMBSTONE == 0 && g.node(
        key,
    )->0.url.len() > 0 && exists|k: int| 0 <= k < terms.len() && (#[trigger] tiers[k]) is Some;
    if keys.len() > 0 {
        let less = keys.drop_last();
        let pre = g.fresh_hits(less, terms);
        lemma_fresh_found(g, less, terms, key);
        if less.contains(key) {
            let i = choose|i: int| 0 <= i < less.len() && less[i] == key;
            assert(keys[i] == key);
        }
        if keys.contains(key) && met {
            if less.contains(key) {
                let i = choose|i: int| 0 <= i < pre.len() && pre[i] == (key, tiers);
                assert(hits[i] == (key, tiers));
            } else {
                let i = choose|i: int| 0 <= i < keys.len() && keys[i] == key;
                if i < less.len() {
                    assert(less[i] == key);
                }
                assert(keys.last() == key);
                assert(any_tier(tiers));
                assert(hits[pre.len() as int] == (key, tiers));
            }
        }
        assert forall|i: int| 0 <= i < hits.len() && (#[trigger] hits[i]).0 == key implies keys.contains(
            key,
        ) && met && hits[i].1 == tiers by {
            if i < pre.len() {
                assert(pre[i].0 == key);
            } else {
                assert(keys[keys.len() - 1] == key);
                let k = choose|k: int| 0 <= k < tiers.len() && #[trigger] tiers[k] is Some;
                assert(tiers[k] is Some);
            }
        }
    }
}

/// The lexicon lists a node under a token only for a word of it that has the
/// token's hash, and the token itself has that hash.
pub proof fn law_the_lexicon_lists_nothing_else(rows: Seq<ModelV>, e: int, j: int)
    requires
        rows.len() <= u64::MAX,
        mentions(rows, rows.len() as int).len() <= u64::MAX,
        0 <= e < lexicon(rows).len(),
        0 <= j < lexicon(rows)[e].ids.len(),
    ensures
        ({
            let entry = lexicon(rows)[e];
            let id = entry.ids[j] as int;
            &&& id < rows.len()
            &&& token_hash(entry.label) == entry.hash
            &&& exists|w: Seq<char>| #[trigger]
                is_word(
                    rows[id].url,
                    rows[id].title,
                    rows[id].snippet,
                    seg_labels(rows[id].segs),
                    w,
                ) && token_hash(w) == entry.hash
        }),
{
    let n = rows.len() as int;
    let ms = mentions(rows, n);
    let hs = hashes(ms);
    let unsorted = mention_rows(ms, hs);
    let sorted = arranged(unsorted);
    let entry = lexicon(rows)[e];
    law_arranged_rows_ascend(unsorted);
    lemma_joined_from(ms, sorted, e, j);
    let k = choose|k: int|
        0 <= k < sorted.len() && (#[trigger] sorted[k]).0 == entry.hash && sorted[k].2
            == entry.ids[j];
    assert(sorted.contains(sorted[k]));
    let p = choose|p: int| 0 <= p < unsorted.len() && unsorted[p] == sorted[k];
    assert(ms[p].id == entry.ids[j] && token_hash(ms[p].token) == entry.hash);
    let l = choose|l: int|
        0 <= l < sorted.len() && (#[trigger] sorted[l]).0 == entry.hash && ms[sorted[l].1 as int].token
            == entry.label;
    assert(sorted.contains(sorted[l]));
    let q = choose|q: int| 0 <= q < unsorted.len() && unsorted[q] == sorted[l];
    assert(sorted[l].1 == q);
    assert(token_hash(ms[q].token) == entry.hash);
    lemma_mention_from(rows, n, p);
    let id = ms[p].id as int;
    law_records_are_indexed_by_their_words(rows[id], ms[p].token);
    assert(is_word(
        rows[id].url,
        rows[id].title,
        rows[id].snippet,
        seg_labels(rows[id].segs),
        ms[p].token,
    ));
}

proof fn lemma_mention_from(rows: Seq<ModelV>, n: int, p: int)
    requires
        0 <= n <= rows.len() <= u64::MAX,
        0 <= p < mentions(rows, n).len(),
    ensures
        ({
            let m = mentions(rows, n)[p];
            m.id < n && model_tokens(rows[m.id as int]).contains(m.token)
        }),
    decreases n,
{
    let pre = mentions(rows, n - 1);
    if p < pre.len() {
        lemma_mention_from(rows, n - 1, p);
    } else {
        let ts = model_tokens(rows[n - 1]);
        assert(mentions(rows, n)[p] == mentions_of(n - 1, ts)[p - pre.len()]);
        assert(ts[p - pre.len()] == mentions(rows, n)[p].token);
    }
}

proof fn lemma_joined_from(ms: Seq<MentionV>, rows: Seq<Row>, e: int, j: int)
    requires
        0 <= e < joined(ms, rows).len(),
        0 <= j < joined(ms, rows)[e].ids.len(),
    ensures
        exists|k: int|
            0 <= k < rows.len() && (#[trigger] rows[k]).0 == joined(ms, rows)[e].hash && rows[k].2
                == joined(ms, rows)[e].ids[j],
        exists|l: int|
            0 <= l < rows.len() && (#[trigger] rows[l]).0 == joined(ms, rows)[e].hash
                && ms[rows[l].1 as int].token == joined(ms, rows)[e].label,
    decreases rows.len(),
{
    if rows.len() > 0 {
        let less = rows.drop_last();
        let pre = joined(ms, less);
        let all = joined(ms, rows);
        let r = rows.last();
        let last = rows.len() - 1;
        assert(rows[last] == r);
        if e < pre.len() && j < pre[e].ids.len() {
            lemma_joined_from(ms, less, e, j);
            assert(pre[e].hash == all[e].hash && pre[e].label == all[e].label);
            assert(pre[e].ids[j] == all[e].ids[j]);
            let k = choose|k: int|
                0 <= k < less.len() && (#[trigger] less[k]).0 == pre[e].hash && less[k].2
                    == pre[e].ids[j];
            assert(rows[k] == less[k]);
            let l = choose|l: int|
                0 <= l < less.len() && (#[trigger] less[l]).0 == pre[e].hash
                    && ms[less[l].1 as int].token == pre[e].label;
            assert(rows[l] == less[l]);
        } else if e < pre.len() {
            assert(rows[last].0 == all[e].hash && rows[last].2 == all[e].ids[j]);
            if pre[e].ids.len() > 0 {
                lemma_joined_from(ms, less, e, 0);
                let l = choose|l: int|
                    0 <= l < less.len() && (#[trigger] less[l]).0 == pre[e].hash
                        && ms[less[l].1 as int].token == pre[e].label;
                assert(rows[l] == less[l]);
            } else {
                lemma_joined_listed(ms, less, e);
            }
        } else {
            assert(rows[last].0 == all[e].hash && rows[last].2 == all[e].ids[j]);
            assert(ms[rows[last].1 as int].token == all[e].label);
        }
    }
}

proof fn lemma_joined_listed(ms: Seq<MentionV>, rows: Seq<Row>, e: int)
    requires
        0 <= e < joined(ms, rows).len(),
    ensures
        joined(ms, rows)[e].ids.len() > 0,
    decreases rows.len(),
{
    if rows.len() > 0 {
        let pre = joined(ms, rows.drop_last());
        if e < pre.len() {
            lemma_joined_listed(ms, rows.drop_last(), e);
        }
    }
}

/// After a compaction a token's document frequency is the number of documents
/// that it lists.
pub proof fn law_compaction_counts_documents(
    g: GraphV,
    ranks: Seq<(u16, u32)>,
    generation: u64,
    applied: u64,
    e: int,
)
    requires
        g.wf(),
        crate::snapshot::all_storable(g.ops),
        compactable(g, ranks),
        0 <= e < compacted(g, ranks, generation, applied).lex_len(),
    ensures
        ({
            let g2 = compacted(g, ranks, generation, applied);
            &&& lex_row(g2.t, e).df == g2.lex_ids(e).len()
            &&& forall|i: int, j: int|
                0 <= i < j < g2.lex_ids(e).len() ==> (#[trigger] g2.lex_ids(e)[i]) < (
                #[trigger] g2.lex_ids(e)[j])
        }),
{
    let g2 = compacted(g, ranks, generation, applied);
    let rows = g.models();
    let lex = lexicon(rows);
    lemma_compacted(g, ranks);
    lemma_read_postings(rows, lex, ranks, g2, e);
    lemma_read_lex(rows, lex, e);
    assert(lex_row(g2.t, e) == crate::render::lex_record(rows, lex, e));
    assert(crate::lexicon::ids_up(lex[e].ids));
    lemma_up_len(lex[e].ids, rows.len());
    assert forall|i: int, j: int| 0 <= i < j < g2.lex_ids(e).len() implies (
    #[trigger] g2.lex_ids(e)[i]) < (#[trigger] g2.lex_ids(e)[j]) by {
        assert(lex[e].ids[i] < lex[e].ids[j]);
        assert(lex[e].ids[i] < rows.len() && lex[e].ids[j] < rows.len());
    }
}

/// Strictly ascending numbers below `n` are at most `n`.
proof fn lemma_up_len(ids: Seq<u64>, n: nat)
    requires
        forall|i: int, j: int| 0 <= i < j < ids.len() ==> ids[i] < ids[j],
        forall|i: int| 0 <= i < ids.len() ==> (#[trigger] ids[i]) < n,
    ensures
        ids.len() <= n,
    decreases ids.len(),
{
    if ids.len() > 0 {
        let less = ids.drop_last();
        assert forall|i: int| 0 <= i < less.len() implies (#[trigger] less[i]) < ids.last() by {
            assert(ids[i] < ids[ids.len() - 1]);
        }
        assert(ids[ids.len() - 1] < n);
        assert forall|i: int, j: int| 0 <= i < j < less.len() implies less[i] < less[j] by {
            assert(ids[i] < ids[j]);
        }
        lemma_up_len(less, ids.last() as nat);
    }
}

} // verus!
