//! What crawls bring to the graph, and what they take from it.
#[allow(unused_imports)]
use crate::bridge::{
    absorb_one, ascii_lower, doc_of, has_changed, ingest_one, is_keyword, keyword_count, link_edges,
    link_urls, moves_interval, outcome_named, same_but_case, scope_named, tags_of, targets_of,
    CrawlScope, ExportedDoc, PageOutcome, PassV,
};
#[allow(unused_imports)]
use crate::format::wal::OpV;
#[allow(unused_imports)]
use crate::guarantees::counting::{count, lemma_count_same};
#[allow(unused_imports)]
use crate::key::UrlKey;
#[allow(unused_imports)]
use crate::model::{EdgeV, GraphV, NodeV};
#[allow(unused_imports)]
use crate::ttl::Outcome;
#[allow(unused_imports)]
use crate::writer::{doc_fault, doc_op, segs_fault, DocRecord};
use vstd::prelude::*;

verus! {

// ---- what a crawl brings --------------------------------------------------

/// Every link of a page is one edge: a link, to where it leads, of full weight.
pub proof fn law_links_become_edges(links: Seq<UrlKey>, i: int)
    requires
        0 <= i < links.len(),
    ensures
        link_edges(links).len() == links.len(),
        link_edges(links)[i].0 == links[i],
        link_edges(links)[i].1 is Link,
        link_edges(links)[i].2 == 65_535,
{
}

/// Of several exports of a page the last one counts.
pub proof fn law_the_last_export_counts(docs: Seq<ExportedDoc<'_>>, key: u64)
    ensures
        match doc_of(docs, key) {
            Some(i) => {
                &&& 0 <= i < docs.len()
                &&& docs[i].record.url_key.0 == key
                &&& forall|j: int| i < j < docs.len() ==> (#[trigger] docs[j]).record.url_key.0 != key
            },
            None => forall|j: int|
                0 <= j < docs.len() ==> (#[trigger] docs[j]).record.url_key.0 != key,
        },
    decreases docs.len(),
{
    if docs.len() > 0 {
        let less = docs.drop_last();
        law_the_last_export_counts(less, key);
        assert(forall|j: int| 0 <= j < less.len() ==> #[trigger] docs[j] == less[j]);
    }
}

/// A page changed if the graph has a document of it with another hash.
pub proof fn law_what_counts_as_changed(g: GraphV, key: u64, hash: u64)
    ensures
        has_changed(g, key, hash) <==> g.node(key) is Some && g.node(key)->0.flags & 2 == 0
            && g.node(key)->0.content_hash != hash,
{
}

/// An op records a check of `key` at `now`, with this outcome and no more.
pub open spec fn records_check(op: OpV, key: u64, now: u64, outcome: u8, gone: bool) -> bool {
    match op {
        OpV::Touch { key: k, checked_at_ms, outcome: o, tombstone, .. } => k.0 == key
            && checked_at_ms == now && o == outcome && tombstone == gone,
        _ => false,
    }
}

/// A page that was not looked at changes nothing. Nor does one that the graph
/// does not know and that did not change or is gone, nor one that was fetched
/// but not exported.
pub proof fn law_pages_that_change_nothing(
    g: GraphV,
    p: PassV,
    page: PageOutcome<'_>,
    docs: Seq<ExportedDoc<'_>>,
    now: u64,
)
    requires
        p.fault is None,
    ensures
        ({
            let q = ingest_one(g, p, page, docs, now);
            &&& page.change is Skipped ==> q == p
            &&& (page.change is Unchanged || page.change is Removed) && g.node(page.key.0) is None
                ==> q == p
            &&& (page.change is Added || page.change is Updated) && doc_of(docs, page.key.0) is None
                ==> q == p
        }),
{
}

/// A page that did not change is checked, and counts as touched; one that is
/// gone gets the tombstone, and counts as such. Nothing else is staged.
pub proof fn law_pages_that_are_checked(
    g: GraphV,
    p: PassV,
    page: PageOutcome<'_>,
    docs: Seq<ExportedDoc<'_>>,
    now: u64,
)
    requires
        p.fault is None,
        g.node(page.key.0) is Some,
        p.report.touched < usize::MAX,
        p.report.tombstoned < usize::MAX,
    ensures
        ({
            let q = ingest_one(g, p, page, docs, now);
            let k = p.state.staged.len() as int;
            &&& page.change is Unchanged || page.change is Removed ==> {
                &&& q.fault is None
                &&& q.state.staged.len() == k + 1
                &&& q.state.staged.take(k) == p.state.staged
                &&& q.report.upserted == p.report.upserted
                &&& q.report.edges == p.report.edges
                &&& q.report.segments == p.report.segments
            }
            &&& page.change is Unchanged ==> {
                &&& records_check(q.state.staged[k], page.key.0, now, 0, false)
                &&& q.report.touched == p.report.touched + 1
                &&& q.report.tombstoned == p.report.tombstoned
            }
            &&& page.change is Removed ==> {
                &&& records_check(q.state.staged[k], page.key.0, now, 3, true)
                &&& q.report.touched == p.report.touched
                &&& q.report.tombstoned == p.report.tombstoned + 1
            }
        }),
{
    crate::model::lemma_node_key(g, page.key.0);
    let q = ingest_one(g, p, page, docs, now);
    if page.change is Unchanged || page.change is Removed {
        assert(q.state.staged.take(p.state.staged.len() as int) =~= p.state.staged);
    }
}

/// The op stages something of `key`.
pub open spec fn is_about(op: OpV, key: u64) -> bool {
    op.target().0 == key
}

/// A page that was fetched and exported is stored, under the key of the page:
/// the document, its segments, its links, in this order, and then the change if
/// there was one. It counts as upserted, with its links and its segments.
pub proof fn law_pages_that_are_stored(
    g: GraphV,
    p: PassV,
    page: PageOutcome<'_>,
    docs: Seq<ExportedDoc<'_>>,
    now: u64,
)
    requires
        p.fault is None,
        page.change is Added || page.change is Updated,
        doc_of(docs, page.key.0) is Some,
        p.report.upserted < usize::MAX,
        p.report.touched < usize::MAX,
        p.report.edges + docs[doc_of(docs, page.key.0)->0].links@.len() <= usize::MAX,
        p.report.segments + page.segments@.len() <= usize::MAX,
        segs_fault(page.segments@) is None,
    ensures
        ({
            let d = docs[doc_of(docs, page.key.0)->0];
            let rec = DocRecord { url_key: page.key, ..d.record };
            let q = ingest_one(g, p, page, docs, now);
            let k = p.state.staged.len() as int;
            let changed = has_changed(g, page.key.0, d.record.content_hash);
            &&& doc_fault(rec) is Some ==> q.fault == doc_fault(rec) && q.state == p.state
                && q.report == p.report
            &&& doc_fault(rec) is None ==> {
                &&& q.fault is None
                &&& q.state.staged.take(k) == p.state.staged
                &&& q.state.staged.len() == k + 3 + (if changed {
                    1int
                } else {
                    0int
                })
                &&& q.state.staged[k] == doc_op(rec)
                &&& q.state.staged[k + 1] is SetSegments && is_about(
                    q.state.staged[k + 1],
                    page.key.0,
                )
                &&& q.state.staged[k + 1]->SetSegments_segs.len() == page.segments@.len()
                &&& q.state.staged[k + 2] is SetEdges && is_about(q.state.staged[k + 2], page.key.0)
                &&& changed ==> records_check(q.state.staged[k + 3], page.key.0, now, 1, false)
                &&& q.report.upserted == p.report.upserted + 1
                &&& q.report.edges == p.report.edges + d.links@.len()
                &&& q.report.segments == p.report.segments + page.segments@.len()
                &&& q.report.touched == p.report.touched + (if changed {
                    1int
                } else {
                    0int
                })
                &&& q.report.tombstoned == p.report.tombstoned
            }
        }),
{
    if g.node(page.key.0) is Some {
        crate::model::lemma_node_key(g, page.key.0);
    }
    let rec = DocRecord { url_key: page.key, ..docs[doc_of(docs, page.key.0)->0].record };
    let q = ingest_one(g, p, page, docs, now);
    if doc_fault(rec) is None {
        assert(q.state.staged.take(p.state.staged.len() as int) =~= p.state.staged);
    }
}

/// A document of an index is stored with its links, and counts as upserted. One
/// that is refused ends the pass, and nothing follows it.
pub proof fn law_absorbed_documents(g: GraphV, p: PassV, d: ExportedDoc<'_>)
    requires
        p.report.upserted < usize::MAX,
        p.report.edges + d.links@.len() <= usize::MAX,
    ensures
        ({
            let q = absorb_one(g, p, d);
            let k = p.state.staged.len() as int;
            &&& p.fault is Some ==> q == p
            &&& p.fault is None && doc_fault(d.record) is Some ==> q.fault == doc_fault(d.record)
                && q.state == p.state && q.report == p.report
            &&& p.fault is None && doc_fault(d.record) is None ==> {
                &&& q.fault is None
                &&& q.state.staged.len() == k + 2
                &&& q.state.staged.take(k) == p.state.staged
                &&& q.state.staged[k] == doc_op(d.record)
                &&& q.state.staged[k + 1] is SetEdges && is_about(
                    q.state.staged[k + 1],
                    d.record.url_key.0,
                )
                &&& q.report.upserted == p.report.upserted + 1
                &&& q.report.edges == p.report.edges + d.links@.len()
                &&& q.report.touched == p.report.touched
                &&& q.report.tombstoned == p.report.tombstoned
                &&& q.report.segments == p.report.segments
            }
        }),
{
    let q = absorb_one(g, p, d);
    if p.fault is None && doc_fault(d.record) is None {
        assert(q.state.staged.take(p.state.staged.len() as int) =~= p.state.staged);
    }
}

/// A page moves the interval of its document if the graph knows it and it did
/// not change, or if it was fetched, exported and found changed.
pub proof fn law_what_moves_an_interval(
    g: GraphV,
    page: PageOutcome<'_>,
    docs: Seq<ExportedDoc<'_>>,
)
    ensures
        moves_interval(g, page, docs) <==> {
            ||| page.change is Unchanged && g.node(page.key.0) is Some
            ||| (page.change is Added || page.change is Updated) && doc_of(docs, page.key.0) is Some
                && has_changed(
                g,
                page.key.0,
                docs[doc_of(docs, page.key.0)->0].record.content_hash,
            )
        },
{
}

// ---- what a crawl takes ---------------------------------------------------

/// Every node with an entity tag is told with it, in order, and no other.
pub proof fn law_validators(nodes: Seq<NodeV>)
    ensures
        ({
            let tags = tags_of(nodes);
            &&& tags.len() == count(nodes.len() as int, |i: int| nodes[i].etag is Some)
            &&& forall|i: int|
                0 <= i < nodes.len() && (#[trigger] nodes[i]).etag is Some ==> {
                    let at = count(i, |j: int| nodes[j].etag is Some) as int;
                    &&& at < tags.len()
                    &&& tags[at].0 == nodes[i].url
                    &&& tags[at].1 == nodes[i].etag->0
                }
        }),
    decreases nodes.len(),
{
    if nodes.len() > 0 {
        let less = nodes.drop_last();
        let last = nodes.len() - 1;
        law_validators(less);
        let tags = tags_of(nodes);
        assert(forall|i: int| 0 <= i < last ==> #[trigger] less[i] == nodes[i]);
        lemma_count_same(last, |j: int| less[j].etag is Some, |j: int| nodes[j].etag is Some);
        assert forall|i: int| 0 <= i < nodes.len() && (#[trigger] nodes[i]).etag is Some implies ({
            let at = count(i, |j: int| nodes[j].etag is Some) as int;
            &&& at < tags.len()
            &&& tags[at].0 == nodes[i].url
            &&& tags[at].1 == nodes[i].etag->0
        }) by {
            lemma_count_same(i, |j: int| less[j].etag is Some, |j: int| nodes[j].etag is Some);
            if i < last {
                assert(less[i].etag is Some);
            }
        }
    }
}

/// An edge is a link to a page whose URL is known.
pub open spec fn is_known_link(e: EdgeV) -> bool {
    e.etype is Link && e.dst_url is Some
}

/// Every link to a page whose URL is known is told by it, in order, and no
/// other edge.
pub proof fn law_known_links(es: Seq<EdgeV>)
    ensures
        ({
            let urls = link_urls(es);
            &&& urls.len() == count(es.len() as int, |i: int| is_known_link(es[i]))
            &&& forall|i: int|
                0 <= i < es.len() && is_known_link(#[trigger] es[i]) ==> {
                    let at = count(i, |j: int| is_known_link(es[j])) as int;
                    &&& at < urls.len()
                    &&& urls[at] == es[i].dst_url->0
                }
        }),
    decreases es.len(),
{
    if es.len() > 0 {
        let less = es.drop_last();
        let last = es.len() - 1;
        law_known_links(less);
        let urls = link_urls(es);
        assert(forall|i: int| 0 <= i < last ==> #[trigger] less[i] == es[i]);
        lemma_count_same(last, |j: int| is_known_link(less[j]), |j: int| is_known_link(es[j]));
        assert forall|i: int| 0 <= i < es.len() && is_known_link(#[trigger] es[i]) implies ({
            let at = count(i, |j: int| is_known_link(es[j])) as int;
            &&& at < urls.len()
            &&& urls[at] == es[i].dst_url->0
        }) by {
            lemma_count_same(i, |j: int| is_known_link(less[j]), |j: int| is_known_link(es[j]));
            if i < last {
                assert(is_known_link(less[i]));
            }
        }
    }
}

/// A node has links to pages whose URL is known.
pub open spec fn has_known_links(g: GraphV, n: NodeV) -> bool {
    link_urls(g.edges(n.key)).len() > 0
}

/// Every node that has such links is told with them, in order, and no other.
pub proof fn law_known_edges(g: GraphV, nodes: Seq<NodeV>)
    ensures
        ({
            let all = targets_of(g, nodes);
            &&& all.len() == count(nodes.len() as int, |i: int| has_known_links(g, nodes[i]))
            &&& forall|i: int|
                0 <= i < nodes.len() && has_known_links(g, #[trigger] nodes[i]) ==> {
                    let at = count(i, |j: int| has_known_links(g, nodes[j])) as int;
                    &&& at < all.len()
                    &&& all[at].0 == nodes[i].url
                    &&& all[at].1 == link_urls(g.edges(nodes[i].key))
                }
        }),
    decreases nodes.len(),
{
    if nodes.len() > 0 {
        let less = nodes.drop_last();
        let last = nodes.len() - 1;
        law_known_edges(g, less);
        let all = targets_of(g, nodes);
        assert(forall|i: int| 0 <= i < last ==> #[trigger] less[i] == nodes[i]);
        lemma_count_same(
            last,
            |j: int| has_known_links(g, less[j]),
            |j: int| has_known_links(g, nodes[j]),
        );
        assert forall|i: int|
            0 <= i < nodes.len() && has_known_links(g, #[trigger] nodes[i]) implies ({
            let at = count(i, |j: int| has_known_links(g, nodes[j])) as int;
            &&& at < all.len()
            &&& all[at].0 == nodes[i].url
            &&& all[at].1 == link_urls(g.edges(nodes[i].key))
        }) by {
            lemma_count_same(
                i,
                |j: int| has_known_links(g, less[j]),
                |j: int| has_known_links(g, nodes[j]),
            );
            if i < last {
                assert(has_known_links(g, less[i]));
            }
        }
    }
}

// ---- words ----------------------------------------------------------------

/// Two characters are the same but for the case of an ASCII letter.
pub open spec fn alike(a: char, b: char) -> bool {
    ||| a == b
    ||| 'A' <= a <= 'Z' && b as u32 == a as u32 + 32
    ||| 'A' <= b <= 'Z' && a as u32 == b as u32 + 32
}

/// A word is a keyword if it is one of them but for the case of ASCII letters.
pub proof fn law_keywords(token: Seq<char>, keywords: Seq<Seq<char>>, k: int)
    requires
        0 <= k < keywords.len(),
    ensures
        keywords[k].len() == token.len() && (forall|i: int|
            0 <= i < token.len() ==> alike(#[trigger] keywords[k][i], token[i])) ==> is_keyword(
            token,
            keywords,
        ),
        is_keyword(token, keywords) ==> exists|x: int|
            0 <= x < keywords.len() && same_but_case(#[trigger] keywords[x], token),
        same_but_case(keywords[k], token) ==> keywords[k].len() == token.len() && forall|i: int|
            0 <= i < token.len() ==> alike(#[trigger] keywords[k][i], token[i]),
{
    if keywords[k].len() == token.len() && (forall|i: int|
        0 <= i < token.len() ==> alike(#[trigger] keywords[k][i], token[i])) {
        assert forall|i: int| 0 <= i < keywords[k].len() implies ascii_lower(
            #[trigger] keywords[k][i],
        ) == ascii_lower(token[i]) by {
            assert(alike(keywords[k][i], token[i]));
        }
        assert(same_but_case(keywords[k], token));
    }
    if same_but_case(keywords[k], token) {
        assert forall|i: int| 0 <= i < token.len() implies alike(
            #[trigger] keywords[k][i],
            token[i],
        ) by {
            assert(ascii_lower(keywords[k][i]) == ascii_lower(token[i]));
        }
    }
}

/// Every word of a heading that is a keyword counts, however often it occurs.
pub proof fn law_keyword_count(tokens: Seq<Seq<char>>, keywords: Seq<Seq<char>>)
    ensures
        keyword_count(tokens, keywords) == count(
            tokens.len() as int,
            |i: int| is_keyword(tokens[i], keywords),
        ),
    decreases tokens.len(),
{
    if tokens.len() > 0 {
        let less = tokens.drop_last();
        law_keyword_count(less, keywords);
        lemma_count_same(
            tokens.len() - 1,
            |i: int| is_keyword(less[i], keywords),
            |i: int| is_keyword(tokens[i], keywords),
        );
    }
}

/// Outcomes go by their names, and nothing else names one.
pub proof fn law_outcome_names(s: Seq<char>)
    ensures
        outcome_named(s) == Some(Outcome::Unchanged) <==> s == "unchanged"@,
        outcome_named(s) == Some(Outcome::Changed) <==> s == "changed"@,
        outcome_named(s) == Some(Outcome::Error) <==> s == "error"@,
        outcome_named(s) == Some(Outcome::Gone) <==> s == "gone"@,
        outcome_named(s) is None <==> s != "unchanged"@ && s != "changed"@ && s != "error"@ && s
            != "gone"@,
{
    reveal_strlit("unchanged");
    reveal_strlit("changed");
    reveal_strlit("error");
    reveal_strlit("gone");
    assert("unchanged"@.len() == 9 && "changed"@.len() == 7 && "error"@.len() == 5
        && "gone"@.len() == 4);
}

/// Scopes go by their names, the path where none is given, and nothing else
/// names one.
pub proof fn law_scope_names(s: Seq<char>)
    ensures
        scope_named(None) == Some(CrawlScope::PathPrefix),
        scope_named(Some(s)) == Some(CrawlScope::PathPrefix) <==> s == "path"@,
        scope_named(Some(s)) == Some(CrawlScope::SameHost) <==> s == "host"@ || s == "same_host"@,
        scope_named(Some(s)) == Some(CrawlScope::SameHostAndSubdomains) <==> s == "subdomains"@,
        scope_named(Some(s)) is None <==> s != "path"@ && s != "host"@ && s != "same_host"@ && s
            != "subdomains"@,
{
    reveal_strlit("path");
    reveal_strlit("host");
    reveal_strlit("same_host");
    reveal_strlit("subdomains");
    assert("path"@[0] == 'p' && "host"@[0] == 'h' && "same_host"@[0] == 's' && "same_host"@[1]
        == 'a' && "subdomains"@[1] == 'u');
}

} // verus!
