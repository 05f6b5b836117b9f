//! Properties of the library as a whole: what holds of every query, every
//! index and every sorted arrangement, stated over the same spec functions
//! that the operations' contracts use.
use vstd::prelude::*;

use crate::document::DocumentView;
use crate::filter::{satisfies, FilterView};
use crate::index::{
    filtered_search_results, find, index_map, keyed_docs, lemma_filter_members,
    lemma_filter_ordered, search_results, selected,
};
use crate::keyed::{
    is_ordered, keys_of, lemma_as_map_update, lemma_lookup_found, lemma_lookup_ordered,
    lemma_remove, lookup,
};
use crate::batch::{batch_problem, error_index, error_key, problem_from, repeats_key, BatchErrorView};
use crate::facet::is_facet_table;
use crate::index::{candidates_of, keyword_terms};
use crate::schema::{
    declaration, field_problem, missing_required, schema_violation, type_of, value_lt,
    FieldSchemaView, FieldValueView,
};
use crate::sort::{is_sorted_arrangement, sorts_before, SortDirection};
use crate::text::{
    has_terms, is_blank, is_white_space, lemma_run_len_bounds, lemma_sorted_distinct,
    is_solid, lemma_text_lt_asymmetric, lowercase, run_len, terms, text_lt, words,
};

verus! {

broadcast use vstd::seq_lib::group_seq_properties;

/// A blank text has no words.
pub proof fn lemma_blank_has_no_words(s: Seq<char>)
    requires
        is_blank(s),
    ensures
        words(s).len() == 0,
    decreases s.len(),
{
    if s.len() > 0 {
        assert(is_white_space(s[0]));
        let t = s.drop_first();
        assert forall|i: int| 0 <= i < t.len() implies is_white_space(#[trigger] t[i]) by {
            assert(t[i] == s[i + 1]);
        }
        lemma_blank_has_no_words(t);
    }
}

/// An empty or whitespace-only query finds nothing, whatever is stored.
pub proof fn law_blank_query_finds_nothing(entries: Seq<DocumentView>, query: Seq<char>)
    requires
        is_blank(query),
    ensures
        search_results(entries, query) == Seq::<DocumentView>::empty(),
{
    lemma_blank_has_no_words(query);
}

/// A document is found by a query exactly when it is stored, the query has
/// terms, and its body holds every query term. Field values play no part.
pub proof fn law_search_membership(entries: Seq<DocumentView>, query: Seq<char>, d: DocumentView)
    ensures
        search_results(entries, query).contains(d) <==> {
            &&& terms(query).len() > 0
            &&& entries.contains(d)
            &&& has_terms(d.text, terms(query))
        },
{
    if terms(query).len() > 0 {
        let pred = |x: DocumentView| has_terms(x.text, terms(query)) && satisfies(x, Seq::empty());
        let f = entries.filter(pred);
        lemma_filter_members(entries, pred);
        if f.contains(d) {
            let i = choose|i: int| 0 <= i < f.len() && f[i] == d;
            assert(pred(f[i]));
        }
        if entries.contains(d) && has_terms(d.text, terms(query)) {
            let i = choose|i: int| 0 <= i < entries.len() && entries[i] == d;
            assert(pred(entries[i]));
            entries.lemma_filter_contains(pred, i);
        }
    }
}

/// Search results of a key-ordered index are in strictly increasing key
/// order: each document is listed once, in key order.
pub proof fn law_search_results_in_key_order(entries: Seq<DocumentView>, query: Seq<char>)
    requires
        is_ordered(keyed_docs(entries)),
    ensures
        is_ordered(keyed_docs(search_results(entries, query))),
{
    if terms(query).len() == 0 {
        assert(keys_of(keyed_docs(search_results(entries, query))) =~= Seq::<Seq<char>>::empty());
    } else {
        lemma_filter_ordered(
            entries,
            |x: DocumentView| has_terms(x.text, terms(query)) && satisfies(x, Seq::empty()),
        );
    }
}

/// Queries with the same terms, in whatever order and however often
/// repeated, find the same documents.
pub proof fn law_query_term_order_and_repetition_do_not_matter(
    entries: Seq<DocumentView>,
    q1: Seq<char>,
    q2: Seq<char>,
)
    requires
        forall|t: Seq<char>| terms(q1).contains(t) <==> terms(q2).contains(t),
    ensures
        search_results(entries, q1) == search_results(entries, q2),
{
    if terms(q1).len() > 0 {
        assert(terms(q1).contains(terms(q1)[0]));
    }
    if terms(q2).len() > 0 {
        assert(terms(q2).contains(terms(q2)[0]));
    }
    let p1 = |x: DocumentView| has_terms(x.text, terms(q1)) && satisfies(x, Seq::empty());
    let p2 = |x: DocumentView| has_terms(x.text, terms(q2)) && satisfies(x, Seq::empty());
    assert forall|x: DocumentView| #[trigger] p1(x) == p2(x) by {
        if has_terms(x.text, terms(q1)) {
            assert forall|i: int| 0 <= i < terms(q2).len() implies terms(x.text).contains(
                #[trigger] terms(q2)[i],
            ) by {
                assert(terms(q2).contains(terms(q2)[i]));
                let j = choose|j: int| 0 <= j < terms(q1).len() && terms(q1)[j] == terms(q2)[i];
            }
        }
        if has_terms(x.text, terms(q2)) {
            assert forall|i: int| 0 <= i < terms(q1).len() implies terms(x.text).contains(
                #[trigger] terms(q1)[i],
            ) by {
                assert(terms(q1).contains(terms(q1)[i]));
                let j = choose|j: int| 0 <= j < terms(q2).len() && terms(q2)[j] == terms(q1)[i];
            }
        }
    }
    assert(p1 =~= p2);
}

/// A filtered search without filters is the plain search.
pub proof fn law_no_filters_is_plain_search(entries: Seq<DocumentView>, query: Seq<char>)
    ensures
        filtered_search_results(entries, query, Seq::empty()) == search_results(entries, query),
{
}

/// Filtering without filters keeps every stored document, in key order.
pub proof fn law_no_filters_keep_everything(entries: Seq<DocumentView>)
    ensures
        selected(entries, Seq::empty(), Seq::empty()) == entries,
    decreases entries.len(),
{
    let p = |x: DocumentView| has_terms(x.text, Seq::empty()) && satisfies(x, Seq::empty());
    reveal_with_fuel(Seq::filter, 1);
    if entries.len() > 0 {
        law_no_filters_keep_everything(entries.drop_last());
        assert(p(entries.last()));
        assert(entries.drop_last().push(entries.last()) =~= entries);
    }
}

/// Several filters combine with AND: a document satisfies a list of
/// filters exactly when it satisfies each part of the list.
pub proof fn law_filters_combine_with_and(d: DocumentView, f1: Seq<FilterView>, f2: Seq<FilterView>)
    ensures
        satisfies(d, f1 + f2) <==> satisfies(d, f1) && satisfies(d, f2),
{
    let f = f1 + f2;
    if satisfies(d, f) {
        assert forall|i: int| 0 <= i < f1.len() implies lookup(d.fields, #[trigger] f1[i].name)
            == Some(f1[i].value) by {
            assert(f[i] == f1[i]);
        }
        assert forall|i: int| 0 <= i < f2.len() implies lookup(d.fields, #[trigger] f2[i].name)
            == Some(f2[i].value) by {
            assert(f[f1.len() + i] == f2[i]);
        }
    }
    if satisfies(d, f1) && satisfies(d, f2) {
        assert forall|i: int| 0 <= i < f.len() implies lookup(d.fields, #[trigger] f[i].name)
            == Some(f[i].value) by {
            if i < f1.len() {
                assert(f[i] == f1[i]);
            } else {
                assert(f[i] == f2[i - f1.len()]);
            }
        }
    }
}

/// Body terms and filters combine with AND: a document is selected by
/// both exactly when it is selected by the terms alone and by the filters
/// alone.
pub proof fn law_terms_and_filters_combine(
    entries: Seq<DocumentView>,
    wanted: Seq<Seq<char>>,
    fs: Seq<FilterView>,
    d: DocumentView,
)
    ensures
        selected(entries, wanted, fs).contains(d) <==> selected(
            entries,
            wanted,
            Seq::empty(),
        ).contains(d) && selected(entries, Seq::empty(), fs).contains(d),
{
    let p = |x: DocumentView| has_terms(x.text, wanted) && satisfies(x, fs);
    let pw = |x: DocumentView| has_terms(x.text, wanted) && satisfies(x, Seq::empty());
    let pf = |x: DocumentView| has_terms(x.text, Seq::empty()) && satisfies(x, fs);
    lemma_filter_members(entries, p);
    lemma_filter_members(entries, pw);
    lemma_filter_members(entries, pf);
    let s = entries.filter(p);
    let sw = entries.filter(pw);
    let sf = entries.filter(pf);
    if s.contains(d) {
        let i = choose|i: int| 0 <= i < s.len() && s[i] == d;
        assert(p(s[i]));
        let k = choose|k: int| 0 <= k < entries.len() && entries[k] == d;
        entries.lemma_filter_contains(pw, k);
        entries.lemma_filter_contains(pf, k);
    }
    if sw.contains(d) && sf.contains(d) {
        let i = choose|i: int| 0 <= i < sw.len() && sw[i] == d;
        let j = choose|j: int| 0 <= j < sf.len() && sf[j] == d;
        assert(pw(sw[i]));
        assert(pf(sf[j]));
        let k = choose|k: int| 0 <= k < entries.len() && entries[k] == d;
        entries.lemma_filter_contains(p, k);
    }
}

/// The stored documents of a key-ordered index are determined by the map
/// from keys to documents: two key-ordered indexes holding the same map
/// list the same documents in the same order.
pub proof fn law_map_determines_order(a: Seq<DocumentView>, b: Seq<DocumentView>)
    requires
        is_ordered(keyed_docs(a)),
        is_ordered(keyed_docs(b)),
        index_map(a) == index_map(b),
    ensures
        a == b,
    decreases a.len(),
{
    let sa = keyed_docs(a);
    let sb = keyed_docs(b);
    if a.len() == 0 {
        if b.len() > 0 {
            lemma_lookup_ordered(sb, 0);
            assert(index_map(b).dom().contains(b[0].id));
            assert(lookup(sa, b[0].id) is None);
        }
        assert(a =~= b);
    } else if b.len() == 0 {
        lemma_lookup_ordered(sa, 0);
        assert(index_map(a).dom().contains(a[0].id));
        assert(lookup(sb, a[0].id) is None);
    } else {
        let ka = a[0].id;
        let kb = b[0].id;
        lemma_lookup_ordered(sa, 0);
        lemma_lookup_ordered(sb, 0);
        assert(index_map(b).dom().contains(ka));
        let j = lemma_lookup_found(sb, ka);
        assert(index_map(a).dom().contains(kb));
        let i = lemma_lookup_found(sa, kb);
        if ka != kb {
            assert(j > 0 && i > 0);
            assert(keys_of(sb)[j] == ka && keys_of(sb)[0] == kb);
            assert(keys_of(sa)[i] == kb && keys_of(sa)[0] == ka);
            lemma_text_lt_asymmetric(kb, ka);
        }
        assert(a[0] == index_map(a)[ka]);
        assert(b[0] == index_map(b)[kb]);
        let ta = a.drop_first();
        let tb = b.drop_first();
        assert(keyed_docs(ta) =~= sa.remove(0));
        assert(keyed_docs(tb) =~= sb.remove(0));
        lemma_remove(sa, 0);
        lemma_remove(sb, 0);
        lemma_as_map_update(sa, keyed_docs(ta), ka, None);
        lemma_as_map_update(sb, keyed_docs(tb), kb, None);
        law_map_determines_order(ta, tb);
        assert(a =~= seq![a[0]] + ta);
        assert(b =~= seq![b[0]] + tb);
    }
}

/// A key-ordered index holds as many documents as it has distinct keys.
pub proof fn law_len_counts_keys(entries: Seq<DocumentView>)
    requires
        is_ordered(keyed_docs(entries)),
    ensures
        index_map(entries).dom().len() == entries.len(),
        index_map(entries).dom().finite(),
{
    let s = keyed_docs(entries);
    let ks = keys_of(s);
    assert forall|i: int, j: int| 0 <= i < ks.len() && 0 <= j < ks.len() && i != j implies ks[i]
        != ks[j] by {
        lemma_sorted_distinct(ks, i, j);
    }
    assert(ks.no_duplicates());
    ks.unique_seq_to_set();
    assert forall|k: Seq<char>| index_map(entries).dom().contains(k) <==> ks.to_set().contains(k) by {
        if index_map(entries).dom().contains(k) {
            let i = lemma_lookup_found(s, k);
            assert(ks[i] == k);
        }
        if ks.to_set().contains(k) {
            let i = choose|i: int| 0 <= i < ks.len() && ks[i] == k;
            lemma_lookup_ordered(s, i);
        }
    }
    assert(index_map(entries).dom() =~= ks.to_set());
}

/// In a sorted arrangement, documents missing the sort field come after
/// every document carrying it, in either direction.
pub proof fn law_missing_field_sorts_last(
    out: Seq<DocumentView>,
    cands: Seq<DocumentView>,
    field: Seq<char>,
    dir: SortDirection,
    i: int,
    j: int,
)
    requires
        is_sorted_arrangement(out, cands, field, dir),
        0 <= i < j < out.len(),
        lookup(out[i].fields, field) is None,
    ensures
        lookup(out[j].fields, field) is None,
        text_lt(out[i].id, out[j].id),
{
    assert(sorts_before(field, dir, out[i], out[j]));
}

/// In a sorted arrangement, documents with equal values keep key order, in
/// either direction.
pub proof fn law_equal_values_keep_key_order(
    out: Seq<DocumentView>,
    cands: Seq<DocumentView>,
    field: Seq<char>,
    dir: SortDirection,
    i: int,
    j: int,
)
    requires
        is_sorted_arrangement(out, cands, field, dir),
        0 <= i < j < out.len(),
        lookup(out[i].fields, field) == lookup(out[j].fields, field),
    ensures
        text_lt(out[i].id, out[j].id),
{
    assert(sorts_before(field, dir, out[i], out[j]));
}

/// Descending order reverses the order of distinct values and nothing
/// else: for two documents with different values, one precedes the other
/// ascending exactly when it follows it descending.
pub proof fn law_descending_reverses_values_only(
    field: Seq<char>,
    a: DocumentView,
    b: DocumentView,
)
    requires
        lookup(a.fields, field) is Some,
        lookup(b.fields, field) is Some,
    ensures
        lookup(a.fields, field) != lookup(b.fields, field) ==> (sorts_before(
            field,
            SortDirection::Ascending,
            a,
            b,
        ) <==> sorts_before(field, SortDirection::Descending, b, a)),
        lookup(a.fields, field) == lookup(b.fields, field) ==> (sorts_before(
            field,
            SortDirection::Ascending,
            a,
            b,
        ) <==> sorts_before(field, SortDirection::Descending, a, b)),
{
}

/// Filtering by `p` keeps documents at matching positions of two
/// sequences whose documents agree on `p` and on their keys, so the keys of
/// the results agree.
proof fn lemma_filter_keys_agree(
    a: Seq<DocumentView>,
    b: Seq<DocumentView>,
    p: spec_fn(DocumentView) -> bool,
)
    requires
        a.len() == b.len(),
        forall|i: int| 0 <= i < a.len() ==> (#[trigger] a[i]).id == b[i].id && p(a[i]) == p(b[i]),
    ensures
        a.filter(p).map_values(|d: DocumentView| d.id) == b.filter(p).map_values(
            |d: DocumentView| d.id,
        ),
    decreases a.len(),
{
    reveal_with_fuel(Seq::filter, 1);
    if a.len() > 0 {
        let ta = a.drop_last();
        let tb = b.drop_last();
        assert forall|i: int| 0 <= i < ta.len() implies (#[trigger] ta[i]).id == tb[i].id && p(
            ta[i],
        ) == p(tb[i]) by {
            assert(ta[i] == a[i] && tb[i] == b[i]);
        }
        lemma_filter_keys_agree(ta, tb, p);
        assert(a.last() == a[a.len() - 1] && b.last() == b[b.len() - 1]);
        if p(a.last()) {
            let fa = ta.filter(p);
            let fb = tb.filter(p);
            assert(fa.push(a.last()).map_values(|d: DocumentView| d.id) =~= fa.map_values(
                |d: DocumentView| d.id,
            ).push(a.last().id));
            assert(fb.push(b.last()).map_values(|d: DocumentView| d.id) =~= fb.map_values(
                |d: DocumentView| d.id,
            ).push(b.last().id));
        }
    }
}

/// A document reduced to its key and body.
pub open spec fn key_and_body(d: DocumentView) -> DocumentView {
    DocumentView { id: d.id, text: d.text, fields: Seq::empty() }
}

proof fn lemma_lookup_key_and_body(e: Seq<DocumentView>, k: Seq<char>)
    requires
        is_ordered(keyed_docs(e)),
    ensures
        find(e.map_values(|d: DocumentView| key_and_body(d)), k) == match find(e, k) {
            Some(d) => Some(key_and_body(d)),
            None => None,
        },
{
    let r = e.map_values(|d: DocumentView| key_and_body(d));
    let s = keyed_docs(e);
    let t = keyed_docs(r);
    assert(keys_of(t) =~= keys_of(s));
    if lookup(s, k) is Some {
        let i = lemma_lookup_found(s, k);
        lemma_lookup_ordered(t, i);
        assert(t[i].0 == k);
    } else {
        assert forall|j: int| 0 <= j < t.len() implies t[j].0 != k by {
            if t[j].0 == k {
                lemma_lookup_ordered(s, j);
            }
        }
        crate::keyed::lemma_lookup_absent(t, k);
    }
}

/// Field values never decide what a search finds: two key-ordered indexes
/// holding the same keys with the same bodies find documents with the same
/// keys, in the same order, for every query, whatever their fields.
pub proof fn law_field_values_do_not_change_search(
    a: Seq<DocumentView>,
    b: Seq<DocumentView>,
    query: Seq<char>,
)
    requires
        is_ordered(keyed_docs(a)),
        is_ordered(keyed_docs(b)),
        index_map(a).dom() == index_map(b).dom(),
        forall|k: Seq<char>| #[trigger]
            index_map(a).dom().contains(k) ==> index_map(a)[k].text == index_map(b)[k].text,
    ensures
        search_results(a, query).map_values(|d: DocumentView| d.id) == search_results(
            b,
            query,
        ).map_values(|d: DocumentView| d.id),
{
    let ra = a.map_values(|d: DocumentView| key_and_body(d));
    let rb = b.map_values(|d: DocumentView| key_and_body(d));
    assert(keys_of(keyed_docs(ra)) =~= keys_of(keyed_docs(a)));
    assert(keys_of(keyed_docs(rb)) =~= keys_of(keyed_docs(b)));
    assert forall|k: Seq<char>| find(ra, k) == find(rb, k) by {
        lemma_lookup_key_and_body(a, k);
        lemma_lookup_key_and_body(b, k);
        if find(a, k) is Some {
            assert(index_map(a).dom().contains(k));
            assert(index_map(b).dom().contains(k));
            let i = lemma_lookup_found(keyed_docs(a), k);
            let j = lemma_lookup_found(keyed_docs(b), k);
        } else {
            assert(!index_map(a).dom().contains(k));
            assert(!index_map(b).dom().contains(k));
        }
    }
    assert(index_map(ra).dom() =~= index_map(rb).dom()) by {
        assert forall|k: Seq<char>| index_map(ra).dom().contains(k) == index_map(rb).dom().contains(
            k,
        ) by {
            assert(find(ra, k) == find(rb, k));
        }
    }
    assert forall|k: Seq<char>| #[trigger] index_map(ra).dom().contains(k) implies index_map(ra)[k]
        == index_map(rb)[k] by {
        assert(find(ra, k) == find(rb, k));
    }
    assert(index_map(ra) =~= index_map(rb));
    law_map_determines_order(ra, rb);
    if terms(query).len() > 0 {
        let p = |x: DocumentView| has_terms(x.text, terms(query)) && satisfies(x, Seq::empty());
        assert forall|i: int| 0 <= i < a.len() implies (#[trigger] a[i]).id == b[i].id && p(a[i])
            == p(b[i]) by {
            assert(ra[i] == key_and_body(a[i]));
            assert(rb[i] == key_and_body(b[i]));
        }
        lemma_filter_keys_agree(a, b, p);
    } else {
        assert(search_results(a, query).map_values(|d: DocumentView| d.id) =~= Seq::<
            Seq<char>,
        >::empty());
        assert(search_results(b, query).map_values(|d: DocumentView| d.id) =~= Seq::<
            Seq<char>,
        >::empty());
    }
}

/// A run of non-whitespace characters stops at whitespace.
proof fn lemma_run_len_concat(x: Seq<char>, y: Seq<char>)
    requires
        y.len() > 0,
        is_white_space(y[0]),
    ensures
        run_len(x + y) == run_len(x),
    decreases x.len(),
{
    if x.len() == 0 {
        assert(x + y =~= y);
    } else {
        assert((x + y)[0] == x[0]);
        if !is_white_space(x[0]) {
            assert((x + y).drop_first() =~= x.drop_first() + y);
            lemma_run_len_concat(x.drop_first(), y);
        }
    }
}

/// Text joined at whitespace splits into the words of each part.
pub proof fn lemma_words_concat(x: Seq<char>, y: Seq<char>)
    requires
        y.len() > 0,
        is_white_space(y[0]),
    ensures
        words(x + y) == words(x) + words(y),
    decreases x.len(),
{
    if x.len() == 0 {
        assert(x + y =~= y);
        assert(words(x) + words(y) =~= words(y));
    } else if is_white_space(x[0]) {
        assert((x + y)[0] == x[0]);
        assert((x + y).drop_first() =~= x.drop_first() + y);
        lemma_words_concat(x.drop_first(), y);
    } else {
        assert((x + y)[0] == x[0]);
        lemma_run_len_concat(x, y);
        lemma_run_len_bounds(x);
        let r = run_len(x) as int;
        assert((x + y).take(r) =~= x.take(r));
        assert((x + y).skip(r) =~= x.skip(r) + y);
        lemma_words_concat(x.skip(r), y);
        assert(seq![x.take(r)] + (words(x.skip(r)) + words(y)) =~= seq![x.take(r)] + words(
            x.skip(r),
        ) + words(y));
    }
}

/// Filtering twice is filtering by both conditions.
proof fn lemma_filter_twice(
    s: Seq<DocumentView>,
    p: spec_fn(DocumentView) -> bool,
    r: spec_fn(DocumentView) -> bool,
)
    ensures
        s.filter(p).filter(r) == s.filter(|x: DocumentView| p(x) && r(x)),
    decreases s.len(),
{
    reveal_with_fuel(Seq::filter, 1);
    if s.len() > 0 {
        lemma_filter_twice(s.drop_last(), p, r);
        let f = s.drop_last().filter(p);
        if p(s.last()) {
            assert(f.push(s.last()).drop_last() =~= f);
        }
    }
}

/// Adding words to a query never adds hits: a query that has terms,
/// followed by whitespace and more words, finds exactly the documents that
/// the first query finds and that also hold every term of the longer query,
/// in the same order.
pub proof fn law_more_query_words_narrow_hits(
    entries: Seq<DocumentView>,
    query: Seq<char>,
    separator: char,
    more: Seq<char>,
)
    requires
        terms(query).len() > 0,
        is_white_space(separator),
    ensures
        search_results(entries, query + seq![separator] + more) == search_results(
            entries,
            query,
        ).filter(|d: DocumentView| has_terms(d.text, terms(query + seq![separator] + more))),
{
    let y = seq![separator] + more;
    let q2 = query + seq![separator] + more;
    assert(q2 =~= query + y);
    lemma_words_concat(query, y);
    assert(terms(q2) =~= terms(query) + terms(y));
    let p1 = |x: DocumentView| has_terms(x.text, terms(query)) && satisfies(x, Seq::empty());
    let p2 = |x: DocumentView| has_terms(x.text, terms(q2)) && satisfies(x, Seq::empty());
    let p3 = |d: DocumentView| has_terms(d.text, terms(q2));
    lemma_filter_twice(entries, p1, p3);
    assert forall|x: DocumentView| #[trigger] p2(x) == (p1(x) && p3(x)) by {
        if has_terms(x.text, terms(q2)) {
            assert forall|i: int| 0 <= i < terms(query).len() implies terms(x.text).contains(
                #[trigger] terms(query)[i],
            ) by {
                assert(terms(q2)[i] == terms(query)[i]);
            }
        }
    }
    assert(p2 =~= (|x: DocumentView| p1(x) && p3(x)));
}

/// Inserting a document a second time changes nothing: if one key-ordered
/// state `b` results from inserting `d` into `a`, and `c` from inserting `d`
/// into `b`, then `c` is `b`, and the second insert returns `d` itself.
pub proof fn law_repeated_insert_changes_nothing(
    a: Seq<DocumentView>,
    b: Seq<DocumentView>,
    c: Seq<DocumentView>,
    d: DocumentView,
)
    requires
        is_ordered(keyed_docs(b)),
        is_ordered(keyed_docs(c)),
        index_map(b) == index_map(a).insert(d.id, d),
        index_map(c) == index_map(b).insert(d.id, d),
    ensures
        c == b,
        find(b, d.id) == Some(d),
{
    assert(index_map(b).dom().contains(d.id));
    assert(index_map(b)[d.id] == d);
    assert(index_map(b).insert(d.id, d) =~= index_map(b));
    law_map_determines_order(c, b);
}

/// A found document carries the key it was looked up by, byte for byte.
pub proof fn law_found_document_carries_key(entries: Seq<DocumentView>, k: Seq<char>)
    ensures
        find(entries, k) matches Some(d) ==> d.id == k,
{
    if find(entries, k) is Some {
        let i = lemma_lookup_found(keyed_docs(entries), k);
        assert(keyed_docs(entries)[i] == (entries[i].id, entries[i]));
    }
}

/// One write to an index.
pub enum IndexWrite {
    Insert(DocumentView),
    Remove(Seq<char>),
}

/// Whether a write concerns key `k`.
pub open spec fn touches(w: IndexWrite, k: Seq<char>) -> bool {
    match w {
        IndexWrite::Insert(d) => d.id == k,
        IndexWrite::Remove(r) => r == k,
    }
}

/// The stored documents after a history of writes, starting empty: what
/// `new`, then `insert` (or a successful `insert_with_schema`) and `remove`
/// leave, by their contracts.
pub open spec fn replay(writes: Seq<IndexWrite>) -> Map<Seq<char>, DocumentView>
    decreases writes.len(),
{
    if writes.len() == 0 {
        Map::empty()
    } else {
        let m = replay(writes.drop_last());
        match writes.last() {
            IndexWrite::Insert(d) => m.insert(d.id, d),
            IndexWrite::Remove(k) => m.remove(k),
        }
    }
}

/// The last write concerning `k` inserted `d`.
pub open spec fn last_write_stored(writes: Seq<IndexWrite>, k: Seq<char>, d: DocumentView) -> bool {
    exists|i: int|
        0 <= i < writes.len() && #[trigger] writes[i] == IndexWrite::Insert(d) && d.id == k && forall|
            j: int,
        |
            i < j < writes.len() ==> !touches(#[trigger] writes[j], k)
}

proof fn lemma_replay(writes: Seq<IndexWrite>, k: Seq<char>, d: DocumentView)
    ensures
        (replay(writes).contains_key(k) && replay(writes)[k] == d) <==> last_write_stored(
            writes,
            k,
            d,
        ),
    decreases writes.len(),
{
    if writes.len() > 0 {
        let t = writes.drop_last();
        let n = writes.len() - 1;
        lemma_replay(t, k, d);
        assert(writes[n] == writes.last());
        if touches(writes.last(), k) {
            if last_write_stored(writes, k, d) {
                let i = choose|i: int|
                    0 <= i < writes.len() && #[trigger] writes[i] == IndexWrite::Insert(d) && d.id
                        == k && forall|j: int|
                        i < j < writes.len() ==> !touches(#[trigger] writes[j], k);
                if i < n {
                    assert(!touches(writes[n], k));
                }
            }
            if let IndexWrite::Insert(e) = writes.last() {
                if e == d {
                    assert(writes[n] == IndexWrite::Insert(d));
                }
            }
        } else {
            if last_write_stored(writes, k, d) {
                let i = choose|i: int|
                    0 <= i < writes.len() && #[trigger] writes[i] == IndexWrite::Insert(d) && d.id
                        == k && forall|j: int|
                        i < j < writes.len() ==> !touches(#[trigger] writes[j], k);
                assert(i < n);
                assert(t[i] == writes[i]);
                assert forall|j: int| i < j < t.len() implies !touches(#[trigger] t[j], k) by {
                    assert(t[j] == writes[j]);
                }
                assert(last_write_stored(t, k, d));
            }
            if last_write_stored(t, k, d) {
                let i = choose|i: int|
                    0 <= i < t.len() && #[trigger] t[i] == IndexWrite::Insert(d) && d.id == k
                        && forall|j: int| i < j < t.len() ==> !touches(#[trigger] t[j], k);
                assert(writes[i] == t[i]);
                assert forall|j: int| i < j < writes.len() implies !touches(
                    #[trigger] writes[j],
                    k,
                ) by {
                    if j < n {
                        assert(t[j] == writes[j]);
                    }
                }
            }
        }
    }
}

/// Over any history of writes: a key is found exactly when its last write
/// inserted a document, the document found is that one, and it carries the
/// key.
pub proof fn law_lookup_after_history(
    entries: Seq<DocumentView>,
    writes: Seq<IndexWrite>,
    k: Seq<char>,
)
    requires
        index_map(entries) == replay(writes),
    ensures
        forall|d: DocumentView| find(entries, k) == Some(d) <==> last_write_stored(writes, k, d),
        find(entries, k) matches Some(d) ==> d.id == k,
{
    law_found_document_carries_key(entries, k);
    assert forall|d: DocumentView| find(entries, k) == Some(d) <==> last_write_stored(
        writes,
        k,
        d,
    ) by {
        lemma_replay(writes, k, d);
    }
}

// ---------------------------------------------------------------------------
// Value order, keyword candidates, batch keys, terms, validation
// ---------------------------------------------------------------------------

/// Integer field values are ordered numerically.
pub proof fn law_integer_values_order_numerically(x: i64, y: i64)
    ensures
        value_lt(FieldValueView::Integer(x), FieldValueView::Integer(y)) <==> x < y,
        value_lt(FieldValueView::Boolean(false), FieldValueView::Boolean(true)),
        !value_lt(FieldValueView::Boolean(true), FieldValueView::Boolean(false)),
{
}

/// In a sorted arrangement, integer values ascend numerically when sorting
/// ascending and descend when sorting descending; equal values keep key
/// order.
pub proof fn law_sorted_integers_follow_numeric_order(
    out: Seq<DocumentView>,
    cands: Seq<DocumentView>,
    field: Seq<char>,
    dir: SortDirection,
    i: int,
    j: int,
    x: i64,
    y: i64,
)
    requires
        is_sorted_arrangement(out, cands, field, dir),
        0 <= i < j < out.len(),
        lookup(out[i].fields, field) == Some(FieldValueView::Integer(x)),
        lookup(out[j].fields, field) == Some(FieldValueView::Integer(y)),
    ensures
        dir == SortDirection::Ascending ==> x <= y,
        dir == SortDirection::Descending ==> x >= y,
        x == y ==> text_lt(out[i].id, out[j].id),
{
    assert(sorts_before(field, dir, out[i], out[j]));
}

/// In a facet table, integer values are listed in increasing numeric order.
pub proof fn law_facet_integers_increase(
    table: Seq<(FieldValueView, nat)>,
    cands: Seq<DocumentView>,
    field: Seq<char>,
    i: int,
    j: int,
    x: i64,
    y: i64,
)
    requires
        is_facet_table(table, cands, field),
        0 <= i < j < table.len(),
        table[i].0 == FieldValueView::Integer(x),
        table[j].0 == FieldValueView::Integer(y),
    ensures
        x < y,
{
    assert(value_lt(table[i].0, table[j].0));
}

/// Some word of `text`, lowercased, equals `w` lowercased.
pub open spec fn has_word_like(text: Seq<char>, w: Seq<char>) -> bool {
    exists|j: int| 0 <= j < words(text).len() && #[trigger] lowercase(words(text)[j]) == lowercase(w)
}

/// Every word of `query`, lowercased, is the lowercase of some word of
/// `text`.
pub open spec fn holds_query_words(text: Seq<char>, query: Seq<char>) -> bool {
    forall|i: int| 0 <= i < words(query).len() ==> #[trigger] has_word_like(text, words(query)[i])
}

proof fn lemma_has_terms_is_holds_query_words(text: Seq<char>, query: Seq<char>)
    ensures
        has_terms(text, terms(query)) <==> holds_query_words(text, query),
        terms(query).len() == words(query).len(),
{
    law_terms_are_lowercased_words(query);
    law_terms_are_lowercased_words(text);
    if has_terms(text, terms(query)) {
        assert forall|i: int| 0 <= i < words(query).len() implies #[trigger] has_word_like(
            text,
            words(query)[i],
        ) by {
            assert(terms(text).contains(terms(query)[i]));
            let j = choose|j: int| 0 <= j < terms(text).len() && terms(text)[j] == terms(query)[i];
            assert(lowercase(words(text)[j]) == terms(text)[j]);
            assert(lowercase(words(query)[i]) == terms(query)[i]);
            assert(lowercase(words(text)[j]) == lowercase(words(query)[i]));
        }
    }
    if holds_query_words(text, query) {
        assert forall|i: int| 0 <= i < terms(query).len() implies terms(text).contains(
            #[trigger] terms(query)[i],
        ) by {
            assert(has_word_like(text, words(query)[i]));
            let j = choose|j: int|
                0 <= j < words(text).len() && #[trigger] lowercase(words(text)[j]) == lowercase(
                    words(query)[i],
                );
            assert(terms(query)[i] == lowercase(words(query)[i]));
            assert(terms(text)[j] == lowercase(words(text)[j]));
        }
    }
}

/// Each term of a text is its word at the same position, lowercased, and
/// nothing else.
pub proof fn law_terms_are_lowercased_words(s: Seq<char>)
    ensures
        terms(s).len() == words(s).len(),
        forall|i: int| 0 <= i < words(s).len() ==> #[trigger] terms(s)[i] == lowercase(words(s)[i]),
{
}

/// A search finds a stored document exactly when the query has words and
/// each query word, lowercased, equals some word of the body, lowercased.
pub proof fn law_search_matches_lowercased_words(
    entries: Seq<DocumentView>,
    query: Seq<char>,
    d: DocumentView,
)
    ensures
        search_results(entries, query).contains(d) <==> {
            &&& words(query).len() > 0
            &&& entries.contains(d)
            &&& holds_query_words(d.text, query)
        },
{
    law_search_membership(entries, query, d);
    lemma_has_terms_is_holds_query_words(d.text, query);
}

/// A non-empty text without whitespace is a single word, itself.
pub proof fn law_solid_text_is_one_word(t: Seq<char>)
    requires
        t.len() > 0,
        is_solid(t),
    ensures
        words(t) == seq![t],
{
    lemma_words_concat_solid(t);
}

proof fn lemma_words_concat_solid(t: Seq<char>)
    requires
        t.len() > 0,
        is_solid(t),
    ensures
        words(t) == seq![t],
{
    let ws = Seq::<char>::empty().push(' ');
    assert(is_white_space(ws[0]));
    lemma_words_concat(t, ws);
    assert(words(ws.drop_first()) =~= Seq::<Seq<char>>::empty()) by {
        assert(ws.drop_first() =~= Seq::<char>::empty());
    }
    assert(words(ws) == words(ws.drop_first()));
    lemma_run_len_solid(t, ws);
    lemma_run_len_bounds(t + ws);
    let s = t + ws;
    assert(s[0] == t[0]);
    assert(s.take(t.len() as int) =~= t);
    assert(s.skip(t.len() as int) =~= ws);
    assert(words(t + ws) == seq![t] + words(ws));
    assert(seq![t] + Seq::<Seq<char>>::empty() =~= seq![t]);
}

proof fn lemma_run_len_solid(t: Seq<char>, rest: Seq<char>)
    requires
        is_solid(t),
        rest.len() > 0,
        is_white_space(rest[0]),
    ensures
        run_len(t + rest) == t.len(),
    decreases t.len(),
{
    if t.len() == 0 {
        assert(t + rest =~= rest);
    } else {
        assert((t + rest)[0] == t[0]);
        assert((t + rest).drop_first() =~= t.drop_first() + rest);
        lemma_run_len_solid(t.drop_first(), rest);
    }
}

/// Every word is non-empty and holds no whitespace.
pub proof fn law_words_are_solid(s: Seq<char>)
    ensures
        forall|i: int| 0 <= i < words(s).len() ==> (#[trigger] words(s)[i]).len() > 0 && is_solid(
            words(s)[i],
        ),
    decreases s.len(),
{
    if s.len() > 0 {
        if is_white_space(s[0]) {
            law_words_are_solid(s.drop_first());
            assert(words(s) == words(s.drop_first()));
        } else {
            lemma_run_len_bounds(s);
            let r = run_len(s) as int;
            lemma_run_prefix_solid(s);
            law_words_are_solid(s.skip(r));
            let w = words(s);
            assert(w == seq![s.take(r)] + words(s.skip(r)));
            assert forall|i: int| 0 <= i < w.len() implies (#[trigger] w[i]).len() > 0 && is_solid(
                w[i],
            ) by {
                if i > 0 {
                    assert(w[i] == words(s.skip(r))[i - 1]);
                } else {
                    assert(w[0] == s.take(r));
                }
            }
        }
    }
}

proof fn lemma_run_prefix_solid(s: Seq<char>)
    ensures
        run_len(s) <= s.len(),
        is_solid(s.take(run_len(s) as int)),
    decreases s.len(),
{
    lemma_run_len_bounds(s);
    if s.len() > 0 && !is_white_space(s[0]) {
        lemma_run_prefix_solid(s.drop_first());
        let r = run_len(s) as int;
        assert forall|i: int| 0 <= i < r implies !is_white_space(#[trigger] s.take(r)[i]) by {
            if i > 0 {
                assert(s.take(r)[i] == s.drop_first().take(r - 1)[i - 1]);
            }
        }
    } else {
        assert(s.take(0).len() == 0);
    }
}

/// A candidate for facet counting or sorted retrieval is a stored document
/// that satisfies every filter and, when keywords are given, holds every
/// keyword word (lowercased) among its body's words (lowercased); without
/// keywords, or with keywords that have no words, every stored document
/// satisfying the filters is a candidate.
pub proof fn law_candidates_hold_every_keyword(
    entries: Seq<DocumentView>,
    keywords: Option<Seq<char>>,
    fs: Seq<FilterView>,
    d: DocumentView,
)
    ensures
        candidates_of(entries, keywords, fs).contains(d) <==> {
            &&& entries.contains(d)
            &&& satisfies(d, fs)
            &&& keywords matches Some(q) ==> holds_query_words(d.text, q)
        },
{
    let p = |x: DocumentView| has_terms(x.text, keyword_terms(keywords)) && satisfies(x, fs);
    let f = entries.filter(p);
    lemma_filter_members(entries, p);
    if let Some(q) = keywords {
        lemma_has_terms_is_holds_query_words(d.text, q);
    }
    if f.contains(d) {
        let i = choose|i: int| 0 <= i < f.len() && f[i] == d;
        assert(p(f[i]));
    }
    if entries.contains(d) && satisfies(d, fs) && (keywords matches Some(q) ==> holds_query_words(
        d.text,
        q,
    )) {
        let i = choose|i: int| 0 <= i < entries.len() && entries[i] == d;
        assert(p(entries[i]));
        entries.lemma_filter_contains(p, i);
    }
}

proof fn lemma_problem_from_none(schema: Seq<FieldSchemaView>, ds: Seq<DocumentView>, i: nat)
    requires
        problem_from(schema, ds, i) is None,
    ensures
        forall|k: int|
            i <= k < ds.len() ==> schema_violation(schema, #[trigger] ds[k]) is None
                && !repeats_key(ds, k),
    decreases ds.len() - i,
{
    if i < ds.len() {
        lemma_problem_from_none(schema, ds, i + 1);
    }
}

proof fn lemma_problem_from_some(schema: Seq<FieldSchemaView>, ds: Seq<DocumentView>, i: nat)
    requires
        problem_from(schema, ds, i) is Some,
    ensures
        ({
            let e = problem_from(schema, ds, i)->0;
            let k = error_index(e);
            &&& i <= k < ds.len()
            &&& error_key(e) == ds[k].id
            &&& forall|m: int|
                i <= m < k ==> schema_violation(schema, #[trigger] ds[m]) is None && !repeats_key(
                    ds,
                    m,
                )
            &&& match e {
                BatchErrorView::Schema { error, .. } => schema_violation(schema, ds[k]) == Some(
                    error,
                ),
                BatchErrorView::DuplicateKey { .. } => {
                    &&& schema_violation(schema, ds[k]) is None
                    &&& exists|j: int| 0 <= j < k && #[trigger] ds[j].id == ds[k].id
                },
            }
        }),
    decreases ds.len() - i,
{
    if schema_violation(schema, ds[i as int]) is None && !repeats_key(ds, i as int) {
        lemma_problem_from_some(schema, ds, i + 1);
    }
}

/// A batch accepted by schema validation has pairwise distinct keys and
/// only documents that fit the schema; a rejected batch names the first
/// position, in order, whose document fails the schema or repeats the key
/// of any earlier document, with that document's key.
pub proof fn law_batch_check_finds_every_repeated_key(
    schema: Seq<FieldSchemaView>,
    ds: Seq<DocumentView>,
)
    ensures
        batch_problem(schema, ds) is None ==> {
            &&& forall|i: int, j: int|
                0 <= i < j < ds.len() ==> (#[trigger] ds[i]).id != (#[trigger] ds[j]).id
            &&& forall|i: int| 0 <= i < ds.len() ==> schema_violation(schema, #[trigger] ds[i]) is None
        },
        batch_problem(schema, ds) matches Some(e) ==> {
            let k = error_index(e);
            &&& 0 <= k < ds.len()
            &&& error_key(e) == ds[k].id
            &&& forall|m: int, j: int|
                0 <= j < m < k ==> (#[trigger] ds[j]).id != (#[trigger] ds[m]).id
            &&& forall|m: int| 0 <= m < k ==> schema_violation(schema, #[trigger] ds[m]) is None
            &&& match e {
                BatchErrorView::Schema { error, .. } => schema_violation(schema, ds[k]) == Some(
                    error,
                ),
                BatchErrorView::DuplicateKey { .. } => exists|j: int|
                    0 <= j < k && #[trigger] ds[j].id == ds[k].id,
            }
        },
{
    if batch_problem(schema, ds) is None {
        lemma_problem_from_none(schema, ds, 0);
        assert forall|i: int, j: int| 0 <= i < j < ds.len() implies (#[trigger] ds[i]).id != (
        #[trigger] ds[j]).id by {
            if ds[i].id == ds[j].id {
                assert(repeats_key(ds, j));
            }
        }
    } else {
        lemma_problem_from_some(schema, ds, 0);
        let k = error_index(batch_problem(schema, ds)->0);
        assert forall|m: int, j: int| 0 <= j < m < k implies (#[trigger] ds[j]).id != (
        #[trigger] ds[m]).id by {
            if ds[j].id == ds[m].id {
                assert(repeats_key(ds, m));
            }
        }
    }
}

proof fn lemma_field_problem_none(
    schema: Seq<FieldSchemaView>,
    fields: Seq<(Seq<char>, FieldValueView)>,
)
    ensures
        field_problem(schema, fields) is None <==> forall|i: int|
            0 <= i < fields.len() ==> declaration(schema, #[trigger] fields[i].0) is Some
                && declaration(schema, fields[i].0)->0.field_type == type_of(fields[i].1),
    decreases fields.len(),
{
    if fields.len() > 0 {
        let t = fields.drop_first();
        lemma_field_problem_none(schema, t);
        if field_problem(schema, fields) is None {
            assert forall|i: int| 0 <= i < fields.len() implies declaration(
                schema,
                #[trigger] fields[i].0,
            ) is Some && declaration(schema, fields[i].0)->0.field_type == type_of(fields[i].1) by {
                if i > 0 {
                    assert(fields[i] == t[i - 1]);
                }
            }
        } else {
            if forall|i: int|
                0 <= i < fields.len() ==> declaration(schema, #[trigger] fields[i].0) is Some
                    && declaration(schema, fields[i].0)->0.field_type == type_of(fields[i].1) {
                assert(declaration(schema, fields[0].0) is Some);
                assert forall|i: int| 0 <= i < t.len() implies declaration(
                    schema,
                    #[trigger] t[i].0,
                ) is Some && declaration(schema, t[i].0)->0.field_type == type_of(t[i].1) by {
                    assert(t[i] == fields[i + 1]);
                }
            }
        }
    }
}

proof fn lemma_missing_required_none(
    schema: Seq<FieldSchemaView>,
    fields: Seq<(Seq<char>, FieldValueView)>,
)
    ensures
        missing_required(schema, fields) is None <==> forall|i: int|
            0 <= i < schema.len() && (#[trigger] schema[i]).required ==> lookup(
                fields,
                schema[i].name,
            ) is Some,
    decreases schema.len(),
{
    if schema.len() > 0 {
        let t = schema.drop_first();
        lemma_missing_required_none(t, fields);
        if missing_required(schema, fields) is None {
            assert forall|i: int| 0 <= i < schema.len() && (#[trigger] schema[i]).required implies lookup(
                fields,
                schema[i].name,
            ) is Some by {
                if i > 0 {
                    assert(schema[i] == t[i - 1]);
                }
            }
        } else {
            if forall|i: int|
                0 <= i < schema.len() && (#[trigger] schema[i]).required ==> lookup(
                    fields,
                    schema[i].name,
                ) is Some {
                assert(schema[0] == schema[0]);
                assert forall|i: int| 0 <= i < t.len() && (#[trigger] t[i]).required implies lookup(
                    fields,
                    t[i].name,
                ) is Some by {
                    assert(t[i] == schema[i + 1]);
                }
            }
        }
    }
}

/// A document fits a schema exactly when every one of its fields is
/// declared with its value's type and every required declaration has a
/// value on the document.
pub proof fn law_validation_accepts_exactly_fitting_documents(
    schema: Seq<FieldSchemaView>,
    doc: DocumentView,
)
    ensures
        schema_violation(schema, doc) is None <==> {
            &&& forall|i: int|
                0 <= i < doc.fields.len() ==> declaration(schema, #[trigger] doc.fields[i].0) is Some
                    && declaration(schema, doc.fields[i].0)->0.field_type == type_of(
                    doc.fields[i].1,
                )
            &&& forall|i: int|
                0 <= i < schema.len() && (#[trigger] schema[i]).required ==> lookup(
                    doc.fields,
                    schema[i].name,
                ) is Some
        },
{
    lemma_field_problem_none(schema, doc.fields);
    lemma_missing_required_none(schema, doc.fields);
}

} // verus!
